//! A local-first prompt manager library.
//!
//! Named text templates ("prompts") with `{{name}}` placeholder variables and
//! tags are kept in an in-memory relational store with an always-consistent
//! full-text view, and can be rendered by substituting variable values.
//! Every operation carries a contract that is machine-checked by Verus.

pub mod error;
pub mod models;
pub mod search;
pub mod settings;
pub mod store;
mod sys;
pub mod template;
pub mod transfer;

pub use error::PromptedsError;
pub use models::{Prompt, PromptSummary, SearchResult, Variable, ExportData};
pub use models::{parse_variable, validate_prompt_name};
pub use settings::{ClipboardConfig, Config, DatabaseConfig, EditorConfig, OutputConfig,
    SearchConfig, TableWidths, TemplateConfig};
pub use store::{sort_summaries, Database, SortField};
pub use template::{apply_defaults, TemplateEngine};
pub use transfer::{build_export, import_prompts, ImportStats, MergeStrategy};
