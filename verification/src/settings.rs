use vstd::prelude::*;

verus! {

// ---------------------------------------------------------------------------
// Configuration values
//
// The storage and template engines take these as plain values at
// construction; reading and writing a configuration file, and expanding `~`
// in paths, is the surrounding program's concern.
// ---------------------------------------------------------------------------

/// Where the store's database file lives and how its connection behaves.
#[derive(Debug, Clone)]
pub struct DatabaseConfig {
    /// Database file path; a leading `~` stands for the home directory.
    pub path: String,
    /// Connection timeout in milliseconds.
    pub timeout_ms: u64,
    /// Whether write-ahead-log journaling is asked for.
    pub wal_mode: bool,
}

impl Default for DatabaseConfig {
    fn default() -> (r: DatabaseConfig)
        ensures
            r.path@ == ("~/.local/share/edisonprompt/prompts.db")@,
            r.timeout_ms == 5000,
            r.wal_mode == true,
    {
        DatabaseConfig {
            path: String::from_str("~/.local/share/edisonprompt/prompts.db"),
            timeout_ms: 5000,
            wal_mode: true,
        }
    }
}

/// Which editor the edit flow launches.
#[derive(Debug, Clone)]
pub struct EditorConfig {
    /// Editor command; when absent the environment's choice applies.
    pub command: Option<String>,
    /// Fallback editor when nothing else is configured.
    pub fallback: String,
    /// Extra arguments handed to the editor.
    pub args: Vec<String>,
}

impl Default for EditorConfig {
    fn default() -> (r: EditorConfig)
        ensures
            r.command is None,
            r.fallback@ == ("nano")@,
            r.args@.len() == 0,
    {
        EditorConfig { command: None, fallback: String::from_str("nano"), args: Vec::new() }
    }
}

/// Clipboard integration knobs.
#[derive(Debug, Clone)]
pub struct ClipboardConfig {
    /// Clipboard operation timeout in milliseconds.
    pub timeout_ms: u64,
    /// Whether to fall back to manual input where no clipboard exists.
    pub enable_fallback: bool,
}

impl Default for ClipboardConfig {
    fn default() -> (r: ClipboardConfig)
        ensures
            r.timeout_ms == 5000,
            r.enable_fallback == true,
    {
        ClipboardConfig { timeout_ms: 5000, enable_fallback: true }
    }
}

/// Search defaults.
#[derive(Debug, Clone)]
pub struct SearchConfig {
    /// Default limit for search results.
    pub limit: usize,
    /// Whether results are highlighted by default.
    pub highlight: bool,
    /// The ranking function's name.
    pub ranking: String,
}

impl Default for SearchConfig {
    fn default() -> (r: SearchConfig)
        ensures
            r.limit == 50,
            r.highlight == true,
            r.ranking@ == ("bm25")@,
    {
        SearchConfig { limit: 50, highlight: true, ranking: String::from_str("bm25") }
    }
}

/// Listing-table column widths.
#[derive(Debug, Clone)]
pub struct TableWidths {
    pub name: usize,
    pub variables: usize,
    pub tags: usize,
}

impl Default for TableWidths {
    fn default() -> (r: TableWidths)
        ensures
            r.name == 30,
            r.variables == 20,
            r.tags == 20,
    {
        TableWidths { name: 30, variables: 20, tags: 20 }
    }
}

/// Console output defaults.
#[derive(Debug, Clone)]
pub struct OutputConfig {
    /// Whether output is colored by default.
    pub color: bool,
    /// The default output format's name.
    pub format: String,
    /// Listing-table column widths.
    pub table_widths: TableWidths,
}

impl Default for OutputConfig {
    fn default() -> (r: OutputConfig)
        ensures
            r.color == true,
            r.format@ == ("table")@,
            r.table_widths.name == 30,
            r.table_widths.variables == 20,
            r.table_widths.tags == 20,
    {
        OutputConfig {
            color: true,
            format: String::from_str("table"),
            table_widths: TableWidths::default(),
        }
    }
}

/// Template engine knobs.
#[derive(Debug, Clone)]
pub struct TemplateConfig {
    /// Whether a missing variable is an error instead of rendering empty.
    pub strict_variables: bool,
    /// The template syntax's name.
    pub syntax: String,
}

impl Default for TemplateConfig {
    fn default() -> (r: TemplateConfig)
        ensures
            r.strict_variables == false,
            r.syntax@ == ("handlebars")@,
    {
        TemplateConfig { strict_variables: false, syntax: String::from_str("handlebars") }
    }
}

/// The whole configuration.
#[derive(Debug, Clone)]
pub struct Config {
    pub database: DatabaseConfig,
    pub editor: EditorConfig,
    pub clipboard: ClipboardConfig,
    pub search: SearchConfig,
    pub output: OutputConfig,
    pub template: TemplateConfig,
}

impl Default for Config {
    fn default() -> (r: Config)
        ensures
            r.database.timeout_ms == 5000,
            r.database.wal_mode == true,
            r.editor.command is None,
            r.editor.fallback@ == ("nano")@,
            r.clipboard.timeout_ms == 5000,
            r.clipboard.enable_fallback == true,
            r.search.limit == 50,
            r.search.highlight == true,
            r.output.color == true,
            r.template.strict_variables == false,
    {
        Config {
            database: DatabaseConfig::default(),
            editor: EditorConfig::default(),
            clipboard: ClipboardConfig::default(),
            search: SearchConfig::default(),
            output: OutputConfig::default(),
            template: TemplateConfig::default(),
        }
    }
}

} // verus!
