use vstd::prelude::*;

verus! {

/// The error kinds that the library's operations return.
///
/// Storage-level constraint violations (duplicate keys, oversized fields)
/// surface as [`PromptedsError::Storage`]; the remaining kinds carry the
/// semantic failures of the template and repository layers.
#[derive(Debug)]
pub enum PromptedsError {
    PromptNotFound { name: String },
    PromptAlreadyExists { name: String },
    InvalidPromptName { reason: String },
    InvalidVariableName { name: String, reason: String },
    TemplateValidation { details: String },
    MissingVariable { name: String },
    Storage { details: String },
}

impl PromptedsError {
    /// The process exit code that the outermost command layer maps each error
    /// kind to.
    pub open spec fn spec_exit_code(&self) -> i32 {
        match self {
            PromptedsError::PromptNotFound { .. } => 1i32,
            PromptedsError::PromptAlreadyExists { .. } => 2i32,
            PromptedsError::InvalidPromptName { .. } => 3i32,
            PromptedsError::TemplateValidation { .. } => 4i32,
            PromptedsError::MissingVariable { .. } => 5i32,
            PromptedsError::InvalidVariableName { .. } => 6i32,
            PromptedsError::Storage { .. } => 10i32,
        }
    }

    pub fn exit_code(&self) -> (code: i32)
        ensures
            code == self.spec_exit_code(),
    {
        match self {
            PromptedsError::PromptNotFound { .. } => 1,
            PromptedsError::PromptAlreadyExists { .. } => 2,
            PromptedsError::InvalidPromptName { .. } => 3,
            PromptedsError::TemplateValidation { .. } => 4,
            PromptedsError::MissingVariable { .. } => 5,
            PromptedsError::InvalidVariableName { .. } => 6,
            PromptedsError::Storage { .. } => 10,
        }
    }
}

} // verus!
