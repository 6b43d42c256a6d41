//! Prompt templates, the batch protocol of a remote inference service, and
//! the map and tree-reduce steps that run language-model calls as query
//! operators.
pub mod text;
pub mod template;
pub mod batch;
pub mod reduce;
pub mod fanout;
pub mod shell;

pub use batch::LlmError;
pub use template::{
    expand_template, parse_template, validate_fold_template, validate_map_template,
    validate_template, TemplateError, ValidationResult,
};
