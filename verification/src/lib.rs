//! Declarative configuration loading and validation.
//!
//! Configuration is assembled by layering defaults, an optional config file,
//! environment variables and command-line flags over a generic value tree,
//! checking required fields, and validating field-level rules.

pub mod codec;
pub mod error;
pub mod literal;
pub mod loader;
pub mod merge;
pub mod strutil;
pub mod types;
pub mod util;
pub mod validate;
pub mod value;

pub use error::{CnfgError, Issue, IssueKind, ValidationErrors};
pub use types::{CliSpec, FieldSpec, Kind, Validate};
pub use value::ValueTree;
