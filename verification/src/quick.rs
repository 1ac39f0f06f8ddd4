//! Quick labels are built from the same command-line pairs as created ones.
pub use crate::create::{pairs, path_to_toml_string, text_fields, CreateError};
