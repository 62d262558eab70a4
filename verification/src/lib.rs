//! Layered application configuration: sources of configuration values,
//! key translation between nested keys and environment variables, JSON
//! navigation and field parsing, all with verified contracts.

pub mod builder;
pub mod config;
pub mod error;
pub mod json;
pub mod laws;
pub mod quote;
pub mod source;
pub mod text;

pub use builder::Builder;
pub use config::{get_field_value, parse_field_value, Config, FieldValue};
pub use error::{Error, Result};
pub use json::JsonValue;
pub use source::{DeserializerSource, EnvSource, Source};
