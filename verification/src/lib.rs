//! Layered project configuration from several sources.

pub mod nesting;
pub mod value;
pub mod json;
pub mod text;
pub mod args;
pub mod env;
pub mod config;
pub mod laws;
pub mod formats;

pub use config::{merge, Configurable, UpdateError};
pub use value::Value;
