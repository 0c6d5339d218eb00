//! Layered configuration: a typed object with default values, overlaid by a
//! configuration file, command-line options and environment variables.
//!
//! The object describes itself as a [`Table`], a tree of [`Item`]s. Each
//! source is turned into a tree of its own or laid over the object's tree:
//!
//! - [`parse_document`] reads the text of a TOML file;
//! - [`arg_v2toml`] reads command-line tokens, storing each value at its
//!   dotted path with [`set_option`] after [`parse_value`] has given it a
//!   type;
//! - [`merge_env`] overwrites the leaves for which an [`Environment`] has a
//!   variable;
//! - [`merge_toml`] merges two trees, the second winning.
//!
//! [`AsConfig`] ties these together: it takes the tree of an object, applies
//! one source, and rebuilds the object from the result, leaving it untouched
//! when anything fails.

pub mod args;
pub mod coerce;
pub mod config;
pub mod document;
pub mod env;
pub mod error;
pub mod merge;
pub mod number;
pub mod path;
pub mod text;
pub mod tree;

pub use crate::args::arg_v2toml;
pub use crate::coerce::parse_value;
pub use crate::config::commit;
pub use crate::config::AsConfig;
pub use crate::document::parse_document;
pub use crate::env::merge_env;
pub use crate::env::Environment;
pub use crate::error::ConfigError;
pub use crate::merge::merge_toml;
pub use crate::path::insert_at;
pub use crate::path::set_option;
pub use crate::tree::Item;
pub use crate::tree::Table;
