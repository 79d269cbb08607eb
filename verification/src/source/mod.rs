//! Source documents: their values, their layout, and their formats.

pub mod document;
pub mod dotenv;
pub mod dotenv_document;
pub mod dotenv_file;
pub mod dotenv_reading;
pub mod dotenv_value;
pub mod format;
pub mod json;
pub mod layout;
pub mod line_merge;
pub mod node;
pub mod patch;
pub mod strict;
pub mod toml_format;
pub mod yaml;

pub use document::{SourceDocument, SourceError};
pub use format::parse;
pub use layout::{DotenvLayout, Layout, LineEnding, Placeholder, QuoteStyle, Template};
pub use node::{Node, NodePath, PathSegment, Scalar};
