//! Values of JSON, YAML and TOML, and the calls that read and write them.

pub mod base64_codec;
pub mod hash;
pub mod integer;
pub mod json;
pub mod json_fields;
pub mod json_typed;
pub mod leaf_map;
pub mod side_map;
pub mod toml_codec;
pub mod yaml;
pub mod yaml_syntax;
