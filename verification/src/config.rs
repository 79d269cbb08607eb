//! The source formats a managed file can have.

use vstd::prelude::*;

use crate::text;

verus! {

#[derive(Clone, Copy, Debug, PartialEq, Eq, Hash, Structural)]
pub enum SourceFormat {
    Dotenv,
    Json,
    Yaml,
    Toml,
}

impl SourceFormat {
    /// The name of the format in manifests and messages.
    pub open spec fn name(self) -> Seq<char> {
        match self {
            SourceFormat::Dotenv => "dotenv"@,
            SourceFormat::Json => "json"@,
            SourceFormat::Yaml => "yaml"@,
            SourceFormat::Toml => "toml"@,
        }
    }

    /// Every format, in the order in which commands list them.
    pub fn all() -> (r: Vec<SourceFormat>)
        ensures
            r@ == seq![
                SourceFormat::Dotenv,
                SourceFormat::Json,
                SourceFormat::Yaml,
                SourceFormat::Toml,
            ],
    {
        vec![SourceFormat::Dotenv, SourceFormat::Json, SourceFormat::Yaml, SourceFormat::Toml]
    }

    pub fn as_str(self) -> (r: &'static str)
        ensures
            r@ == self.name(),
    {
        match self {
            SourceFormat::Dotenv => "dotenv",
            SourceFormat::Json => "json",
            SourceFormat::Yaml => "yaml",
            SourceFormat::Toml => "toml",
        }
    }

    /// The format with the given name.
    pub fn from_str(value: &str) -> (r: Result<SourceFormat, ConfigError>)
        ensures
            match r {
                Ok(format) => format_named(value@) == Some(format),
                Err(ConfigError::UnsupportedFormat(text)) => format_named(value@) is None && text@
                    == value@,
            },
    {
        if text::eq(value, "dotenv") {
            Ok(SourceFormat::Dotenv)
        } else if text::eq(value, "json") {
            Ok(SourceFormat::Json)
        } else if text::eq(value, "yaml") {
            Ok(SourceFormat::Yaml)
        } else if text::eq(value, "toml") {
            Ok(SourceFormat::Toml)
        } else {
            Err(ConfigError::UnsupportedFormat(value.to_owned()))
        }
    }
}

/// The format with the given name, if there is one.
pub open spec fn format_named(name: Seq<char>) -> Option<SourceFormat> {
    if name == "dotenv"@ {
        Some(SourceFormat::Dotenv)
    } else if name == "json"@ {
        Some(SourceFormat::Json)
    } else if name == "yaml"@ {
        Some(SourceFormat::Yaml)
    } else if name == "toml"@ {
        Some(SourceFormat::Toml)
    } else {
        None
    }
}

/// Law: every format is found under its name, and under no other.
pub proof fn law_formats_are_found_by_name(format: SourceFormat, name: Seq<char>)
    ensures
        format_named(name) == Some(format) <==> name == format.name(),
{
    reveal_strlit("dotenv");
    reveal_strlit("json");
    reveal_strlit("yaml");
    reveal_strlit("toml");
    assert("dotenv"@.len() == 6);
    assert("json"@[0] == 'j');
    assert("yaml"@[0] == 'y');
    assert("toml"@[0] == 't');
}

#[derive(Debug, PartialEq, Eq)]
pub enum ConfigError {
    UnsupportedFormat(String),
}

impl ConfigError {
    pub fn message(&self) -> (r: String)
        ensures
            self matches ConfigError::UnsupportedFormat(value) ==> r@ == "unsupported source format "@
                + text::quoted(value@),
    {
        match self {
            ConfigError::UnsupportedFormat(value) => {
                let shown = text::debug_quoted(value.as_str());
                text::cat2("unsupported source format ", shown.as_str())
            },
        }
    }
}

} // verus!
