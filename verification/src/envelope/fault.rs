//! Why an envelope is refused.

use vstd::prelude::*;

use crate::source::node;
use crate::source::NodePath;
use crate::text;

verus! {

#[derive(Debug, PartialEq, Eq)]
pub enum EnvelopeError {
    NonUtf8,
    Yaml(String),
    Layout(String),
    InvalidStructure(&'static str),
    MissingField(&'static str),
    FormatMismatch,
    UnsupportedVersion,
    PlaintextLeaf(NodePath),
    InvalidMetadata(&'static str),
    SelectorDrift,
    UnsupportedKey(NodePath),
    DuplicateKey(NodePath),
    InvalidScalar,
}

pub enum EnvelopeFault {
    NonUtf8,
    Yaml(Seq<char>),
    Layout(Seq<char>),
    InvalidStructure(Seq<char>),
    MissingField(Seq<char>),
    FormatMismatch,
    UnsupportedVersion,
    PlaintextLeaf(Seq<node::Step>),
    InvalidMetadata(Seq<char>),
    SelectorDrift,
    UnsupportedKey(Seq<node::Step>),
    DuplicateKey(Seq<node::Step>),
    InvalidScalar,
}

impl View for EnvelopeError {
    type V = EnvelopeFault;

    open spec fn view(&self) -> EnvelopeFault {
        match self {
            EnvelopeError::NonUtf8 => EnvelopeFault::NonUtf8,
            EnvelopeError::Yaml(reason) => EnvelopeFault::Yaml(reason@),
            EnvelopeError::Layout(reason) => EnvelopeFault::Layout(reason@),
            EnvelopeError::InvalidStructure(reason) => EnvelopeFault::InvalidStructure(reason@),
            EnvelopeError::MissingField(field) => EnvelopeFault::MissingField(field@),
            EnvelopeError::FormatMismatch => EnvelopeFault::FormatMismatch,
            EnvelopeError::UnsupportedVersion => EnvelopeFault::UnsupportedVersion,
            EnvelopeError::PlaintextLeaf(path) => EnvelopeFault::PlaintextLeaf(path@),
            EnvelopeError::InvalidMetadata(reason) => EnvelopeFault::InvalidMetadata(reason@),
            EnvelopeError::SelectorDrift => EnvelopeFault::SelectorDrift,
            EnvelopeError::UnsupportedKey(path) => EnvelopeFault::UnsupportedKey(path@),
            EnvelopeError::DuplicateKey(path) => EnvelopeFault::DuplicateKey(path@),
            EnvelopeError::InvalidScalar => EnvelopeFault::InvalidScalar,
        }
    }
}

impl EnvelopeFault {
    pub open spec fn text(self) -> Seq<char> {
        match self {
            EnvelopeFault::NonUtf8 => "envelope is not UTF-8"@,
            EnvelopeFault::Yaml(reason) => "invalid envelope YAML: "@ + reason,
            EnvelopeFault::Layout(reason) => "invalid envelope layout: "@ + reason,
            EnvelopeFault::InvalidStructure(reason) => "invalid envelope structure: "@ + reason,
            EnvelopeFault::MissingField(field) => "missing envelope field "@ + field,
            EnvelopeFault::FormatMismatch => "envelope format does not match managed path"@,
            EnvelopeFault::UnsupportedVersion => "unsupported envelope version"@,
            EnvelopeFault::PlaintextLeaf(path) => "plaintext leaf at "@ + node::path_text(path),
            EnvelopeFault::InvalidMetadata(reason) => "invalid SOPS metadata: "@ + reason,
            EnvelopeFault::SelectorDrift =>
                "SOPS encryption selector does not enforce all-scalar encryption"@,
            EnvelopeFault::UnsupportedKey(path) => "unsupported mapping key at "@
                + node::path_text(path),
            EnvelopeFault::DuplicateKey(path) => "duplicate key at "@ + node::path_text(path),
            EnvelopeFault::InvalidScalar => "invalid typed scalar"@,
        }
    }
}

impl EnvelopeError {
    pub fn message(&self) -> (r: String)
        ensures
            r@ == self@.text(),
    {
        match self {
            EnvelopeError::NonUtf8 => "envelope is not UTF-8".to_owned(),
            EnvelopeError::Yaml(reason) => text::cat2("invalid envelope YAML: ", reason.as_str()),
            EnvelopeError::Layout(reason) => text::cat2(
                "invalid envelope layout: ",
                reason.as_str(),
            ),
            EnvelopeError::InvalidStructure(reason) => text::cat2(
                "invalid envelope structure: ",
                reason,
            ),
            EnvelopeError::MissingField(field) => text::cat2("missing envelope field ", field),
            EnvelopeError::FormatMismatch =>
                "envelope format does not match managed path".to_owned(),
            EnvelopeError::UnsupportedVersion => "unsupported envelope version".to_owned(),
            EnvelopeError::PlaintextLeaf(path) => text::cat2(
                "plaintext leaf at ",
                path.to_text().as_str(),
            ),
            EnvelopeError::InvalidMetadata(reason) => text::cat2("invalid SOPS metadata: ", reason),
            EnvelopeError::SelectorDrift =>
                "SOPS encryption selector does not enforce all-scalar encryption".to_owned(),
            EnvelopeError::UnsupportedKey(path) => text::cat2(
                "unsupported mapping key at ",
                path.to_text().as_str(),
            ),
            EnvelopeError::DuplicateKey(path) => text::cat2(
                "duplicate key at ",
                path.to_text().as_str(),
            ),
            EnvelopeError::InvalidScalar => "invalid typed scalar".to_owned(),
        }
    }
}

} // verus!
