//! A document: its format, its value, and its layout.

use vstd::prelude::*;

use crate::config::SourceFormat;
use crate::source::layout;
use crate::source::node;
use crate::source::{Layout, Node, NodePath};
use crate::text;

verus! {

/// A parsed source file. No mapping of its value holds a key twice.
#[derive(PartialEq, Eq)]
pub struct SourceDocument {
    format: SourceFormat,
    root: Node,
    layout: Layout,
}

pub struct DocumentModel {
    pub format: SourceFormat,
    pub root: node::Tree,
    pub layout: layout::LayoutModel,
}

impl View for SourceDocument {
    type V = DocumentModel;

    closed spec fn view(&self) -> DocumentModel {
        DocumentModel { format: self.format, root: self.root@, layout: self.layout@ }
    }
}

impl Clone for SourceDocument {
    fn clone(&self) -> (r: SourceDocument)
        ensures
            r@ == self@,
    {
        proof {
            use_type_invariant(self);
        }
        SourceDocument {
            format: self.format,
            root: self.root.clone(),
            layout: self.layout.clone(),
        }
    }
}

impl SourceDocument {
    #[verifier::type_invariant]
    spec fn valid(self) -> bool {
        node::well_keyed(self.root@)
    }

    pub fn new(format: SourceFormat, root: Node, layout: Layout) -> (r: SourceDocument)
        requires
            node::well_keyed(root@),
        ensures
            r@ == (DocumentModel { format, root: root@, layout: layout@ }),
    {
        SourceDocument { format, root, layout }
    }

    pub fn format(&self) -> (r: SourceFormat)
        ensures
            r == self@.format,
    {
        self.format
    }

    pub fn root(&self) -> (r: &Node)
        ensures
            r@ == self@.root,
            node::well_keyed(self@.root),
    {
        proof {
            use_type_invariant(self);
        }
        &self.root
    }

    pub fn layout(&self) -> (r: &Layout)
        ensures
            r@ == self@.layout,
    {
        &self.layout
    }

    /// Whether two documents agree in format, value and layout.
    pub fn semantic_eq(&self, other: &SourceDocument) -> (r: bool)
        ensures
            r == (self@ == other@),
    {
        self.format == other.format && self.root.same(&other.root) && self.layout.same(
            &other.layout,
        )
    }
}

#[derive(Debug, PartialEq, Eq)]
pub enum SourceError {
    NonUtf8 { format: SourceFormat },
    Parse { format: SourceFormat, reason: String },
    DuplicateKey { format: SourceFormat, path: NodePath },
    UnsupportedKey { format: SourceFormat, path: NodePath },
    ConflictMarkers { format: SourceFormat },
    Generate { format: SourceFormat, reason: String },
    LayoutMismatch(NodePath),
}

pub enum SourceFault {
    NonUtf8 { format: SourceFormat },
    Parse { format: SourceFormat, reason: Seq<char> },
    DuplicateKey { format: SourceFormat, path: Seq<node::Step> },
    UnsupportedKey { format: SourceFormat, path: Seq<node::Step> },
    ConflictMarkers { format: SourceFormat },
    Generate { format: SourceFormat, reason: Seq<char> },
    LayoutMismatch(Seq<node::Step>),
}

impl View for SourceError {
    type V = SourceFault;

    open spec fn view(&self) -> SourceFault {
        match self {
            SourceError::NonUtf8 { format } => SourceFault::NonUtf8 { format: *format },
            SourceError::Parse { format, reason } => SourceFault::Parse {
                format: *format,
                reason: reason@,
            },
            SourceError::DuplicateKey { format, path } => SourceFault::DuplicateKey {
                format: *format,
                path: path@,
            },
            SourceError::UnsupportedKey { format, path } => SourceFault::UnsupportedKey {
                format: *format,
                path: path@,
            },
            SourceError::ConflictMarkers { format } => SourceFault::ConflictMarkers {
                format: *format,
            },
            SourceError::Generate { format, reason } => SourceFault::Generate {
                format: *format,
                reason: reason@,
            },
            SourceError::LayoutMismatch(path) => SourceFault::LayoutMismatch(path@),
        }
    }
}

impl SourceFault {
    /// The message of an error. Reasons and values do not appear in it.
    pub open spec fn text(self) -> Seq<char> {
        match self {
            SourceFault::NonUtf8 { format } => format.name() + " input is not UTF-8"@,
            SourceFault::Parse { format, reason } => "invalid "@ + format.name() + " document"@,
            SourceFault::DuplicateKey { format, path } => "duplicate key "@ + node::path_text(path)
                + " in "@ + format.name() + " document"@,
            SourceFault::UnsupportedKey { format, path } => "unsupported key at "@
                + node::path_text(path) + " in "@ + format.name() + " document"@,
            SourceFault::ConflictMarkers { format } => "unresolved conflict markers in "@
                + format.name() + " document"@,
            SourceFault::Generate { format, reason } => "could not generate "@ + format.name()
                + " document"@,
            SourceFault::LayoutMismatch(path) => "layout does not match semantic node at "@
                + node::path_text(path),
        }
    }
}

impl SourceError {
    pub fn message(&self) -> (r: String)
        ensures
            r@ == self@.text(),
    {
        match self {
            SourceError::NonUtf8 { format } => text::cat2(format.as_str(), " input is not UTF-8"),
            SourceError::Parse { format, reason: _ } => text::cat3(
                "invalid ",
                format.as_str(),
                " document",
            ),
            SourceError::DuplicateKey { format, path } => text::cat5(
                "duplicate key ",
                path.to_text().as_str(),
                " in ",
                format.as_str(),
                " document",
            ),
            SourceError::UnsupportedKey { format, path } => text::cat5(
                "unsupported key at ",
                path.to_text().as_str(),
                " in ",
                format.as_str(),
                " document",
            ),
            SourceError::ConflictMarkers { format } => text::cat3(
                "unresolved conflict markers in ",
                format.as_str(),
                " document",
            ),
            SourceError::Generate { format, reason: _ } => text::cat3(
                "could not generate ",
                format.as_str(),
                " document",
            ),
            SourceError::LayoutMismatch(path) => text::cat2(
                "layout does not match semantic node at ",
                path.to_text().as_str(),
            ),
        }
    }
}

/// What a function that makes a document hands back.
pub open spec fn view_document(r: Result<SourceDocument, SourceError>) -> Result<
    DocumentModel,
    SourceFault,
> {
    match r {
        Ok(document) => Ok(document@),
        Err(error) => Err(error@),
    }
}

/// What a function that makes bytes hands back.
pub open spec fn view_bytes(r: Result<Vec<u8>, SourceError>) -> Result<Seq<u8>, SourceFault> {
    match r {
        Ok(bytes) => Ok(bytes@),
        Err(error) => Err(error@),
    }
}

} // verus!
