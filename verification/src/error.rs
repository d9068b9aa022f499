//! The ways in which building or querying the index can fail.

use vstd::prelude::*;

verus! {

/// A failure of the library. Each aborts the operation that met it.
#[derive(Debug)]
pub enum MetadataError {
    /// A status token that names no status; holds the token.
    StatusParse(String),
    /// An annotation document that is not well-formed, or an entry of it that
    /// has neither of the two shapes; holds the directory of the document.
    Schema(String),
    /// A name in the tree that is not UTF-8; holds the directory it stands in.
    Encoding(String),
    /// A child of a tree that is neither a tree nor a blob; holds its id.
    UnexpectedObject(String),
}

/// The model of an [`MetadataError`]: its kind and the text that it carries.
pub enum ErrorView {
    StatusParse(Seq<char>),
    Schema(Seq<char>),
    Encoding(Seq<char>),
    UnexpectedObject(Seq<char>),
}

impl View for MetadataError {
    type V = ErrorView;

    open spec fn view(&self) -> ErrorView {
        match self {
            MetadataError::StatusParse(t) => ErrorView::StatusParse(t@),
            MetadataError::Schema(t) => ErrorView::Schema(t@),
            MetadataError::Encoding(t) => ErrorView::Encoding(t@),
            MetadataError::UnexpectedObject(t) => ErrorView::UnexpectedObject(t@),
        }
    }
}

} // verus!
