//! Access to the documents of a workspace.

use vstd::prelude::*;

use super::source::{applied, DocumentChange, EditRefusal, SourceInput};
use crate::framework::source::SourceEdit;

verus! {

/// An open source document.
#[derive(Debug)]
pub struct Document {
    uri: String,
}

impl View for Document {
    type V = Seq<char>;

    closed spec fn view(&self) -> Seq<char> {
        self.uri@
    }
}

impl Document {
    /// The document that a URI names.
    pub fn open(uri: String) -> (r: Self)
        ensures
            r@ == uri@,
    {
        Document { uri }
    }

    /// The URI of the document.
    pub fn uri(&self) -> (r: String)
        ensures
            r@ == self@,
    {
        self.uri.clone()
    }

    /// Applies one edit to the document. An edit that names another document
    /// is refused.
    pub fn apply(&self, previous: Option<&str>, edit: SourceEdit) -> (r: Result<
        Option<DocumentChange>,
        EditRefusal,
    >)
        ensures
            if edit.spec_span().uri@ != self@ {
                r == Err::<Option<DocumentChange>, EditRefusal>(EditRefusal::OtherDocument)
            } else {
                applied(previous, seq![edit], r)
            },
    {
        if edit.span().uri != self.uri {
            return Err(EditRefusal::OtherDocument);
        }
        SourceInput::apply(edit).apply(previous)
    }
}

} // verus!
