//! The documents that the indexer works on.

use vstd::prelude::*;

verus! {

/// Where a document stands in its indexing lifecycle.
#[derive(Clone, Copy, Debug, PartialEq, Eq, Structural)]
pub enum Status {
    /// Not yet incorporated into the index.
    Pending,
    /// All of the document's terms have been written to the index.
    Indexed,
}

impl Status {
    /// The name under which the status is stored.
    pub fn as_str(&self) -> (name: &'static str)
        ensures
            name@ == (match *self {
                Status::Pending => "pending"@,
                Status::Indexed => "indexed"@,
            }),
    {
        match self {
            Status::Pending => "pending",
            Status::Indexed => "indexed",
        }
    }
}

/// A document of the corpus, as handed out by the document source.
#[derive(Clone, Debug, PartialEq, Eq)]
pub struct Document {
    /// Stable identifier, unique across the corpus.
    pub id: i32,
    /// Where the document was fetched from.
    pub url: String,
    /// Human-readable title.
    pub title: String,
    /// The text that is tokenized and indexed.
    pub content: String,
}

/// The mathematical content of a [`Document`].
pub struct DocumentView {
    pub id: int,
    pub url: Seq<char>,
    pub title: Seq<char>,
    pub content: Seq<char>,
}

impl View for Document {
    type V = DocumentView;

    open spec fn view(&self) -> DocumentView {
        DocumentView {
            id: self.id as int,
            url: self.url@,
            title: self.title@,
            content: self.content@,
        }
    }
}

impl DeepView for Document {
    type V = DocumentView;

    open spec fn deep_view(&self) -> DocumentView {
        self@
    }
}

impl Document {
    /// A copy of the document.
    pub fn duplicate(&self) -> (copy: Document)
        ensures
            copy@ == self@,
    {
        Document {
            id: self.id,
            url: self.url.clone(),
            title: self.title.clone(),
            content: self.content.clone(),
        }
    }
}

} // verus!
