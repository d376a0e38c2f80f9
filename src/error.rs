use vstd::prelude::*;

verus! {

/// The three classes of failure: reading the archive, the shape of its
/// documents, and a lookup that names something absent.
#[derive(Clone, Copy, Debug, PartialEq, Eq, Structural)]
pub enum ErrorClass {
    Io,
    Format,
    Lookup,
}

/// A failure of an operation on a publication.
#[derive(Debug)]
pub enum EpubError {
    /// The data is not a readable compressed container.
    Archive,
    /// The entry at this path is absent or is not UTF-8 text.
    Entry(Vec<char>),
    /// The first entry does not hold the publication media type.
    Mimetype(Vec<char>),
    /// The document at this path is not well-formed XML.
    Xml(Vec<char>),
    /// The element at the end of this path is absent.
    MissingNode(Vec<char>),
    /// An element lacks a required attribute: the element's name and the attribute's.
    MissingAttribute(Vec<char>, Vec<char>),
    /// A chapter index at or past the number of chapters.
    ChapterOutOfRange(usize),
    /// A spine entry names an id that the manifest lacks.
    UnknownId(Vec<char>),
}

/// Whether `e` reports the absent element at the end of `path`.
pub open spec fn names_node(e: EpubError, path: Seq<char>) -> bool {
    e is MissingNode && e->MissingNode_0@ == path
}

/// Whether `e` reports that elements named `element` lack `attribute`.
pub open spec fn names_attribute(e: EpubError, element: Seq<char>, attribute: Seq<char>) -> bool {
    e is MissingAttribute && e->MissingAttribute_0@ == element && e->MissingAttribute_1@ == attribute
}

/// Whether `e` reports that the entry at `path` could not be read.
pub open spec fn names_entry(e: EpubError, path: Seq<char>) -> bool {
    e is Entry && e->Entry_0@ == path
}

impl EpubError {
    pub open spec fn class_spec(&self) -> ErrorClass {
        match self {
            EpubError::Archive | EpubError::Entry(_) => ErrorClass::Io,
            EpubError::ChapterOutOfRange(_) | EpubError::UnknownId(_) => ErrorClass::Lookup,
            _ => ErrorClass::Format,
        }
    }

    /// The class of this failure.
    pub fn class(&self) -> (r: ErrorClass)
        ensures
            r == self.class_spec(),
    {
        match self {
            EpubError::Archive | EpubError::Entry(_) => ErrorClass::Io,
            EpubError::ChapterOutOfRange(_) | EpubError::UnknownId(_) => ErrorClass::Lookup,
            _ => ErrorClass::Format,
        }
    }
}

} // verus!
