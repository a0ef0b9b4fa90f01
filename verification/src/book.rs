//! The document collection model: an ordered sequence of book items, each a
//! content chapter, a separator, or a part title.

use vstd::prelude::*;

verus! {

/// One content document: a display name, markdown text, an optional section
/// number (the numeric path from the root), child chapters, and the names of
/// its ancestors.
#[derive(PartialEq, Eq, Debug)]
pub struct Chapter {
    pub name: String,
    pub content: String,
    pub number: Option<Vec<u32>>,
    pub sub_items: Vec<BookItem>,
    pub parent_names: Vec<String>,
}

/// One unit of the collection.
#[derive(PartialEq, Eq, Debug)]
pub enum BookItem {
    Chapter(Chapter),
    Separator,
    PartTitle(String),
}

} // verus!
