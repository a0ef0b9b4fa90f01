//! The annotation preprocessor: scans every chapter of a collection for
//! annotation regions, replaces each chapter by its cleaned copy, and — if
//! any region was found — appends one aggregate chapter built from all the
//! extracts, labeled with the configured name and numbered with the
//! sentinel section `[99]` so it sorts after ordinary content.

use vstd::prelude::*;

use crate::book::{BookItem, Chapter};
use crate::extract::{cleaned_from, clean_text, extracts_from, scan_text, Extract, ExtractV};
use crate::tree::{chapter_matches, generate_chapter};

verus! {

/// The preprocessor itself. It carries no state: scanning is a pure
/// function of each chapter's text.
pub struct Note {}

/// The extracts one item contributes: a chapter's scan, nothing otherwise.
pub open spec fn item_extracts(it: BookItem) -> Seq<ExtractV> {
    match it {
        BookItem::Chapter(c) => extracts_from(c.content@, c.name@, 0, Set::empty()),
        _ => Seq::empty(),
    }
}

/// All extracts of a collection, in collection order, each item's extracts
/// contiguous and in scan order.
pub open spec fn all_extracts(items: Seq<BookItem>) -> Seq<ExtractV>
    decreases items.len(),
{
    if items.len() == 0 {
        Seq::empty()
    } else {
        all_extracts(items.drop_last()) + item_extracts(items.last())
    }
}

/// How an output item relates to the input item in its place: a chapter is
/// kept with its content cleaned and every other field untouched; any other
/// item is passed through unchanged.
pub open spec fn cleaned_item(new_it: BookItem, old_it: BookItem) -> bool {
    match old_it {
        BookItem::Chapter(c) => {
            &&& new_it matches BookItem::Chapter(nc)
            &&& nc.name == c.name
            &&& nc.content@ == cleaned_from(c.content@, 0)
            &&& nc.number == c.number
            &&& nc.sub_items == c.sub_items
            &&& nc.parent_names == c.parent_names
        },
        _ => new_it == old_it,
    }
}

impl Note {
    /// Creates the preprocessor.
    pub fn new() -> (r: Note) {
        Note {}
    }

    /// The preprocessor's registered name.
    pub fn name(&self) -> (r: &'static str)
        ensures
            r@ == "note"@,
    {
        "note"
    }

    /// Every renderer is supported but the one literally named
    /// `not-supported`.
    pub fn supports_renderer(&self, renderer: &str) -> (r: bool)
        ensures
            r == (renderer@ != "not-supported"@),
    {
        !crate::text::str_eq(renderer, "not-supported")
    }

    /// Scans one chapter's text, yielding its extracts in source order.
    pub fn parse_chapter(&self, chapter: &Chapter) -> (res: Vec<Extract>)
        ensures
            res.deep_view() == extracts_from(chapter.content@, chapter.name@, 0, Set::empty()),
    {
        scan_text(chapter.content.as_str(), chapter.name.as_str())
    }

    /// Replaces a chapter's content by its cleaned copy; every other field
    /// is kept.
    pub fn clean_chapter(&self, chapter: Chapter) -> (r: Chapter)
        ensures
            cleaned_item(BookItem::Chapter(r), BookItem::Chapter(chapter)),
    {
        let new_content = clean_text(chapter.content.as_str());
        Chapter {
            name: chapter.name,
            content: new_content,
            number: chapter.number,
            sub_items: chapter.sub_items,
            parent_names: chapter.parent_names,
        }
    }

    /// Processes a whole collection: if no chapter holds any annotation
    /// region, the collection is returned unchanged; otherwise every
    /// chapter is cleaned in place and one aggregate chapter, built from
    /// all extracts under the label `name` with section `[99]`, is appended.
    pub fn run(&self, book: Vec<BookItem>, name: String) -> (r: Vec<BookItem>)
        requires
            all_extracts(book@).len() <= u32::MAX,
        ensures
            all_extracts(book@).len() == 0 ==> r == book,
            all_extracts(book@).len() > 0 ==> {
                &&& r@.len() == book@.len() + 1
                &&& forall|j: int|
                    0 <= j < book@.len() ==> cleaned_item(#[trigger] r@[j], book@[j])
                &&& r@.last() is Chapter
                &&& chapter_matches(
                    r@.last()->Chapter_0,
                    all_extracts(book@),
                    name@,
                    Seq::empty(),
                    seq![99u32],
                )
            },
    {
        let ghost bs = book@;
        let mut extracts: Vec<Extract> = Vec::new();
        let mut j: usize = 0;
        while j < book.len()
            invariant
                j <= bs.len(),
                book@ == bs,
                extracts.deep_view() == all_extracts(bs.take(j as int)),
            decreases bs.len() - j,
        {
            let ghost prev = extracts.deep_view();
            match &book[j] {
                BookItem::Chapter(c) => {
                    let mut ext = self.parse_chapter(c);
                    let ghost ev = ext.deep_view();
                    extracts.append(&mut ext);
                    proof {
                        assert(extracts.deep_view() =~= prev + ev);
                    }
                },
                _ => {
                    proof {
                        assert(prev + item_extracts(bs[j as int]) =~= prev);
                    }
                },
            }
            proof {
                assert(bs.take(j + 1).drop_last() =~= bs.take(j as int));
                assert(bs.take(j + 1).last() == bs[j as int]);
                assert(extracts.deep_view() == all_extracts(bs.take(j + 1)));
            }
            j = j + 1;
        }
        proof {
            assert(bs.take(bs.len() as int) =~= bs);
            assert(extracts.deep_view().len() == extracts@.len());
        }
        if extracts.is_empty() {
            return book;
        }

        let n0 = book.len();
        let mut items = book;
        let mut new_book: Vec<BookItem> = Vec::new();
        let mut t: usize = 0;
        while items.len() > 0
            invariant
                n0 == bs.len(),
                t + items@.len() == bs.len(),
                items@ == bs.skip(t as int),
                new_book@.len() == t,
                forall|m: int| 0 <= m < t ==> cleaned_item(#[trigger] new_book@[m], bs[m]),
            decreases items@.len(),
        {
            let it = items.remove(0);
            proof {
                assert(it == bs[t as int]);
                assert(items@ =~= bs.skip(t + 1));
            }
            match it {
                BookItem::Chapter(c) => {
                    let clean = self.clean_chapter(c);
                    new_book.push(BookItem::Chapter(clean));
                },
                BookItem::Separator => {
                    new_book.push(BookItem::Separator);
                },
                BookItem::PartTitle(title) => {
                    new_book.push(BookItem::PartTitle(title));
                },
            }
            t = t + 1;
        }

        let root_parent: Vec<String> = Vec::new();
        let mut root_section: Vec<u32> = Vec::new();
        root_section.push(99);
        proof {
            assert(root_parent.deep_view() =~= Seq::<Seq<char>>::empty());
            assert(root_section@ =~= seq![99u32]);
        }
        let note_chapter = generate_chapter(extracts, name, root_parent, root_section);
        new_book.push(BookItem::Chapter(note_chapter));
        new_book
    }
}

} // verus!
