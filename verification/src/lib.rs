//! Extraction of keyed annotation regions from a collection of markdown
//! chapters, and synthesis of a deterministically ordered aggregate chapter
//! tree grouping the extracted notes by their hierarchical key paths.
//!
//! A region is written `{{#note <key>}}payload{{#note end}}` inside a
//! chapter's text. Scanning yields the payloads tagged with their key
//! paths and a cleaned copy of the chapter; the collected extracts are
//! then folded into one aggregate chapter whose subtree groups them by
//! key, with deterministic child order and numbering.

pub mod book;
pub mod extract;
pub mod note;
pub mod text;
pub mod tree;

pub use book::{BookItem, Chapter};
pub use extract::Extract;
pub use note::Note;
