//! The fixups applied to the event stream of a document.
pub mod code_blocks;
pub mod doc_links;
pub mod headings;
pub mod rel_links;
pub mod summary;
