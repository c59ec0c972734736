//! Turns a parsed Markdown document into a polished one: headings are moved
//! one level down, code blocks are normalised, intra-document links are
//! resolved to reference links and local file links are remapped.
pub mod error;
pub mod event;
pub mod fix;
pub mod links;
pub mod render;
pub mod text;
