//! Preparing a corpus of marked-up text, and showing what annotation
//! sources found in it.
//!
//! The [`accumulator`] normalizes text: it collapses white space and the
//! breaks that markup implies into single separators and records where
//! paragraphs start. The [`markup`] scanner feeds it from tag-delimited
//! markup. The [`overlay`] renderer lays the labelled spans of several
//! sources over the paragraphs of plain text and writes markup with nested
//! highlight regions; [`document`] finds what is wrong with spans and puts
//! the paragraphs into a page. The [`translator`] turns the character
//! offsets of spans into the byte offsets at which strings are cut.

pub mod accumulator;
pub mod bytes;
pub mod coverage;
pub mod decimal;
pub mod document;
pub mod markup;
pub mod offsets;
pub mod order;
pub mod overlay;
pub mod paragraphs;
mod strings;
pub mod translator;

pub use accumulator::{AccState, TextAccumulator};
pub use document::{merge, merge_paragraphs, render_document, RenderError, HEAD, TAIL};
pub use markup::{normalize_markup, parse_quick_xml, Cleaned};
pub use overlay::Match;
pub use paragraphs::{line_paragraphs, split_paragraphs};
pub use translator::IndexTranslator;
