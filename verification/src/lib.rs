//! Strips the common leading whitespace from a block of text.
//!
//! The text is modelled as its sequence of UTF-8 bytes. [`lines`] says how
//! that sequence falls into lines, [`indent`] finds the span of lines that
//! hold content and their common indent, and [`deindent`] writes the span
//! out again without that indent. [`laws`] and [`again`] state what holds of
//! the result whatever the text, and [`utf8`] shows that the result is text.

pub mod again;
pub mod deindent;
pub mod indent;
pub mod laws;
pub mod lines;
pub mod utf8;

pub use deindent::Deindenter;
pub use indent::IndentInfo;
