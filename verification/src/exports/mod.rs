//! Turning a summary into something a church can send on.
//!
//! A summary arrives as Markdown. It is read once into a small block model and
//! written out from there, as plain text, as a Word file or as pages, so the
//! three agree on what the summary says.

pub mod kept;
pub mod legible;
pub mod markdown;
pub mod model;
pub mod page;
pub mod paged;
pub mod plain_text;
pub mod reading;
pub mod shown;
pub mod told;
pub mod word;

pub use markdown::{break_before_headings, fold, parse};
pub use model::{plain, Block, Span};
pub use plain_text::{readable, table_as_text, to_text, wrap, write_text};
pub use word::{docx_para, docx_table, escape_xml, to_docx, write_docx};
