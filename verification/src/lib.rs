//! Writing PDF documents: objects, pages, text and the built-in fonts.
//!
//! A [`Pdf`] is written to a byte buffer object by object; each page is
//! drawn on a [`Canvas`] and added with [`Pdf::render_page`], and
//! [`Pdf::finish`] adds the page tree, the document information, the
//! catalog and the cross-reference table, and hands back the document.

pub mod afm;
pub mod bytes;
pub mod canvas;
pub mod clock;
pub mod document;
pub mod encoding;
pub mod fonts;
pub mod objects;

pub use canvas::{Canvas, TextObject};
pub use document::Pdf;
pub use encoding::encode_string;
pub use fonts::{FontMetrics, FontRef, FontSource};
