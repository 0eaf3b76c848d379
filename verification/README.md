# pdf

A library for writing PDF documents, verified with Verus.

A `Pdf` is written to a byte buffer, object by object. Each page is drawn
on a `Canvas` (with `TextObject`s for text) and added with
`Pdf::render_page`; `Pdf::finish` adds the page tree, the document
information, the catalog, the cross-reference table and the trailer, and
returns the document.

Layout:

- `src/bytes.rs`: decimal numbers and text appended to a byte buffer.
- `src/encoding.rs`: WinAnsiEncoding of text for PDF string literals.
- `src/fonts.rs`: the built-in fonts, glyph widths and font references.
- `src/afm.rs`: glyph widths read from Adobe Font Metrics files.
- `src/canvas.rs`: page contents, text objects and the fonts of a page.
- `src/objects.rs`: numbered objects and where each begins.
- `src/document.rs`: the document, its pages, metadata and trailer, and the
  proof that the cross-reference table points at every object.
- `src/clock.rs`: the local time for the creation date (the `time` crate).
- `app/`: the interface that writes to any `Write + Seek`, draws with
  closures, reads metrics from disk, and writes floating-point operands.
