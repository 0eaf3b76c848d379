//! The content stream of a page: drawing operators, text objects and the
//! fonts that the page uses.

use vstd::prelude::*;

use crate::bytes::{push_bytes, push_signed_decimal, push_str, signed_decimal, text_bytes};
use crate::encoding::{encode_string, encode_text};
use crate::fonts::{text_width, FontMetrics, FontRef, FontSource};

verus! {

/// The operators of a text object, between its `BT` and `ET`.
pub struct TextObject {
    output: Vec<u8>,
}

impl TextObject {
    /// The bytes written to the text object so far.
    pub closed spec fn bytes(&self) -> Seq<u8> {
        self.output@
    }

    /// An empty text object.
    pub fn new() -> (t: TextObject)
        ensures
            t.bytes() == Seq::<u8>::empty(),
    {
        TextObject { output: Vec::new() }
    }

    /// The bytes written so far.
    pub fn as_bytes(&self) -> (bytes: &[u8])
        ensures
            bytes@ == self.bytes(),
    {
        self.output.as_slice()
    }

    /// Appends operator bytes made elsewhere.
    pub fn write_all(&mut self, bytes: &[u8])
        ensures
            final(self).bytes() == old(self).bytes() + bytes@,
    {
        push_bytes(&mut self.output, bytes);
    }

    /// Shows a string: `(`, the encoded text, `) Tj`.
    pub fn show(&mut self, text: &str)
        ensures
            final(self).bytes() == old(self).bytes() + text_bytes("("@) + encode_text(text@)
                + text_bytes(") Tj\n"@),
    {
        push_str(&mut self.output, "(");
        let encoded = encode_string(text);
        push_bytes(&mut self.output, encoded.as_slice());
        push_str(&mut self.output, ") Tj\n");
    }

    /// Shows a string followed by a position adjustment: `[(`, the encoded
    /// text, `) `, the offset, `] TJ`.
    pub fn show_j(&mut self, text: &str, offset: i32)
        ensures
            final(self).bytes() == old(self).bytes() + text_bytes("[("@) + encode_text(text@)
                + text_bytes(") "@) + signed_decimal(offset as int) + text_bytes("] TJ\n"@),
    {
        push_str(&mut self.output, "[(");
        let encoded = encode_string(text);
        push_bytes(&mut self.output, encoded.as_slice());
        push_str(&mut self.output, ") ");
        push_signed_decimal(&mut self.output, offset);
        push_str(&mut self.output, "] TJ\n");
    }

    /// Moves to the next line and shows a string: `(`, the encoded text,
    /// `) '`.
    pub fn show_line(&mut self, text: &str)
        ensures
            final(self).bytes() == old(self).bytes() + text_bytes("("@) + encode_text(text@)
                + text_bytes(") '\n"@),
    {
        push_str(&mut self.output, "(");
        let encoded = encode_string(text);
        push_bytes(&mut self.output, encoded.as_slice());
        push_str(&mut self.output, ") '\n");
    }

    /// Saves the graphics state: `q`.
    pub fn gsave(&mut self)
        ensures
            final(self).bytes() == old(self).bytes() + text_bytes("q\n"@),
    {
        push_str(&mut self.output, "q\n");
    }

    /// Restores the graphics state: `Q`.
    pub fn grestore(&mut self)
        ensures
            final(self).bytes() == old(self).bytes() + text_bytes("Q\n"@),
    {
        push_str(&mut self.output, "Q\n");
    }
}

/// The content of a page while it is drawn, and the fonts that it uses,
/// numbered in the order in which they were first asked for.
pub struct Canvas {
    pub(crate) output: Vec<u8>,
    pub(crate) fonts: Vec<(FontSource, FontRef)>,
}

impl Canvas {
    /// The content stream written so far.
    pub closed spec fn bytes(&self) -> Seq<u8> {
        self.output@
    }

    /// The fonts in use with their references, in the order of their numbers.
    pub closed spec fn fonts_in_use(&self) -> Seq<(FontSource, FontRef)> {
        self.fonts@
    }

    /// The fonts in use, in the order of their numbers.
    pub open spec fn font_sources(&self) -> Seq<FontSource> {
        self.fonts_in_use().map_values(|e: (FontSource, FontRef)| e.0)
    }

    /// The number given to the `i`-th font in use.
    pub open spec fn font_number(&self, i: int) -> nat {
        self.fonts_in_use()[i].1.number()
    }

    /// The widths of the `i`-th font in use.
    pub open spec fn font_widths(&self, i: int) -> Map<u8, u16> {
        self.fonts_in_use()[i].1.widths()
    }

    /// `r` is this page's reference to `font`: font number `r.number()` is
    /// `font`, with the widths of `r`.
    pub open spec fn refers_to(&self, font: FontSource, r: FontRef) -> bool {
        &&& r.number() < self.font_sources().len()
        &&& self.font_sources()[r.number() as int] == font
        &&& self.font_widths(r.number() as int) == r.widths()
    }

    /// Every reference to `font` on this page measures with `widths`.
    pub open spec fn measures_font_with(&self, font: FontSource, widths: Map<u8, u16>) -> bool {
        forall|i: int|
            0 <= i < self.font_sources().len() && #[trigger] self.font_sources()[i] == font
                ==> self.font_widths(i) == widths
    }

    /// Each font occurs once and is numbered by its place in the list.
    pub closed spec fn well_formed(&self) -> bool {
        &&& forall|i: int| 0 <= i < self.fonts@.len() ==> #[trigger] self.fonts@[i].1.number() == i
        &&& forall|i: int, j: int|
            0 <= i < j < self.fonts@.len() ==> #[trigger] self.fonts@[i].0 != #[trigger] self.fonts@[j].0
    }

    /// What the font list holds: the sources in order, each numbered by its
    /// place.
    pub(crate) proof fn lemma_fonts(&self)
        requires
            self.well_formed(),
        ensures
            self.font_sources().len() == self.fonts@.len(),
            forall|i: int|
                0 <= i < self.fonts@.len() ==> #[trigger] self.font_sources()[i] == self.fonts@[i].0,
            forall|i: int| 0 <= i < self.fonts@.len() ==> #[trigger] self.fonts@[i].1.number() == i,
    {
    }

    /// An empty page content, with no fonts in use.
    pub fn new() -> (c: Canvas)
        ensures
            c.well_formed(),
            c.bytes() == Seq::<u8>::empty(),
            c.font_sources() == Seq::<FontSource>::empty(),
    {
        let c = Canvas { output: Vec::new(), fonts: Vec::new() };
        assert(c.font_sources() =~= Seq::<FontSource>::empty());
        c
    }

    /// The content stream written so far.
    pub fn as_bytes(&self) -> (bytes: &[u8])
        ensures
            bytes@ == self.bytes(),
    {
        self.output.as_slice()
    }

    /// Appends operator bytes made elsewhere.
    pub fn write_all(&mut self, bytes: &[u8])
        requires
            old(self).well_formed(),
        ensures
            final(self).well_formed(),
            final(self).bytes() == old(self).bytes() + bytes@,
            final(self).fonts_in_use() == old(self).fonts_in_use(),
    {
        push_bytes(&mut self.output, bytes);
    }

    /// Strokes the current path: `s`.
    pub fn stroke(&mut self)
        requires
            old(self).well_formed(),
        ensures
            final(self).well_formed(),
            final(self).bytes() == old(self).bytes() + text_bytes("s\n"@),
            final(self).fonts_in_use() == old(self).fonts_in_use(),
    {
        push_str(&mut self.output, "s\n");
    }

    /// Fills the current path: `f`.
    pub fn fill(&mut self)
        requires
            old(self).well_formed(),
        ensures
            final(self).well_formed(),
            final(self).bytes() == old(self).bytes() + text_bytes("f\n"@),
            final(self).fonts_in_use() == old(self).fonts_in_use(),
    {
        push_str(&mut self.output, "f\n");
    }

    /// The reference to `font` on this page, where it is in use.
    pub fn find_font(&self, font: FontSource) -> (r: Option<FontRef>)
        requires
            self.well_formed(),
        ensures
            r is Some <==> exists|i: int|
                0 <= i < self.font_sources().len() && #[trigger] self.font_sources()[i] == font,
            forall|i: int|
                0 <= i < self.font_sources().len() && #[trigger] self.font_sources()[i] == font
                    ==> (r matches Some(f) && f.number() == i && f.widths() == self.font_widths(i)),
    {
        proof {
            self.lemma_fonts();
        }
        let mut i: usize = 0;
        while i < self.fonts.len()
            invariant
                i <= self.fonts@.len(),
                self.well_formed(),
                self.font_sources().len() == self.fonts@.len(),
                forall|k: int| 0 <= k < i ==> #[trigger] self.font_sources()[k] != font,
            decreases self.fonts@.len() - i,
        {
            proof {
                self.lemma_fonts();
            }
            if self.fonts[i].0 == font {
                proof {
                    assert forall|j: int|
                        0 <= j < self.font_sources().len() && #[trigger] self.font_sources()[j]
                            == font implies j == i by {
                        if j != i {
                            lemma_font_numbers_distinct(self);
                            if j < i {
                                assert(self.font_sources()[j] != self.font_sources()[i as int]);
                            } else {
                                assert(self.font_sources()[i as int] != self.font_sources()[j]);
                            }
                        }
                    }
                }
                let r = self.fonts[i].1.clone();
                assert(self.font_sources()[i as int] == font);
                return Some(r);
            }
            i = i + 1;
        }
        None
    }

    /// The reference to `font` on this page. A font that is already in use
    /// keeps its reference; a new one gets the next number and the metrics
    /// `metrics`. So a page whose references to a font all measure with
    /// the same metrics keeps doing so when it is asked for that font with
    /// them, and hands out a reference that measures with them; the other
    /// fonts keep their references.
    pub fn get_font(&mut self, font: FontSource, metrics: FontMetrics) -> (r: FontRef)
        requires
            old(self).well_formed(),
        ensures
            final(self).well_formed(),
            final(self).bytes() == old(self).bytes(),
            old(self).measures_font_with(font, metrics@) ==> {
                &&& final(self).measures_font_with(font, metrics@)
                &&& r.widths() == metrics@
            },
            forall|f: FontSource, w: Map<u8, u16>|
                f != font && #[trigger] old(self).measures_font_with(f, w)
                    ==> final(self).measures_font_with(f, w),
            final(self).refers_to(font, r),
            forall|f: FontSource, r0: FontRef|
                #[trigger] old(self).refers_to(f, r0) ==> final(self).refers_to(f, r0),
            forall|r0: FontRef|
                #[trigger] old(self).refers_to(font, r0) ==> r.number() == r0.number()
                    && r.widths() == r0.widths(),
            forall|i: int|
                0 <= i < old(self).font_sources().len() && #[trigger] old(self).font_sources()[i]
                    == font ==> {
                    &&& final(self).fonts_in_use() == old(self).fonts_in_use()
                    &&& final(self).font_sources() == old(self).font_sources()
                    &&& r.number() == i
                    &&& r.widths() == old(self).font_widths(i)
                },
            (forall|i: int|
                0 <= i < old(self).font_sources().len() ==> #[trigger] old(self).font_sources()[i]
                    != font) ==> {
                &&& final(self).font_sources() == old(self).font_sources().push(font)
                &&& r.number() == old(self).font_sources().len()
                &&& r.widths() == metrics@
                &&& final(self).fonts_in_use().len() == old(self).fonts_in_use().len() + 1
                &&& forall|i: int|
                    0 <= i < old(self).fonts_in_use().len() ==> #[trigger] final(self).fonts_in_use()[i]
                        == old(self).fonts_in_use()[i]
                &&& final(self).font_number(old(self).fonts_in_use().len() as int) == r.number()
                &&& final(self).font_widths(old(self).fonts_in_use().len() as int) == r.widths()
            },
    {
        let mut i: usize = 0;
        while i < self.fonts.len()
            invariant
                i <= self.fonts@.len(),
                self.fonts@ == old(self).fonts@,
                self.output@ == old(self).output@,
                self.well_formed(),
                forall|k: int| 0 <= k < i ==> self.fonts@[k].0 != font,
            decreases self.fonts@.len() - i,
        {
            if self.fonts[i].0 == font {
                proof {
                    self.lemma_fonts();
                    assert(old(self).font_sources()[i as int] == font);
                }
                return self.fonts[i].1.clone();
            }
            i = i + 1;
        }
        proof {
            self.lemma_fonts();
        }
        let n = self.fonts.len();
        let r = FontRef::new(n, metrics);
        let entry = (font, r.clone());
        self.fonts.push(entry);
        assert(self.font_sources() =~= old(self).font_sources().push(font));
        r
    }

    /// Places a text object in the content stream: `BT`, its operators,
    /// `ET`.
    pub fn text(&mut self, text: &TextObject)
        requires
            old(self).well_formed(),
        ensures
            final(self).well_formed(),
            final(self).bytes() == old(self).bytes() + text_bytes("BT\n"@) + text.bytes()
                + text_bytes("ET\n"@),
            final(self).fonts_in_use() == old(self).fonts_in_use(),
    {
        push_str(&mut self.output, "BT\n");
        push_bytes(&mut self.output, text.as_bytes());
        push_str(&mut self.output, "ET\n");
    }
}

/// A page hands out one reference for each font: two references to the
/// same font on a page have the same number and the same widths. So a
/// later `get_font` for a font gives what an earlier one gave, as long as
/// the page still refers to it that way, which `get_font` and every
/// operator keep.
pub proof fn lemma_references_agree(canvas: &Canvas, font: FontSource, r1: FontRef, r2: FontRef)
    requires
        canvas.well_formed(),
        canvas.refers_to(font, r1),
        canvas.refers_to(font, r2),
    ensures
        r1.number() == r2.number(),
        r1.widths() == r2.widths(),
{
    lemma_font_numbers_distinct(canvas);
    let i = r1.number() as int;
    let j = r2.number() as int;
    if i < j {
        assert(canvas.font_sources()[i] != canvas.font_sources()[j]);
    } else if j < i {
        assert(canvas.font_sources()[j] != canvas.font_sources()[i]);
    }
}

/// A reference that a page hands out for `font` measures every text as
/// `font` does with `metrics`, where every reference to `font` on the page
/// measures with `metrics`: `FontRef::get_width_raw` and
/// `FontSource::get_width_raw` with those metrics give the same width.
pub proof fn lemma_reference_measures_as_font(
    canvas: &Canvas,
    font: FontSource,
    metrics: &FontMetrics,
    r: FontRef,
    text: Seq<char>,
)
    requires
        canvas.refers_to(font, r),
        canvas.measures_font_with(font, metrics@),
    ensures
        text_width(r.widths(), text) == text_width(metrics@, text),
{
    assert(canvas.font_sources()[r.number() as int] == font);
}

/// On a page each font is in use once, and font `i` is named `/F` and `i`:
/// no two fonts share a number.
pub proof fn lemma_font_numbers_distinct(canvas: &Canvas)
    requires
        canvas.well_formed(),
    ensures
        forall|i: int| 0 <= i < canvas.font_sources().len() ==> #[trigger] canvas.font_number(i) == i,
        forall|i: int, j: int|
            0 <= i < j < canvas.font_sources().len() ==> #[trigger] canvas.font_sources()[i]
                != #[trigger] canvas.font_sources()[j],
{
    canvas.lemma_fonts();
    assert forall|i: int, j: int|
        0 <= i < j < canvas.font_sources().len() implies #[trigger] canvas.font_sources()[i]
        != #[trigger] canvas.font_sources()[j] by {
        assert(canvas.fonts@[i].0 != canvas.fonts@[j].0);
    }
}

} // verus!
