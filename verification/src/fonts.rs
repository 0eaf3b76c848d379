//! The built-in fonts, their glyph widths and the font references that a
//! page's content stream uses.

use vstd::prelude::*;

use crate::bytes::{decimal, push_decimal, push_str, text_bytes};
use crate::encoding::{encode_string, encode_text, lemma_encode_text_concat, lemma_encode_text_len};

verus! {

/// Glyph widths of a font, by character code, in thousandths of the unit
/// of text space.
#[derive(Debug, PartialEq, Eq, Hash)]
pub struct FontMetrics {
    widths: Vec<Option<u16>>,
}

impl View for FontMetrics {
    type V = Map<u8, u16>;

    closed spec fn view(&self) -> Map<u8, u16> {
        Map::new(
            |c: u8| (c as int) < self.widths@.len() && self.widths@[c as int] is Some,
            |c: u8| self.widths@[c as int]->0,
        )
    }
}

/// The width that a character code takes: the font's own width for it, or
/// 100 where the font has none.
pub open spec fn char_width(m: Map<u8, u16>, c: u8) -> nat {
    if m.contains_key(c) {
        m[c] as nat
    } else {
        100
    }
}

/// The total width of a sequence of character codes.
pub open spec fn bytes_width(m: Map<u8, u16>, s: Seq<u8>) -> nat
    decreases s.len(),
{
    if s.len() == 0 {
        0
    } else {
        bytes_width(m, s.drop_last()) + char_width(m, s.last())
    }
}

/// The width of a text once it is encoded for showing.
pub open spec fn text_width(m: Map<u8, u16>, text: Seq<char>) -> nat {
    bytes_width(m, encode_text(text))
}

impl FontMetrics {
    /// Metrics that know no glyph.
    pub fn new() -> (m: FontMetrics)
        ensures
            m@ == Map::<u8, u16>::empty(),
    {
        let mut widths: Vec<Option<u16>> = Vec::new();
        let mut i: usize = 0;
        while i < 256
            invariant
                i <= 256,
                widths@.len() == i,
                forall|k: int| 0 <= k < i ==> widths@[k] is None,
            decreases 256 - i,
        {
            widths.push(None);
            i = i + 1;
        }
        let m = FontMetrics { widths };
        assert(m@ =~= Map::<u8, u16>::empty());
        m
    }

    /// Records the width of character code `code`.
    pub fn set_width(&mut self, code: u8, width: u16)
        ensures
            final(self)@ == old(self)@.insert(code, width),
    {
        if (code as usize) < self.widths.len() {
            self.widths.set(code as usize, Some(width));
        } else {
            while self.widths.len() < code as usize
                invariant
                    self.widths@.len() <= code,
                    old(self)@ == (FontMetrics { widths: self.widths })@,
                decreases code - self.widths@.len(),
            {
                let ghost before = self.widths@;
                self.widths.push(None);
                assert((FontMetrics { widths: self.widths })@ =~= (FontMetrics {
                    widths: old(self).widths,
                })@);
            }
            self.widths.push(Some(width));
        }
        assert(self@ =~= old(self)@.insert(code, width));
    }

    /// The width of character code `char`, where the font has one.
    pub fn get_width(&self, char: u8) -> (width: Option<u16>)
        ensures
            width == (if self@.contains_key(char) {
                Some(self@[char])
            } else {
                None
            }),
    {
        if (char as usize) < self.widths.len() {
            self.widths[char as usize]
        } else {
            None
        }
    }

    /// The total width of the character codes in `bytes`.
    fn bytes_width(&self, bytes: &Vec<u8>) -> (width: u32)
        requires
            bytes_width(self@, bytes@) <= u32::MAX,
        ensures
            width == bytes_width(self@, bytes@),
    {
        let mut result: u32 = 0;
        let mut i: usize = 0;
        while i < bytes.len()
            invariant
                i <= bytes@.len(),
                bytes_width(self@, bytes@) <= u32::MAX,
                result == bytes_width(self@, bytes@.take(i as int)),
            decreases bytes@.len() - i,
        {
            proof {
                lemma_bytes_width_prefix(self@, bytes@, i as int + 1);
                assert(bytes@.take(i as int + 1).drop_last() =~= bytes@.take(i as int));
            }
            let w: u16 = match self.get_width(bytes[i]) {
                Some(w) => w,
                None => 100,
            };
            result = result + w as u32;
            i = i + 1;
        }
        assert(bytes@.take(bytes@.len() as int) =~= bytes@);
        result
    }

    /// The total width of the character codes in `bytes`, where it fits in
    /// a `u32`.
    fn checked_bytes_width(&self, bytes: &Vec<u8>) -> (width: Option<u32>)
        ensures
            width == (if bytes_width(self@, bytes@) <= u32::MAX {
                Some(bytes_width(self@, bytes@) as u32)
            } else {
                None
            }),
    {
        let mut result: u32 = 0;
        let mut i: usize = 0;
        while i < bytes.len()
            invariant
                i <= bytes@.len(),
                result == bytes_width(self@, bytes@.take(i as int)),
            decreases bytes@.len() - i,
        {
            proof {
                assert(bytes@.take(i as int + 1).drop_last() =~= bytes@.take(i as int));
            }
            let w: u16 = match self.get_width(bytes[i]) {
                Some(w) => w,
                None => 100,
            };
            match result.checked_add(w as u32) {
                Some(r) => {
                    result = r;
                },
                None => {
                    proof {
                        lemma_bytes_width_prefix(self@, bytes@, i as int + 1);
                    }
                    return None;
                },
            }
            i = i + 1;
        }
        assert(bytes@.take(bytes@.len() as int) =~= bytes@);
        Some(result)
    }
}

impl Clone for FontMetrics {
    fn clone(&self) -> (copy: Self)
        ensures
            copy@ == self@,
    {
        let mut widths: Vec<Option<u16>> = Vec::new();
        let mut i: usize = 0;
        while i < self.widths.len()
            invariant
                i <= self.widths@.len(),
                widths@ == self.widths@.take(i as int),
            decreases self.widths@.len() - i,
        {
            widths.push(self.widths[i]);
            i = i + 1;
            assert(widths@ =~= self.widths@.take(i as int));
        }
        assert(widths@ =~= self.widths@);
        FontMetrics { widths }
    }
}

/// The width of a prefix is at most that of the whole sequence.
pub proof fn lemma_bytes_width_prefix(m: Map<u8, u16>, s: Seq<u8>, i: int)
    requires
        0 <= i <= s.len(),
    ensures
        bytes_width(m, s.take(i)) <= bytes_width(m, s),
    decreases s.len(),
{
    if i < s.len() {
        lemma_bytes_width_prefix(m, s.drop_last(), i);
        assert(s.drop_last().take(i) =~= s.take(i));
    } else {
        assert(s.take(i) =~= s);
    }
}

/// Widths add up: the width of two code sequences one after the other is
/// the sum of their widths.
pub proof fn lemma_bytes_width_concat(m: Map<u8, u16>, a: Seq<u8>, b: Seq<u8>)
    ensures
        bytes_width(m, a + b) == bytes_width(m, a) + bytes_width(m, b),
    decreases b.len(),
{
    if b.len() == 0 {
        assert(a + b =~= a);
    } else {
        lemma_bytes_width_concat(m, a, b.drop_last());
        assert((a + b).drop_last() =~= a + b.drop_last());
        assert((a + b).last() == b.last());
    }
}

/// The width of a text is the sum of the widths of its parts: for any
/// metrics, the width of `a` followed by `b` is the width of `a` plus the
/// width of `b`.
pub proof fn lemma_text_width_concat(m: Map<u8, u16>, a: Seq<char>, b: Seq<char>)
    ensures
        text_width(m, a + b) == text_width(m, a) + text_width(m, b),
{
    lemma_encode_text_concat(a, b);
    lemma_bytes_width_concat(m, encode_text(a), encode_text(b));
}

/// No character code is wider than 65535.
pub proof fn lemma_bytes_width_bound(m: Map<u8, u16>, s: Seq<u8>)
    ensures
        bytes_width(m, s) <= 65535 * s.len(),
    decreases s.len(),
{
    if s.len() > 0 {
        lemma_bytes_width_bound(m, s.drop_last());
    }
}

/// A text is at most 131070 wide for each of its characters, so the width
/// of any text of up to 32768 characters fits in a `u32`.
pub proof fn lemma_text_width_bound(m: Map<u8, u16>, text: Seq<char>)
    ensures
        text_width(m, text) <= 131070 * text.len(),
{
    lemma_encode_text_len(text);
    lemma_bytes_width_bound(m, encode_text(text));
}

/// All the built-in fonts.
pub open spec fn all_fonts() -> Set<FontSource> {
    set![
        FontSource::Courier,
        FontSource::Courier_Bold,
        FontSource::Courier_Oblique,
        FontSource::Courier_BoldOblique,
        FontSource::Helvetica,
        FontSource::Helvetica_Bold,
        FontSource::Helvetica_Oblique,
        FontSource::Helvetica_BoldOblique,
        FontSource::Times_Roman,
        FontSource::Times_Bold,
        FontSource::Times_Italic,
        FontSource::Times_BoldItalic,
        FontSource::Symbol,
        FontSource::ZapfDingbats,
    ]
}

/// There are fourteen built-in fonts, so a list of distinct fonts holds at
/// most fourteen.
pub proof fn lemma_distinct_fonts_len(s: Seq<FontSource>)
    requires
        forall|i: int, j: int| 0 <= i < j < s.len() ==> s[i] != s[j],
    ensures
        s.len() <= 14,
{
    broadcast use vstd::set::group_set_axioms, vstd::seq_lib::seq_to_set_is_finite;

    assert(s.no_duplicates()) by {
        assert forall|i: int, j: int|
            0 <= i < s.len() && 0 <= j < s.len() && i != j implies s[i] != s[j] by {
            if i < j {
                assert(s[i] != s[j]);
            } else {
                assert(s[j] != s[i]);
            }
        }
    }
    s.unique_seq_to_set();
    assert forall|f: FontSource| s.to_set().contains(f) implies all_fonts().contains(f) by {
        match f {
            FontSource::Courier => {},
            FontSource::Courier_Bold => {},
            FontSource::Courier_Oblique => {},
            FontSource::Courier_BoldOblique => {},
            FontSource::Helvetica => {},
            FontSource::Helvetica_Bold => {},
            FontSource::Helvetica_Oblique => {},
            FontSource::Helvetica_BoldOblique => {},
            FontSource::Times_Roman => {},
            FontSource::Times_Bold => {},
            FontSource::Times_Italic => {},
            FontSource::Times_BoldItalic => {},
            FontSource::Symbol => {},
            FontSource::ZapfDingbats => {},
        }
    }
    assert(all_fonts().finite() && all_fonts().len() <= 14);
    vstd::set_lib::lemma_len_subset(s.to_set(), all_fonts());
}

/// The "Base14" built-in fonts in PDF.
/// Underscores in these names are hyphens in the real names.
#[allow(non_camel_case_types)]
#[derive(Clone, Copy, Debug, PartialEq, Eq, Structural, Hash)]
pub enum FontSource {
    Courier,
    Courier_Bold,
    Courier_Oblique,
    Courier_BoldOblique,
    Helvetica,
    Helvetica_Bold,
    Helvetica_Oblique,
    Helvetica_BoldOblique,
    Times_Roman,
    Times_Bold,
    Times_Italic,
    Times_BoldItalic,
    Symbol,
    ZapfDingbats,
}

/// The name of a font's variant, as it is spelled in `FontSource`.
pub open spec fn variant_name(font: FontSource) -> Seq<char> {
    match font {
        FontSource::Courier => "Courier"@,
        FontSource::Courier_Bold => "Courier_Bold"@,
        FontSource::Courier_Oblique => "Courier_Oblique"@,
        FontSource::Courier_BoldOblique => "Courier_BoldOblique"@,
        FontSource::Helvetica => "Helvetica"@,
        FontSource::Helvetica_Bold => "Helvetica_Bold"@,
        FontSource::Helvetica_Oblique => "Helvetica_Oblique"@,
        FontSource::Helvetica_BoldOblique => "Helvetica_BoldOblique"@,
        FontSource::Times_Roman => "Times_Roman"@,
        FontSource::Times_Bold => "Times_Bold"@,
        FontSource::Times_Italic => "Times_Italic"@,
        FontSource::Times_BoldItalic => "Times_BoldItalic"@,
        FontSource::Symbol => "Symbol"@,
        FontSource::ZapfDingbats => "ZapfDingbats"@,
    }
}

/// A name with a hyphen for each underscore.
pub open spec fn hyphenated(name: Seq<char>) -> Seq<char> {
    name.map_values(|c: char| if c == '_' { '-' } else { c })
}

/// The PDF name of every built-in font, which `pdf_name` gives and the
/// font dictionary writes after `/BaseFont`, is the name of its variant
/// with hyphens for the underscores: `Helvetica_Oblique` is
/// `Helvetica-Oblique`.
pub proof fn lemma_pdf_name_is_variant_name(font: FontSource)
    ensures
        pdf_name_of(font) == hyphenated(variant_name(font)),
{
    match font {
        FontSource::Courier => {
            reveal_strlit("Courier");
            reveal_strlit("Courier");
        },
        FontSource::Courier_Bold => {
            reveal_strlit("Courier_Bold");
            reveal_strlit("Courier-Bold");
        },
        FontSource::Courier_Oblique => {
            reveal_strlit("Courier_Oblique");
            reveal_strlit("Courier-Oblique");
        },
        FontSource::Courier_BoldOblique => {
            reveal_strlit("Courier_BoldOblique");
            reveal_strlit("Courier-BoldOblique");
        },
        FontSource::Helvetica => {
            reveal_strlit("Helvetica");
            reveal_strlit("Helvetica");
        },
        FontSource::Helvetica_Bold => {
            reveal_strlit("Helvetica_Bold");
            reveal_strlit("Helvetica-Bold");
        },
        FontSource::Helvetica_Oblique => {
            reveal_strlit("Helvetica_Oblique");
            reveal_strlit("Helvetica-Oblique");
        },
        FontSource::Helvetica_BoldOblique => {
            reveal_strlit("Helvetica_BoldOblique");
            reveal_strlit("Helvetica-BoldOblique");
        },
        FontSource::Times_Roman => {
            reveal_strlit("Times_Roman");
            reveal_strlit("Times-Roman");
        },
        FontSource::Times_Bold => {
            reveal_strlit("Times_Bold");
            reveal_strlit("Times-Bold");
        },
        FontSource::Times_Italic => {
            reveal_strlit("Times_Italic");
            reveal_strlit("Times-Italic");
        },
        FontSource::Times_BoldItalic => {
            reveal_strlit("Times_BoldItalic");
            reveal_strlit("Times-BoldItalic");
        },
        FontSource::Symbol => {
            reveal_strlit("Symbol");
            reveal_strlit("Symbol");
        },
        FontSource::ZapfDingbats => {
            reveal_strlit("ZapfDingbats");
            reveal_strlit("ZapfDingbats");
        },
    }
    assert(pdf_name_of(font) =~= hyphenated(variant_name(font)));
}

/// The PDF name of a built-in font: its variant's name with hyphens for
/// the underscores.
pub open spec fn pdf_name_of(font: FontSource) -> Seq<char> {
    match font {
        FontSource::Courier => "Courier"@,
        FontSource::Courier_Bold => "Courier-Bold"@,
        FontSource::Courier_Oblique => "Courier-Oblique"@,
        FontSource::Courier_BoldOblique => "Courier-BoldOblique"@,
        FontSource::Helvetica => "Helvetica"@,
        FontSource::Helvetica_Bold => "Helvetica-Bold"@,
        FontSource::Helvetica_Oblique => "Helvetica-Oblique"@,
        FontSource::Helvetica_BoldOblique => "Helvetica-BoldOblique"@,
        FontSource::Times_Roman => "Times-Roman"@,
        FontSource::Times_Bold => "Times-Bold"@,
        FontSource::Times_Italic => "Times-Italic"@,
        FontSource::Times_BoldItalic => "Times-BoldItalic"@,
        FontSource::Symbol => "Symbol"@,
        FontSource::ZapfDingbats => "ZapfDingbats"@,
    }
}

impl FontSource {
    /// The name of the font as a `&str`.
    pub(crate) fn name_str(&self) -> (name: &'static str)
        ensures
            name@ == pdf_name_of(*self),
    {
        match self {
            FontSource::Courier => "Courier",
            FontSource::Courier_Bold => "Courier-Bold",
            FontSource::Courier_Oblique => "Courier-Oblique",
            FontSource::Courier_BoldOblique => "Courier-BoldOblique",
            FontSource::Helvetica => "Helvetica",
            FontSource::Helvetica_Bold => "Helvetica-Bold",
            FontSource::Helvetica_Oblique => "Helvetica-Oblique",
            FontSource::Helvetica_BoldOblique => "Helvetica-BoldOblique",
            FontSource::Times_Roman => "Times-Roman",
            FontSource::Times_Bold => "Times-Bold",
            FontSource::Times_Italic => "Times-Italic",
            FontSource::Times_BoldItalic => "Times-BoldItalic",
            FontSource::Symbol => "Symbol",
            FontSource::ZapfDingbats => "ZapfDingbats",
        }
    }

    /// Get the PDF name of this font, such as `Times-Roman` for
    /// `FontSource::Times_Roman`.
    pub fn pdf_name(&self) -> (name: String)
        ensures
            name@ == pdf_name_of(*self),
    {
        self.name_str().to_owned()
    }

    /// Get the width of a string in thousands of unit of text space, given
    /// this font's metrics where they could be had (the width is 0 where
    /// they could not).
    pub fn get_width_raw(&self, text: &str, metrics: Option<&FontMetrics>) -> (width: u32)
        requires
            metrics matches Some(m) ==> text_width(m@, text@) <= u32::MAX,
        ensures
            width == match metrics {
                Some(m) => text_width(m@, text@),
                None => 0,
            },
    {
        match metrics {
            Some(m) => {
                let encoded = encode_string(text);
                m.bytes_width(&encoded)
            },
            None => 0,
        }
    }

    /// The width that `get_width_raw` gives, where it fits in a `u32`.
    pub fn checked_width_raw(&self, text: &str, metrics: Option<&FontMetrics>) -> (width:
        Option<u32>)
        ensures
            width == match metrics {
                Some(m) => if text_width(m@, text@) <= u32::MAX {
                    Some(text_width(m@, text@) as u32)
                } else {
                    None
                },
                None => Some(0u32),
            },
    {
        match metrics {
            Some(m) => {
                let encoded = encode_string(text);
                m.checked_bytes_width(&encoded)
            },
            None => Some(0),
        }
    }
}

/// A font as used on a page: its number in the page's font resources and
/// its metrics.
#[derive(Debug, PartialEq, Eq, Hash)]
pub struct FontRef {
    n: usize,
    metrics: FontMetrics,
}

impl FontRef {
    /// The font's number on its page; it is named `/F` and this number.
    pub closed spec fn number(&self) -> nat {
        self.n as nat
    }

    /// The font's glyph widths.
    pub closed spec fn widths(&self) -> Map<u8, u16> {
        self.metrics@
    }

    /// A reference with number `n` to a font with metrics `metrics`.
    pub(crate) fn new(n: usize, metrics: FontMetrics) -> (r: FontRef)
        ensures
            r.number() == n,
            r.widths() == metrics@,
    {
        FontRef { n, metrics }
    }

    /// The font's number on its page.
    pub fn get_number(&self) -> (n: usize)
        ensures
            n == self.number(),
    {
        self.n
    }

    /// Get the width of a string in thousands of unit of text space.
    /// This unit is what is used in some places internally in pdf files.
    pub fn get_width_raw(&self, text: &str) -> (width: u32)
        requires
            text_width(self.widths(), text@) <= u32::MAX,
        ensures
            width == text_width(self.widths(), text@),
    {
        let encoded = encode_string(text);
        self.metrics.bytes_width(&encoded)
    }

    /// The width that `get_width_raw` gives, where it fits in a `u32`.
    pub fn checked_width_raw(&self, text: &str) -> (width: Option<u32>)
        ensures
            width == (if text_width(self.widths(), text@) <= u32::MAX {
                Some(text_width(self.widths(), text@) as u32)
            } else {
                None
            }),
    {
        let encoded = encode_string(text);
        self.metrics.checked_bytes_width(&encoded)
    }

    /// Appends the name of the font resource, `/F` and the font's number.
    pub fn write_name(&self, out: &mut Vec<u8>)
        ensures
            final(out)@ == old(out)@ + font_resource_name(self.number()),
    {
        push_str(out, "/F");
        push_decimal(out, self.n as u64);
    }
}

/// The name of font resource number `n`: `/F` and `n` in decimal.
pub open spec fn font_resource_name(n: nat) -> Seq<u8> {
    text_bytes("/F"@) + decimal(n)
}

impl Clone for FontRef {
    fn clone(&self) -> (copy: Self)
        ensures
            copy.number() == self.number(),
            copy.widths() == self.widths(),
    {
        FontRef { n: self.n, metrics: self.metrics.clone() }
    }
}

} // verus!
