//! The WinAnsiEncoding of text shown with the built-in fonts, with the
//! escapes that a PDF string literal needs.

use vstd::prelude::*;

verus! {

/// The WinAnsiEncoding code of a character, where it has one: the
/// printable ASCII characters and Latin-1 from U+00A0 keep their own
/// number, and the Windows-1252 additions take the codes 0x80 to 0x9F.
pub open spec fn win_ansi_code(c: char) -> Option<u8> {
    let u = c as u32;
    if (32 <= u && u <= 126) || (160 <= u && u <= 255) {
        Some(u as u8)
    } else if u == 0x20AC {
        Some(0x80u8)
    } else if u == 0x201A {
        Some(0x82u8)
    } else if u == 0x0192 {
        Some(0x83u8)
    } else if u == 0x201E {
        Some(0x84u8)
    } else if u == 0x2026 {
        Some(0x85u8)
    } else if u == 0x2020 {
        Some(0x86u8)
    } else if u == 0x2021 {
        Some(0x87u8)
    } else if u == 0x02C6 {
        Some(0x88u8)
    } else if u == 0x2030 {
        Some(0x89u8)
    } else if u == 0x0160 {
        Some(0x8Au8)
    } else if u == 0x2039 {
        Some(0x8Bu8)
    } else if u == 0x0152 {
        Some(0x8Cu8)
    } else if u == 0x017D {
        Some(0x8Eu8)
    } else if u == 0x2018 {
        Some(0x91u8)
    } else if u == 0x2019 {
        Some(0x92u8)
    } else if u == 0x201C {
        Some(0x93u8)
    } else if u == 0x201D {
        Some(0x94u8)
    } else if u == 0x2022 {
        Some(0x95u8)
    } else if u == 0x2013 {
        Some(0x96u8)
    } else if u == 0x2014 {
        Some(0x97u8)
    } else if u == 0x02DC {
        Some(0x98u8)
    } else if u == 0x2122 {
        Some(0x99u8)
    } else if u == 0x0161 {
        Some(0x9Au8)
    } else if u == 0x203A {
        Some(0x9Bu8)
    } else if u == 0x0153 {
        Some(0x9Cu8)
    } else if u == 0x017E {
        Some(0x9Eu8)
    } else if u == 0x0178 {
        Some(0x9Fu8)
    } else {
        None
    }
}

/// The graphic character that byte `b` stands for in Windows-1252, where
/// it stands for one: the table of the code page, read from byte to
/// character.
pub open spec fn windows_1252_char(b: u8) -> Option<char> {
    if (32 <= b && b <= 126) || 160 <= b {
        Some(b as char)
    } else if b == 0x80 {
        Some('\u{20AC}')
    } else if b == 0x82 {
        Some('\u{201A}')
    } else if b == 0x83 {
        Some('\u{0192}')
    } else if b == 0x84 {
        Some('\u{201E}')
    } else if b == 0x85 {
        Some('\u{2026}')
    } else if b == 0x86 {
        Some('\u{2020}')
    } else if b == 0x87 {
        Some('\u{2021}')
    } else if b == 0x88 {
        Some('\u{02C6}')
    } else if b == 0x89 {
        Some('\u{2030}')
    } else if b == 0x8A {
        Some('\u{0160}')
    } else if b == 0x8B {
        Some('\u{2039}')
    } else if b == 0x8C {
        Some('\u{0152}')
    } else if b == 0x8E {
        Some('\u{017D}')
    } else if b == 0x91 {
        Some('\u{2018}')
    } else if b == 0x92 {
        Some('\u{2019}')
    } else if b == 0x93 {
        Some('\u{201C}')
    } else if b == 0x94 {
        Some('\u{201D}')
    } else if b == 0x95 {
        Some('\u{2022}')
    } else if b == 0x96 {
        Some('\u{2013}')
    } else if b == 0x97 {
        Some('\u{2014}')
    } else if b == 0x98 {
        Some('\u{02DC}')
    } else if b == 0x99 {
        Some('\u{2122}')
    } else if b == 0x9A {
        Some('\u{0161}')
    } else if b == 0x9B {
        Some('\u{203A}')
    } else if b == 0x9C {
        Some('\u{0153}')
    } else if b == 0x9E {
        Some('\u{017E}')
    } else if b == 0x9F {
        Some('\u{0178}')
    } else {
        None
    }
}

/// The encoding is Windows-1252 read the other way: every graphic character
/// of the code page encodes to its byte, and every code that the encoding
/// gives is the byte of that character in the code page. So a character
/// that the code page has is never shown as `?`, and, unless it is `(`,
/// `)` or `\\`, is shown as its byte alone.
pub proof fn lemma_win_ansi_is_windows_1252(b: u8, c: char)
    ensures
        windows_1252_char(b) == Some(c) ==> win_ansi_code(c) == Some(b),
        win_ansi_code(c) == Some(b) ==> windows_1252_char(b) == Some(c),
        windows_1252_char(b) == Some(c) && c != '(' && c != ')' && c != '\\'
            ==> encode_text(seq![c]) == seq![b],
{
    let u = c as u32;
    if (32 <= b && b <= 126) || 160 <= b {
        assert(((b as char) as u32) as u8 == b);
    }
    if (32 <= u && u <= 126) || (160 <= u && u <= 255) {
        assert(((u as u8) as char) == c);
    }
    assert(seq![c].drop_last() =~= Seq::<char>::empty());
    assert(seq![c].last() == c);
    assert(encode_text(Seq::<char>::empty()) =~= Seq::<u8>::empty());
    assert(encode_text(seq![c]) =~= encode_char_bytes(c));
}

/// The bytes that stand for one character inside a PDF string literal:
/// a backslash before `\`, `(` and `)`, the character's WinAnsiEncoding
/// code otherwise, and `?` for a character that the encoding lacks.
pub open spec fn encode_char_bytes(c: char) -> Seq<u8> {
    let u = c as u32;
    if u == 92 || u == 40 || u == 41 {
        seq![92u8, u as u8]
    } else {
        match win_ansi_code(c) {
            Some(b) => seq![b],
            None => seq![63u8],
        }
    }
}

/// The encoding of a whole text, character by character.
pub open spec fn encode_text(s: Seq<char>) -> Seq<u8>
    decreases s.len(),
{
    if s.len() == 0 {
        Seq::empty()
    } else {
        encode_text(s.drop_last()) + encode_char_bytes(s.last())
    }
}

/// The WinAnsiEncoding code of `ch`, or `None` where the encoding has no
/// code for it.
pub fn encode_char(ch: char) -> (code: Option<u8>)
    ensures
        code == win_ansi_code(ch),
{
    let u = ch as u32;
    if (32 <= u && u <= 126) || (160 <= u && u <= 255) {
        Some(u as u8)
    } else if u == 0x20AC {
        Some(0x80u8)
    } else if u == 0x201A {
        Some(0x82u8)
    } else if u == 0x0192 {
        Some(0x83u8)
    } else if u == 0x201E {
        Some(0x84u8)
    } else if u == 0x2026 {
        Some(0x85u8)
    } else if u == 0x2020 {
        Some(0x86u8)
    } else if u == 0x2021 {
        Some(0x87u8)
    } else if u == 0x02C6 {
        Some(0x88u8)
    } else if u == 0x2030 {
        Some(0x89u8)
    } else if u == 0x0160 {
        Some(0x8Au8)
    } else if u == 0x2039 {
        Some(0x8Bu8)
    } else if u == 0x0152 {
        Some(0x8Cu8)
    } else if u == 0x017D {
        Some(0x8Eu8)
    } else if u == 0x2018 {
        Some(0x91u8)
    } else if u == 0x2019 {
        Some(0x92u8)
    } else if u == 0x201C {
        Some(0x93u8)
    } else if u == 0x201D {
        Some(0x94u8)
    } else if u == 0x2022 {
        Some(0x95u8)
    } else if u == 0x2013 {
        Some(0x96u8)
    } else if u == 0x2014 {
        Some(0x97u8)
    } else if u == 0x02DC {
        Some(0x98u8)
    } else if u == 0x2122 {
        Some(0x99u8)
    } else if u == 0x0161 {
        Some(0x9Au8)
    } else if u == 0x203A {
        Some(0x9Bu8)
    } else if u == 0x0153 {
        Some(0x9Cu8)
    } else if u == 0x017E {
        Some(0x9Eu8)
    } else if u == 0x0178 {
        Some(0x9Fu8)
    } else {
        None
    }
}

/// Appends the bytes that stand for `ch` in a PDF string literal.
pub fn push_encoded_char(out: &mut Vec<u8>, ch: char)
    ensures
        final(out)@ == old(out)@ + encode_char_bytes(ch),
{
    let u = ch as u32;
    if u == 92 || u == 40 || u == 41 {
        out.push(92u8);
        out.push(u as u8);
    } else {
        match encode_char(ch) {
            Some(b) => out.push(b),
            None => out.push(63u8),
        }
    }
    assert(out@ =~= old(out)@ + encode_char_bytes(ch));
}

/// Encodes `text` for a PDF string literal in WinAnsiEncoding.
pub fn encode_string(text: &str) -> (bytes: Vec<u8>)
    ensures
        bytes@ == encode_text(text@),
{
    let mut result: Vec<u8> = Vec::new();
    for ch in it: text.chars()
        invariant
            it.seq() == text@,
            result@ == encode_text(text@.take(it.index() as int)),
    {
        let ghost before = text@.take(it.index() as int);
        push_encoded_char(&mut result, ch);
        assert(text@.take(it.index() as int + 1).drop_last() =~= before);
    }
    assert(text@.take(text@.len() as int) =~= text@);
    result
}

/// Encoding works character by character: the encoding of two texts one
/// after the other is the two encodings one after the other.
pub proof fn lemma_encode_text_concat(a: Seq<char>, b: Seq<char>)
    ensures
        encode_text(a + b) == encode_text(a) + encode_text(b),
    decreases b.len(),
{
    if b.len() == 0 {
        assert(a + b =~= a);
        assert(encode_text(a) + encode_text(b) =~= encode_text(a));
    } else {
        lemma_encode_text_concat(a, b.drop_last());
        assert((a + b).drop_last() =~= a + b.drop_last());
        assert((a + b).last() == b.last());
        assert(encode_text(a + b) =~= encode_text(a) + encode_text(b));
    }
}

/// A character takes one or two bytes once encoded.
pub proof fn lemma_encode_text_len(s: Seq<char>)
    ensures
        s.len() <= encode_text(s).len() <= 2 * s.len(),
    decreases s.len(),
{
    if s.len() > 0 {
        lemma_encode_text_len(s.drop_last());
    }
}

/// The content of a PDF string literal that does not end early: every `(`,
/// `)` and `\\` in it comes after a backslash that escapes it.
pub open spec fn escaped_literal(b: Seq<u8>) -> bool
    decreases b.len(),
{
    if b.len() == 0 {
        true
    } else if b[0] == 92 {
        b.len() >= 2 && escaped_literal(b.skip(2))
    } else {
        b[0] != 40 && b[0] != 41 && escaped_literal(b.skip(1))
    }
}

/// Two escaped literal contents one after the other make one.
pub proof fn lemma_escaped_literal_concat(a: Seq<u8>, b: Seq<u8>)
    requires
        escaped_literal(a),
        escaped_literal(b),
    ensures
        escaped_literal(a + b),
    decreases a.len(),
{
    if a.len() == 0 {
        assert(a + b =~= b);
    } else if a[0] == 92 {
        lemma_escaped_literal_concat(a.skip(2), b);
        assert((a + b).skip(2) =~= a.skip(2) + b);
    } else {
        lemma_escaped_literal_concat(a.skip(1), b);
        assert((a + b).skip(1) =~= a.skip(1) + b);
    }
}

/// Shown text cannot end its string literal early: the encoding of any text
/// escapes every parenthesis and backslash in it.
pub proof fn lemma_encode_text_escaped(s: Seq<char>)
    ensures
        escaped_literal(encode_text(s)),
    decreases s.len(),
{
    if s.len() > 0 {
        lemma_encode_text_escaped(s.drop_last());
        let c = s.last();
        let e = encode_char_bytes(c);
        assert(escaped_literal(Seq::<u8>::empty()));
        let u = c as u32;
        if u == 92 || u == 40 || u == 41 {
            assert(e.skip(2) =~= Seq::<u8>::empty());
        } else {
            assert(e.skip(1) =~= Seq::<u8>::empty());
            if (32 <= u && u <= 126) || (160 <= u && u <= 255) {
                assert((u as u8) as u32 == u) by (bit_vector)
                    requires
                        u <= 255,
                ;
            }
            assert(e[0] != 40 && e[0] != 41 && e[0] != 92);
        }
        assert(escaped_literal(e));
        lemma_escaped_literal_concat(encode_text(s.drop_last()), e);
    }
}

} // verus!
