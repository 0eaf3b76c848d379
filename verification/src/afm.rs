//! Glyph widths read from an Adobe Font Metrics file: each character metric
//! line `C code ; WX width ; ...` gives the width of a character code.

use vstd::prelude::*;

use crate::bytes::decimal;
use crate::fonts::FontMetrics;

verus! {

/// A byte that separates the words of a line.
pub open spec fn is_blank(b: u8) -> bool {
    b == 32 || b == 9 || b == 13 || b == 11 || b == 12
}

/// The words of a line: its maximal runs of bytes that are not blank.
pub open spec fn words(s: Seq<u8>) -> Seq<Seq<u8>>
    decreases s.len(),
{
    if s.len() == 0 {
        Seq::empty()
    } else {
        let w = words(s.drop_last());
        let b = s.last();
        if is_blank(b) {
            w
        } else if s.len() >= 2 && !is_blank(s[s.len() - 2]) {
            w.drop_last().push(w.last().push(b))
        } else {
            w.push(seq![b])
        }
    }
}

/// A decimal digit.
pub open spec fn is_digit(b: u8) -> bool {
    48 <= b <= 57
}

/// The value of a sequence of decimal digits.
pub open spec fn digits_value(s: Seq<u8>) -> nat
    decreases s.len(),
{
    if s.len() == 0 {
        0
    } else {
        digits_value(s.drop_last()) * 10 + (s.last() - 48) as nat
    }
}

/// The number that a word of decimal digits stands for, where it is one and
/// it is at most `max`.
pub open spec fn parse_number(s: Seq<u8>, max: nat) -> Option<nat> {
    if s.len() > 0 && (forall|i: int| 0 <= i < s.len() ==> is_digit(#[trigger] s[i]))
        && digits_value(s) <= max {
        Some(digits_value(s))
    } else {
        None
    }
}

/// The character code and width that a character metric line gives: its
/// first word is `C`, its fourth `WX`, and its second and fifth are the
/// code and the width.
pub open spec fn char_metric(line: Seq<u8>) -> Option<(u8, u16)> {
    let w = words(line);
    if w.len() >= 5 && w[0] == seq![67u8] && w[3] == seq![87u8, 88u8] {
        match (parse_number(w[1], 255), parse_number(w[4], 65535)) {
            (Some(c), Some(x)) => Some((c as u8, x as u16)),
            _ => None,
        }
    } else {
        None
    }
}

/// The lines of a text, split at each newline; the last one is what follows
/// the last newline.
pub open spec fn lines(s: Seq<u8>) -> Seq<Seq<u8>>
    decreases s.len(),
{
    if s.len() == 0 {
        seq![Seq::empty()]
    } else {
        let l = lines(s.drop_last());
        if s.last() == 10 {
            l.push(Seq::empty())
        } else {
            l.drop_last().push(l.last().push(s.last()))
        }
    }
}

/// The widths that a sequence of lines gives, a later line for a code
/// replacing an earlier one.
pub open spec fn widths_from_lines(ls: Seq<Seq<u8>>) -> Map<u8, u16>
    decreases ls.len(),
{
    if ls.len() == 0 {
        Map::empty()
    } else {
        let m = widths_from_lines(ls.drop_last());
        match char_metric(ls.last()) {
            Some((c, w)) => m.insert(c, w),
            None => m,
        }
    }
}

/// The widths that a font metrics file gives.
pub open spec fn afm_widths(source: Seq<u8>) -> Map<u8, u16> {
    widths_from_lines(lines(source))
}

/// The character metric line `C code ; WX width ;`, the numbers in decimal.
pub open spec fn metric_line(code: nat, width: nat) -> Seq<u8> {
    seq![67u8, 32u8] + decimal(code) + seq![32u8, 59u8, 32u8, 87u8, 88u8, 32u8] + decimal(width)
        + seq![32u8, 59u8]
}

/// The decimal digits of `n` are digits, and stand for `n`.
proof fn lemma_decimal_digits(n: nat)
    ensures
        decimal(n).len() >= 1,
        forall|i: int| 0 <= i < decimal(n).len() ==> is_digit(#[trigger] decimal(n)[i]),
        digits_value(decimal(n)) == n,
    decreases n,
{
    let d = decimal(n);
    if n >= 10 {
        lemma_decimal_digits(n / 10);
        assert(d.drop_last() =~= decimal(n / 10));
        assert(d.last() == (48 + n % 10) as u8);
        assert forall|i: int| 0 <= i < d.len() implies is_digit(#[trigger] d[i]) by {
            if i < d.len() - 1 {
                assert(d[i] == decimal(n / 10)[i]);
            }
        }
        assert(digits_value(d) == digits_value(decimal(n / 10)) * 10 + (d.last() - 48) as nat);
    } else {
        assert(d.drop_last() =~= Seq::<u8>::empty());
        assert(digits_value(d) == digits_value(Seq::<u8>::empty()) * 10 + (d.last() - 48) as nat);
    }
}

/// A blank at the end of a line adds no word.
proof fn lemma_words_blank(s: Seq<u8>, b: u8)
    requires
        is_blank(b),
    ensures
        words(s.push(b)) == words(s),
{
    assert(s.push(b).drop_last() =~= s);
}

/// A run of bytes that are not blank, after nothing or after a blank, is
/// one more word.
proof fn lemma_words_word(s: Seq<u8>, t: Seq<u8>)
    requires
        s.len() == 0 || is_blank(s.last()),
        t.len() >= 1,
        forall|i: int| 0 <= i < t.len() ==> !is_blank(#[trigger] t[i]),
    ensures
        words(s + t) == words(s).push(t),
    decreases t.len(),
{
    let st = s + t;
    assert(st.drop_last() =~= s + t.drop_last());
    assert(st.last() == t.last());
    assert(!is_blank(t[t.len() - 1]));
    if t.len() == 1 {
        assert(s + t.drop_last() =~= s);
        assert(seq![t.last()] =~= t);
    } else {
        lemma_words_word(s, t.drop_last());
        assert(st[st.len() - 2] == t[t.len() - 2]);
        assert(!is_blank(t[t.len() - 2]));
        assert(t.drop_last().push(t.last()) =~= t);
    }
}

/// A text without a newline is one line.
proof fn lemma_lines_single(s: Seq<u8>)
    requires
        forall|i: int| 0 <= i < s.len() ==> #[trigger] s[i] != 10,
    ensures
        lines(s) == seq![s],
    decreases s.len(),
{
    if s.len() > 0 {
        lemma_lines_single(s.drop_last());
        assert(s.drop_last().push(s.last()) =~= s);
        assert(s[s.len() - 1] != 10);
    } else {
        assert(s =~= Seq::<u8>::empty());
    }
}

/// Every character code and width can be read: the line
/// `C code ; WX width ;` gives `code` the width `width`, for each of the
/// 256 codes and every width that fits in 16 bits, and a file of that line
/// alone gives the width of that code and of no other.
pub proof fn lemma_metric_line_read(code: u8, width: u16)
    ensures
        char_metric(metric_line(code as nat, width as nat)) == Some((code, width)),
        afm_widths(metric_line(code as nat, width as nat)) == Map::<u8, u16>::empty().insert(
            code,
            width,
        ),
{
    let dc = decimal(code as nat);
    let dw = decimal(width as nat);
    lemma_decimal_digits(code as nat);
    lemma_decimal_digits(width as nat);
    assert forall|i: int| 0 <= i < dc.len() implies !is_blank(#[trigger] dc[i]) by {
        assert(is_digit(dc[i]));
    }
    assert forall|i: int| 0 <= i < dw.len() implies !is_blank(#[trigger] dw[i]) by {
        assert(is_digit(dw[i]));
    }
    let l1 = Seq::<u8>::empty() + seq![67u8];
    lemma_words_word(Seq::<u8>::empty(), seq![67u8]);
    let l2 = l1.push(32u8);
    lemma_words_blank(l1, 32u8);
    let l3 = l2 + dc;
    lemma_words_word(l2, dc);
    let l4 = l3.push(32u8);
    lemma_words_blank(l3, 32u8);
    let l5 = l4 + seq![59u8];
    lemma_words_word(l4, seq![59u8]);
    let l6 = l5.push(32u8);
    lemma_words_blank(l5, 32u8);
    let l7 = l6 + seq![87u8, 88u8];
    lemma_words_word(l6, seq![87u8, 88u8]);
    let l8 = l7.push(32u8);
    lemma_words_blank(l7, 32u8);
    let l9 = l8 + dw;
    lemma_words_word(l8, dw);
    let l10 = l9.push(32u8);
    lemma_words_blank(l9, 32u8);
    let l11 = l10 + seq![59u8];
    lemma_words_word(l10, seq![59u8]);
    let line = metric_line(code as nat, width as nat);
    assert(line =~= l11);
    let w = words(line);
    assert(words(Seq::<u8>::empty()) =~= Seq::<Seq<u8>>::empty());
    assert(w =~= seq![seq![67u8], dc, seq![59u8], seq![87u8, 88u8], dw, seq![59u8]]);
    assert(parse_number(w[1], 255) == Some(code as nat));
    assert(parse_number(w[4], 65535) == Some(width as nat));
    assert forall|i: int| 0 <= i < line.len() implies #[trigger] line[i] != 10 by {
        if 2 <= i < 2 + dc.len() {
            assert(line[i] == dc[i - 2]);
            assert(is_digit(dc[i - 2]));
        } else if 2 + dc.len() + 6 <= i < 2 + dc.len() + 6 + dw.len() {
            assert(line[i] == dw[i - 2 - dc.len() - 6]);
            assert(is_digit(dw[i - 2 - dc.len() - 6]));
        }
    }
    assert(char_metric(line) == Some((code, width)));
    lemma_lines_single(line);
    assert(seq![line].drop_last() =~= Seq::<Seq<u8>>::empty());
    assert(seq![line].last() == line);
    assert(widths_from_lines(Seq::<Seq<u8>>::empty()) == Map::<u8, u16>::empty());
    assert(widths_from_lines(seq![line]) == widths_from_lines(Seq::<Seq<u8>>::empty()).insert(
        code,
        width,
    ));
}

/// A line that ends in a byte that is not blank has a last word.
proof fn lemma_words_nonempty(s: Seq<u8>)
    requires
        s.len() >= 1,
        !is_blank(s.last()),
    ensures
        words(s).len() >= 1,
{
}

/// The value of a prefix of digits is at most that of the whole.
proof fn lemma_digits_value_prefix(s: Seq<u8>, i: int)
    requires
        0 <= i <= s.len(),
    ensures
        digits_value(s.take(i)) <= digits_value(s),
    decreases s.len(),
{
    if i < s.len() {
        lemma_digits_value_prefix(s.drop_last(), i);
        assert(s.drop_last().take(i) =~= s.take(i));
    } else {
        assert(s.take(i) =~= s);
    }
}

/// The words of `line`, each as a vector of bytes.
fn split_words(line: &[u8]) -> (ws: Vec<Vec<u8>>)
    ensures
        ws@.map_values(|w: Vec<u8>| w@) == words(line@),
{
    let mut ws: Vec<Vec<u8>> = Vec::new();
    let mut i: usize = 0;
    while i < line.len()
        invariant
            i <= line@.len(),
            ws@.map_values(|w: Vec<u8>| w@) == words(line@.take(i as int)),
        decreases line@.len() - i,
    {
        let b = line[i];
        let ghost prefix = line@.take(i as int + 1);
        assert(prefix.drop_last() =~= line@.take(i as int));
        assert(prefix.last() == b);
        let blank = b == 32 || b == 9 || b == 13 || b == 11 || b == 12;
        if blank {
        } else if i >= 1 && !(line[i - 1] == 32 || line[i - 1] == 9 || line[i - 1] == 13
            || line[i - 1] == 11 || line[i - 1] == 12) {
            assert(prefix[prefix.len() - 2] == line@[i - 1]);
            proof {
                lemma_words_nonempty(line@.take(i as int));
            }
            let mut last = ws.pop().unwrap();
            last.push(b);
            ws.push(last);
        } else {
            let mut w: Vec<u8> = Vec::new();
            w.push(b);
            ws.push(w);
            assert(w@ =~= seq![b]);
        }
        assert(ws@.map_values(|w: Vec<u8>| w@) =~= words(prefix));
        i = i + 1;
    }
    assert(line@.take(line@.len() as int) =~= line@);
    ws
}

/// The number that `word` stands for, where it is all decimal digits and at
/// most `max`.
fn parse_number_exec(word: &Vec<u8>, max: u32) -> (n: Option<u32>)
    requires
        max <= 65535,
    ensures
        match parse_number(word@, max as nat) {
            Some(v) => n == Some(v as u32),
            None => n is None,
        },
{
    if word.len() == 0 {
        return None;
    }
    let mut value: u32 = 0;
    let mut i: usize = 0;
    while i < word.len()
        invariant
            i <= word@.len(),
            word@.len() > 0,
            max <= 65535,
            value == digits_value(word@.take(i as int)),
            value <= max,
            forall|k: int| 0 <= k < i ==> is_digit(#[trigger] word@[k]),
        decreases word@.len() - i,
    {
        let b = word[i];
        assert(word@.take(i as int + 1).drop_last() =~= word@.take(i as int));
        if b < 48 || b > 57 {
            assert(!is_digit(word@[i as int]));
            return None;
        }
        let next: u32 = value * 10 + (b - 48) as u32;
        if next > max {
            proof {
                lemma_digits_value_prefix(word@, i as int + 1);
            }
            return None;
        }
        value = next;
        i = i + 1;
    }
    assert(word@.take(word@.len() as int) =~= word@);
    Some(value)
}

/// Records the width that `line` gives, where it is a character metric line.
fn apply_line(metrics: &mut FontMetrics, line: &[u8])
    ensures
        final(metrics)@ == match char_metric(line@) {
            Some((c, w)) => old(metrics)@.insert(c, w),
            None => old(metrics)@,
        },
{
    let ws = split_words(line);
    let ghost w = words(line@);
    assert(ws@.len() == w.len());
    if ws.len() >= 5 && ws[0].len() == 1 && ws[0][0] == 67 && ws[3].len() == 2 && ws[3][0] == 87
        && ws[3][1] == 88 {
        assert(ws@[0]@ == w[0]);
        assert(ws@[3]@ == w[3]);
        assert(w[0] =~= seq![67u8]);
        assert(w[3] =~= seq![87u8, 88u8]);
        assert(ws@[1]@ == w[1]);
        assert(ws@[4]@ == w[4]);
        let code = parse_number_exec(&ws[1], 255);
        let width = parse_number_exec(&ws[4], 65535);
        match (code, width) {
            (Some(c), Some(x)) => {
                metrics.set_width(c as u8, x as u16);
            },
            _ => {},
        }
    } else {
        proof {
            if w.len() >= 5 && w[0] == seq![67u8] && w[3] == seq![87u8, 88u8] {
                assert(ws@[0]@ == w[0]);
                assert(ws@[3]@ == w[3]);
                assert(ws@[0]@.len() == 1 && ws@[0]@[0] == 67);
                assert(ws@[3]@.len() == 2 && ws@[3]@[0] == 87 && ws@[3]@[1] == 88);
            }
        }
    }
}

impl FontMetrics {
    /// Reads the glyph widths of an Adobe Font Metrics file: the code and
    /// `WX` width of each character metric line. Other lines, and codes or
    /// widths that are not plain decimal numbers in range, are passed over.
    pub fn parse(source: &[u8]) -> (m: FontMetrics)
        ensures
            m@ == afm_widths(source@),
    {
        let mut metrics = FontMetrics::new();
        let mut line: Vec<u8> = Vec::new();
        let ghost mut done: Seq<Seq<u8>> = Seq::empty();
        let mut i: usize = 0;
        assert(lines(source@.take(0)) =~= done.push(line@));
        while i < source.len()
            invariant
                i <= source@.len(),
                lines(source@.take(i as int)) == done.push(line@),
                metrics@ == widths_from_lines(done),
            decreases source@.len() - i,
        {
            let b = source[i];
            let ghost prefix = source@.take(i as int + 1);
            assert(prefix.drop_last() =~= source@.take(i as int));
            if b == 10 {
                apply_line(&mut metrics, line.as_slice());
                proof {
                    assert(done.push(line@).drop_last() =~= done);
                    done = done.push(line@);
                }
                line = Vec::new();
                assert(lines(prefix) =~= done.push(line@));
            } else {
                line.push(b);
                assert(lines(prefix) =~= done.push(line@));
            }
            i = i + 1;
        }
        assert(source@.take(source@.len() as int) =~= source@);
        apply_line(&mut metrics, line.as_slice());
        assert(done.push(line@).drop_last() =~= done);
        metrics
    }
}

} // verus!
