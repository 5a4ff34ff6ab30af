//! The byte-level string layer of the record and message grammar.
//!
//! Keys, values and error texts travel inside JSON string literals: an
//! opening quote, the escaped bytes of the string, a closing quote.
//! The writer is canonical: it escapes quotes and backslashes with a
//! backslash and control bytes as `\u00XX` with two lowercase hex
//! digits; every other byte — including the bytes of multi-byte UTF-8
//! characters — stands for itself.  The reader is liberal within
//! ASCII: it also accepts the short escapes `\b \t \n \f \r \/`,
//! uppercase hex digits, and `\u00XX` for any ASCII value, so logs
//! and messages written by other JSON encoders read back.

use vstd::prelude::*;

verus! {

/// The byte that opens and closes a string literal: `"`.
pub open spec fn quote_byte() -> u8 {
    34
}

/// The escape byte: `\`.
pub open spec fn backslash_byte() -> u8 {
    92
}

/// The lowercase hex digit for a value below 16.
pub open spec fn hex_digit(n: u8) -> u8
    recommends
        n < 16,
{
    if n < 10 {
        (48 + n) as u8
    } else {
        (87 + n) as u8
    }
}

/// Whether a byte is a hex digit, either case.
pub open spec fn is_hex(d: u8) -> bool {
    (48 <= d <= 57) || (97 <= d <= 102) || (65 <= d <= 70)
}

/// The value of a hex digit.
pub open spec fn hex_val(d: u8) -> u8
    recommends
        is_hex(d),
{
    if 48 <= d <= 57 {
        (d - 48) as u8
    } else if 97 <= d <= 102 {
        (d - 87) as u8
    } else if 65 <= d <= 70 {
        (d - 55) as u8
    } else {
        0
    }
}

proof fn lemma_hex_digit_is_hex(n: u8)
    requires
        n < 16,
    ensures
        is_hex(hex_digit(n)),
        hex_val(hex_digit(n)) == n,
{
}

/// How one byte of a string is written inside a string literal.
pub open spec fn esc_byte(b: u8) -> Seq<u8> {
    if b == quote_byte() {
        seq![backslash_byte(), quote_byte()]
    } else if b == backslash_byte() {
        seq![backslash_byte(), backslash_byte()]
    } else if b < 32 {
        seq![backslash_byte(), 117u8, 48u8, 48u8, hex_digit(b / 16), hex_digit(b % 16)]
    } else {
        seq![b]
    }
}

/// The escaped form of a whole string.
pub open spec fn esc_bytes(s: Seq<u8>) -> Seq<u8>
    decreases s.len(),
{
    if s.len() == 0 {
        Seq::empty()
    } else {
        esc_byte(s[0]) + esc_bytes(s.drop_first())
    }
}

/// A complete string literal: quote, escaped bytes, quote.
pub open spec fn quoted(s: Seq<u8>) -> Seq<u8> {
    seq![quote_byte()] + esc_bytes(s) + seq![quote_byte()]
}

/// The byte a short escape letter stands for, if it is one.
pub open spec fn short_escape(d: u8) -> Option<u8> {
    if d == 34 {
        Some(34u8)
    } else if d == 92 {
        Some(92u8)
    } else if d == 47 {
        Some(47u8)
    } else if d == 98 {
        Some(8u8)
    } else if d == 116 {
        Some(9u8)
    } else if d == 110 {
        Some(10u8)
    } else if d == 102 {
        Some(12u8)
    } else if d == 114 {
        Some(13u8)
    } else {
        None
    }
}

pub proof fn lemma_esc_bytes_push(s: Seq<u8>, b: u8)
    ensures
        esc_bytes(s.push(b)) == esc_bytes(s) + esc_byte(b),
    decreases s.len(),
{
    if s.len() == 0 {
        assert(s.push(b)[0] == b);
        assert(s.push(b).drop_first() =~= Seq::<u8>::empty());
        assert(esc_bytes(Seq::<u8>::empty()) =~= Seq::<u8>::empty());
        assert(esc_bytes(s.push(b)) =~= esc_bytes(s) + esc_byte(b));
    } else {
        assert(s.push(b).drop_first() =~= s.drop_first().push(b));
        lemma_esc_bytes_push(s.drop_first(), b);
        assert(esc_bytes(s.push(b)) =~= esc_bytes(s) + esc_byte(b));
    }
}

/// The parser for the body of a string literal, starting just after the
/// opening quote.  Returns the decoded bytes and the index just past
/// the closing quote.  It accepts every canonical escape the writer
/// emits, the standard short escapes, and `\u00XX` for any ASCII
/// value with hex digits of either case.
pub open spec fn parse_qbody(b: Seq<u8>, j: int) -> Option<(Seq<u8>, int)>
    decreases b.len() - j,
{
    if j < 0 || j >= b.len() {
        None
    } else if b[j] == quote_byte() {
        Some((Seq::empty(), j + 1))
    } else if b[j] == backslash_byte() {
        if j + 1 < b.len() && short_escape(b[j + 1]) is Some {
            match parse_qbody(b, j + 2) {
                Some((s, e)) => Some((seq![short_escape(b[j + 1])->Some_0] + s, e)),
                None => None,
            }
        } else if j + 5 < b.len() && b[j + 1] == 117 && b[j + 2] == 48 && b[j + 3] == 48 && is_hex(
            b[j + 4],
        ) && is_hex(b[j + 5]) && hex_val(b[j + 4]) * 16 + hex_val(b[j + 5]) < 128 {
            match parse_qbody(b, j + 6) {
                Some((s, e)) => Some(
                    (seq![(hex_val(b[j + 4]) * 16 + hex_val(b[j + 5])) as u8] + s, e),
                ),
                None => None,
            }
        } else {
            None
        }
    } else if b[j] < 32 {
        None
    } else {
        match parse_qbody(b, j + 1) {
            Some((s, e)) => Some((seq![b[j]] + s, e)),
            None => None,
        }
    }
}

/// The parser for a whole string literal starting at `i`.
pub open spec fn parse_qstr(b: Seq<u8>, i: int) -> Option<(Seq<u8>, int)> {
    if 0 <= i < b.len() && b[i] == quote_byte() {
        parse_qbody(b, i + 1)
    } else {
        None
    }
}

/// A successful body parse ends past where it started and within the
/// buffer.
pub proof fn lemma_qbody_bounds(b: Seq<u8>, j: int)
    requires
        parse_qbody(b, j) is Some,
    ensures
        j < parse_qbody(b, j)->Some_0.1 <= b.len(),
    decreases b.len() - j,
{
    if b[j] == quote_byte() {
    } else if b[j] == backslash_byte() {
        if j + 1 < b.len() && short_escape(b[j + 1]) is Some {
            lemma_qbody_bounds(b, j + 2);
        } else {
            lemma_qbody_bounds(b, j + 6);
        }
    } else {
        lemma_qbody_bounds(b, j + 1);
    }
}

/// Splits the fact that a span of `b` is a concatenation into facts
/// about the two halves of the span.
pub proof fn lemma_split_concat(b: Seq<u8>, j: int, e: int, u: Seq<u8>, rest: Seq<u8>)
    requires
        0 <= j <= e,
        e <= b.len(),
        b.subrange(j, e) == u + rest,
    ensures
        j + u.len() + rest.len() == e,
        b.subrange(j, j + u.len() as int) == u,
        b.subrange(j + u.len() as int, e) == rest,
{
    let ul = u.len() as int;
    assert(b.subrange(j, e).len() == e - j);
    assert(e - j == u.len() + rest.len());
    assert forall|i: int| 0 <= i < ul implies b.subrange(j, j + ul)[i] == u[i] by {
        assert(b.subrange(j, j + ul)[i] == b[j + i]);
        assert(b.subrange(j, e)[i] == b[j + i]);
        assert((u + rest)[i] == u[i]);
    }
    assert(b.subrange(j, j + ul) =~= u);
    assert forall|i: int| 0 <= i < rest.len() implies b.subrange(j + ul, e)[i] == rest[i] by {
        assert(b.subrange(j + ul, e)[i] == b[j + ul + i]);
        assert(b.subrange(j, e)[ul + i] == b[j + ul + i]);
        assert((u + rest)[ul + i] == rest[i]);
    }
    assert(b.subrange(j + ul, e) =~= rest);
}

/// Wherever the escaped form of a string followed by a closing quote
/// sits in a buffer, the body parser finds exactly that string.
pub proof fn lemma_qbody_complete(b: Seq<u8>, j: int, s: Seq<u8>, e: int)
    requires
        0 <= j <= e,
        e <= b.len(),
        b.subrange(j, e) == esc_bytes(s) + seq![quote_byte()],
    ensures
        parse_qbody(b, j) == Some((s, e)),
    decreases s.len(),
{
    assert(b.subrange(j, e).len() == e - j);
    if s.len() == 0 {
        assert(esc_bytes(s).len() == 0);
        assert(b.subrange(j, e)[0] == b[j]);
        assert((esc_bytes(s) + seq![quote_byte()])[0] == quote_byte());
        assert(s =~= Seq::<u8>::empty());
    } else {
        let c = s[0];
        let u = esc_byte(c);
        let rest = s.drop_first();
        let ul = u.len() as int;
        assert(esc_bytes(s) == esc_byte(c) + esc_bytes(rest));
        assert(b.subrange(j, e) == u + (esc_bytes(rest) + seq![quote_byte()])) by {
            assert(esc_bytes(s) + seq![quote_byte()] =~= u + (esc_bytes(rest) + seq![
                quote_byte(),
            ]));
        }
        lemma_split_concat(b, j, e, u, esc_bytes(rest) + seq![quote_byte()]);
        lemma_qbody_complete(b, j + ul, rest, e);
        assert forall|i: int| 0 <= i < ul implies b[j + i] == u[i] by {
            assert(b.subrange(j, j + ul)[i] == b[j + i]);
        }
        if c == quote_byte() || c == backslash_byte() {
            assert(b[j] == backslash_byte() && b[j + 1] == c);
            assert(short_escape(b[j + 1]) == Some(c));
            assert(parse_qbody(b, j) == Some((seq![c] + rest, e)));
            assert(seq![c] + rest =~= s);
        } else if c < 32 {
            lemma_hex_digit_is_hex(c / 16);
            lemma_hex_digit_is_hex(c % 16);
            assert(b[j] == backslash_byte() && b[j + 1] == 117 && b[j + 2] == 48 && b[j + 3] == 48);
            assert(b[j + 4] == hex_digit(c / 16) && b[j + 5] == hex_digit(c % 16));
            assert(short_escape(b[j + 1]) is None);
            assert(hex_val(b[j + 4]) * 16 + hex_val(b[j + 5]) == c);
            assert(parse_qbody(b, j) == Some((seq![c] + rest, e)));
            assert(seq![c] + rest =~= s);
        } else {
            assert(u[0] == c);
            assert(b[j + 0] == u[0]);
            assert(b[j] == c);
            assert(parse_qbody(b, j) == Some((seq![c] + rest, e)));
            assert(seq![c] + rest =~= s);
        }
    }
}

/// The string-literal form of `lemma_qbody_complete`.
pub proof fn lemma_qstr_complete(b: Seq<u8>, i: int, s: Seq<u8>, e: int)
    requires
        0 <= i <= e,
        e <= b.len(),
        b.subrange(i, e) == quoted(s),
    ensures
        parse_qstr(b, i) == Some((s, e)),
{
    assert(e - i == quoted(s).len());
    assert(b.subrange(i, e) == seq![quote_byte()] + (esc_bytes(s) + seq![quote_byte()])) by {
        assert(quoted(s) =~= seq![quote_byte()] + (esc_bytes(s) + seq![quote_byte()]));
    }
    lemma_split_concat(b, i, e, seq![quote_byte()], esc_bytes(s) + seq![quote_byte()]);
    assert(b[i] == quote_byte()) by {
        assert(b.subrange(i, i + 1)[0] == b[i]);
    }
    lemma_qbody_complete(b, i + 1, s, e);
}

/// The string-literal form of `lemma_qbody_bounds`.
pub proof fn lemma_qstr_bounds(b: Seq<u8>, i: int)
    requires
        parse_qstr(b, i) is Some,
    ensures
        i + 1 < parse_qstr(b, i)->Some_0.1 <= b.len(),
{
    lemma_qbody_bounds(b, i + 1);
}

/// Equal suffixes step together: dropping the same count from each
/// start keeps the suffixes equal.
pub proof fn lemma_suffix_step(b1: Seq<u8>, j1: int, b2: Seq<u8>, j2: int, d: int)
    requires
        0 <= j1,
        0 <= j2,
        0 <= d,
        j1 + d <= b1.len(),
        b1.len() - j1 == b2.len() - j2,
        b1.subrange(j1, b1.len() as int) == b2.subrange(j2, b2.len() as int),
    ensures
        b1.subrange(j1 + d, b1.len() as int) == b2.subrange(j2 + d, b2.len() as int),
{
    assert forall|t: int|
        0 <= t < b1.len() - j1 - d implies #[trigger] b1.subrange(j1 + d, b1.len() as int)[t]
        == b2.subrange(j2 + d, b2.len() as int)[t] by {
        assert(b1.subrange(j1, b1.len() as int)[d + t] == b2.subrange(j2, b2.len() as int)[d + t]);
        assert(b1.subrange(j1, b1.len() as int)[d + t] == b1[j1 + d + t]);
        assert(b2.subrange(j2, b2.len() as int)[d + t] == b2[j2 + d + t]);
        assert(b1.subrange(j1 + d, b1.len() as int)[t] == b1[j1 + d + t]);
        assert(b2.subrange(j2 + d, b2.len() as int)[t] == b2[j2 + d + t]);
    }
    assert(b1.subrange(j1 + d, b1.len() as int) =~= b2.subrange(j2 + d, b2.len() as int));
}

/// The body parser reads nothing before its start position: over
/// equal suffixes it finds the same string, ending at the
/// corresponding place.
pub proof fn lemma_qbody_shift(b1: Seq<u8>, j1: int, b2: Seq<u8>, j2: int)
    requires
        0 <= j1 <= b1.len(),
        0 <= j2 <= b2.len(),
        b1.subrange(j1, b1.len() as int) == b2.subrange(j2, b2.len() as int),
    ensures
        parse_qbody(b1, j1) is Some ==> parse_qbody(b2, j2) == Some(
            (parse_qbody(b1, j1)->Some_0.0, parse_qbody(b1, j1)->Some_0.1 - j1 + j2),
        ),
        parse_qbody(b1, j1) is None ==> parse_qbody(b2, j2) is None,
    decreases b1.len() - j1,
{
    assert(b1.len() - j1 == b2.len() - j2) by {
        assert(b1.subrange(j1, b1.len() as int).len() == b2.subrange(j2, b2.len() as int).len());
        assert(b1.subrange(j1, b1.len() as int).len() == b1.len() - j1);
        assert(b2.subrange(j2, b2.len() as int).len() == b2.len() - j2);
    }
    if j1 >= b1.len() {
    } else {
        assert(b1[j1] == b2[j2]) by {
            assert(b1.subrange(j1, b1.len() as int)[0] == b1[j1]);
            assert(b2.subrange(j2, b2.len() as int)[0] == b2[j2]);
        }
        if j1 + 1 < b1.len() {
            assert(b1[j1 + 1] == b2[j2 + 1]) by {
                assert(b1.subrange(j1, b1.len() as int)[1] == b1[j1 + 1]);
                assert(b2.subrange(j2, b2.len() as int)[1] == b2[j2 + 1]);
            }
        }
        if j1 + 5 < b1.len() {
            assert(b1[j1 + 2] == b2[j2 + 2] && b1[j1 + 3] == b2[j2 + 3] && b1[j1 + 4] == b2[j2 + 4]
                && b1[j1 + 5] == b2[j2 + 5]) by {
                assert(b1.subrange(j1, b1.len() as int)[2] == b1[j1 + 2]);
                assert(b2.subrange(j2, b2.len() as int)[2] == b2[j2 + 2]);
                assert(b1.subrange(j1, b1.len() as int)[3] == b1[j1 + 3]);
                assert(b2.subrange(j2, b2.len() as int)[3] == b2[j2 + 3]);
                assert(b1.subrange(j1, b1.len() as int)[4] == b1[j1 + 4]);
                assert(b2.subrange(j2, b2.len() as int)[4] == b2[j2 + 4]);
                assert(b1.subrange(j1, b1.len() as int)[5] == b1[j1 + 5]);
                assert(b2.subrange(j2, b2.len() as int)[5] == b2[j2 + 5]);
            }
        }
        if b1[j1] == quote_byte() {
        } else if b1[j1] == backslash_byte() {
            if j1 + 1 < b1.len() && short_escape(b1[j1 + 1]) is Some {
                lemma_suffix_step(b1, j1, b2, j2, 2);
                lemma_qbody_shift(b1, j1 + 2, b2, j2 + 2);
            } else if j1 + 5 < b1.len() && b1[j1 + 1] == 117 && b1[j1 + 2] == 48 && b1[j1 + 3]
                == 48 && is_hex(b1[j1 + 4]) && is_hex(b1[j1 + 5]) && hex_val(b1[j1 + 4]) * 16
                + hex_val(b1[j1 + 5]) < 128 {
                lemma_suffix_step(b1, j1, b2, j2, 6);
                lemma_qbody_shift(b1, j1 + 6, b2, j2 + 6);
            } else {
                assert(parse_qbody(b2, j2) is None);
            }
        } else if b1[j1] < 32 {
        } else {
            lemma_suffix_step(b1, j1, b2, j2, 1);
            lemma_qbody_shift(b1, j1 + 1, b2, j2 + 1);
        }
    }
}

/// The body parser never reads past where it stops: bytes appended
/// after a successful parse change nothing, and a parse that ends
/// within a prefix already succeeds on the prefix alone.
pub proof fn lemma_qbody_prefix(b: Seq<u8>, x: Seq<u8>, j: int)
    requires
        0 <= j <= b.len(),
    ensures
        parse_qbody(b, j) is Some ==> parse_qbody(b + x, j) == parse_qbody(b, j),
        (parse_qbody(b + x, j) matches Some((s, e)) && e <= b.len()) ==> parse_qbody(b, j)
            == parse_qbody(b + x, j),
    decreases b.len() - j,
{
    let b2 = b + x;
    assert forall|t: int| 0 <= t < b.len() implies #[trigger] b2[t] == b[t] by {
        assert((b + x)[t] == b[t]);
    }
    if parse_qbody(b, j) is Some {
        lemma_qbody_bounds(b, j);
        if b[j] == quote_byte() {
        } else if b[j] == backslash_byte() {
            if j + 1 < b.len() && short_escape(b[j + 1]) is Some {
                lemma_qbody_prefix(b, x, j + 2);
            } else {
                lemma_qbody_prefix(b, x, j + 6);
            }
        } else {
            lemma_qbody_prefix(b, x, j + 1);
        }
    }
    let r2 = parse_qbody(b2, j);
    if r2 is Some && r2->Some_0.1 <= b.len() {
        let e = r2->Some_0.1;
        lemma_qbody_bounds(b2, j);
        if b2[j] == quote_byte() {
        } else if b2[j] == backslash_byte() {
            if j + 1 < b2.len() && short_escape(b2[j + 1]) is Some {
                assert(parse_qbody(b2, j + 2) is Some);
                lemma_qbody_bounds(b2, j + 2);
                assert(parse_qbody(b2, j + 2)->Some_0.1 == e);
                lemma_qbody_prefix(b, x, j + 2);
                assert(j + 1 < b.len() && short_escape(b[j + 1]) is Some);
            } else {
                assert(parse_qbody(b2, j + 6) is Some);
                lemma_qbody_bounds(b2, j + 6);
                assert(parse_qbody(b2, j + 6)->Some_0.1 == e);
                lemma_qbody_prefix(b, x, j + 6);
                assert(j + 5 < b.len());
                assert(!(j + 1 < b.len() && short_escape(b[j + 1]) is Some));
            }
        } else if b2[j] < 32 {
        } else {
            assert(parse_qbody(b2, j + 1) is Some);
            lemma_qbody_bounds(b2, j + 1);
            lemma_qbody_prefix(b, x, j + 1);
        }
    }
}

/// The string-literal form of `lemma_qbody_shift`.
pub proof fn lemma_qstr_shift(b1: Seq<u8>, i1: int, b2: Seq<u8>, i2: int)
    requires
        0 <= i1 <= b1.len(),
        0 <= i2 <= b2.len(),
        b1.subrange(i1, b1.len() as int) == b2.subrange(i2, b2.len() as int),
    ensures
        parse_qstr(b1, i1) is Some ==> parse_qstr(b2, i2) == Some(
            (parse_qstr(b1, i1)->Some_0.0, parse_qstr(b1, i1)->Some_0.1 - i1 + i2),
        ),
        parse_qstr(b1, i1) is None ==> parse_qstr(b2, i2) is None,
{
    assert(b1.len() - i1 == b2.len() - i2) by {
        assert(b1.subrange(i1, b1.len() as int).len() == b2.subrange(i2, b2.len() as int).len());
        assert(b1.subrange(i1, b1.len() as int).len() == b1.len() - i1);
        assert(b2.subrange(i2, b2.len() as int).len() == b2.len() - i2);
    }
    if i1 < b1.len() {
        assert(b1[i1] == b2[i2]) by {
            assert(b1.subrange(i1, b1.len() as int)[0] == b1[i1]);
            assert(b2.subrange(i2, b2.len() as int)[0] == b2[i2]);
        }
        if b1[i1] == quote_byte() {
            lemma_suffix_step(b1, i1, b2, i2, 1);
            lemma_qbody_shift(b1, i1 + 1, b2, i2 + 1);
        }
    }
}

/// The string-literal form of `lemma_qbody_prefix`.
pub proof fn lemma_qstr_prefix(b: Seq<u8>, x: Seq<u8>, i: int)
    requires
        0 <= i <= b.len(),
    ensures
        parse_qstr(b, i) is Some ==> parse_qstr(b + x, i) == parse_qstr(b, i),
        ({
            let r2 = parse_qstr(b + x, i);
            (r2 is Some && r2->Some_0.1 <= b.len()) ==> parse_qstr(b, i) == r2
        }),
{
    let b2 = b + x;
    if parse_qstr(b, i) is Some {
        assert(b2[i] == b[i]);
        lemma_qbody_prefix(b, x, i + 1);
    }
    let r2 = parse_qstr(b2, i);
    if r2 is Some && r2->Some_0.1 <= b.len() {
        lemma_qbody_bounds(b2, i + 1);
        assert(i + 1 < r2->Some_0.1);
        assert(i < b.len());
        assert(b2[i] == b[i]);
        lemma_qbody_prefix(b, x, i + 1);
    }
}

/// Appends the string literal for `s` to `out`.
pub fn write_quoted(out: &mut Vec<u8>, s: &Vec<u8>)
    ensures
        final(out)@ == old(out)@ + quoted(s@),
{
    let ghost start = out@;
    out.push(34);
    let mut k: usize = 0;
    while k < s.len()
        invariant
            k <= s@.len(),
            out@ == start + seq![quote_byte()] + esc_bytes(s@.take(k as int)),
        decreases s@.len() - k,
    {
        let b = s[k];
        proof {
            lemma_esc_bytes_push(s@.take(k as int), b);
            assert(s@.take(k as int).push(b) =~= s@.take(k + 1));
        }
        if b == 34 {
            out.push(92);
            out.push(34);
        } else if b == 92 {
            out.push(92);
            out.push(92);
        } else if b < 32 {
            out.push(92);
            out.push(117);
            out.push(48);
            out.push(48);
            let hi = b / 16;
            let lo = b % 16;
            out.push(if hi < 10 { 48 + hi } else { 87 + hi });
            out.push(if lo < 10 { 48 + lo } else { 87 + lo });
        } else {
            out.push(b);
        }
        k = k + 1;
        proof {
            assert(out@ =~= start + seq![quote_byte()] + esc_bytes(s@.take(k as int)));
        }
    }
    proof {
        assert(s@.take(s@.len() as int) =~= s@);
    }
    out.push(34);
    proof {
        assert(out@ =~= start + quoted(s@));
    }
}

/// Whether the bytes of `p` stand in `b` starting at `i`.
pub open spec fn starts_with(b: Seq<u8>, i: int, p: Seq<u8>) -> bool {
    0 <= i && i + p.len() <= b.len() && b.subrange(i, i + p.len() as int) == p
}

pub proof fn lemma_starts_with_bytes(b: Seq<u8>, i: int, p: Seq<u8>)
    requires
        starts_with(b, i, p),
    ensures
        forall|t: int| 0 <= t < p.len() ==> b[i + t] == #[trigger] p[t],
{
    assert forall|t: int| 0 <= t < p.len() implies b[i + t] == #[trigger] p[t] by {
        assert(b.subrange(i, i + p.len() as int)[t] == b[i + t]);
    }
}

/// Whether the bytes of `p` stand in `b` at position `i`.
pub fn has_prefix(b: &Vec<u8>, i: usize, p: &Vec<u8>) -> (r: bool)
    ensures
        r == starts_with(b@, i as int, p@),
{
    if i > b.len() || b.len() - i < p.len() {
        return false;
    }
    let bl = b.len();
    let mut t: usize = 0;
    while t < p.len()
        invariant
            0 <= t <= p@.len(),
            i + p@.len() <= bl,
            bl == b@.len(),
            forall|q: int| 0 <= q < t ==> b@[i + q] == #[trigger] p@[q],
        decreases p@.len() - t,
    {
        if b[i + t] != p[t] {
            proof {
                if starts_with(b@, i as int, p@) {
                    lemma_starts_with_bytes(b@, i as int, p@);
                }
            }
            return false;
        }
        t = t + 1;
    }
    proof {
        assert(b@.subrange(i as int, i + p@.len() as int) =~= p@);
    }
    true
}

/// Prepends decoded bytes to the result of a body parse; the shape of
/// the loop invariant of `parse_quoted`.
pub open spec fn prepend_parse(p: Seq<u8>, r: Option<(Seq<u8>, int)>) -> Option<(Seq<u8>, int)> {
    match r {
        Some((s, e)) => Some((p + s, e)),
        None => None,
    }
}

/// A span of a buffer is the concatenation of its two halves.
pub proof fn lemma_join(b: Seq<u8>, i: int, m: int, e: int)
    requires
        0 <= i <= m <= e <= b.len(),
    ensures
        b.subrange(i, e) == b.subrange(i, m) + b.subrange(m, e),
{
    assert forall|t: int| 0 <= t < e - i implies b.subrange(i, e)[t] == (b.subrange(i, m)
        + b.subrange(m, e))[t] by {
        if t < m - i {
            assert((b.subrange(i, m) + b.subrange(m, e))[t] == b.subrange(i, m)[t]);
        } else {
            assert((b.subrange(i, m) + b.subrange(m, e))[t] == b.subrange(m, e)[t - (m - i)]);
        }
    }
    assert(b.subrange(i, e) =~= b.subrange(i, m) + b.subrange(m, e));
}

/// The UTF-8 bytes of a string.
pub fn string_to_bytes(s: &String) -> (r: Vec<u8>)
    ensures
        r@ == vstd::utf8::encode_utf8(s@),
{
    vstd::slice::slice_to_vec(s.as_str().as_bytes())
}

/// Relies on `String::from_utf8`: it succeeds exactly on valid UTF-8
/// input and returns the string those bytes encode.
#[verifier::external_body]
pub fn string_from_utf8(v: Vec<u8>) -> (r: Option<String>)
    ensures
        r is Some <==> vstd::utf8::valid_utf8(v@),
        r matches Some(s) ==> s@ == vstd::utf8::decode_utf8(v@),
{
    String::from_utf8(v).ok()
}

/// Reads one string literal starting at `i`; returns the decoded bytes
/// and the index just past the closing quote.  Its result is exactly
/// that of the specification parser.
pub fn parse_quoted(b: &Vec<u8>, i: usize) -> (r: Option<(Vec<u8>, usize)>)
    ensures
        r matches Some((s, e)) ==> parse_qstr(b@, i as int) == Some((s@, e as int)) && i < e
            <= b@.len(),
        r is None ==> parse_qstr(b@, i as int) is None,
{
    if i >= b.len() || b[i] != 34 {
        return None;
    }
    let mut out: Vec<u8> = Vec::new();
    let mut j: usize = i + 1;
    loop
        invariant
            i + 1 <= j <= b@.len(),
            b@[i as int] == quote_byte(),
            parse_qbody(b@, i + 1 as int) == prepend_parse(out@, parse_qbody(b@, j as int)),
        decreases b@.len() - j,
    {
        if j >= b.len() {
            return None;
        }
        let c = b[j];
        if c == 34 {
            proof {
                lemma_qbody_bounds(b@, i + 1 as int);
            }
            return Some((out, j + 1));
        } else if c == 92 {
            if j + 1 >= b.len() {
                return None;
            }
            let d = b[j + 1];
            let m: Option<u8> = if d == 34 {
                Some(34)
            } else if d == 92 {
                Some(92)
            } else if d == 47 {
                Some(47)
            } else if d == 98 {
                Some(8)
            } else if d == 116 {
                Some(9)
            } else if d == 110 {
                Some(10)
            } else if d == 102 {
                Some(12)
            } else if d == 114 {
                Some(13)
            } else {
                None
            };
            proof {
                assert(m == short_escape(d));
            }
            if let Some(mb) = m {
                out.push(mb);
                proof {
                    match parse_qbody(b@, j + 2 as int) {
                        Some((s, e)) => {
                            assert(out@ + s =~= out@.drop_last() + (seq![mb] + s));
                        },
                        None => {},
                    }
                }
                j = j + 2;
            } else if b.len() - j > 5 && b[j + 1] == 117 && b[j + 2] == 48 && b[j + 3] == 48 && ((48
                <= b[j + 4] && b[j + 4] <= 57) || (97 <= b[j + 4] && b[j + 4] <= 102) || (65 <= b[j
                + 4] && b[j + 4] <= 70)) && ((48 <= b[j + 5] && b[j + 5] <= 57) || (97 <= b[j + 5]
                && b[j + 5] <= 102) || (65 <= b[j + 5] && b[j + 5] <= 70)) {
                let d1 = b[j + 4];
                let d2 = b[j + 5];
                let v1 = if d1 <= 57 {
                    d1 - 48
                } else if d1 >= 97 {
                    d1 - 87
                } else {
                    d1 - 55
                };
                let v2 = if d2 <= 57 {
                    d2 - 48
                } else if d2 >= 97 {
                    d2 - 87
                } else {
                    d2 - 55
                };
                proof {
                    assert(v1 == hex_val(d1));
                    assert(v2 == hex_val(d2));
                }
                if v1 * 16 + v2 < 128 {
                    let v = v1 * 16 + v2;
                    out.push(v);
                    proof {
                        match parse_qbody(b@, j + 6 as int) {
                            Some((s, e)) => {
                                assert(out@ + s =~= out@.drop_last() + (seq![v] + s));
                            },
                            None => {},
                        }
                    }
                    j = j + 6;
                } else {
                    return None;
                }
            } else {
                return None;
            }
        } else if c < 32 {
            return None;
        } else {
            out.push(c);
            proof {
                match parse_qbody(b@, j + 1 as int) {
                    Some((s, e)) => {
                        assert(out@ + s =~= out@.drop_last() + (seq![c] + s));
                    },
                    None => {},
                }
            }
            j = j + 1;
        }
    }
}

} // verus!
