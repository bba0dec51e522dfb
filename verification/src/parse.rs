//! Reading back the text forms of `text`: the words of a slice literal and
//! the three parts of a results literal. The readers here are spec functions
//! that walk the text from its end; the lemmas show that each undoes the
//! writer it belongs to.
use vstd::prelude::*;
use crate::rle::{decode, encode, encode_fits, falses, lemma_stored_code_roundtrip, next_true};
use crate::text::{dec_digits, hex_char, hex_digits, lit, results_text, words_text};

verus! {

/// Length of the longest suffix of `s` whose bytes all satisfy `p`.
pub open spec fn trailing_len(s: Seq<u8>, p: spec_fn(u8) -> bool) -> nat
    decreases s.len(),
{
    if s.len() > 0 && p(s.last()) {
        trailing_len(s.drop_last(), p) + 1
    } else {
        0
    }
}

/// Length of the trailing run of lower-case hexadecimal digits.
pub open spec fn trailing_hex(s: Seq<u8>) -> nat {
    trailing_len(s, |c: u8| is_hex_digit(c))
}

/// Length of the trailing run of decimal digits.
pub open spec fn trailing_dec(s: Seq<u8>) -> nat {
    trailing_len(s, |c: u8| is_dec_digit(c))
}

/// Length of the trailing run of bytes other than `[`.
pub open spec fn trailing_not_open(s: Seq<u8>) -> nat {
    trailing_len(s, |c: u8| c != 91u8)
}

/// A lower-case hexadecimal digit.
pub open spec fn is_hex_digit(c: u8) -> bool {
    (48 <= c <= 57) || (97 <= c <= 102)
}

/// A decimal digit.
pub open spec fn is_dec_digit(c: u8) -> bool {
    48 <= c <= 57
}

/// Value of a hexadecimal digit.
pub open spec fn hex_value(c: u8) -> nat {
    if c <= 57 {
        (c - 48) as nat
    } else {
        (c - 87) as nat
    }
}

/// The number that the hexadecimal digits `s` write.
pub open spec fn hex_number(s: Seq<u8>) -> nat
    decreases s.len(),
{
    if s.len() == 0 {
        0
    } else {
        hex_number(s.drop_last()) * 16 + hex_value(s.last())
    }
}

/// The number that the decimal digits `s` write.
pub open spec fn dec_number(s: Seq<u8>) -> nat
    decreases s.len(),
{
    if s.len() == 0 {
        0
    } else {
        dec_number(s.drop_last()) * 10 + (s.last() - 48) as nat
    }
}

/// The words of a text `0x.., 0x.., ..`, read from its end and checked
/// byte by byte: the trailing lower-case hexadecimal digits (at least one,
/// for a number below 65536) are the last word, right before them must stand
/// the bytes `0x`, and, when more words precede, right before those the
/// bytes `, `. `None` for any other text.
#[verifier::opaque]
pub open spec fn parse_words(s: Seq<u8>) -> Option<Seq<u16>>
    decreases s.len(),
{
    let k = trailing_hex(s);
    let v = hex_number(s.subrange(s.len() - k, s.len() as int));
    if k == 0 || v >= 65536 || s.len() < k + 2 || s.subrange(
        s.len() - k - 2,
        s.len() - k,
    ) != seq![48u8, 120u8] {
        None
    } else if s.len() == k + 2 {
        Some(seq![v as u16])
    } else if s.len() < k + 4 || s.subrange(s.len() - k - 4, s.len() - k - 2) != seq![
        44u8,
        32u8,
    ] {
        None
    } else {
        match parse_words(s.subrange(0, s.len() - k - 4)) {
            Some(ws) => Some(ws.push(v as u16)),
            None => None,
        }
    }
}

/// The last `n` bytes of `s`.
pub open spec fn tail(s: Seq<u8>, n: int) -> Seq<u8> {
    s.subrange(s.len() - n, s.len() as int)
}

/// `s` without its last `n` bytes.
pub open spec fn front(s: Seq<u8>, n: int) -> Seq<u8> {
    s.subrange(0, s.len() - n)
}

/// The three parts of a results literal `(count, &[..], &[..])`, read from
/// its end and checked byte by byte: `])` at the end, `], &[` between the
/// slices, `, &[` after the count, `(` first, and the count's decimal digits
/// (at least one) in between. `None` for any other text.
#[verifier::opaque]
pub open spec fn parse_results(s: Seq<u8>) -> Option<(nat, Seq<u16>, Seq<u16>)> {
    let t2 = front(s, 2);
    let k2 = trailing_not_open(t2) as int;
    let u2 = front(t2, k2);
    let t1 = front(u2, 5);
    let k1 = trailing_not_open(t1) as int;
    let u1 = front(t1, k1);
    let t0 = front(u1, 4);
    let kd = trailing_dec(t0) as int;
    if s.len() < 2 || tail(s, 2) != seq![93u8, 41u8] {
        None
    } else if u2.len() < 5 || tail(u2, 5) != seq![93u8, 44u8, 32u8, 38u8, 91u8] {
        None
    } else if u1.len() < 4 || tail(u1, 4) != seq![44u8, 32u8, 38u8, 91u8] {
        None
    } else if kd == 0 || t0.len() != kd + 1 || t0[0] != 40u8 {
        None
    } else {
        match (parse_words(tail(t1, k1)), parse_words(tail(t2, k2))) {
            (Some(first), Some(second)) => Some((dec_number(tail(t0, kd)), first, second)),
            _ => None,
        }
    }
}

/// Splitting `a + b` at the length of `b` gives back `a` and `b`.
pub proof fn lemma_split(a: Seq<u8>, b: Seq<u8>)
    ensures
        front(a + b, b.len() as int) == a,
        tail(a + b, b.len() as int) == b,
{
    assert(front(a + b, b.len() as int) =~= a);
    assert(tail(a + b, b.len() as int) =~= b);
}

/// The bytes of the fixed texts that the writers use.
proof fn lemma_literals()
    ensures
        lit("0x") == seq![48u8, 120u8],
        lit(", 0x") == seq![44u8, 32u8, 48u8, 120u8],
        lit("(") == seq![40u8],
        lit(")") == seq![41u8],
        lit(", ") == seq![44u8, 32u8],
        lit("&[") == seq![38u8, 91u8],
        lit("]") == seq![93u8],
{
    reveal_strlit("0x");
    reveal_strlit(", 0x");
    reveal_strlit("(");
    reveal_strlit(")");
    reveal_strlit(", ");
    reveal_strlit("&[");
    reveal_strlit("]");
    vstd::string::is_ascii_spec_bytes("0x");
    vstd::string::is_ascii_spec_bytes(", 0x");
    vstd::string::is_ascii_spec_bytes("(");
    vstd::string::is_ascii_spec_bytes(")");
    vstd::string::is_ascii_spec_bytes(", ");
    vstd::string::is_ascii_spec_bytes("&[");
    vstd::string::is_ascii_spec_bytes("]");
    assert(lit("0x") =~= seq![48u8, 120u8]);
    assert(lit(", 0x") =~= seq![44u8, 32u8, 48u8, 120u8]);
    assert(lit("(") =~= seq![40u8]);
    assert(lit(")") =~= seq![41u8]);
    assert(lit(", ") =~= seq![44u8, 32u8]);
    assert(lit("&[") =~= seq![38u8, 91u8]);
    assert(lit("]") =~= seq![93u8]);
}

/// The trailing hexadecimal digits of `a + b` are `b` when `b` is all such
/// digits and `a` does not end in one.
pub proof fn lemma_trailing_hex(a: Seq<u8>, b: Seq<u8>)
    requires
        forall|i: int| 0 <= i < b.len() ==> is_hex_digit(#[trigger] b[i]),
        a.len() == 0 || !is_hex_digit(a.last()),
    ensures
        trailing_hex(a + b) == b.len(),
{
    lemma_trailing_len(a, b, |c: u8| is_hex_digit(c));
}

/// The trailing digits of `a + b` are `b` when `b` is all digits and `a` does
/// not end in one.
pub proof fn lemma_trailing_dec(a: Seq<u8>, b: Seq<u8>)
    requires
        forall|i: int| 0 <= i < b.len() ==> is_dec_digit(#[trigger] b[i]),
        a.len() == 0 || !is_dec_digit(a.last()),
    ensures
        trailing_dec(a + b) == b.len(),
{
    lemma_trailing_len(a, b, |c: u8| is_dec_digit(c));
}

proof fn lemma_trailing_not_open(a: Seq<u8>, b: Seq<u8>)
    requires
        forall|i: int| 0 <= i < b.len() ==> #[trigger] b[i] != 91u8,
        a.len() > 0 && a.last() == 91u8,
    ensures
        trailing_not_open(a + b) == b.len(),
{
    lemma_trailing_len(a, b, |c: u8| c != 91u8);
}

/// The trailing run of `a + b` is `b`, when every byte of `b` satisfies `p`
/// and the last byte of `a`, if any, does not.
pub proof fn lemma_trailing_len(a: Seq<u8>, b: Seq<u8>, p: spec_fn(u8) -> bool)
    requires
        forall|i: int| 0 <= i < b.len() ==> p(#[trigger] b[i]),
        a.len() == 0 || !p(a.last()),
    ensures
        trailing_len(a + b, p) == b.len(),
    decreases b.len(),
{
    if b.len() == 0 {
        assert(a + b =~= a);
    } else {
        assert((a + b).drop_last() =~= a + b.drop_last());
        lemma_trailing_len(a, b.drop_last(), p);
    }
}

proof fn lemma_hex_char(d: nat)
    requires
        d < 16,
    ensures
        is_hex_digit(hex_char(d)),
        hex_value(hex_char(d)) == d,
{
}

/// The hexadecimal digits of `n` are such digits and read back as `n`.
pub proof fn lemma_hex_digits(n: nat)
    ensures
        hex_digits(n).len() >= 1,
        forall|i: int| 0 <= i < hex_digits(n).len() ==> is_hex_digit(#[trigger] hex_digits(n)[i]),
        hex_number(hex_digits(n)) == n,
    decreases n,
{
    lemma_hex_char(n % 16);
    if n < 16 {
        assert(hex_digits(n).drop_last() =~= Seq::<u8>::empty());
        assert(hex_number(hex_digits(n)) == hex_number(Seq::<u8>::empty()) * 16 + hex_value(
            hex_char(n),
        ));
    } else {
        lemma_hex_digits(n / 16);
        let d = hex_digits(n);
        let c = hex_char(n % 16);
        assert(d == hex_digits(n / 16) + seq![c]);
        assert(d.drop_last() =~= hex_digits(n / 16));
        assert(hex_number(d) == hex_number(hex_digits(n / 16)) * 16 + hex_value(c));
        assert(n == (n / 16) * 16 + n % 16);
        assert forall|i: int| 0 <= i < d.len() implies is_hex_digit(#[trigger] d[i]) by {
            if i < d.len() - 1 {
                assert(d[i] == hex_digits(n / 16)[i]);
            }
        }
    }
}

proof fn lemma_hex_digits_short(n: nat)
    requires
        n < 65536,
    ensures
        hex_number(hex_digits(n)) < 65536,
{
    lemma_hex_digits(n);
}

/// The decimal digits of `n` are digits and read back as `n`.
pub proof fn lemma_dec_digits(n: nat)
    ensures
        dec_digits(n).len() >= 1,
        forall|i: int| 0 <= i < dec_digits(n).len() ==> is_dec_digit(#[trigger] dec_digits(n)[i]),
        dec_number(dec_digits(n)) == n,
    decreases n,
{
    if n < 10 {
        assert(dec_digits(n).drop_last() =~= Seq::<u8>::empty());
        assert(dec_number(dec_digits(n)) == dec_number(Seq::<u8>::empty()) * 10 + (((48 + n) as u8)
            - 48) as nat);
    } else {
        lemma_dec_digits(n / 10);
        let d = dec_digits(n);
        let c = (48 + n % 10) as u8;
        assert(d == dec_digits(n / 10) + seq![c]);
        assert(d.drop_last() =~= dec_digits(n / 10));
        assert(dec_number(d) == dec_number(dec_digits(n / 10)) * 10 + (c - 48) as nat);
        assert(n == (n / 10) * 10 + n % 10);
        assert forall|i: int| 0 <= i < d.len() implies is_dec_digit(#[trigger] d[i]) by {
            if i < d.len() - 1 {
                assert(d[i] == dec_digits(n / 10)[i]);
            }
        }
    }
}

/// The text of the words holds digits, `0x` and `, ` only: no `[`.
proof fn lemma_words_text_bytes(ws: Seq<i16>)
    ensures
        forall|i: int| 0 <= i < words_text(ws).len() ==> #[trigger] words_text(ws)[i] != 91u8,
        ws.len() > 0 ==> words_text(ws).len() > 0,
    decreases ws.len(),
{
    lemma_literals();
    if ws.len() == 1 {
        lemma_hex_digits(ws[0] as u16 as nat);
        let t = words_text(ws);
        let h = hex_digits(ws[0] as u16 as nat);
        assert(t == lit("0x") + h);
        assert forall|i: int| 0 <= i < t.len() implies #[trigger] t[i] != 91u8 by {
            if i >= 2 {
                assert(t[i] == h[i - 2]);
            }
        }
    } else if ws.len() > 1 {
        lemma_words_text_bytes(ws.drop_last());
        lemma_hex_digits(ws.last() as u16 as nat);
        let a = words_text(ws.drop_last());
        let h = hex_digits(ws.last() as u16 as nat);
        let t = words_text(ws);
        assert(t == a + lit(", 0x") + h);
        assert forall|i: int| 0 <= i < t.len() implies #[trigger] t[i] != 91u8 by {
            if i < a.len() {
                assert(t[i] == a[i]);
            } else if i >= a.len() + 4 {
                assert(t[i] == h[i - a.len() - 4]);
            }
        }
    }
}

/// Reading the words back from the text of `words_text`, checking every
/// separator and prefix byte, gives each word as its 16 bits read unsigned.
pub proof fn lemma_parse_words(ws: Seq<i16>)
    requires
        ws.len() > 0,
    ensures
        parse_words(words_text(ws)) == Some(ws.map_values(|w: i16| w as u16)),
    decreases ws.len(),
{
    reveal(parse_words);
    lemma_literals();
    let w = ws.last();
    let n = w as u16 as nat;
    let h = hex_digits(n);
    lemma_hex_digits(n);
    lemma_hex_digits_short(n);
    let a = if ws.len() == 1 {
        lit("0x")
    } else {
        words_text(ws.drop_last()) + lit(", 0x")
    };
    let s = words_text(ws);
    if ws.len() == 1 {
        assert(w == ws[0]);
    }
    assert(s == a + h);
    assert(a.last() == 120u8);
    lemma_trailing_hex(a, h);
    let k = h.len();
    assert(s.subrange(s.len() - k, s.len() as int) =~= h);
    assert(s.subrange(s.len() - k - 2, s.len() - k) =~= seq![48u8, 120u8]);
    assert((n as u16) == (w as u16));
    if ws.len() == 1 {
        assert(ws.map_values(|w: i16| w as u16) =~= seq![w as u16]);
    } else {
        let init = ws.drop_last();
        lemma_parse_words(init);
        assert(s.subrange(s.len() - k - 4, s.len() - k - 2) =~= seq![44u8, 32u8]);
        assert(s.subrange(0, s.len() - k - 4) =~= words_text(init));
        assert(ws.map_values(|w: i16| w as u16) =~= init.map_values(|w: i16| w as u16).push(
            w as u16,
        ));
    }
}

proof fn lemma_results_layout(d: Seq<u8>, w1: Seq<u8>, w2: Seq<u8>)
    requires
        d.len() > 0,
        forall|i: int| 0 <= i < d.len() ==> is_dec_digit(#[trigger] d[i]),
        forall|i: int| 0 <= i < w1.len() ==> #[trigger] w1[i] != 91u8,
        forall|i: int| 0 <= i < w2.len() ==> #[trigger] w2[i] != 91u8,
        parse_words(w1) is Some,
        parse_words(w2) is Some,
    ensures
        parse_results(
            seq![40u8] + d + seq![44u8, 32u8, 38u8, 91u8] + w1 + seq![93u8, 44u8, 32u8, 38u8, 91u8]
                + w2 + seq![93u8, 41u8],
        ) == Some((dec_number(d), parse_words(w1).unwrap(), parse_words(w2).unwrap())),
{
    reveal(parse_results);
    let x0 = seq![40u8];
    let x1 = seq![44u8, 32u8, 38u8, 91u8];
    let x2 = seq![93u8, 44u8, 32u8, 38u8, 91u8];
    let x3 = seq![93u8, 41u8];
    let p1 = x0 + d;
    let p2 = p1 + x1;
    let p3 = p2 + w1;
    let p4 = p3 + x2;
    let p5 = p4 + w2;
    let s = p5 + x3;
    lemma_split(p5, x3);
    lemma_split(p4, w2);
    lemma_split(p3, x2);
    lemma_split(p2, w1);
    lemma_split(p1, x1);
    lemma_split(x0, d);
    assert(p4.last() == 91u8);
    assert(p2.last() == 91u8);
    lemma_trailing_not_open(p4, w2);
    lemma_trailing_not_open(p2, w1);
    lemma_trailing_dec(x0, d);
    assert(p1[0] == 40u8);
}

/// Reading a results literal back, checking every fixed byte, gives the
/// count and the words of both codes, each word as its 16 bits read
/// unsigned.
pub proof fn lemma_parse_results(full_count: u32, full: Seq<i16>, interesting: Seq<i16>)
    requires
        full.len() > 0,
        interesting.len() > 0,
    ensures
        parse_results(results_text(full_count, full, interesting)) == Some(
            (
                full_count as nat,
                full.map_values(|w: i16| w as u16),
                interesting.map_values(|w: i16| w as u16),
            ),
        ),
{
    lemma_literals();
    let d = dec_digits(full_count as nat);
    let w1 = words_text(full);
    let w2 = words_text(interesting);
    lemma_dec_digits(full_count as nat);
    lemma_words_text_bytes(full);
    lemma_words_text_bytes(interesting);
    lemma_parse_words(full);
    lemma_parse_words(interesting);
    assert(results_text(full_count, full, interesting) =~= seq![40u8] + d + seq![
        44u8,
        32u8,
        38u8,
        91u8,
    ] + w1 + seq![93u8, 44u8, 32u8, 38u8, 91u8] + w2 + seq![93u8, 41u8]);
    lemma_results_layout(d, w1, w2);
}

/// Stored results read back: the literal that `write_results` writes for a
/// full-block count and two block tables reads back as that count and as
/// two codes whose words, taken as `i16` (as the stored table is read),
/// decode to the two tables again, whenever every gap of each code fits in
/// its word.
pub proof fn lemma_results_read_back(full_count: u32, full: Seq<bool>, interesting: Seq<bool>)
    requires
        next_true(full, 0) < full.len(),
        next_true(interesting, 0) < interesting.len(),
        encode_fits(full),
        encode_fits(interesting),
    ensures
        ({
            let (count, f, i) = parse_results(
                results_text(full_count, encode(full), encode(interesting)),
            ).unwrap();
            let fw = f.map_values(|w: u16| w as i16);
            let iw = i.map_values(|w: u16| w as i16);
            &&& parse_results(results_text(full_count, encode(full), encode(interesting))) is Some
            &&& count == full_count
            &&& decode(fw, full.len() as int).len() <= full.len()
            &&& decode(fw, full.len() as int) + falses(
                full.len() - decode(fw, full.len() as int).len(),
            ) == full
            &&& decode(iw, interesting.len() as int).len() <= interesting.len()
            &&& decode(iw, interesting.len() as int) + falses(
                interesting.len() - decode(iw, interesting.len() as int).len(),
            ) == interesting
        }),
{
    assert(encode(full).len() > 0);
    assert(encode(interesting).len() > 0);
    lemma_parse_results(full_count, encode(full), encode(interesting));
    lemma_stored_code_roundtrip(full);
    lemma_stored_code_roundtrip(interesting);
}

} // verus!
