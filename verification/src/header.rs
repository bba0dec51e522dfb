//! Reading back the C++ header of `text::export_data_for_cpp`: the full
//! counts listed in `full_counts[]` and the code lengths listed in
//! `interesting_blocks_sizes[]` read back, one per entry and in order, as
//! the entries' values.
use vstd::prelude::*;
use crate::parse::{
    dec_number, front, hex_number, is_dec_digit, lemma_dec_digits, lemma_hex_digits,
    lemma_split, lemma_trailing_dec, lemma_trailing_hex, lemma_trailing_len, tail, trailing_dec,
    trailing_hex,
};
use crate::text::{
    cpp_header, dec_digits, full_count_items, hex_digits, hex_items, lit, size_items, BlockEntry,
};

verus! {

/// Numbers in decimal, each followed by `,`.
pub open spec fn dec_list(v: Seq<nat>) -> Seq<u8>
    decreases v.len(),
{
    if v.len() == 0 {
        seq![]
    } else {
        dec_list(v.drop_last()) + dec_digits(v.last()) + seq![44u8]
    }
}

/// The numbers of a text `12,7,..,` (each in decimal and followed by `,`),
/// read from its end and checked byte by byte; `None` for any other text.
#[verifier::opaque]
pub open spec fn parse_dec_items(s: Seq<u8>) -> Option<Seq<nat>>
    decreases s.len(),
{
    if s.len() == 0 {
        Some(Seq::empty())
    } else if s.last() != 44u8 {
        None
    } else {
        let body = front(s, 1);
        let k = trailing_dec(body) as int;
        if k == 0 || k > body.len() {
            None
        } else {
            match parse_dec_items(front(body, k)) {
                Some(v) => Some(v.push(dec_number(tail(body, k)))),
                None => None,
            }
        }
    }
}

/// Index of the first byte `b` of `s` at or after `i`, or `s.len()`.
pub open spec fn index_of(s: Seq<u8>, i: int, b: u8) -> int
    decreases s.len() - i,
{
    if i < 0 || i >= s.len() {
        s.len() as int
    } else if s[i] == b {
        i
    } else {
        index_of(s, i + 1, b)
    }
}

/// Length of the trailing run of bytes other than `{`.
pub open spec fn trailing_not_brace(s: Seq<u8>) -> nat {
    crate::parse::trailing_len(s, |c: u8| c != 123u8)
}

/// The numbers listed between the first `{` of a header and the `}` after
/// it: the full counts.
pub open spec fn header_full_counts(h: Seq<u8>) -> Option<Seq<nat>> {
    let o = index_of(h, 0, 123u8);
    if o >= h.len() {
        None
    } else {
        parse_dec_items(h.subrange(o + 1, index_of(h, o + 1, 125u8)))
    }
}

/// The numbers listed between the last `{` of a header and the `};` and
/// line end that end it: the code lengths.
pub open spec fn header_sizes(h: Seq<u8>) -> Option<Seq<nat>> {
    let t = front(h, 3);
    let k = trailing_not_brace(t) as int;
    if h.len() < 3 || tail(h, 3) != seq![125u8, 59u8, 10u8] || k >= t.len() {
        None
    } else {
        parse_dec_items(tail(t, k))
    }
}

proof fn lemma_dec_list_bytes(v: Seq<nat>)
    ensures
        forall|i: int|
            0 <= i < dec_list(v).len() ==> is_dec_digit(#[trigger] dec_list(v)[i]) || dec_list(
                v,
            )[i] == 44u8,
        v.len() > 0 ==> dec_list(v).last() == 44u8,
    decreases v.len(),
{
    if v.len() > 0 {
        lemma_dec_list_bytes(v.drop_last());
        lemma_dec_digits(v.last());
        let a = dec_list(v.drop_last());
        let d = dec_digits(v.last());
        let s = dec_list(v);
        assert(s == a + d + seq![44u8]);
        assert forall|i: int| 0 <= i < s.len() implies is_dec_digit(#[trigger] s[i]) || s[i]
            == 44u8 by {
            if i < a.len() {
                assert(s[i] == a[i]);
            } else if i < a.len() + d.len() {
                assert(s[i] == d[i - a.len()]);
            }
        }
    }
}

/// The list text of numbers reads back as those numbers.
pub proof fn lemma_parse_dec_list(v: Seq<nat>)
    ensures
        parse_dec_items(dec_list(v)) == Some(v),
    decreases v.len(),
{
    reveal(parse_dec_items);
    if v.len() == 0 {
        assert(dec_list(v) =~= Seq::<u8>::empty());
        assert(v =~= Seq::<nat>::empty());
    } else {
        let init = v.drop_last();
        let a = dec_list(init);
        let d = dec_digits(v.last());
        lemma_dec_digits(v.last());
        lemma_dec_list_bytes(init);
        lemma_parse_dec_list(init);
        let s = dec_list(v);
        assert(s == (a + d) + seq![44u8]);
        lemma_split(a + d, seq![44u8]);
        lemma_split(a, d);
        lemma_trailing_dec(a, d);
        assert(v =~= init.push(v.last()));
    }
}

proof fn lemma_comma()
    ensures
        lit(",") == seq![44u8],
{
    reveal_strlit(",");
    vstd::string::is_ascii_spec_bytes(",");
    assert(lit(",") =~= seq![44u8]);
}

proof fn lemma_full_count_items(t: Seq<BlockEntry>)
    ensures
        full_count_items(t) == dec_list(t.map_values(|e: BlockEntry| e.full_count as nat)),
    decreases t.len(),
{
    lemma_comma();
    if t.len() > 0 {
        lemma_full_count_items(t.drop_last());
        assert(t.map_values(|e: BlockEntry| e.full_count as nat).drop_last() =~= t.drop_last().map_values(
            |e: BlockEntry| e.full_count as nat,
        ));
    } else {
        assert(t.map_values(|e: BlockEntry| e.full_count as nat) =~= Seq::<nat>::empty());
    }
}

proof fn lemma_size_items(t: Seq<BlockEntry>)
    ensures
        size_items(t) == dec_list(t.map_values(|e: BlockEntry| e.interesting@.len())),
    decreases t.len(),
{
    lemma_comma();
    if t.len() > 0 {
        lemma_size_items(t.drop_last());
        assert(t.map_values(|e: BlockEntry| e.interesting@.len()).drop_last() =~= t.drop_last().map_values(
            |e: BlockEntry| e.interesting@.len(),
        ));
    } else {
        assert(t.map_values(|e: BlockEntry| e.interesting@.len()) =~= Seq::<nat>::empty());
    }
}

proof fn lemma_index_of(s: Seq<u8>, i: int, b: u8, m: int)
    requires
        0 <= i <= m < s.len(),
        s[m] == b,
        forall|j: int| i <= j < m ==> s[j] != b,
    ensures
        index_of(s, i, b) == m,
    decreases m - i,
{
    if i < m {
        lemma_index_of(s, i + 1, b, m);
    }
}

proof fn lemma_header_literals()
    ensures
        lit("#include <cstdint>\n") == seq![
            35u8,
            105u8,
            110u8,
            99u8,
            108u8,
            117u8,
            100u8,
            101u8,
            32u8,
            60u8,
            99u8,
            115u8,
            116u8,
            100u8,
            105u8,
            110u8,
            116u8,
            62u8,
            10u8,
        ],
        lit("\n") == seq![10u8],
        lit("constexpr int full_counts[] = {") == seq![
            99u8,
            111u8,
            110u8,
            115u8,
            116u8,
            101u8,
            120u8,
            112u8,
            114u8,
            32u8,
            105u8,
            110u8,
            116u8,
            32u8,
            102u8,
            117u8,
            108u8,
            108u8,
            95u8,
            99u8,
            111u8,
            117u8,
            110u8,
            116u8,
            115u8,
            91u8,
            93u8,
            32u8,
            61u8,
            32u8,
            123u8,
        ],
        lit("};\n") == seq![125u8, 59u8, 10u8],
        lit("constexpr int interesting_blocks_sizes[] = {").last() == 123u8,
        lit("constexpr int interesting_blocks_sizes[] = {").len() > 0,
{
    reveal_strlit("#include <cstdint>\n");
    reveal_strlit("\n");
    reveal_strlit("constexpr int full_counts[] = {");
    reveal_strlit("};\n");
    reveal_strlit("constexpr int interesting_blocks_sizes[] = {");
    vstd::string::is_ascii_spec_bytes("#include <cstdint>\n");
    vstd::string::is_ascii_spec_bytes("\n");
    vstd::string::is_ascii_spec_bytes("constexpr int full_counts[] = {");
    vstd::string::is_ascii_spec_bytes("};\n");
    vstd::string::is_ascii_spec_bytes("constexpr int interesting_blocks_sizes[] = {");
    assert(lit("#include <cstdint>\n") =~= seq![
        35u8,
        105u8,
        110u8,
        99u8,
        108u8,
        117u8,
        100u8,
        101u8,
        32u8,
        60u8,
        99u8,
        115u8,
        116u8,
        100u8,
        105u8,
        110u8,
        116u8,
        62u8,
        10u8,
    ]);
    assert(lit("\n") =~= seq![10u8]);
    assert(lit("constexpr int full_counts[] = {") =~= seq![
        99u8,
        111u8,
        110u8,
        115u8,
        116u8,
        101u8,
        120u8,
        112u8,
        114u8,
        32u8,
        105u8,
        110u8,
        116u8,
        32u8,
        102u8,
        117u8,
        108u8,
        108u8,
        95u8,
        99u8,
        111u8,
        117u8,
        110u8,
        116u8,
        115u8,
        91u8,
        93u8,
        32u8,
        61u8,
        32u8,
        123u8,
    ]);
    assert(lit("};\n") =~= seq![125u8, 59u8, 10u8]);
}


/// The header lists the entries' full counts: the numbers between its first
/// `{` and the `}` after it read back, one per entry and in order, as the
/// full counts.
pub proof fn lemma_header_full_counts(t: Seq<BlockEntry>)
    ensures
        header_full_counts(cpp_header(t)) == Some(
            t.map_values(|e: BlockEntry| e.full_count as nat),
        ),
{
    lemma_header_literals();
    let v = t.map_values(|e: BlockEntry| e.full_count as nat);
    lemma_full_count_items(t);
    lemma_dec_list_bytes(v);
    lemma_parse_dec_list(v);
    let a = lit("#include <cstdint>\n") + lit("\n") + lit("constexpr int full_counts[] = {");
    let f = full_count_items(t);
    let q = a + f + lit("};\n");
    let end: int = 51 + f.len() as int;
    let h = cpp_header(t);
    assert(a.len() == 51);
    assert forall|j: int| 0 <= j < q.len() implies #[trigger] h[j] == q[j] by {}
    assert forall|j: int| 0 <= j < 50 implies #[trigger] h[j] != 123u8 by {
        assert(h[j] == q[j]);
        assert(q[j] == a[j]);
    }
    assert(h[50] == q[50]);
    lemma_index_of(h, 0, 123u8, 50);
    assert forall|j: int| 51 <= j < 51 + f.len() implies #[trigger] h[j] != 125u8 by {
        assert(h[j] == q[j]);
        assert(q[j] == f[j - 51]);
    }
    assert(h[end] == q[end]);
    lemma_index_of(h, 51, 125u8, end);
    assert(h.subrange(51, end) =~= f);
}

/// The header lists the lengths of the entries' codes: the numbers between
/// its last `{` and the `};` that ends it read back, one per entry and in
/// order, as those lengths.
pub proof fn lemma_header_sizes(t: Seq<BlockEntry>)
    ensures
        header_sizes(cpp_header(t)) == Some(
            t.map_values(|e: BlockEntry| e.interesting@.len()),
        ),
{
    lemma_header_literals();
    let v = t.map_values(|e: BlockEntry| e.interesting@.len());
    lemma_size_items(t);
    lemma_dec_list_bytes(v);
    lemma_parse_dec_list(v);
    let z = size_items(t);
    let h = cpp_header(t);
    let b = lit("#include <cstdint>\n") + lit("\n") + lit("constexpr int full_counts[] = {")
        + full_count_items(t) + lit("};\n") + lit("\n") + crate::text::array_definitions(t)
        + lit("\n") + lit("constexpr uint16_t const *interesting_blocks[] = {")
        + crate::text::array_names(t.len()) + lit("};\n") + lit("\n") + lit(
        "constexpr int interesting_blocks_sizes[] = {",
    );
    assert(h == b + z + lit("};\n"));
    lemma_split(b + z, lit("};\n"));
    lemma_split(b, z);
    assert(b.last() == 123u8);
    lemma_trailing_len(b, z, |c: u8| c != 123u8);
}


/// The words of an array body `0x3,0x8005,..` (each `0x`, its lower-case
/// hexadecimal digits and `,`), read from its end and checked byte by byte;
/// `None` for any other text.
#[verifier::opaque]
pub open spec fn parse_hex_items(s: Seq<u8>) -> Option<Seq<nat>>
    decreases s.len(),
{
    if s.len() == 0 {
        Some(Seq::empty())
    } else if s.last() != 44u8 {
        None
    } else {
        let body = front(s, 1);
        let k = trailing_hex(body) as int;
        let rest = front(body, k);
        if k == 0 || k > body.len() || rest.len() < 2 || tail(rest, 2) != seq![48u8, 120u8] {
            None
        } else {
            match parse_hex_items(front(rest, 2)) {
                Some(v) => Some(v.push(hex_number(tail(body, k)))),
                None => None,
            }
        }
    }
}

proof fn lemma_zero_x()
    ensures
        lit("0x") == seq![48u8, 120u8],
{
    reveal_strlit("0x");
    vstd::string::is_ascii_spec_bytes("0x");
    assert(lit("0x") =~= seq![48u8, 120u8]);
}

/// The array body written for a code reads back as its words.
pub proof fn lemma_parse_hex_items(ws: Seq<u16>)
    ensures
        parse_hex_items(hex_items(ws)) == Some(ws.map_values(|w: u16| w as nat)),
    decreases ws.len(),
{
    reveal(parse_hex_items);
    lemma_comma();
    lemma_zero_x();
    if ws.len() == 0 {
        assert(hex_items(ws) =~= Seq::<u8>::empty());
        assert(ws.map_values(|w: u16| w as nat) =~= Seq::<nat>::empty());
    } else {
        let init = ws.drop_last();
        let a = hex_items(init) + seq![48u8, 120u8];
        let d = hex_digits(ws.last() as nat);
        lemma_hex_digits(ws.last() as nat);
        lemma_parse_hex_items(init);
        let s = hex_items(ws);
        assert(s == (a + d) + seq![44u8]);
        lemma_split(a + d, seq![44u8]);
        lemma_split(a, d);
        lemma_split(hex_items(init), seq![48u8, 120u8]);
        assert(a.last() == 120u8);
        lemma_trailing_hex(a, d);
        assert(ws.map_values(|w: u16| w as nat) =~= init.map_values(|w: u16| w as nat).push(
            ws.last() as nat,
        ));
    }
}

} // verus!
