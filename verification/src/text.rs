//! Text forms of the stored results.
//!
//! A run's results are written as a Rust-like literal
//! `(full_count, &[0x.., ..], &[0x.., ..])`: the full-block count and the
//! run-length codes of the full and of the interesting blocks. A table of
//! such results is exported as a C++ header.
use vstd::prelude::*;
use vstd::string::StringSliceAdditionalSpecFns;
use crate::rle::{compress, encode, next_true};

verus! {

/// The bytes of a text.
pub open spec fn lit(s: &str) -> Seq<u8> {
    s.spec_bytes()
}

/// ASCII of the lower-case hexadecimal digit `d` (`d < 16`).
pub open spec fn hex_char(d: nat) -> u8 {
    if d < 10 {
        (48 + d) as u8
    } else {
        (87 + d) as u8
    }
}

/// Lower-case hexadecimal digits of `n`, without leading zeros.
pub open spec fn hex_digits(n: nat) -> Seq<u8>
    decreases n,
{
    if n < 16 {
        seq![hex_char(n)]
    } else {
        hex_digits(n / 16) + seq![hex_char(n % 16)]
    }
}

/// Decimal digits of `n`, without leading zeros.
pub open spec fn dec_digits(n: nat) -> Seq<u8>
    decreases n,
{
    if n < 10 {
        seq![(48 + n) as u8]
    } else {
        dec_digits(n / 10) + seq![(48 + n % 10) as u8]
    }
}

/// The words of `ws`, each as `0x` and its 16 bits in hexadecimal, separated
/// by `, `.
pub open spec fn words_text(ws: Seq<i16>) -> Seq<u8>
    decreases ws.len(),
{
    if ws.len() == 0 {
        seq![]
    } else if ws.len() == 1 {
        lit("0x") + hex_digits(ws[0] as u16 as nat)
    } else {
        words_text(ws.drop_last()) + lit(", 0x") + hex_digits(ws.last() as u16 as nat)
    }
}

/// `&[` , the words, `]`.
pub open spec fn compressed_text(ws: Seq<i16>) -> Seq<u8> {
    lit("&[") + words_text(ws) + lit("]")
}

/// `(` , the full-block count, `, ` , the code of the full blocks, `, ` , the
/// code of the interesting blocks, `)`.
pub open spec fn results_text(full_count: u32, full: Seq<i16>, interesting: Seq<i16>) -> Seq<
    u8,
> {
    lit("(") + dec_digits(full_count as nat) + lit(", ") + compressed_text(full) + lit(", ")
        + compressed_text(interesting) + lit(")")
}

/// Appends the bytes of `s`.
fn push_str(out: &mut Vec<u8>, s: &str)
    ensures
        final(out)@ == old(out)@ + lit(s),
{
    let bytes = s.as_bytes();
    let ghost start = out@;
    let mut i: usize = 0;
    while i < bytes.len()
        invariant
            i <= bytes@.len(),
            bytes@ == lit(s),
            out@ == start + bytes@.take(i as int),
        decreases bytes@.len() - i,
    {
        out.push(bytes[i]);
        assert(bytes@.take(i + 1) =~= bytes@.take(i as int).push(bytes@[i as int]));
        i = i + 1;
    }
    assert(bytes@.take(i as int) =~= bytes@);
}

/// Appends the hexadecimal digits of `n`.
fn push_hex(out: &mut Vec<u8>, n: u16)
    ensures
        final(out)@ == old(out)@ + hex_digits(n as nat),
    decreases n,
{
    if n >= 16 {
        push_hex(out, n / 16);
    }
    let d = n % 16;
    let c: u8 = if d < 10 { 48 + d as u8 } else { 87 + d as u8 };
    out.push(c);
}

/// Appends the decimal digits of `n`.
fn push_dec(out: &mut Vec<u8>, n: u64)
    ensures
        final(out)@ == old(out)@ + dec_digits(n as nat),
    decreases n,
{
    if n >= 10 {
        push_dec(out, n / 10);
    }
    let d = n % 10;
    out.push(48 + d as u8);
}

/// Appends `compressed` to `out` as a slice literal `&[0x.., 0x..]`, each
/// word in hexadecimal as its 16 bits read unsigned.
pub fn write_compressed(out: &mut Vec<u8>, compressed: &[i16])
    requires
        compressed@.len() >= 1,
    ensures
        final(out)@ == old(out)@ + compressed_text(compressed@),
{
    let ghost start = out@;
    push_str(out, "&[");
    push_str(out, "0x");
    push_hex(out, compressed[0] as u16);
    assert(compressed@.take(1) =~= seq![compressed@[0]]);
    assert(out@ =~= start + lit("&[") + words_text(compressed@.take(1)));
    let mut i: usize = 1;
    while i < compressed.len()
        invariant
            1 <= i <= compressed@.len(),
            out@ == start + lit("&[") + words_text(compressed@.take(i as int)),
        decreases compressed@.len() - i,
    {
        push_str(out, ", 0x");
        push_hex(out, compressed[i] as u16);
        assert(compressed@.take(i + 1).drop_last() =~= compressed@.take(i as int));
        assert(out@ =~= start + lit("&[") + words_text(compressed@.take(i + 1)));
        i = i + 1;
    }
    push_str(out, "]");
    assert(compressed@.take(i as int) =~= compressed@);
    assert(out@ =~= start + compressed_text(compressed@));
}

/// Appends the results of a run to `out`: `(full_count, &[..], &[..])` with
/// the run-length codes of `full` and of `interesting`. Each of the two must
/// hold a set flag, so that its code is not empty.
pub fn write_results(out: &mut Vec<u8>, full_count: u32, full: &[bool], interesting: &[bool])
    requires
        next_true(full@, 0) < full@.len(),
        next_true(interesting@, 0) < interesting@.len(),
    ensures
        final(out)@ == old(out)@ + results_text(full_count, encode(full@), encode(interesting@)),
{
    let ghost start = out@;
    push_str(out, "(");
    push_dec(out, full_count as u64);
    push_str(out, ", ");
    let full_code = compress(full);
    write_compressed(out, &full_code);
    push_str(out, ", ");
    let interesting_code = compress(interesting);
    write_compressed(out, &interesting_code);
    push_str(out, ")");
    assert(out@ =~= start + results_text(full_count, encode(full@), encode(interesting@)));
}


/// The stored results of one exponent range: the full-block count and the
/// run-length codes of the full and of the interesting blocks, as raw
/// 16-bit words.
pub struct BlockEntry {
    pub full_count: u32,
    pub full: Vec<u16>,
    pub interesting: Vec<u16>,
}

/// Each word as `0x` and its hexadecimal digits, followed by `,`.
pub open spec fn hex_items(ws: Seq<u16>) -> Seq<u8>
    decreases ws.len(),
{
    if ws.len() == 0 {
        seq![]
    } else {
        hex_items(ws.drop_last()) + lit("0x") + hex_digits(ws.last() as nat) + lit(",")
    }
}

/// The full-block counts of the entries, each followed by `,`.
pub open spec fn full_count_items(t: Seq<BlockEntry>) -> Seq<u8>
    decreases t.len(),
{
    if t.len() == 0 {
        seq![]
    } else {
        full_count_items(t.drop_last()) + dec_digits(t.last().full_count as nat) + lit(",")
    }
}

/// One array definition per entry: `constexpr uint16_t ib_<index>[] = {...};`
/// holding the code of its interesting blocks.
pub open spec fn array_definitions(t: Seq<BlockEntry>) -> Seq<u8>
    decreases t.len(),
{
    if t.len() == 0 {
        seq![]
    } else {
        array_definitions(t.drop_last()) + lit("constexpr uint16_t ib_") + dec_digits(
            (t.len() - 1) as nat,
        ) + lit("[] = {") + hex_items(t.last().interesting@) + lit("};\n")
    }
}

/// The array names `ib_0,` up to `ib_<n - 1>,`.
pub open spec fn array_names(n: nat) -> Seq<u8>
    decreases n,
{
    if n == 0 {
        seq![]
    } else {
        array_names((n - 1) as nat) + lit("ib_") + dec_digits((n - 1) as nat) + lit(",")
    }
}

/// The lengths of the interesting-block codes, each followed by `,`.
pub open spec fn size_items(t: Seq<BlockEntry>) -> Seq<u8>
    decreases t.len(),
{
    if t.len() == 0 {
        seq![]
    } else {
        size_items(t.drop_last()) + dec_digits(t.last().interesting@.len()) + lit(",")
    }
}

/// The C++ header that holds a table of results: the full-block counts, one
/// array per entry with the code of its interesting blocks, the table of
/// those arrays, and their lengths.
pub open spec fn cpp_header(t: Seq<BlockEntry>) -> Seq<u8> {
    lit("#include <cstdint>\n") + lit("\n") + lit("constexpr int full_counts[] = {")
        + full_count_items(t) + lit("};\n") + lit("\n") + array_definitions(t) + lit("\n")
        + lit("constexpr uint16_t const *interesting_blocks[] = {") + array_names(t.len())
        + lit("};\n") + lit("\n") + lit("constexpr int interesting_blocks_sizes[] = {")
        + size_items(t) + lit("};\n")
}

/// Appends the words of `ws`, each as `0x`, its hexadecimal digits and `,`.
fn push_hex_items(out: &mut Vec<u8>, ws: &[u16])
    ensures
        final(out)@ == old(out)@ + hex_items(ws@),
{
    let ghost start = out@;
    let mut i: usize = 0;
    while i < ws.len()
        invariant
            i <= ws@.len(),
            out@ == start + hex_items(ws@.take(i as int)),
        decreases ws@.len() - i,
    {
        push_str(out, "0x");
        push_hex(out, ws[i]);
        push_str(out, ",");
        assert(ws@.take(i + 1).drop_last() =~= ws@.take(i as int));
        assert(out@ =~= start + hex_items(ws@.take(i + 1)));
        i = i + 1;
    }
    assert(ws@.take(i as int) =~= ws@);
}

/// Appends the full-block counts of the entries, each followed by `,`.
fn push_full_counts(out: &mut Vec<u8>, table: &[BlockEntry])
    ensures
        final(out)@ == old(out)@ + full_count_items(table@),
{
    let ghost start = out@;
    let ghost t = table@;
    let mut i: usize = 0;
    while i < table.len()
        invariant
            i <= t.len(),
            t == table@,
            out@ == start + full_count_items(t.take(i as int)),
        decreases t.len() - i,
    {
        push_dec(out, table[i].full_count as u64);
        push_str(out, ",");
        assert(t.take(i + 1).drop_last() =~= t.take(i as int));
        assert(out@ =~= start + full_count_items(t.take(i + 1)));
        i = i + 1;
    }
    assert(t.take(i as int) =~= t);
}

/// Appends one array definition per entry.
fn push_array_definitions(out: &mut Vec<u8>, table: &[BlockEntry])
    ensures
        final(out)@ == old(out)@ + array_definitions(table@),
{
    let ghost start = out@;
    let ghost t = table@;
    let mut i: usize = 0;
    while i < table.len()
        invariant
            i <= t.len(),
            t == table@,
            out@ == start + array_definitions(t.take(i as int)),
        decreases t.len() - i,
    {
        push_str(out, "constexpr uint16_t ib_");
        push_dec(out, i as u64);
        push_str(out, "[] = {");
        push_hex_items(out, table[i].interesting.as_slice());
        push_str(out, "};\n");
        assert(t.take(i + 1).drop_last() =~= t.take(i as int));
        assert(t.take(i + 1).last() == t[i as int]);
        assert(out@ =~= start + array_definitions(t.take(i + 1)));
        i = i + 1;
    }
    assert(t.take(i as int) =~= t);
}

/// Appends the array names `ib_0,` up to `ib_<n - 1>,`.
fn push_array_names(out: &mut Vec<u8>, n: usize)
    ensures
        final(out)@ == old(out)@ + array_names(n as nat),
{
    let ghost start = out@;
    let mut i: usize = 0;
    while i < n
        invariant
            i <= n,
            out@ == start + array_names(i as nat),
        decreases n - i,
    {
        push_str(out, "ib_");
        push_dec(out, i as u64);
        push_str(out, ",");
        assert(out@ =~= start + array_names((i + 1) as nat));
        i = i + 1;
    }
}

/// Appends the lengths of the interesting-block codes, each followed by `,`.
fn push_sizes(out: &mut Vec<u8>, table: &[BlockEntry])
    ensures
        final(out)@ == old(out)@ + size_items(table@),
{
    let ghost start = out@;
    let ghost t = table@;
    let mut i: usize = 0;
    while i < table.len()
        invariant
            i <= t.len(),
            t == table@,
            out@ == start + size_items(t.take(i as int)),
        decreases t.len() - i,
    {
        push_dec(out, table[i].interesting.len() as u64);
        push_str(out, ",");
        assert(t.take(i + 1).drop_last() =~= t.take(i as int));
        assert(out@ =~= start + size_items(t.take(i + 1)));
        i = i + 1;
    }
    assert(t.take(i as int) =~= t);
}

/// Appends the table of results as a C++ header.
pub fn export_data_for_cpp(out: &mut Vec<u8>, table: &[BlockEntry])
    ensures
        final(out)@ == old(out)@ + cpp_header(table@),
{
    let ghost start = out@;
    push_str(out, "#include <cstdint>\n");
    push_str(out, "\n");
    push_str(out, "constexpr int full_counts[] = {");
    push_full_counts(out, table);
    push_str(out, "};\n");
    push_str(out, "\n");
    push_array_definitions(out, table);
    push_str(out, "\n");
    push_str(out, "constexpr uint16_t const *interesting_blocks[] = {");
    push_array_names(out, table.len());
    push_str(out, "};\n");
    push_str(out, "\n");
    push_str(out, "constexpr int interesting_blocks_sizes[] = {");
    push_sizes(out, table);
    push_str(out, "};\n");
    assert(out@ =~= start + cpp_header(table@));
}

} // verus!
