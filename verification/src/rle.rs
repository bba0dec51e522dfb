//! The run-length code for block flags.
//!
//! A flag sequence is stored as a sequence of 16-bit words. A non-negative
//! word `k` stands for `k` flags that are all `false`. A negative word stands
//! for up to 15 flags: bit `i` (for `i < 15`) is flag `i` of the group, and
//! the sign bit marks the word as such a group.
//!
//! The encoder writes each gap between runs of set flags as the gap's length
//! cut to 16 bits (`as i16`). A gap of more than 32767 flags therefore comes
//! out negative and reads back as a group word: the code reads back as the
//! flags it was made from only when every gap fits (`encode_fits`, see
//! `lemma_encode_decode`).
use vstd::prelude::*;

verus! {

/// Index of the first `true` flag of `d` at or after `i`, or `d.len()` when
/// there is none.
pub open spec fn next_true(d: Seq<bool>, i: int) -> int
    decreases d.len() - i,
{
    if i < 0 || i >= d.len() {
        d.len() as int
    } else if d[i] {
        i
    } else {
        next_true(d, i + 1)
    }
}

/// Flag `i` of a group word: bit `i` of `w`.
pub open spec fn word_bit(w: i16, i: u32) -> bool {
    (w >> i) & 1i16 == 1i16
}

/// The group word that packs the `n` flags `d[p .. p + n]`: the sign bit set,
/// bit `i` set exactly when `d[p + i]` holds.
pub open spec fn pack(d: Seq<bool>, p: int, n: nat) -> i16
    decreases n,
{
    if n == 0 {
        i16::MIN
    } else {
        let w = pack(d, p, (n - 1) as nat);
        if d[p + n - 1] {
            w | (1i16 << ((n - 1) as u32))
        } else {
            w
        }
    }
}

/// Length of the group that starts at `p`: 15 flags, or what is left.
pub open spec fn group_len(d: Seq<bool>, p: int) -> nat {
    if d.len() - p >= 15 {
        15
    } else if d.len() - p > 0 {
        (d.len() - p) as nat
    } else {
        0
    }
}

/// The words that encode `d[p ..]`, starting in the middle of a run of
/// groups: a group that holds a `true` flag becomes a group word; a group of
/// `false` flags ends the run, and the gap up to the next `true` flag is
/// written as its length cut to 16 bits (a non-negative word when the gap is
/// at most 32767).
pub open spec fn encode_groups(d: Seq<bool>, p: int) -> Seq<i16>
    decreases d.len() - p,
{
    if p < 0 || p >= d.len() {
        seq![]
    } else {
        let n = group_len(d, p);
        let q = next_true(d, p);
        if q >= p + n {
            if q >= d.len() {
                seq![]
            } else {
                seq![(q - p) as i16] + encode_groups(d, q)
            }
        } else {
            seq![pack(d, p, n)] + encode_groups(d, p + n)
        }
    }
}

/// The run-length code of `d`: empty when no flag is set, else the gap to
/// the first `true` flag followed by the groups from there on. Each gap is
/// written cut to 16 bits (`as i16`), so a gap over 32767 is not written as
/// a non-negative word.
pub open spec fn encode(d: Seq<bool>) -> Seq<i16> {
    let q = next_true(d, 0);
    if q >= d.len() {
        seq![]
    } else {
        seq![q as i16] + encode_groups(d, q)
    }
}

/// Every gap that `encode_groups(d, p)` writes fits in a non-negative `i16`.
pub open spec fn groups_fit(d: Seq<bool>, p: int) -> bool
    decreases d.len() - p,
{
    if p < 0 || p >= d.len() {
        true
    } else {
        let n = group_len(d, p);
        let q = next_true(d, p);
        if q >= p + n {
            q >= d.len() || (q - p <= i16::MAX && groups_fit(d, q))
        } else {
            groups_fit(d, p + n)
        }
    }
}

/// Every gap that `encode(d)` writes fits in a non-negative `i16`, so that
/// the code can be read back.
pub open spec fn encode_fits(d: Seq<bool>) -> bool {
    let q = next_true(d, 0);
    q >= d.len() || (q <= i16::MAX && groups_fit(d, q))
}

/// The flags that word `w` stands for when `cur` flags of `len` are already
/// decoded: a group word gives at most the 15 flags that still fit.
pub open spec fn decode_word(w: i16, cur: int, len: int) -> Seq<bool> {
    if w < 0 {
        let n: int = if len - cur >= 15 {
            15
        } else if len - cur > 0 {
            len - cur
        } else {
            0
        };
        Seq::new(n as nat, |i: int| word_bit(w, i as u32))
    } else {
        Seq::new(w as nat, |i: int| false)
    }
}

/// `acc` followed by the flags that the words `ws` stand for.
pub open spec fn decode_from(acc: Seq<bool>, ws: Seq<i16>, len: int) -> Seq<bool>
    decreases ws.len(),
{
    if ws.len() == 0 {
        acc
    } else {
        decode_from(acc + decode_word(ws[0], acc.len() as int, len), ws.drop_first(), len)
    }
}

/// The flags that `ws` stands for, for a target length `len`.
pub open spec fn decode(ws: Seq<i16>, len: int) -> Seq<bool> {
    decode_from(Seq::empty(), ws, len)
}

/// `n` flags that are all `false`.
pub open spec fn falses(n: int) -> Seq<bool> {
    Seq::new(n as nat, |i: int| false)
}

/// `next_true` finds the first `true` flag at or after `i`.
pub proof fn lemma_next_true(d: Seq<bool>, i: int)
    requires
        0 <= i <= d.len(),
    ensures
        i <= next_true(d, i) <= d.len(),
        forall|j: int| i <= j < next_true(d, i) ==> !d[j],
        next_true(d, i) < d.len() ==> d[next_true(d, i)],
    decreases d.len() - i,
{
    if i < d.len() && !d[i] {
        lemma_next_true(d, i + 1);
    }
}


proof fn lemma_set_bit(w: i16, n: u32, i: u32)
    requires
        n < 15,
        i < 15,
        w < 0,
        !word_bit(w, n),
    ensures
        (w | (1i16 << n)) < 0,
        word_bit(w | (1i16 << n), i) == (i == n || word_bit(w, i)),
{
    assert((w | (1i16 << n)) < 0) by (bit_vector)
        requires
            n < 15,
            w < 0,
    ;
    assert((((w | (1i16 << n)) >> i) & 1i16 == 1i16) == (i == n || (w >> i) & 1i16 == 1i16))
        by (bit_vector)
        requires
            n < 15,
            i < 15,
            (w >> n) & 1i16 != 1i16,
    ;
}

proof fn lemma_min_bits(i: u32)
    requires
        i < 15,
    ensures
        !word_bit(i16::MIN, i),
{
    assert((i16::MIN >> i) & 1i16 != 1i16) by (bit_vector)
        requires
            i < 15,
    ;
}

/// The group word holds exactly the flags it packs.
pub proof fn lemma_pack(d: Seq<bool>, p: int, n: nat)
    requires
        n <= 15,
    ensures
        pack(d, p, n) < 0,
        forall|i: u32| i < n ==> word_bit(pack(d, p, n), i) == d[p + i],
        forall|i: u32| n <= i < 15 ==> !word_bit(pack(d, p, n), i),
    decreases n,
{
    if n == 0 {
        assert forall|i: u32| n <= i < 15 implies !word_bit(pack(d, p, n), i) by {
            lemma_min_bits(i);
        }
    } else {
        let m = (n - 1) as nat;
        lemma_pack(d, p, m);
        let w = pack(d, p, m);
        assert(p + n - 1 == p + m);
        if d[p + m] {
            let v = w | (1i16 << (m as u32));
            assert(pack(d, p, n) == v);
            lemma_set_bit(w, m as u32, 0);
            assert forall|i: u32| i < n implies #[trigger] word_bit(v, i) == d[p + i] by {
                lemma_set_bit(w, m as u32, i);
                if i < m {
                    assert(word_bit(w, i) == d[p + i]);
                }
            }
            assert forall|i: u32| n <= i < 15 implies !#[trigger] word_bit(v, i) by {
                lemma_set_bit(w, m as u32, i);
            }
        } else {
            assert(pack(d, p, n) == w);
            assert forall|i: u32| i < n implies #[trigger] word_bit(w, i) == d[p + i] by {
                if i < m {
                } else {
                    assert(i == m);
                }
            }
        }
    }
}

/// Decoding only appends to what was decoded before.
pub proof fn lemma_decode_from_extends(acc: Seq<bool>, ws: Seq<i16>, len: int)
    ensures
        decode_from(acc, ws, len).len() >= acc.len(),
        forall|j: int| 0 <= j < acc.len() ==> #[trigger] decode_from(acc, ws, len)[j] == acc[j],
    decreases ws.len(),
{
    if ws.len() > 0 {
        let acc2 = acc + decode_word(ws[0], acc.len() as int, len);
        lemma_decode_from_extends(acc2, ws.drop_first(), len);
        assert forall|j: int| 0 <= j < acc.len() implies #[trigger] decode_from(acc, ws, len)[j]
            == acc[j] by {
            assert(acc2[j] == acc[j]);
        }
    }
}

proof fn lemma_decode_from_cons(acc: Seq<bool>, w: i16, ws: Seq<i16>, len: int)
    ensures
        decode_from(acc, seq![w] + ws, len) == decode_from(
            acc + decode_word(w, acc.len() as int, len),
            ws,
            len,
        ),
{
    let all = seq![w] + ws;
    assert(all[0] == w);
    assert(all.drop_first() =~= ws);
}

/// Decoding the groups from `p` on, after the first `p` flags, gives a prefix
/// of `d` past which every flag of `d` is `false`.
proof fn lemma_groups_roundtrip(d: Seq<bool>, p: int)
    requires
        0 <= p <= d.len(),
        groups_fit(d, p),
    ensures
        ({
            let r = decode_from(d.take(p), encode_groups(d, p), d.len() as int);
            &&& r.len() <= d.len()
            &&& forall|j: int| 0 <= j < r.len() ==> r[j] == d[j]
            &&& forall|j: int| r.len() <= j < d.len() ==> !d[j]
        }),
    decreases d.len() - p,
{
    let len = d.len() as int;
    if p == len {
        assert(d.take(p) =~= d);
    } else {
        let n = group_len(d, p);
        let q = next_true(d, p);
        lemma_next_true(d, p);
        if q >= p + n {
            if q >= len {
                assert(encode_groups(d, p) =~= Seq::<i16>::empty());
            } else {
                let w = (q - p) as i16;
                assert(w == q - p);
                let rest = encode_groups(d, q);
                assert(encode_groups(d, p) == seq![w] + rest);
                lemma_decode_from_cons(d.take(p), w, rest, len);
                assert(d.take(p) + decode_word(w, p, len) =~= d.take(q));
                lemma_groups_roundtrip(d, q);
            }
        } else {
            let w = pack(d, p, n);
            lemma_pack(d, p, n);
            let rest = encode_groups(d, p + n);
            assert(encode_groups(d, p) == seq![w] + rest);
            lemma_decode_from_cons(d.take(p), w, rest, len);
            let dw = decode_word(w, p, len);
            assert(dw.len() == n);
            assert forall|i: int| 0 <= i < n implies dw[i] == d[p + i] by {
                assert(word_bit(w, i as u32) == d[p + (i as u32)]);
            }
            assert(d.take(p) + dw =~= d.take(p + n));
            lemma_groups_roundtrip(d, p + n);
        }
    }
}

/// Reading back the code of `d` at the length of `d` gives `d` again,
/// whenever every gap of the code fits in its word.
pub proof fn lemma_encode_decode(d: Seq<bool>)
    requires
        encode_fits(d),
    ensures
        decode(encode(d), d.len() as int).len() <= d.len(),
        decode(encode(d), d.len() as int) + falses(
            d.len() - decode(encode(d), d.len() as int).len(),
        ) == d,
{
    let len = d.len() as int;
    let q = next_true(d, 0);
    lemma_next_true(d, 0);
    let r = decode(encode(d), len);
    if q >= len {
        assert(encode(d) =~= Seq::<i16>::empty());
        assert(r =~= Seq::<bool>::empty());
        assert(r + falses(len - r.len()) =~= d);
    } else {
        let w = q as i16;
        assert(w == q);
        let rest = encode_groups(d, q);
        lemma_decode_from_cons(Seq::empty(), w, rest, len);
        assert(Seq::<bool>::empty() + decode_word(w, 0, len) =~= d.take(q));
        lemma_groups_roundtrip(d, q);
        assert(r + falses(len - r.len()) =~= d);
    }
}


/// Index of the first `true` flag of `data` at or after `from`, or the length
/// of `data` when there is none.
fn next_true_index(data: &[bool], from: usize) -> (k: usize)
    requires
        from <= data@.len(),
    ensures
        k == next_true(data@, from as int),
{
    let mut i = from;
    while i < data.len() && !data[i]
        invariant
            from <= i <= data@.len(),
            next_true(data@, i as int) == next_true(data@, from as int),
        decreases data@.len() - i,
    {
        i = i + 1;
    }
    i
}

/// The group word for the `n` flags `data[p .. p + n]`.
fn pack_group(data: &[bool], p: usize, n: usize) -> (word: i16)
    requires
        n <= 15,
        p + n <= data@.len(),
    ensures
        word == pack(data@, p as int, n as nat),
{
    let mut word: i16 = i16::MIN;
    let mut i: usize = 0;
    while i < n
        invariant
            i <= n <= 15,
            p + n <= data.len(),
            word == pack(data@, p as int, i as nat),
        decreases n - i,
    {
        let bit: u32 = i as u32;
        if data[p + i] {
            word = word | (1i16 << bit);
        }
        i = i + 1;
    }
    word
}

/// Encodes block flags: the gap to each run of set flags as a word holding
/// the gap's length cut to 16 bits (non-negative when the gap is at most
/// 32767), and the run itself in groups of 15 flags, each a negative word.
/// `decompress` gives the flags back when every gap fits (`encode_fits`,
/// `lemma_encode_decode`); a longer gap comes out negative and reads back as
/// a group word.
pub fn compress(data: &[bool]) -> (compressed: Vec<i16>)
    ensures
        compressed@ == encode(data@),
{
    let len = data.len();
    let mut out: Vec<i16> = Vec::new();
    let first = next_true_index(data, 0);
    if first == len {
        return out;
    }
    proof {
        lemma_next_true(data@, 0);
    }
    out.push(#[verifier::truncate] (first as i16));
    let mut p = first;
    assert(out@ + encode_groups(data@, p as int) =~= encode(data@));
    loop
        invariant
            p <= len == data@.len(),
            out@ + encode_groups(data@, p as int) == encode(data@),
        decreases len - p,
    {
        let n: usize = if len - p >= 15 { 15 } else { len - p };
        let q = next_true_index(data, p);
        if q >= p + n {
            if q == len {
                assert(encode_groups(data@, p as int) =~= Seq::<i16>::empty());
                assert(out@ =~= encode(data@));
                return out;
            }
            proof {
                lemma_next_true(data@, p as int);
            }
            let ghost before = out@;
            out.push(#[verifier::truncate] ((q - p) as i16));
            assert(out@ + encode_groups(data@, q as int) =~= before + encode_groups(
                data@,
                p as int,
            ));
            p = q;
        } else {
            let word = pack_group(data, p, n);
            let ghost before = out@;
            out.push(word);
            assert(out@ + encode_groups(data@, (p + n) as int) =~= before + encode_groups(
                data@,
                p as int,
            ));
            p = p + n;
        }
    }
}


/// Decodes `compressed` into exactly `len` block flags: each group word gives
/// the flags of its low 15 bits (no more than still fit), each non-negative
/// word that many `false` flags, and the rest up to `len` is `false`.
/// The words must not stand for more than `len` flags.
pub fn decompress(compressed: &[i16], len: usize) -> (data: Vec<bool>)
    requires
        decode(compressed@, len as int).len() <= len,
    ensures
        data@ == decode(compressed@, len as int) + falses(
            len - decode(compressed@, len as int).len(),
        ),
        data@.len() == len,
{
    let ghost total = decode(compressed@, len as int);
    let mut data: Vec<bool> = Vec::with_capacity(len);
    let mut k: usize = 0;
    assert(compressed@.skip(0) =~= compressed@);
    while k < compressed.len()
        invariant
            k <= compressed@.len(),
            total == decode(compressed@, len as int),
            total.len() <= len,
            decode_from(data@, compressed@.skip(k as int), len as int) == total,
        decreases compressed@.len() - k,
    {
        proof {
            lemma_decode_from_extends(data@, compressed@.skip(k as int), len as int);
        }
        let word = compressed[k];
        let ghost before = data@;
        let ghost step = decode_word(word, before.len() as int, len as int);
        if word < 0 {
            let room = len - data.len();
            let n: usize = if room < 15 { room } else { 15 };
            let mut i: usize = 0;
            while i < n
                invariant
                    i <= n <= 15,
                    data@ =~= before + Seq::new(i as nat, |j: int| word_bit(word, j as u32)),
                decreases n - i,
            {
                let bit: u32 = i as u32;
                data.push((word >> bit) & 1i16 == 1i16);
                i = i + 1;
            }
            assert(data@ =~= before + step);
        } else {
            let n = word as usize;
            proof {
                lemma_decode_from_extends(
                    before + step,
                    compressed@.skip(k as int).drop_first(),
                    len as int,
                );
                assert(compressed@.skip(k as int)[0] == word);
            }
            let mut i: usize = 0;
            while i < n
                invariant
                    i <= n,
                    before.len() + n <= len,
                    data@ =~= before + falses(i as int),
                decreases n - i,
            {
                data.push(false);
                i = i + 1;
            }
            assert(data@ =~= before + step);
        }
        assert(compressed@.skip(k as int)[0] == word);
        assert(compressed@.skip(k as int).drop_first() =~= compressed@.skip(k + 1));
        k = k + 1;
    }
    assert(compressed@.skip(k as int) =~= Seq::<i16>::empty());
    let pad = len - data.len();
    let ghost before = data@;
    let mut i: usize = 0;
    while i < pad
        invariant
            i <= pad,
            data@ =~= before + falses(i as int),
        decreases pad - i,
    {
        data.push(false);
        i = i + 1;
    }
    data
}


/// Number of flags that `ws` stands for when `cur` flags are already
/// decoded, for a target length `len`.
pub open spec fn decoded_len(cur: int, ws: Seq<i16>, len: int) -> int
    decreases ws.len(),
{
    if ws.len() == 0 {
        cur
    } else {
        decoded_len(cur + decode_word(ws[0], cur, len).len(), ws.drop_first(), len)
    }
}

proof fn lemma_decoded_len(acc: Seq<bool>, ws: Seq<i16>, len: int)
    ensures
        decode_from(acc, ws, len).len() == decoded_len(acc.len() as int, ws, len),
        decoded_len(acc.len() as int, ws, len) >= acc.len(),
    decreases ws.len(),
{
    if ws.len() > 0 {
        lemma_decoded_len(acc + decode_word(ws[0], acc.len() as int, len), ws.drop_first(), len);
    }
}

proof fn lemma_decoded_len_grows(cur: int, ws: Seq<i16>, len: int)
    ensures
        decoded_len(cur, ws, len) >= cur,
    decreases ws.len(),
{
    if ws.len() > 0 {
        lemma_decoded_len_grows(cur + decode_word(ws[0], cur, len).len(), ws.drop_first(), len);
    }
}

/// Whether the words `compressed` stand for at most `len` flags, so that
/// they can be decoded to `len` flags.
pub fn decode_fits(compressed: &[i16], len: usize) -> (r: bool)
    ensures
        r == (decode(compressed@, len as int).len() <= len),
{
    proof {
        lemma_decoded_len(Seq::empty(), compressed@, len as int);
    }
    let ghost total = decoded_len(0, compressed@, len as int);
    let mut cur: usize = 0;
    let mut k: usize = 0;
    assert(compressed@.skip(0) =~= compressed@);
    while k < compressed.len()
        invariant
            k <= compressed@.len(),
            cur <= len,
            total == decode(compressed@, len as int).len(),
            decoded_len(cur as int, compressed@.skip(k as int), len as int) == total,
        decreases compressed@.len() - k,
    {
        let word = compressed[k];
        let rest = Ghost(compressed@.skip(k as int));
        assert(rest@[0] == word);
        assert(rest@.drop_first() =~= compressed@.skip(k + 1));
        if word < 0 {
            let room = len - cur;
            cur = cur + if room < 15 { room } else { 15 };
        } else {
            let n = word as usize;
            if n > len - cur {
                proof {
                    assert(decode_word(word, cur as int, len as int).len() == n);
                    assert(decoded_len(cur as int, rest@, len as int) == decoded_len(
                        cur + n,
                        compressed@.skip(k + 1),
                        len as int,
                    ));
                    lemma_decoded_len_grows(cur + n, compressed@.skip(k + 1), len as int);
                }
                return false;
            }
            cur = cur + n;
        }
        k = k + 1;
    }
    assert(compressed@.skip(k as int) =~= Seq::<i16>::empty());
    cur <= len
}

/// Reads a run-length code stored as raw 16-bit words (group words have the
/// top bit set) and decodes it to `len` flags; `None` when the words stand
/// for more than `len` flags.
pub fn blocks_from_words(words: &[u16], len: usize) -> (r: Option<Vec<bool>>)
    ensures
        ({
            let ws = words@.map_values(|w: u16| w as i16);
            &&& r is Some <==> decode(ws, len as int).len() <= len
            &&& r matches Some(data) ==> data@ == decode(ws, len as int) + falses(
                len - decode(ws, len as int).len(),
            )
        }),
{
    let mut compressed: Vec<i16> = Vec::new();
    let mut i: usize = 0;
    while i < words.len()
        invariant
            i <= words@.len(),
            compressed@ =~= words@.take(i as int).map_values(|w: u16| w as i16),
        decreases words@.len() - i,
    {
        compressed.push(#[verifier::truncate] (words[i] as i16));
        i = i + 1;
    }
    assert(words@.take(i as int) =~= words@);
    if decode_fits(&compressed, len) {
        Some(decompress(&compressed, len))
    } else {
        None
    }
}


/// The code of `d` stored as raw 16-bit words (as the text form and the
/// stored tables hold it) reads back, through `blocks_from_words` at the
/// length of `d`, as `d` again, whenever every gap fits in its word.
pub proof fn lemma_stored_code_roundtrip(d: Seq<bool>)
    requires
        encode_fits(d),
    ensures
        ({
            let raw = encode(d).map_values(|w: i16| w as u16);
            let ws = raw.map_values(|w: u16| w as i16);
            &&& decode(ws, d.len() as int).len() <= d.len()
            &&& decode(ws, d.len() as int) + falses(d.len() - decode(ws, d.len() as int).len())
                == d
        }),
{
    let code = encode(d);
    let raw = code.map_values(|w: i16| w as u16);
    let ws = raw.map_values(|w: u16| w as i16);
    assert forall|i: int| 0 <= i < code.len() implies ws[i] == code[i] by {
        let w = code[i];
        assert(((w as u16) as i16) == w) by (bit_vector);
    }
    assert(ws =~= code);
    lemma_encode_decode(d);
}


proof fn lemma_next_true_padded(d: Seq<bool>, k: nat, i: int)
    requires
        0 <= i <= d.len() + k,
    ensures
        next_true(d + falses(k as int), i) == if next_true(d, i) < d.len() {
            next_true(d, i)
        } else {
            (d.len() + k) as int
        },
    decreases d.len() + k - i,
{
    let e = d + falses(k as int);
    if i < d.len() {
        assert(e[i] == d[i]);
        if !d[i] {
            lemma_next_true_padded(d, k, i + 1);
        }
    } else if i < d.len() + k {
        assert(!e[i]);
        lemma_next_true_padded(d, k, i + 1);
    }
}

proof fn lemma_pack_padded(d: Seq<bool>, k: nat, p: int, m: nat)
    requires
        0 <= p,
        p + m <= d.len() + k,
    ensures
        p + m <= d.len() ==> pack(d + falses(k as int), p, m) == pack(d, p, m),
        p <= d.len() <= p + m ==> pack(d + falses(k as int), p, m) == pack(
            d,
            p,
            (d.len() - p) as nat,
        ),
    decreases m,
{
    let e = d + falses(k as int);
    if m > 0 {
        lemma_pack_padded(d, k, p, (m - 1) as nat);
        if p + m <= d.len() {
            assert(e[p + m - 1] == d[p + m - 1]);
        } else if p <= d.len() {
            assert(!e[p + m - 1]);
        }
    }
}

proof fn lemma_groups_padded(d: Seq<bool>, k: nat, p: int)
    requires
        0 <= p <= d.len(),
    ensures
        encode_groups(d + falses(k as int), p) == encode_groups(d, p),
    decreases d.len() - p,
{
    let e = d + falses(k as int);
    let q = next_true(d, p);
    lemma_next_true(d, p);
    lemma_next_true_padded(d, k, p);
    if p == d.len() {
        if p < e.len() {
            assert(next_true(e, p) == e.len());
        }
    } else {
        let n = group_len(d, p);
        let n2 = group_len(e, p);
        if q >= d.len() {
        } else if q >= p + n {
            assert(n == 15 && n2 == 15);
            lemma_groups_padded(d, k, q);
        } else {
            if n == 15 {
                assert(n2 == 15);
                lemma_pack_padded(d, k, p, n);
                lemma_groups_padded(d, k, p + n);
            } else {
                assert(p + n == d.len());
                lemma_pack_padded(d, k, p, n2);
                let r = p + n2;
                if r < e.len() {
                    lemma_next_true_padded(d, k, r);
                    assert(next_true(e, r) == e.len());
                }
                assert(encode_groups(e, r) =~= Seq::<i16>::empty());
                assert(encode_groups(d, p + n) =~= Seq::<i16>::empty());
            }
        }
    }
}

/// Falses appended to the flags leave the code unchanged: trailing `false`
/// flags never produce words.
pub proof fn lemma_encode_trailing_falses(d: Seq<bool>, k: nat)
    ensures
        encode(d + falses(k as int)) == encode(d),
{
    lemma_next_true(d, 0);
    lemma_next_true_padded(d, k, 0);
    let q = next_true(d, 0);
    if q < d.len() {
        lemma_groups_padded(d, k, q);
    }
}

/// Number of flags that `ws` stands for when no group word is cut short:
/// a non-negative word its value, a group word 15.
pub open spec fn uncut_len(ws: Seq<i16>) -> int
    decreases ws.len(),
{
    if ws.len() == 0 {
        0
    } else {
        (if ws[0] < 0 {
            15
        } else {
            ws[0] as int
        }) + uncut_len(ws.drop_first())
    }
}

proof fn lemma_decode_from_uncut(acc: Seq<bool>, ws: Seq<i16>, len: int, longer: int)
    requires
        acc.len() + uncut_len(ws) <= len <= longer,
    ensures
        decode_from(acc, ws, longer) == decode_from(acc, ws, len),
        decode_from(acc, ws, len).len() == acc.len() + uncut_len(ws),
    decreases ws.len(),
{
    if ws.len() > 0 {
        assert(uncut_len(ws.drop_first()) >= 0) by {
            lemma_uncut_len_nonneg(ws.drop_first());
        }
        let cur = acc.len() as int;
        assert(decode_word(ws[0], cur, longer) == decode_word(ws[0], cur, len));
        lemma_decode_from_uncut(
            acc + decode_word(ws[0], cur, len),
            ws.drop_first(),
            len,
            longer,
        );
    }
}

proof fn lemma_uncut_len_nonneg(ws: Seq<i16>)
    ensures
        uncut_len(ws) >= 0,
    decreases ws.len(),
{
    if ws.len() > 0 {
        lemma_uncut_len_nonneg(ws.drop_first());
    }
}

/// When no group word is cut short at length `len`, decoding at `len + k`
/// gives the flags decoded at `len` followed by `k` more `false` flags.
pub proof fn lemma_decode_longer(ws: Seq<i16>, len: nat, k: nat)
    requires
        uncut_len(ws) <= len,
    ensures
        decode(ws, len as int).len() <= len,
        decode(ws, (len + k) as int) + falses(len + k - decode(ws, (len + k) as int).len()) == decode(
            ws,
            len as int,
        ) + falses(len - decode(ws, len as int).len()) + falses(k as int),
{
    lemma_decode_from_uncut(Seq::empty(), ws, len as int, (len + k) as int);
    let r = decode(ws, len as int);
    assert(falses(len + k - r.len()) =~= falses(len - r.len()) + falses(k as int));
}


/// Nothing to decode leaves the flags as they are.
pub proof fn lemma_decode_no_words(acc: Seq<bool>, len: int)
    ensures
        decode_from(acc, Seq::empty(), len) == acc,
{
}

/// A non-negative word `w` stands for exactly `w` flags, all `false`,
/// whatever was decoded before it and whatever the target length.
pub proof fn lemma_decode_gap_word(acc: Seq<bool>, w: i16, ws: Seq<i16>, len: int)
    requires
        w >= 0,
    ensures
        decode_from(acc, seq![w] + ws, len) == decode_from(
            acc + Seq::new(w as nat, |i: int| false),
            ws,
            len,
        ),
{
    lemma_decode_from_cons(acc, w, ws, len);
    assert(decode_word(w, acc.len() as int, len) =~= Seq::new(w as nat, |i: int| false));
}

/// A negative word stands for the flags in its low 15 bits (bit `i` for the
/// `i`-th flag), no more than still fit in the target length.
pub proof fn lemma_decode_group_word(acc: Seq<bool>, w: i16, ws: Seq<i16>, len: int)
    requires
        w < 0,
    ensures
        decode_from(acc, seq![w] + ws, len) == decode_from(
            acc + Seq::new(
                (if len - acc.len() >= 15 {
                    15
                } else if len - acc.len() > 0 {
                    len - acc.len()
                } else {
                    0
                }) as nat,
                |i: int| (w >> (i as u32)) & 1i16 == 1i16,
            ),
            ws,
            len,
        ),
{
    lemma_decode_from_cons(acc, w, ws, len);
    let n: int = if len - acc.len() >= 15 {
        15
    } else if len - acc.len() > 0 {
        len - acc.len()
    } else {
        0
    };
    assert(decode_word(w, acc.len() as int, len) =~= Seq::new(
        n as nat,
        |i: int| (w >> (i as u32)) & 1i16 == 1i16,
    ));
}

/// Decompressing the single word `w >= 0` at any length of at least `w`
/// gives only `false` flags: the first `w` come from the word.
pub proof fn lemma_decode_single_gap(w: i16, len: int)
    requires
        0 <= w <= len,
    ensures
        decode(seq![w], len) == Seq::new(w as nat, |i: int| false),
        decode(seq![w], len) + falses(len - decode(seq![w], len).len()) == Seq::new(
            len as nat,
            |i: int| false,
        ),
{
    lemma_decode_gap_word(Seq::empty(), w, Seq::empty(), len);
    assert(seq![w] + Seq::<i16>::empty() =~= seq![w]);
    assert(Seq::<bool>::empty() + Seq::new(w as nat, |i: int| false) =~= Seq::new(
        w as nat,
        |i: int| false,
    ));
    let r = decode(seq![w], len);
    assert(r + falses(len - r.len()) =~= Seq::new(len as nat, |i: int| false));
}

proof fn lemma_next_true_shift(g: nat, d: Seq<bool>, i: int)
    requires
        0 <= i <= d.len(),
    ensures
        next_true(falses(g as int) + d, g + i) == g + next_true(d, i),
    decreases d.len() - i,
{
    let e = falses(g as int) + d;
    if i < d.len() {
        assert(e[g + i] == d[i]);
        if !d[i] {
            lemma_next_true_shift(g, d, i + 1);
        }
    }
}

proof fn lemma_next_true_in_gap(g: nat, d: Seq<bool>, i: int)
    requires
        0 <= i <= g,
    ensures
        next_true(falses(g as int) + d, i) == next_true(falses(g as int) + d, g as int),
    decreases g - i,
{
    let e = falses(g as int) + d;
    if i < g {
        assert(!e[i]);
        lemma_next_true_in_gap(g, d, i + 1);
    }
}

proof fn lemma_pack_shift(g: nat, d: Seq<bool>, p: int, n: nat)
    requires
        0 <= p,
        p + n <= d.len(),
    ensures
        pack(falses(g as int) + d, g + p, n) == pack(d, p, n),
    decreases n,
{
    if n > 0 {
        lemma_pack_shift(g, d, p, (n - 1) as nat);
        assert((falses(g as int) + d)[g + p + n - 1] == d[p + n - 1]);
    }
}

proof fn lemma_groups_shift(g: nat, d: Seq<bool>, p: int)
    requires
        0 <= p <= d.len(),
    ensures
        encode_groups(falses(g as int) + d, g + p) == encode_groups(d, p),
    decreases d.len() - p,
{
    let e = falses(g as int) + d;
    if p < d.len() {
        let n = group_len(d, p);
        assert(group_len(e, g + p) == n);
        lemma_next_true_shift(g, d, p);
        lemma_next_true(d, p);
        let q = next_true(d, p);
        if q >= p + n {
            if q < d.len() {
                assert((g + q) - (g + p) == q - p);
                lemma_groups_shift(g, d, q);
            }
        } else {
            lemma_pack_shift(g, d, p, n);
            lemma_groups_shift(g, d, p + n);
        }
    }
}

/// A gap of `g <= 32767` flags before flags that start with a set one is
/// written as the single word `g`, followed by the words of those flags'
/// groups, just as when the gap is not there.
pub proof fn lemma_encode_gap(g: nat, d: Seq<bool>)
    requires
        g <= i16::MAX,
        d.len() > 0,
        d[0],
    ensures
        encode(falses(g as int) + d) == seq![g as i16] + encode(d).drop_first(),
{
    let e = falses(g as int) + d;
    lemma_next_true_in_gap(g, d, 0);
    lemma_next_true_shift(g, d, 0);
    assert(next_true(d, 0) == 0);
    lemma_groups_shift(g, d, 0);
    assert((g + 0) as int == g as int);
    assert(encode(d).drop_first() =~= encode_groups(d, 0));
}

/// The code of `g <= 32767` false flags followed by one set flag is the gap
/// word `g` and the group word with only its first flag set.
pub proof fn lemma_encode_gap_then_one(g: nat)
    requires
        g <= i16::MAX,
    ensures
        encode(falses(g as int) + seq![true]) == seq![g as i16, i16::MIN | 1i16],
{
    let d = seq![true];
    lemma_encode_gap(g, d);
    assert(next_true(d, 0) == 0);
    assert(group_len(d, 0) == 1);
    assert(encode_groups(d, 1) =~= Seq::<i16>::empty());
    assert(pack(d, 0, 0) == i16::MIN);
    assert(pack(d, 0, 1) == i16::MIN | (1i16 << 0u32));
    assert((i16::MIN | (1i16 << 0u32)) == (i16::MIN | 1i16)) by (bit_vector);
    assert(encode(d) =~= seq![0i16, i16::MIN | 1i16]);
    assert(seq![g as i16] + encode(d).drop_first() =~= seq![g as i16, i16::MIN | 1i16]);
}

proof fn lemma_word_bits(w: i16, j: u32)
    requires
        j < 15,
    ensures
        word_bit(w, 0) == (w & 1i16 == 1i16),
        word_bit(w, j) ==> w & 0x7fffi16 != 0,
{
    assert(((w >> 0u32) & 1i16 == 1i16) == (w & 1i16 == 1i16)) by (bit_vector);
    assert(((w >> j) & 1i16 == 1i16) ==> w & 0x7fffi16 != 0) by (bit_vector)
        requires
            j < 15,
    ;
}

/// The shape of the words from `p` on: a word `>= 0` is a gap and is
/// followed by a group word whose first flag is set; every group word holds
/// a set flag.
proof fn lemma_groups_shape(d: Seq<bool>, p: int)
    requires
        0 <= p <= d.len(),
    ensures
        ({
            let s = encode_groups(d, p);
            &&& forall|i: int|
                0 <= i < s.len() && #[trigger] s[i] >= 0 ==> i + 1 < s.len() && s[i + 1] < 0
                    && s[i + 1] & 1i16 == 1i16
            &&& groups_fit(d, p) ==> forall|i: int|
                0 <= i < s.len() && s[i] < 0 ==> s[i] & 0x7fffi16 != 0
            &&& (p < d.len() && d[p]) ==> s.len() > 0 && s[0] < 0 && s[0] & 1i16 == 1i16
        }),
    decreases d.len() - p,
{
    if p < d.len() {
        let n = group_len(d, p);
        let q = next_true(d, p);
        lemma_next_true(d, p);
        if q >= p + n {
            if q < d.len() {
                lemma_groups_shape(d, q);
                let rest = encode_groups(d, q);
                let s = encode_groups(d, p);
                assert(s == seq![(q - p) as i16] + rest);
                assert(forall|i: int| 0 < i < s.len() ==> s[i] == rest[i - 1]);
            }
        } else {
            lemma_pack(d, p, n);
            let w = pack(d, p, n);
            lemma_groups_shape(d, p + n);
            let rest = encode_groups(d, p + n);
            let s = encode_groups(d, p);
            assert(s == seq![w] + rest);
            assert(forall|i: int| 0 < i < s.len() ==> s[i] == rest[i - 1]);
            let j = (q - p) as u32;
            assert(word_bit(w, j) == d[p + j]);
            lemma_word_bits(w, j);
            if d[p] {
                assert(word_bit(w, 0) == d[p + 0]);
            }
        }
    }
}

/// The shape of every code: a word `>= 0` (a gap) is always followed by a
/// group word whose first flag is set, so no two gap words stand next to
/// each other and no gap ends the code; and, when every gap fits, every
/// group word holds at least one set flag.
pub proof fn lemma_encode_shape(d: Seq<bool>)
    ensures
        forall|i: int|
            0 <= i < encode(d).len() && #[trigger] encode(d)[i] >= 0 ==> i + 1 < encode(d).len()
                && encode(d)[i + 1] < 0 && encode(d)[i + 1] & 1i16 == 1i16,
        encode_fits(d) ==> forall|i: int|
            0 <= i < encode(d).len() && encode(d)[i] < 0 ==> encode(d)[i] & 0x7fffi16 != 0,
{
    let q = next_true(d, 0);
    lemma_next_true(d, 0);
    if q < d.len() {
        let e = encode(d);
        let rest = encode_groups(d, q);
        assert(e == seq![q as i16] + rest);
        assert(forall|i: int| 0 < i < e.len() ==> e[i] == rest[i - 1]);
        lemma_groups_shape(d, q);
    }
}

} // verus!
