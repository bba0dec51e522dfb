//! Per-pixel and per-block result words and the counts drawn from them.
//!
//! A result word holds two flags: bit 0 ("any") is set when the point lies in
//! the set for some exponent of the range, bit 1 ("all") when it lies in the
//! set for every exponent. A block word aggregates the words of its pixels in
//! the same way.
use vstd::prelude::*;
use crate::grid::{
    pixel_block_index, TOTAL_BLOCK_COUNT, TOTAL_RESOLUTION, X_BLOCK_COUNT, X_BLOCK_SIZE,
    X_RESOLUTION, Y_BLOCK_SIZE, Y_RESOLUTION,
};

verus! {

/// Bit 0 of a result word.
pub open spec fn word_any(w: u32) -> bool {
    w & 1 == 1
}

/// Bit 1 of a result word.
pub open spec fn word_all(w: u32) -> bool {
    w & 2 == 2
}

/// How many words of `s` satisfy `f`.
pub open spec fn count_where(s: Seq<u32>, f: spec_fn(u32) -> bool) -> nat
    decreases s.len(),
{
    if s.len() == 0 {
        0
    } else {
        count_where(s.drop_last(), f) + if f(s.last()) {
            1nat
        } else {
            0nat
        }
    }
}

/// How many flags of `s` are set.
pub open spec fn count_true(s: Seq<bool>) -> nat
    decreases s.len(),
{
    if s.len() == 0 {
        0
    } else {
        count_true(s.drop_last()) + if s.last() {
            1nat
        } else {
            0nat
        }
    }
}

/// Neither flag: out of the set for every exponent.
pub open spec fn class_none(w: u32) -> bool {
    !word_any(w) && !word_all(w)
}

/// Both flags: in the set for every exponent.
pub open spec fn class_all(w: u32) -> bool {
    word_any(w) && word_all(w)
}

/// "All" without "any": a word no run should produce.
pub open spec fn class_invalid(w: u32) -> bool {
    word_all(w) && !word_any(w)
}

/// "Any" without "all": in the set for some exponents only.
pub open spec fn class_interesting(w: u32) -> bool {
    word_any(w) && !word_all(w)
}

proof fn lemma_count_where_step(s: Seq<u32>, i: int, f: spec_fn(u32) -> bool)
    requires
        0 <= i < s.len(),
    ensures
        count_where(s.take(i + 1), f) == count_where(s.take(i), f) + if f(s[i]) {
            1nat
        } else {
            0nat
        },
{
    assert(s.take(i + 1).drop_last() =~= s.take(i));
}

proof fn lemma_count_where_bound(s: Seq<u32>, f: spec_fn(u32) -> bool)
    ensures
        count_where(s, f) <= s.len(),
    decreases s.len(),
{
    if s.len() > 0 {
        lemma_count_where_bound(s.drop_last(), f);
    }
}

proof fn lemma_count_true_step(s: Seq<bool>, i: int)
    requires
        0 <= i < s.len(),
    ensures
        count_true(s.take(i + 1)) == count_true(s.take(i)) + if s[i] {
            1nat
        } else {
            0nat
        },
{
    assert(s.take(i + 1).drop_last() =~= s.take(i));
}

/// How the words of a buffer split by their two flags.
#[derive(Debug)]
pub struct AnyAllStats {
    /// not any and not all
    pub none: usize,
    /// any and all
    pub all: usize,
    /// all but not any
    pub invalid: usize,
    /// any but not all
    pub interesting: usize,
    pub total: usize,
}

impl Default for AnyAllStats {
    fn default() -> (r: Self)
        ensures
            r.none == 0 && r.all == 0 && r.invalid == 0 && r.interesting == 0 && r.total == 0,
    {
        AnyAllStats { none: 0, all: 0, invalid: 0, interesting: 0, total: 0 }
    }
}

/// Counts the words of `buffer` by their two flags.
pub fn any_all_stats(buffer: &[u32]) -> (stats: AnyAllStats)
    ensures
        stats.none == count_where(buffer@, |w: u32| class_none(w)),
        stats.all == count_where(buffer@, |w: u32| class_all(w)),
        stats.invalid == count_where(buffer@, |w: u32| class_invalid(w)),
        stats.interesting == count_where(buffer@, |w: u32| class_interesting(w)),
        stats.total == buffer@.len(),
{
    let ghost s = buffer@;
    let ghost f_none = |w: u32| class_none(w);
    let ghost f_all = |w: u32| class_all(w);
    let ghost f_invalid = |w: u32| class_invalid(w);
    let ghost f_interesting = |w: u32| class_interesting(w);
    let mut stats = AnyAllStats::default();
    let mut i: usize = 0;
    while i < buffer.len()
        invariant
            i <= s.len(),
            s == buffer@,
            f_none == (|w: u32| class_none(w)),
            f_all == (|w: u32| class_all(w)),
            f_invalid == (|w: u32| class_invalid(w)),
            f_interesting == (|w: u32| class_interesting(w)),
            stats.none == count_where(s.take(i as int), f_none),
            stats.all == count_where(s.take(i as int), f_all),
            stats.invalid == count_where(s.take(i as int), f_invalid),
            stats.interesting == count_where(s.take(i as int), f_interesting),
            stats.total == i,
        decreases s.len() - i,
    {
        proof {
            lemma_count_where_step(s, i as int, f_none);
            lemma_count_where_step(s, i as int, f_all);
            lemma_count_where_step(s, i as int, f_invalid);
            lemma_count_where_step(s, i as int, f_interesting);
            lemma_count_where_bound(s.take(i as int), f_none);
            lemma_count_where_bound(s.take(i as int), f_all);
            lemma_count_where_bound(s.take(i as int), f_invalid);
            lemma_count_where_bound(s.take(i as int), f_interesting);
        }
        let word = buffer[i];
        let any = word & 1 == 1;
        let all = word & 2 == 2;
        if !any && !all {
            stats.none = stats.none + 1;
        }
        if any && all {
            stats.all = stats.all + 1;
        }
        if any && !all {
            stats.interesting = stats.interesting + 1;
        }
        if all && !any {
            stats.invalid = stats.invalid + 1;
        }
        stats.total = stats.total + 1;
        i = i + 1;
    }
    assert(s.take(s.len() as int) =~= s);
    stats
}

/// Every word falls in exactly one of the four classes, so the classes add
/// up to the number of words.
pub proof fn lemma_stats_partition(s: Seq<u32>)
    ensures
        count_where(s, |w: u32| class_none(w)) + count_where(s, |w: u32| class_all(w)) + count_where(
            s,
            |w: u32| class_invalid(w),
        ) + count_where(s, |w: u32| class_interesting(w)) == s.len(),
    decreases s.len(),
{
    if s.len() > 0 {
        lemma_stats_partition(s.drop_last());
    }
}


/// Pixel counts over the whole grid.
#[derive(Debug)]
pub struct PixelCounts {
    /// pixels in the set for some exponent
    pub any: usize,
    /// pixels in the set for every exponent
    pub all: usize,
    /// pixels flagged "all" but not "any"
    pub invalid: usize,
}

/// Counts the pixel words of the grid (the first `TOTAL_RESOLUTION` words
/// of `data`): those with the "any" bit, those equal to 3 (any and all), and
/// those equal to 2 (all without any).
pub fn pixel_counts(data: &[u32]) -> (r: PixelCounts)
    requires
        data@.len() >= TOTAL_RESOLUTION,
    ensures
        r.any == count_where(data@.take(TOTAL_RESOLUTION as int), |w: u32| word_any(w)),
        r.all == count_where(data@.take(TOTAL_RESOLUTION as int), |w: u32| w == 3),
        r.invalid == count_where(data@.take(TOTAL_RESOLUTION as int), |w: u32| w == 2),
{
    let ghost s = data@;
    let mut any: usize = 0;
    let mut all: usize = 0;
    let mut invalid: usize = 0;
    let mut i: u32 = 0;
    while i < TOTAL_RESOLUTION
        invariant
            i <= TOTAL_RESOLUTION <= s.len(),
            s == data@,
            any == count_where(s.take(i as int), |w: u32| word_any(w)),
            all == count_where(s.take(i as int), |w: u32| w == 3),
            invalid == count_where(s.take(i as int), |w: u32| w == 2),
        decreases TOTAL_RESOLUTION - i,
    {
        proof {
            lemma_count_where_step(s, i as int, |w: u32| word_any(w));
            lemma_count_where_step(s, i as int, |w: u32| w == 3);
            lemma_count_where_step(s, i as int, |w: u32| w == 2);
            lemma_count_where_bound(s.take(i as int), |w: u32| word_any(w));
            lemma_count_where_bound(s.take(i as int), |w: u32| w == 3);
            lemma_count_where_bound(s.take(i as int), |w: u32| w == 2);
        }
        let word = data[i as usize];
        if word & 1 == 1 {
            any = any + 1;
        }
        if word == 3 {
            all = all + 1;
        }
        if word == 2 {
            invalid = invalid + 1;
        }
        i = i + 1;
    }
    PixelCounts { any, all, invalid }
}

/// Blocks split by their aggregated word.
pub struct BlockClasses {
    /// how many blocks lie wholly in the set (word 3), truncated to `u32`
    pub full_count: u32,
    /// per block: the word is 3
    pub full: Vec<bool>,
    /// per block: the word is 1 (in the set for some exponent, not all)
    pub interesting: Vec<bool>,
}

/// Splits the block words into full and interesting blocks.
pub fn classify_blocks(blocks: &[u32]) -> (r: BlockClasses)
    ensures
        r.full_count == #[verifier::truncate] (count_where(blocks@, |w: u32| w == 3) as u32),
        r.full@.len() == blocks@.len(),
        r.interesting@.len() == blocks@.len(),
        forall|i: int| 0 <= i < blocks@.len() ==> r.full@[i] == (blocks@[i] == 3),
        forall|i: int| 0 <= i < blocks@.len() ==> r.interesting@[i] == (blocks@[i] == 1),
{
    let ghost s = blocks@;
    let mut count: usize = 0;
    let mut full: Vec<bool> = Vec::new();
    let mut interesting: Vec<bool> = Vec::new();
    let mut i: usize = 0;
    while i < blocks.len()
        invariant
            i <= s.len(),
            s == blocks@,
            count == count_where(s.take(i as int), |w: u32| w == 3),
            full@.len() == i,
            interesting@.len() == i,
            forall|j: int| 0 <= j < i ==> full@[j] == (s[j] == 3),
            forall|j: int| 0 <= j < i ==> interesting@[j] == (s[j] == 1),
        decreases s.len() - i,
    {
        proof {
            lemma_count_where_step(s, i as int, |w: u32| w == 3);
            lemma_count_where_bound(s.take(i as int), |w: u32| w == 3);
        }
        let word = blocks[i];
        if word == 3 {
            count = count + 1;
        }
        full.push(word == 3);
        interesting.push(word == 1);
        i = i + 1;
    }
    assert(s.take(s.len() as int) =~= s);
    BlockClasses { full_count: #[verifier::truncate] (count as u32), full, interesting }
}

/// The mask words for a block table: 1 for a flagged block, 0 otherwise.
pub fn mask_words(flags: &[bool]) -> (r: Vec<u32>)
    ensures
        r@.len() == flags@.len(),
        forall|i: int| 0 <= i < flags@.len() ==> r@[i] == if flags@[i] {
            1u32
        } else {
            0u32
        },
{
    let mut r: Vec<u32> = Vec::new();
    let mut i: usize = 0;
    while i < flags.len()
        invariant
            i <= flags@.len(),
            r@.len() == i,
            forall|j: int| 0 <= j < i ==> r@[j] == if flags@[j] {
                1u32
            } else {
                0u32
            },
        decreases flags@.len() - i,
    {
        r.push(if flags[i] { 1u32 } else { 0u32 });
        i = i + 1;
    }
    r
}

/// Whether every block flagged in `inner` is flagged in `outer` too.
pub fn flags_within(inner: &[bool], outer: &[bool]) -> (r: bool)
    requires
        inner@.len() >= TOTAL_BLOCK_COUNT,
        forall|i: int| 0 <= i < TOTAL_BLOCK_COUNT && #[trigger] inner@[i] ==> i < outer@.len(),
    ensures
        r == forall|i: int| 0 <= i < TOTAL_BLOCK_COUNT ==> (inner@[i] ==> outer@[i]),
{
    let mut i: usize = 0;
    while i < TOTAL_BLOCK_COUNT as usize
        invariant
            i <= TOTAL_BLOCK_COUNT,
            inner@.len() >= TOTAL_BLOCK_COUNT,
            forall|j: int| 0 <= j < TOTAL_BLOCK_COUNT && #[trigger] inner@[j] ==> j < outer@.len(),
            forall|j: int| 0 <= j < i ==> (inner@[j] ==> outer@[j]),
        decreases TOTAL_BLOCK_COUNT - i,
    {
        if inner[i] && !outer[i] {
            return false;
        }
        i = i + 1;
    }
    true
}

/// Block counts of one exponent range.
#[derive(Debug)]
pub struct BlockReport {
    pub empty: u32,
    pub full: u32,
    pub interesting: u32,
    pub total: u32,
}

/// The block counts for a run: `full_count` full blocks, the flagged blocks
/// of `interesting`, and the rest of the grid's blocks empty.
pub fn block_report(full_count: u32, interesting: &[bool]) -> (r: BlockReport)
    requires
        full_count + count_true(interesting@) <= TOTAL_BLOCK_COUNT,
    ensures
        r.total == TOTAL_BLOCK_COUNT,
        r.full == full_count,
        r.interesting == count_true(interesting@),
        r.empty + r.full + r.interesting == r.total,
{
    let ghost s = interesting@;
    let mut count: u32 = 0;
    let mut i: usize = 0;
    while i < interesting.len()
        invariant
            i <= s.len(),
            s == interesting@,
            full_count + count_true(s) <= TOTAL_BLOCK_COUNT,
            count == count_true(s.take(i as int)),
            count_true(s.take(i as int)) <= count_true(s),
        decreases s.len() - i,
    {
        proof {
            lemma_count_true_step(s, i as int);
            lemma_count_true_prefix(s, i + 1);
        }
        if interesting[i] {
            count = count + 1;
        }
        i = i + 1;
    }
    assert(s.take(s.len() as int) =~= s);
    let total = TOTAL_BLOCK_COUNT;
    BlockReport { empty: total - full_count - count, full: full_count, interesting: count, total }
}

proof fn lemma_count_true_prefix(s: Seq<bool>, n: int)
    requires
        0 <= n <= s.len(),
    ensures
        count_true(s.take(n)) <= count_true(s),
    decreases s.len() - n,
{
    if n < s.len() {
        lemma_count_true_prefix(s, n + 1);
        lemma_count_true_step(s, n);
    } else {
        assert(s.take(n) =~= s);
    }
}


/// Index of pixel `(x, y)` in a row-major pixel table.
pub open spec fn pixel_index(x: int, y: int) -> int {
    y * X_RESOLUTION + x
}

/// A pixel in the set for some exponent lies in a block that is flagged
/// "any" as well.
pub open spec fn pixel_covered(pixels: Seq<u32>, blocks: Seq<u32>, x: int, y: int) -> bool {
    word_any(pixels[pixel_index(x, y)]) ==> word_any(blocks[pixel_block_index(x, y)])
}

/// The first pixel, by column and then by row, that is flagged "any" while
/// its block is not; `None` when every pixel is covered by its block.
pub fn first_uncovered_pixel(pixels: &[u32], blocks: &[u32]) -> (r: Option<(u32, u32)>)
    requires
        pixels@.len() >= TOTAL_RESOLUTION,
        blocks@.len() >= TOTAL_BLOCK_COUNT,
    ensures
        r is None ==> forall|x: int, y: int|
            0 <= x < X_RESOLUTION && 0 <= y < Y_RESOLUTION ==> #[trigger] pixel_covered(
                pixels@,
                blocks@,
                x,
                y,
            ),
        r matches Some((x, y)) ==> {
            &&& x < X_RESOLUTION && y < Y_RESOLUTION
            &&& !pixel_covered(pixels@, blocks@, x as int, y as int)
            &&& forall|px: int, py: int|
                0 <= py < Y_RESOLUTION && (0 <= px < x || (px == x && 0 <= py < y))
                    ==> #[trigger] pixel_covered(pixels@, blocks@, px, py)
        },
{
    let mut x: u32 = 0;
    while x < X_RESOLUTION
        invariant
            x <= X_RESOLUTION,
            pixels@.len() >= TOTAL_RESOLUTION,
            blocks@.len() >= TOTAL_BLOCK_COUNT,
            forall|px: int, py: int|
                0 <= px < x && 0 <= py < Y_RESOLUTION ==> #[trigger] pixel_covered(
                    pixels@,
                    blocks@,
                    px,
                    py,
                ),
        decreases X_RESOLUTION - x,
    {
        let mut y: u32 = 0;
        while y < Y_RESOLUTION
            invariant
                x < X_RESOLUTION,
                y <= Y_RESOLUTION,
                pixels@.len() >= TOTAL_RESOLUTION,
                blocks@.len() >= TOTAL_BLOCK_COUNT,
                forall|px: int, py: int|
                    0 <= px < x && 0 <= py < Y_RESOLUTION ==> #[trigger] pixel_covered(
                        pixels@,
                        blocks@,
                        px,
                        py,
                    ),
                forall|py: int|
                    0 <= py < y ==> #[trigger] pixel_covered(pixels@, blocks@, x as int, py),
            decreases Y_RESOLUTION - y,
        {
            let index = y * X_RESOLUTION + x;
            let pixel_any = pixels[index as usize] & 1 == 1;
            let block_index = (y / Y_BLOCK_SIZE) * X_BLOCK_COUNT + x / X_BLOCK_SIZE;
            let block_any = blocks[block_index as usize] & 1 == 1;
            if pixel_any && !block_any {
                return Some((x, y));
            }
            y = y + 1;
        }
        x = x + 1;
    }
    None
}


/// Counting over two buffers one after the other adds the counts of each.
pub proof fn lemma_count_where_concat(a: Seq<u32>, b: Seq<u32>, f: spec_fn(u32) -> bool)
    ensures
        count_where(a + b, f) == count_where(a, f) + count_where(b, f),
    decreases b.len(),
{
    if b.len() == 0 {
        assert(a + b =~= a);
    } else {
        assert((a + b).drop_last() =~= a + b.drop_last());
        lemma_count_where_concat(a, b.drop_last(), f);
    }
}

proof fn lemma_count_where_remove(s: Seq<u32>, j: int, f: spec_fn(u32) -> bool)
    requires
        0 <= j < s.len(),
    ensures
        count_where(s, f) == count_where(s.remove(j), f) + if f(s[j]) {
            1nat
        } else {
            0nat
        },
{
    let front = s.take(j);
    let back = s.skip(j + 1);
    assert(s =~= front + seq![s[j]] + back);
    assert(s.remove(j) =~= front + back);
    lemma_count_where_concat(front + seq![s[j]], back, f);
    lemma_count_where_concat(front, seq![s[j]], f);
    lemma_count_where_concat(front, back, f);
    let one = seq![s[j]];
    assert(one.drop_last() =~= Seq::<u32>::empty());
    assert(one.last() == s[j]);
    assert(count_where(one, f) == count_where(Seq::<u32>::empty(), f) + if f(s[j]) {
        1nat
    } else {
        0nat
    });
}

/// Counts do not depend on the order of the words: a buffer and any
/// rearrangement of it (the same multiset of words) have the same counts.
pub proof fn lemma_count_where_permutation(a: Seq<u32>, p: Seq<u32>, f: spec_fn(u32) -> bool)
    requires
        a.to_multiset() == p.to_multiset(),
    ensures
        count_where(a, f) == count_where(p, f),
    decreases a.len(),
{
    broadcast use vstd::seq_lib::group_to_multiset_ensures;
    broadcast use vstd::multiset::group_multiset_axioms;

    vstd::seq_lib::to_multiset_len(a);
    vstd::seq_lib::to_multiset_len(p);
    if a.len() == 0 {
        assert(p.len() == 0);
    } else {
        let x = a.last();
        let init = a.drop_last();
        assert(a =~= init.push(x));
        assert(a.to_multiset().count(x) > 0);
        assert(p.contains(x));
        let j = choose|j: int| 0 <= j < p.len() && p[j] == x;
        let rest = p.remove(j);
        assert(rest.to_multiset() =~= init.to_multiset());
        lemma_count_where_permutation(init, rest, f);
        lemma_count_where_remove(p, j, f);
    }
}

/// The classes of `any_all_stats` add over two buffers one after the other
/// and do not depend on the order of the words.
pub proof fn lemma_stats_concat_permutation(a: Seq<u32>, b: Seq<u32>, p: Seq<u32>)
    requires
        a.to_multiset() == p.to_multiset(),
    ensures
        count_where(a + b, |w: u32| class_none(w)) == count_where(a, |w: u32| class_none(w))
            + count_where(b, |w: u32| class_none(w)),
        count_where(a + b, |w: u32| class_all(w)) == count_where(a, |w: u32| class_all(w))
            + count_where(b, |w: u32| class_all(w)),
        count_where(a + b, |w: u32| class_invalid(w)) == count_where(a, |w: u32| class_invalid(w))
            + count_where(b, |w: u32| class_invalid(w)),
        count_where(a + b, |w: u32| class_interesting(w)) == count_where(
            a,
            |w: u32| class_interesting(w),
        ) + count_where(b, |w: u32| class_interesting(w)),
        count_where(p, |w: u32| class_none(w)) == count_where(a, |w: u32| class_none(w)),
        count_where(p, |w: u32| class_all(w)) == count_where(a, |w: u32| class_all(w)),
        count_where(p, |w: u32| class_invalid(w)) == count_where(a, |w: u32| class_invalid(w)),
        count_where(p, |w: u32| class_interesting(w)) == count_where(
            a,
            |w: u32| class_interesting(w),
        ),
        p.len() == a.len(),
{
    lemma_count_where_concat(a, b, |w: u32| class_none(w));
    lemma_count_where_concat(a, b, |w: u32| class_all(w));
    lemma_count_where_concat(a, b, |w: u32| class_invalid(w));
    lemma_count_where_concat(a, b, |w: u32| class_interesting(w));
    lemma_count_where_permutation(a, p, |w: u32| class_none(w));
    lemma_count_where_permutation(a, p, |w: u32| class_all(w));
    lemma_count_where_permutation(a, p, |w: u32| class_invalid(w));
    lemma_count_where_permutation(a, p, |w: u32| class_interesting(w));
    vstd::seq_lib::to_multiset_len(a);
    vstd::seq_lib::to_multiset_len(p);
}

} // verus!
