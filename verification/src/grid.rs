//! The pixel grid, its 8x8 blocks, and how flags are looked up by pixel or
//! by block.
use vstd::prelude::*;

verus! {

/// Pixel columns of the grid.
pub const X_RESOLUTION: u32 = 1923;

/// Pixel rows of the grid.
pub const Y_RESOLUTION: u32 = 1447;

/// Pixels of the grid.
pub const TOTAL_RESOLUTION: u32 = X_RESOLUTION * Y_RESOLUTION;

/// Iterations of `z -> z^e + c` after the first (the orbit starts at `z = c`).
pub const ITERS: u32 = 223 - 1;

/// Pixel columns of a block.
pub const X_BLOCK_SIZE: u32 = 8;

/// Pixel rows of a block.
pub const Y_BLOCK_SIZE: u32 = 8;

/// Pixels of a block.
pub const TOTAL_BLOCK_SIZE: u32 = X_BLOCK_SIZE * Y_BLOCK_SIZE;

/// Block columns: enough blocks to cover every pixel column.
pub const X_BLOCK_COUNT: u32 = 241;

/// Block rows: enough blocks to cover every pixel row.
pub const Y_BLOCK_COUNT: u32 = 181;

/// Blocks of the grid.
pub const TOTAL_BLOCK_COUNT: u32 = X_BLOCK_COUNT * Y_BLOCK_COUNT;

/// The blocks cover every pixel, and the last block row and column are
/// needed: each block count is the pixel count divided by the block size,
/// rounded up.
pub proof fn lemma_blocks_cover_grid()
    ensures
        (X_BLOCK_COUNT - 1) * X_BLOCK_SIZE < X_RESOLUTION <= X_BLOCK_COUNT * X_BLOCK_SIZE,
        (Y_BLOCK_COUNT - 1) * Y_BLOCK_SIZE < Y_RESOLUTION <= Y_BLOCK_COUNT * Y_BLOCK_SIZE,
        TOTAL_BLOCK_COUNT == X_BLOCK_COUNT * Y_BLOCK_COUNT,
        TOTAL_BLOCK_SIZE == X_BLOCK_SIZE * Y_BLOCK_SIZE,
{
}

/// Index of block `(x, y)` in a row-major block table.
pub open spec fn block_index(x: int, y: int) -> int {
    y * X_BLOCK_COUNT + x
}

/// Index of the block that holds pixel `(x, y)`.
pub open spec fn pixel_block_index(x: int, y: int) -> int {
    block_index(x / X_BLOCK_SIZE as int, y / Y_BLOCK_SIZE as int)
}

/// The flag of block `(x, y)`; `false` for a block outside the grid.
pub open spec fn block_at(flags: Seq<bool>, x: int, y: int) -> bool {
    0 <= x < X_BLOCK_COUNT && 0 <= y < Y_BLOCK_COUNT && flags[block_index(x, y)]
}

/// Whether block `(x, y)` or one of its eight neighbours is flagged.
pub open spec fn grown_at(flags: Seq<bool>, x: int, y: int) -> bool {
    ||| block_at(flags, x - 1, y - 1)
    ||| block_at(flags, x - 1, y)
    ||| block_at(flags, x - 1, y + 1)
    ||| block_at(flags, x, y - 1)
    ||| block_at(flags, x, y)
    ||| block_at(flags, x, y + 1)
    ||| block_at(flags, x + 1, y - 1)
    ||| block_at(flags, x + 1, y)
    ||| block_at(flags, x + 1, y + 1)
}

/// Whether the pixel `(x, y)` lies in a flagged block.
pub fn pixel_is_interesting(x: u32, y: u32, blocks: &[bool]) -> (r: bool)
    requires
        pixel_block_index(x as int, y as int) <= u32::MAX,
        pixel_block_index(x as int, y as int) < blocks@.len(),
    ensures
        r == blocks@[pixel_block_index(x as int, y as int)],
{
    let block_x = x / X_BLOCK_SIZE;
    let block_y = y / Y_BLOCK_SIZE;
    let block_index = block_y * X_BLOCK_COUNT + block_x;
    blocks[block_index as usize]
}

proof fn lemma_block_index_injective(x1: int, y1: int, x2: int, y2: int)
    requires
        0 <= x1 < X_BLOCK_COUNT,
        0 <= x2 < X_BLOCK_COUNT,
        0 <= y1 < Y_BLOCK_COUNT,
        0 <= y2 < Y_BLOCK_COUNT,
    ensures
        0 <= block_index(x1, y1) < TOTAL_BLOCK_COUNT,
        block_index(x1, y1) == block_index(x2, y2) ==> x1 == x2 && y1 == y2,
{
    if y1 < y2 {
        assert(block_index(x1, y1) < block_index(x2, y2));
    } else if y2 < y1 {
        assert(block_index(x2, y2) < block_index(x1, y1));
    }
}

/// The flag of block `(x, y)` of `flags`, `false` outside the grid.
fn flag_at(flags: &[bool], x: u32, y: u32) -> (r: bool)
    requires
        flags@.len() >= TOTAL_BLOCK_COUNT,
    ensures
        r == block_at(flags@, x as int, y as int),
{
    if x < X_BLOCK_COUNT && y < Y_BLOCK_COUNT {
        flags[(y * X_BLOCK_COUNT + x) as usize]
    } else {
        false
    }
}

/// Flags every block that is flagged in `flags` or has a flagged neighbour
/// there (the eight blocks around it; nothing outside the grid counts).
/// Entries of `new` past the grid stay as they were.
pub fn grow_interesting(flags: &[bool], new: &mut [bool])
    requires
        flags@.len() >= TOTAL_BLOCK_COUNT,
        old(new)@.len() >= TOTAL_BLOCK_COUNT,
    ensures
        final(new)@.len() == old(new)@.len(),
        forall|x: int, y: int|
            0 <= x < X_BLOCK_COUNT && 0 <= y < Y_BLOCK_COUNT ==> #[trigger] final(new)@[block_index(
                x,
                y,
            )] == grown_at(flags@, x, y),
        forall|i: int| TOTAL_BLOCK_COUNT <= i < old(new)@.len() ==> final(new)@[i] == old(new)@[i],
{
    let mut x: u32 = 0;
    while x < X_BLOCK_COUNT
        invariant
            x <= X_BLOCK_COUNT,
            flags@.len() >= TOTAL_BLOCK_COUNT,
            new@.len() == old(new)@.len(),
            new@.len() >= TOTAL_BLOCK_COUNT,
            forall|bx: int, by: int|
                0 <= bx < x && 0 <= by < Y_BLOCK_COUNT ==> #[trigger] new@[block_index(bx, by)]
                    == grown_at(flags@, bx, by),
            forall|i: int| TOTAL_BLOCK_COUNT <= i < new@.len() ==> new@[i] == old(new)@[i],
        decreases X_BLOCK_COUNT - x,
    {
        let mut y: u32 = 0;
        while y < Y_BLOCK_COUNT
            invariant
                x < X_BLOCK_COUNT,
                y <= Y_BLOCK_COUNT,
                flags@.len() >= TOTAL_BLOCK_COUNT,
                new@.len() == old(new)@.len(),
                new@.len() >= TOTAL_BLOCK_COUNT,
                forall|bx: int, by: int|
                    0 <= bx < x && 0 <= by < Y_BLOCK_COUNT ==> #[trigger] new@[block_index(bx, by)]
                        == grown_at(flags@, bx, by),
                forall|by: int|
                    0 <= by < y ==> #[trigger] new@[block_index(x as int, by)] == grown_at(
                        flags@,
                        x as int,
                        by,
                    ),
                forall|i: int| TOTAL_BLOCK_COUNT <= i < new@.len() ==> new@[i] == old(new)@[i],
            decreases Y_BLOCK_COUNT - y,
        {
            let xl = x.wrapping_sub(1);
            let yl = y.wrapping_sub(1);
            let mut any = false;
            let b = flag_at(flags, xl, yl);
            any = any || b;
            let b = flag_at(flags, xl, y);
            any = any || b;
            let b = flag_at(flags, xl, y + 1);
            any = any || b;
            let b = flag_at(flags, x, yl);
            any = any || b;
            let b = flag_at(flags, x, y);
            any = any || b;
            let b = flag_at(flags, x, y + 1);
            any = any || b;
            let b = flag_at(flags, x + 1, yl);
            any = any || b;
            let b = flag_at(flags, x + 1, y);
            any = any || b;
            let b = flag_at(flags, x + 1, y + 1);
            any = any || b;
            assert(any == grown_at(flags@, x as int, y as int));
            let idx = (y * X_BLOCK_COUNT + x) as usize;
            let ghost before = new@;
            new[idx] = any;
            assert forall|bx: int, by: int|
                0 <= bx < X_BLOCK_COUNT && 0 <= by < Y_BLOCK_COUNT && (bx != x || by != y)
                implies #[trigger] new@[block_index(bx, by)] == before[block_index(bx, by)] by {
                lemma_block_index_injective(bx, by, x as int, y as int);
            }
            y = y + 1;
        }
        x = x + 1;
    }
}


/// A flagged block stays flagged when the flags are grown.
pub proof fn lemma_grow_keeps_flags(flags: Seq<bool>, x: int, y: int)
    requires
        block_at(flags, x, y),
    ensures
        grown_at(flags, x, y),
{
}

/// A block is flagged after growing exactly when a flagged block lies at
/// most one row and one column away from it.
pub proof fn lemma_grown_iff_near_flag(flags: Seq<bool>, x: int, y: int)
    ensures
        grown_at(flags, x, y) <==> exists|dx: int, dy: int|
            -1 <= dx <= 1 && -1 <= dy <= 1 && #[trigger] block_at(flags, x + dx, y + dy),
{
    if grown_at(flags, x, y) {
        if block_at(flags, x - 1, y - 1) {
            assert(block_at(flags, x + -1, y + -1));
        } else if block_at(flags, x - 1, y) {
            assert(block_at(flags, x + -1, y + 0));
        } else if block_at(flags, x - 1, y + 1) {
            assert(block_at(flags, x + -1, y + 1));
        } else if block_at(flags, x, y - 1) {
            assert(block_at(flags, x + 0, y + -1));
        } else if block_at(flags, x, y) {
            assert(block_at(flags, x + 0, y + 0));
        } else if block_at(flags, x, y + 1) {
            assert(block_at(flags, x + 0, y + 1));
        } else if block_at(flags, x + 1, y - 1) {
            assert(block_at(flags, x + 1, y + -1));
        } else if block_at(flags, x + 1, y) {
            assert(block_at(flags, x + 1, y + 0));
        } else {
            assert(block_at(flags, x + 1, y + 1));
        }
    }
}

/// The pixel rectangle `[x_min, x_max) x [y_min, y_max)` of a block.
pub struct PixelRange {
    pub x_min: u32,
    pub x_max: u32,
    pub y_min: u32,
    pub y_max: u32,
}

/// First pixel column of the block with row-major index `i`.
pub open spec fn block_x_min(i: int) -> int {
    (i % X_BLOCK_COUNT as int) * X_BLOCK_SIZE
}

/// First pixel row of the block with row-major index `i`.
pub open spec fn block_y_min(i: int) -> int {
    (i / X_BLOCK_COUNT as int) * Y_BLOCK_SIZE
}

/// The pixels of the block with row-major index `block_index`. The last
/// block column and row reach past the grid.
pub fn block_pixels(block_index: u32) -> (r: PixelRange)
    requires
        block_y_min(block_index as int) + Y_BLOCK_SIZE <= u32::MAX,
    ensures
        r.x_min == block_x_min(block_index as int),
        r.x_max == r.x_min + X_BLOCK_SIZE,
        r.y_min == block_y_min(block_index as int),
        r.y_max == r.y_min + Y_BLOCK_SIZE,
{
    let block_x = block_index % X_BLOCK_COUNT;
    let block_y = block_index / X_BLOCK_COUNT;
    let x_min = block_x * X_BLOCK_SIZE;
    let y_min = block_y * Y_BLOCK_SIZE;
    PixelRange { x_min, x_max: x_min + X_BLOCK_SIZE, y_min, y_max: y_min + Y_BLOCK_SIZE }
}

/// A pixel lies in the rectangle of block `i` exactly when block `i` is the
/// block that holds it.
pub proof fn lemma_block_pixels_hold(i: int, px: int, py: int)
    requires
        0 <= i < TOTAL_BLOCK_COUNT,
        0 <= px < X_BLOCK_COUNT * X_BLOCK_SIZE,
        0 <= py,
    ensures
        pixel_block_index(px, py) == i <==> (block_x_min(i) <= px < block_x_min(i) + X_BLOCK_SIZE
            && block_y_min(i) <= py < block_y_min(i) + Y_BLOCK_SIZE),
{
    let bx = px / 8;
    let by = py / 8;
    let ix = i % 241;
    let iy = i / 241;
    assert(i == iy * 241 + ix);
    assert(0 <= ix < 241);
    assert(px == bx * 8 + px % 8 && 0 <= px % 8 < 8);
    assert(py == by * 8 + py % 8 && 0 <= py % 8 < 8);
    if pixel_block_index(px, py) == i {
        assert(by * 241 + bx == iy * 241 + ix);
        if by < iy {
            assert(by * 241 + bx < iy * 241 + ix) by (nonlinear_arith)
                requires
                    by < iy,
                    0 <= bx < 241,
                    0 <= ix,
            ;
        } else if by > iy {
            assert(by * 241 + bx > iy * 241 + ix) by (nonlinear_arith)
                requires
                    by > iy,
                    0 <= bx,
                    0 <= ix < 241,
            ;
        }
    } else {
        if ix * 8 <= px < ix * 8 + 8 && iy * 8 <= py < iy * 8 + 8 {
            assert(bx == ix);
            assert(by == iy);
        }
    }
}

/// Points counted in the flagged blocks plus the pixels of the blocks that
/// lie wholly in the set.
pub fn count_in_set(full_count: u32, partial_count: usize) -> (r: usize)
    requires
        full_count * TOTAL_BLOCK_SIZE <= u32::MAX,
        partial_count + full_count * TOTAL_BLOCK_SIZE <= usize::MAX,
    ensures
        r == partial_count + full_count * TOTAL_BLOCK_SIZE,
{
    partial_count + (full_count * TOTAL_BLOCK_SIZE) as usize
}

} // verus!
