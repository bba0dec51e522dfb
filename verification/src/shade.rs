//! Grey levels of the maps drawn from block flags and pixel words: black
//! (0) marks what is drawn, white (255) the rest.
use vstd::prelude::*;
use crate::grid::{TOTAL_BLOCK_COUNT, TOTAL_RESOLUTION};
use crate::stats::word_any;

verus! {

/// Grey level of a block in the block map: black when flagged.
pub open spec fn block_shade(flag: bool) -> u8 {
    if flag {
        0
    } else {
        255
    }
}

/// Grey level of a pixel in the pixel map: black when the pixel is in the
/// set for some exponent but not for all, white otherwise.
pub open spec fn pixel_shade(w: u32) -> u8 {
    if w == 3 {
        255
    } else if word_any(w) {
        0
    } else {
        255
    }
}

/// The block map, row by row: one grey level per block of the grid.
pub fn block_map_shades(interesting: &[bool]) -> (r: Vec<u8>)
    requires
        interesting@.len() >= TOTAL_BLOCK_COUNT,
    ensures
        r@.len() == TOTAL_BLOCK_COUNT,
        forall|i: int| 0 <= i < TOTAL_BLOCK_COUNT ==> r@[i] == block_shade(interesting@[i]),
{
    let mut r: Vec<u8> = Vec::new();
    let mut i: usize = 0;
    while i < TOTAL_BLOCK_COUNT as usize
        invariant
            i <= TOTAL_BLOCK_COUNT <= interesting@.len(),
            r@.len() == i,
            forall|j: int| 0 <= j < i ==> r@[j] == block_shade(interesting@[j]),
        decreases TOTAL_BLOCK_COUNT - i,
    {
        r.push(if interesting[i] { 0u8 } else { 255u8 });
        i = i + 1;
    }
    r
}

/// The pixel map, row by row: one grey level per pixel of the grid.
pub fn pixel_map_shades(data: &[u32]) -> (r: Vec<u8>)
    requires
        data@.len() >= TOTAL_RESOLUTION,
    ensures
        r@.len() == TOTAL_RESOLUTION,
        forall|i: int| 0 <= i < TOTAL_RESOLUTION ==> r@[i] == pixel_shade(data@[i]),
{
    let mut r: Vec<u8> = Vec::new();
    let mut i: usize = 0;
    while i < TOTAL_RESOLUTION as usize
        invariant
            i <= TOTAL_RESOLUTION <= data@.len(),
            r@.len() == i,
            forall|j: int| 0 <= j < i ==> r@[j] == pixel_shade(data@[j]),
        decreases TOTAL_RESOLUTION - i,
    {
        let word = data[i];
        let all = word == 3;
        let any = word & 1 == 1;
        let shade: u8 = if all {
            255
        } else if any {
            0
        } else {
            255
        };
        r.push(shade);
        i = i + 1;
    }
    r
}

} // verus!
