use mandelbrot_blocks::grid::{
    block_pixels, count_in_set, grow_interesting, pixel_is_interesting, TOTAL_BLOCK_COUNT,
    TOTAL_BLOCK_SIZE, TOTAL_RESOLUTION, X_BLOCK_COUNT, Y_BLOCK_COUNT,
};

fn idx(x: u32, y: u32) -> usize {
    (y * X_BLOCK_COUNT + x) as usize
}

#[test]
fn grid_constants() {
    assert_eq!(X_BLOCK_COUNT, 241);
    assert_eq!(Y_BLOCK_COUNT, 181);
    assert_eq!(TOTAL_BLOCK_COUNT, 43621);
    assert_eq!(TOTAL_BLOCK_SIZE, 64);
    assert_eq!(TOTAL_RESOLUTION, 1923 * 1447);
}

#[test]
fn pixel_lookup_uses_its_block() {
    let mut blocks = vec![false; TOTAL_BLOCK_COUNT as usize];
    blocks[2 * 241 + 1] = true;
    assert!(pixel_is_interesting(9, 17, &blocks));
    assert!(pixel_is_interesting(15, 23, &blocks));
    assert!(!pixel_is_interesting(16, 17, &blocks));
    assert!(!pixel_is_interesting(9, 24, &blocks));
}

#[test]
fn block_pixels_of_index() {
    let r = block_pixels(2 * 241 + 1);
    assert_eq!((r.x_min, r.x_max, r.y_min, r.y_max), (8, 16, 16, 24));
    let last = block_pixels(TOTAL_BLOCK_COUNT - 1);
    assert_eq!((last.x_min, last.x_max, last.y_min, last.y_max), (1920, 1928, 1440, 1448));
}

#[test]
fn count_in_set_adds_full_blocks() {
    assert_eq!(count_in_set(3, 10), 10 + 3 * 64);
    assert_eq!(count_in_set(0, 0), 0);
}

#[test]
fn grow_middle_block() {
    let mut old = vec![false; TOTAL_BLOCK_COUNT as usize];
    old[idx(10, 20)] = true;
    let mut new = vec![false; TOTAL_BLOCK_COUNT as usize];
    grow_interesting(&old, &mut new);
    let mut expected = vec![false; TOTAL_BLOCK_COUNT as usize];
    for x in 9..=11 {
        for y in 19..=21 {
            expected[idx(x, y)] = true;
        }
    }
    assert_eq!(new, expected);
}

#[test]
fn grow_corner_blocks_stay_in_grid() {
    let mut old = vec![false; TOTAL_BLOCK_COUNT as usize];
    old[idx(0, 0)] = true;
    old[idx(240, 180)] = true;
    let mut new = vec![true; TOTAL_BLOCK_COUNT as usize + 3];
    grow_interesting(&old, &mut new);
    let set: Vec<usize> = (0..TOTAL_BLOCK_COUNT as usize).filter(|i| new[*i]).collect();
    let mut expected = vec![
        idx(0, 0),
        idx(1, 0),
        idx(0, 1),
        idx(1, 1),
        idx(239, 179),
        idx(240, 179),
        idx(239, 180),
        idx(240, 180),
    ];
    expected.sort();
    assert_eq!(set, expected);
    // entries past the grid are left alone
    assert_eq!(&new[TOTAL_BLOCK_COUNT as usize..], &[true, true, true]);
}

#[test]
fn grow_keeps_every_flag() {
    let old: Vec<bool> = (0..TOTAL_BLOCK_COUNT as usize).map(|i| i % 97 == 0).collect();
    let mut new = vec![false; TOTAL_BLOCK_COUNT as usize];
    grow_interesting(&old, &mut new);
    for i in 0..old.len() {
        if old[i] {
            assert!(new[i]);
        }
    }
}
