use mandelbrot_blocks::grid::{TOTAL_BLOCK_COUNT, TOTAL_RESOLUTION, X_BLOCK_COUNT, X_RESOLUTION};
use mandelbrot_blocks::shade::{block_map_shades, pixel_map_shades};
use mandelbrot_blocks::stats::{
    any_all_stats, block_report, classify_blocks, first_uncovered_pixel, flags_within, mask_words,
    pixel_counts, AnyAllStats,
};

#[test]
fn stats_default_is_zero() {
    let s = AnyAllStats::default();
    assert_eq!((s.none, s.all, s.invalid, s.interesting, s.total), (0, 0, 0, 0, 0));
}

#[test]
fn any_all_stats_counts_each_class() {
    let s = any_all_stats(&[0, 1, 2, 3, 5, 4, 7]);
    // 0 and 4: none; 3 and 7: all; 2: invalid; 1 and 5: interesting
    assert_eq!(s.none, 2);
    assert_eq!(s.all, 2);
    assert_eq!(s.invalid, 1);
    assert_eq!(s.interesting, 2);
    assert_eq!(s.total, 7);
    assert_eq!(s.none + s.all + s.invalid + s.interesting, s.total);
}

#[test]
fn pixel_counts_over_grid() {
    let mut data = vec![2u32; TOTAL_RESOLUTION as usize + 5];
    data[0] = 3;
    data[1] = 1;
    data[2] = 0;
    data[TOTAL_RESOLUTION as usize] = 3; // past the grid: not counted
    let c = pixel_counts(&data);
    assert_eq!(c.any, 2);
    assert_eq!(c.all, 1);
    assert_eq!(c.invalid, TOTAL_RESOLUTION as usize - 3);
}

#[test]
fn classify_blocks_by_word() {
    let c = classify_blocks(&[3, 1, 2, 0, 3]);
    assert_eq!(c.full_count, 2);
    assert_eq!(c.full, vec![true, false, false, false, true]);
    assert_eq!(c.interesting, vec![false, true, false, false, false]);
}

#[test]
fn mask_words_from_flags() {
    assert_eq!(mask_words(&[true, false, true]), vec![1, 0, 1]);
}

#[test]
fn flags_within_checks_grid_blocks() {
    let n = TOTAL_BLOCK_COUNT as usize;
    let mut inner = vec![false; n];
    let mut outer = vec![false; n];
    inner[5] = true;
    outer[5] = true;
    outer[6] = true;
    assert!(flags_within(&inner, &outer));
    inner[7] = true;
    assert!(!flags_within(&inner, &outer));
}

#[test]
fn block_report_adds_up() {
    let mut interesting = vec![false; TOTAL_BLOCK_COUNT as usize];
    interesting[0] = true;
    interesting[10] = true;
    let r = block_report(100, &interesting);
    assert_eq!(r.full, 100);
    assert_eq!(r.interesting, 2);
    assert_eq!(r.total, 43621);
    assert_eq!(r.empty, 43621 - 102);
}

#[test]
fn first_uncovered_pixel_finds_first_by_column() {
    let mut pixels = vec![0u32; TOTAL_RESOLUTION as usize];
    let blocks = vec![0u32; TOTAL_BLOCK_COUNT as usize];
    assert_eq!(first_uncovered_pixel(&pixels, &blocks), None);
    pixels[(30 * X_RESOLUTION + 5) as usize] = 1;
    pixels[(3 * X_RESOLUTION + 7) as usize] = 3;
    assert_eq!(first_uncovered_pixel(&pixels, &blocks), Some((5, 30)));
    let mut blocks = blocks;
    blocks[(3 * X_BLOCK_COUNT) as usize] = 1; // block (0, 3) holds pixel (5, 30)
    assert_eq!(first_uncovered_pixel(&pixels, &blocks), Some((7, 3)));
    blocks[0] = 3; // block (0, 0) holds pixel (7, 3)
    assert_eq!(first_uncovered_pixel(&pixels, &blocks), None);
}

#[test]
fn shades_of_maps() {
    let mut interesting = vec![false; TOTAL_BLOCK_COUNT as usize];
    interesting[1] = true;
    let b = block_map_shades(&interesting);
    assert_eq!(b.len(), TOTAL_BLOCK_COUNT as usize);
    assert_eq!((b[0], b[1]), (255, 0));

    let mut data = vec![0u32; TOTAL_RESOLUTION as usize];
    data[0] = 3;
    data[1] = 1;
    data[2] = 2;
    let p = pixel_map_shades(&data);
    assert_eq!(p.len(), TOTAL_RESOLUTION as usize);
    assert_eq!((p[0], p[1], p[2], p[3]), (255, 0, 255, 255));
}

#[test]
fn stats_add_over_concatenation_and_ignore_order() {
    let a = [0u32, 1, 2, 3, 3, 5];
    let b = [7u32, 4, 1];
    let whole: Vec<u32> = a.iter().chain(b.iter()).copied().collect();
    let (sa, sb, sw) = (any_all_stats(&a), any_all_stats(&b), any_all_stats(&whole));
    assert_eq!(sw.none, sa.none + sb.none);
    assert_eq!(sw.all, sa.all + sb.all);
    assert_eq!(sw.invalid, sa.invalid + sb.invalid);
    assert_eq!(sw.interesting, sa.interesting + sb.interesting);
    assert_eq!(sw.total, sa.total + sb.total);
    let p = [3u32, 5, 0, 3, 2, 1];
    let sp = any_all_stats(&p);
    assert_eq!(
        (sp.none, sp.all, sp.invalid, sp.interesting, sp.total),
        (sa.none, sa.all, sa.invalid, sa.interesting, sa.total)
    );
}

#[test]
fn flags_within_reads_outer_only_where_inner_is_set() {
    let n = TOTAL_BLOCK_COUNT as usize;
    let mut inner = vec![false; n];
    inner[2] = true;
    assert!(flags_within(&inner, &[false, false, true]));
    assert!(!flags_within(&inner, &[true, true, false]));
}
