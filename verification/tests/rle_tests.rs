use mandelbrot_blocks::rle::{blocks_from_words, compress, decode_fits, decompress};

fn flags(pattern: &str) -> Vec<bool> {
    pattern.chars().map(|c| c == '1').collect()
}

#[test]
fn compress_empty_and_all_false() {
    assert_eq!(compress(&[]), Vec::<i16>::new());
    assert_eq!(compress(&[false; 40]), Vec::<i16>::new());
}

#[test]
fn compress_single_true() {
    assert_eq!(compress(&[true]), vec![0, -32767]);
}

#[test]
fn compress_gap_then_short_group() {
    // gap of 2, then a group of 3 flags with bits 0 and 2 set
    assert_eq!(compress(&flags("00101")), vec![2, -32768 + 5]);
}

#[test]
fn compress_long_run_of_trues() {
    // 15 set flags fill a whole group (all 16 bits set), 5 more a second one
    assert_eq!(compress(&[true; 20]), vec![0, -1, -32768 + 0x1f]);
}

#[test]
fn compress_short_gap_stays_in_groups() {
    let mut d = vec![true];
    d.extend(vec![false; 20]);
    d.push(true);
    assert_eq!(compress(&d), vec![0, -32767, -32768 + 64]);
}

#[test]
fn compress_long_gap_becomes_gap_word() {
    let mut d = vec![true];
    d.extend(vec![false; 30]);
    d.push(true);
    d.extend(vec![false; 3]);
    assert_eq!(compress(&d), vec![0, -32767, 16, -32767]);
}

#[test]
fn compress_gap_too_long_for_a_word() {
    // a gap of 40000 does not fit a non-negative i16: it is cut to 16 bits
    let mut d = vec![false; 40000];
    d.push(true);
    let code = compress(&d);
    assert_eq!(code, vec![(40000u32 as u16) as i16, -32767]);
    assert_eq!(code[0], -25536);
    assert!(decode_fits(&code, d.len()));
    assert_ne!(decompress(&code, d.len()), d);
}

#[test]
fn decompress_pads_with_false() {
    assert_eq!(decompress(&[], 4), vec![false; 4]);
    assert_eq!(decompress(&[1, -32767], 5), flags("01000"));
}

#[test]
fn decompress_group_is_cut_at_length() {
    assert_eq!(decompress(&[-1], 4), vec![true; 4]);
    assert_eq!(decompress(&[-1], 20), {
        let mut v = vec![true; 15];
        v.extend(vec![false; 5]);
        v
    });
}

#[test]
fn decompress_gap_word() {
    assert_eq!(decompress(&[3, -32768 + 2], 6), flags("000010"));
}

#[test]
fn roundtrip_on_patterns() {
    let patterns = [
        "",
        "1",
        "0000000000000000000000000000001",
        "1111111111111111111111111111111111",
        "1010101010101010101010101010101010101",
        "10000000000000000000000000000000000000000000000001",
        "000000000000000111000000000000000000000000000000000000",
    ];
    for p in patterns {
        let d = flags(p);
        let code = compress(&d);
        assert!(decode_fits(&code, d.len()));
        assert_eq!(decompress(&code, d.len()), d);
    }
}

#[test]
fn roundtrip_on_block_table_size() {
    let len = 43621;
    let d: Vec<bool> = (0..len).map(|i| (i * 7919) % 131 < 9 || (i / 1000) % 3 == 1).collect();
    let code = compress(&d);
    assert_eq!(decompress(&code, len), d);
}

#[test]
fn decode_fits_detects_overlong_code() {
    assert!(decode_fits(&[3, -1], 18));
    // a group word never runs past the length: it is cut short
    assert!(decode_fits(&[3, -1], 17));
    assert_eq!(decompress(&[3, -1], 17).iter().filter(|b| **b).count(), 14);
    assert!(!decode_fits(&[10], 9));
    assert!(decode_fits(&[10], 10));
}

#[test]
fn blocks_from_words_reads_raw_words() {
    let words: Vec<u16> = vec![2, 0x8005];
    assert_eq!(blocks_from_words(&words, 6), Some(flags("001010")));
    assert_eq!(blocks_from_words(&[100], 10), None);
}

#[test]
fn trailing_falses_do_not_change_the_code() {
    let d = flags("0010111000000000000000001");
    for k in [0usize, 1, 14, 15, 16, 40] {
        let mut padded = d.clone();
        padded.extend(vec![false; k]);
        assert_eq!(compress(&padded), compress(&d));
    }
}

#[test]
fn decoding_longer_adds_falses() {
    // 3 + 15 + 2 = 20 flags, no group word cut at length 20
    let code = [3i16, -32768 + 0x4001, 2];
    let short = decompress(&code, 20);
    for k in [1usize, 7, 30] {
        let mut expected = short.clone();
        expected.extend(vec![false; k]);
        assert_eq!(decompress(&code, 20 + k), expected);
    }
}
