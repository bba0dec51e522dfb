use mandelbrot_blocks::rle::{blocks_from_words, compress};
use mandelbrot_blocks::text::{export_data_for_cpp, write_compressed, write_results, BlockEntry};

#[test]
fn write_compressed_hex_words() {
    let mut out = b"x".to_vec();
    write_compressed(&mut out, &[0, -32767, 16, -1]);
    assert_eq!(String::from_utf8(out).unwrap(), "x&[0x0, 0x8001, 0x10, 0xffff]");
}

#[test]
fn write_compressed_single_word() {
    let mut out = Vec::new();
    write_compressed(&mut out, &[-32768]);
    assert_eq!(String::from_utf8(out).unwrap(), "&[0x8000]");
}

#[test]
fn write_results_literal() {
    let mut out = Vec::new();
    let full = [false, false, true];
    let interesting = [true, false, true, false];
    write_results(&mut out, 1234, &full, &interesting);
    assert_eq!(String::from_utf8(out).unwrap(), "(1234, &[0x2, 0x8001], &[0x0, 0x8005])");
}

#[test]
fn written_words_read_back() {
    let d: Vec<bool> = (0..500).map(|i| i % 37 < 3 || (200..260).contains(&i)).collect();
    let code = compress(&d);
    let mut out = Vec::new();
    write_compressed(&mut out, &code);
    let text = String::from_utf8(out).unwrap();
    let inner = text.trim_start_matches("&[").trim_end_matches(']');
    let words: Vec<u16> =
        inner.split(", ").map(|w| u16::from_str_radix(&w[2..], 16).unwrap()).collect();
    assert_eq!(blocks_from_words(&words, d.len()), Some(d));
}

#[test]
fn export_header() {
    let table = vec![
        BlockEntry { full_count: 12, full: vec![0, 0x8001], interesting: vec![3, 0x8005] },
        BlockEntry { full_count: 7, full: vec![], interesting: vec![0xffff] },
    ];
    let mut out = Vec::new();
    export_data_for_cpp(&mut out, &table);
    let expected = "#include <cstdint>\n\nconstexpr int full_counts[] = {12,7,};\n\n\
constexpr uint16_t ib_0[] = {0x3,0x8005,};\n\
constexpr uint16_t ib_1[] = {0xffff,};\n\n\
constexpr uint16_t const *interesting_blocks[] = {ib_0,ib_1,};\n\n\
constexpr int interesting_blocks_sizes[] = {2,1,};\n";
    assert_eq!(String::from_utf8(out).unwrap(), expected);
}

#[test]
fn written_results_read_back() {
    let full: Vec<bool> = (0..300).map(|i| i % 50 < 20).collect();
    let interesting: Vec<bool> = (0..300).map(|i| i % 50 >= 20 && i % 50 < 23).collect();
    let mut out = Vec::new();
    write_results(&mut out, 42, &full, &interesting);
    let text = String::from_utf8(out).unwrap();
    let body = text.strip_prefix('(').unwrap().strip_suffix(')').unwrap();
    let (count, rest) = body.split_once(", ").unwrap();
    assert_eq!(count.parse::<u32>().unwrap(), 42);
    let (first, second) = rest.split_once("], ").unwrap();
    let words = |s: &str| -> Vec<u16> {
        s.trim_start_matches("&[")
            .trim_end_matches(']')
            .split(", ")
            .map(|w| u16::from_str_radix(&w[2..], 16).unwrap())
            .collect()
    };
    assert_eq!(blocks_from_words(&words(first), full.len()), Some(full));
    assert_eq!(blocks_from_words(&words(second), interesting.len()), Some(interesting));
}
