use my_sigs::base64::Base64Decoder;
use my_sigs::chart_core::slide;
use my_sigs::color_things::RGB;
use my_sigs::hilbert::all_hilbert;
use my_sigs::hilbert::all_hilbert_in;

#[test]
fn base64_basic() {
    let bytes = b"Hello, world!";
    let mut decoder = Base64Decoder::new();
    decoder.base64_string(bytes);
    assert_eq!(decoder.bytes, b"SGVsbG8sIHdvcmxkIQ==");
}

#[test]
fn base64_padding_cases() {
    let mut decoder = Base64Decoder::new();
    decoder.base64_string(b"");
    assert_eq!(decoder.bytes, b"");
    decoder.base64_string(b"f");
    assert_eq!(decoder.bytes, b"Zg==");
    decoder.base64_string(b"fo");
    assert_eq!(decoder.bytes, b"Zm8=");
    decoder.base64_string(b"foo");
    assert_eq!(decoder.bytes, b"Zm9v");
}

#[test]
fn to_hex_renders_lowercase() {
    let c = RGB { r: 255, g: 0, b: 128 };
    assert_eq!(c.to_hex(), "#ff0080");
    let c = RGB { r: 0, g: 0, b: 0 };
    assert_eq!(c.to_hex(), "#000000");
    let c = RGB { r: 18, g: 52, b: 86 };
    assert_eq!(c.to_hex(), "#123456");
}

#[test]
fn from_hex_parses_both_cases() {
    assert_eq!(RGB::from_hex("#ff0080"), Some(RGB { r: 255, g: 0, b: 128 }));
    assert_eq!(RGB::from_hex("#FF0080"), Some(RGB { r: 255, g: 0, b: 128 }));
    assert_eq!(RGB::from_hex("#123456"), Some(RGB { r: 18, g: 52, b: 86 }));
    // only the length and the six digit positions matter
    assert_eq!(RGB::from_hex("0ff0080"), Some(RGB { r: 255, g: 0, b: 128 }));
}

#[test]
fn from_hex_rejects_bad_input() {
    assert_eq!(RGB::from_hex(""), None);
    assert_eq!(RGB::from_hex("123456"), None);
    assert_eq!(RGB::from_hex("#12345"), None);
    assert_eq!(RGB::from_hex("#1234567"), None);
    assert_eq!(RGB::from_hex("#gg0000"), None);
}

#[test]
fn hex_round_trip() {
    let c = RGB { r: 7, g: 200, b: 43 };
    assert_eq!(RGB::from_hex(&c.to_hex()), Some(c));
}

#[test]
fn hilbert_walks_the_square() {
    assert_eq!(all_hilbert_in(2, 4), vec![(0, 0), (0, 1), (1, 1), (1, 0)]);
    assert_eq!(all_hilbert(2, 4), vec![0, 0, 0, 1, 1, 1, 1, 0]);
    // every cell of the 4-by-4 square is visited once
    let mut cells = all_hilbert_in(4, 16);
    cells.sort();
    cells.dedup();
    assert_eq!(cells.len(), 16);
    assert!(cells.iter().all(|&(x, y)| x < 4 && y < 4));
}

#[test]
fn slide_moves_and_clamps() {
    // one step of two points to the right
    assert_eq!(slide((10, 20), 1, 2, 100), (12, 22));
    // clamped at the left edge, width kept
    assert_eq!(slide((0, 10), -1, 5, 100), (0, 10));
    // clamped at the right edge, width kept
    assert_eq!(slide((90, 100), 5, 10, 100), (90, 100));
    // sliding left from the middle
    assert_eq!(slide((50, 60), -2, 10, 100), (30, 40));
}
