use kagami::open_docs::{drain, fourcc};

#[test]
fn four_character_codes_are_big_endian() {
    assert_eq!(fourcc(b"odoc"), 0x6f64_6f63);
    assert_eq!(fourcc(b"----"), 0x2d2d_2d2d);
    assert_eq!(fourcc(&[0, 0, 1, 2]), 258);
}

#[test]
fn opened_files_are_handed_out_once() {
    let mut opened = vec!["/a.jpg".to_string(), "/b".to_string()];
    assert_eq!(drain(&mut opened), vec!["/a.jpg".to_string(), "/b".to_string()]);
    assert!(drain(&mut opened).is_empty());
}
