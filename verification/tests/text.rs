use kagami::text::{
    decimal_width, from_chars, push_padded, same_chars, same_text, to_chars, to_decimal, to_lower,
};

#[test]
fn only_ascii_letters_are_lowered() {
    assert_eq!(to_lower("ABCxyz-09 \u{c4}\u{130}"), "abcxyz-09 \u{c4}\u{130}");
}

#[test]
fn texts_round_trip_through_characters() {
    let v = to_chars("a\u{1f600}b");
    assert_eq!(v.len(), 3);
    assert_eq!(from_chars(&v, 0, 3), "a\u{1f600}b");
    assert_eq!(from_chars(&v, 1, 2), "\u{1f600}");
    assert!(same_chars(&v, &to_chars("a\u{1f600}b")));
    assert!(same_text("x", "x") && !same_text("x", "X"));
}

#[test]
fn numerals_are_written_in_decimal() {
    assert_eq!(to_decimal(0), "0");
    assert_eq!(to_decimal(u128::MAX), u128::MAX.to_string());
    assert_eq!(decimal_width(0), 1);
    assert_eq!(decimal_width(999), 3);
    assert_eq!(decimal_width(1000), 4);
    let mut out = "p".to_string();
    push_padded(&mut out, 7, 3);
    push_padded(&mut out, 1234, 3);
    assert_eq!(out, "p0071234");
}
