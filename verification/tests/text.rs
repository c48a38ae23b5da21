use polymarket_backtest::text::{
    chars_of, decimal_chars, split_on, text_of, trim_chars, zero_padded_chars,
};

fn chars(s: &str) -> Vec<char> {
    s.chars().collect()
}

#[test]
fn splitting_keeps_empty_pieces() {
    let pieces = split_on(&chars("a,,b,"), ',');
    let pieces: Vec<String> = pieces.iter().map(|p| p.iter().collect()).collect();
    assert_eq!(pieces, vec!["a", "", "b", ""]);
    assert_eq!(split_on(&chars(""), ',').len(), 1);
}

#[test]
fn trimming_removes_unicode_white_space() {
    let t: String = trim_chars(&chars("\u{3000}\t x y \u{a0}\n")).iter().collect();
    assert_eq!(t, "x y");
    assert!(trim_chars(&chars(" \t ")).is_empty());
}

#[test]
fn decimal_digits_and_padding() {
    let s: String = decimal_chars(0).iter().collect();
    assert_eq!(s, "0");
    let s: String = decimal_chars(1_778_587_500).iter().collect();
    assert_eq!(s, "1778587500");
    let s: String = zero_padded_chars(7, 4).iter().collect();
    assert_eq!(s, "0007");
    let s: String = zero_padded_chars(12345, 4).iter().collect();
    assert_eq!(s, "12345");
}

#[test]
fn chars_round_trip() {
    assert_eq!(chars_of("héllo"), chars("héllo"));
    assert_eq!(text_of(&chars("héllo")), "héllo");
}
