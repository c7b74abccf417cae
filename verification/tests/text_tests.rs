use hermes::text::{
    chars_of, i64_to_chars, parse_u64, split_lines, split_words, string_of, trim, u64_to_chars,
};

#[test]
fn words_split_on_whitespace() {
    let words = split_words(&chars_of("  alpha\tbeta\n gamma "));
    let rendered: Vec<String> = words.iter().map(|w| string_of(w)).collect();
    assert_eq!(rendered, vec!["alpha", "beta", "gamma"]);
}

#[test]
fn lines_split_like_std() {
    let lines = split_lines(&chars_of("a\nb\r\nc\n"));
    let rendered: Vec<String> = lines.iter().map(|w| string_of(w)).collect();
    assert_eq!(rendered, vec!["a", "b", "c"]);
}

#[test]
fn trim_removes_both_ends() {
    assert_eq!(string_of(&trim(&chars_of("  x y  "))), "x y");
    assert_eq!(string_of(&trim(&chars_of("   "))), "");
}

#[test]
fn decimal_rendering() {
    assert_eq!(string_of(&u64_to_chars(0)), "0");
    assert_eq!(string_of(&u64_to_chars(90210)), "90210");
    assert_eq!(string_of(&i64_to_chars(-42)), "-42");
}

#[test]
fn parse_u64_accepts_digits_only() {
    assert_eq!(parse_u64(&chars_of("24")), Some(24));
    assert_eq!(parse_u64(&chars_of("")), None);
    assert_eq!(parse_u64(&chars_of("2a")), None);
}
