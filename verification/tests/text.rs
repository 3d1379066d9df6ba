use f1_bot::text::{
    chars_of, contains_chars, decimal_chars, nonblank_lines_of, parse_u8, prefix_before,
    replaced_char, same_text, string_of, trimmed,
};

fn s(v: &Vec<char>) -> String {
    v.iter().collect()
}

#[test]
fn trimming_removes_unicode_white_space() {
    assert_eq!(s(&trimmed(&chars_of("\u{a0} \t x y \n\u{3000}"))), "x y");
    assert_eq!(s(&trimmed(&chars_of("   "))), "");
    assert_eq!(s(&trimmed(&chars_of("a"))), "a");
}

#[test]
fn lines_that_are_not_blank() {
    let lines = nonblank_lines_of(&chars_of(" a \r\n\n  \n b\nc"));
    let lines: Vec<String> = lines.iter().map(s).collect();
    assert_eq!(lines, vec!["a", "b", "c"]);
    assert!(nonblank_lines_of(&chars_of("")).is_empty());
}

#[test]
fn split_and_search() {
    let text = chars_of("Grand Prix - RACE RESULT - RACE RESULT");
    assert_eq!(s(&prefix_before(&text, &chars_of(" - RACE RESULT"))), "Grand Prix");
    assert_eq!(s(&prefix_before(&text, &chars_of("zzz"))), "Grand Prix - RACE RESULT - RACE RESULT");
    assert_eq!(s(&prefix_before(&text, &chars_of(""))), "");
    assert!(contains_chars(&text, &chars_of("RACE")));
    assert!(!contains_chars(&text, &chars_of("race")));
    assert!(contains_chars(&text, &chars_of("")));
}

#[test]
fn replace_and_compare() {
    assert_eq!(s(&replaced_char(&chars_of("a-b-"), '-', &chars_of("\\-"))), "a\\-b\\-");
    assert!(same_text("abc", "abc"));
    assert!(!same_text("abc", "abd"));
    assert_eq!(string_of(&chars_of("héllo")), "héllo");
}

#[test]
fn numbers() {
    assert_eq!(s(&decimal_chars(0)), "0");
    assert_eq!(s(&decimal_chars(1200)), "1200");
    assert_eq!(parse_u8(&chars_of("42")), Some(42));
    assert_eq!(parse_u8(&chars_of("+7")), Some(7));
    assert_eq!(parse_u8(&chars_of("256")), None);
    assert_eq!(parse_u8(&chars_of("1a")), None);
    assert_eq!(parse_u8(&chars_of(" 1")), None);
    for text in ["0", "9", "255", "+0", "007", "-0", "", "+", "300", "99999999999"] {
        assert_eq!(parse_u8(&chars_of(text)), text.parse::<u8>().ok());
    }
}
