use miniactor::text_stats::{count_by_line, count_by_word, count_character};

fn chars(s: &str) -> Vec<char> {
    s.chars().collect()
}

#[test]
fn line_count_test() {
    assert_eq!(count_by_line(&chars("")), 1);
    assert_eq!(count_by_line(&chars("one line")), 1);
    assert_eq!(count_by_line(&chars("a\nb\nc")), 3);
    assert_eq!(count_by_line(&chars("trailing\n")), 2);
}

#[test]
fn word_count_test() {
    assert_eq!(count_by_word(&chars("")), 1);
    assert_eq!(count_by_word(&chars("two words")), 2);
    assert_eq!(count_by_word(&chars("tab\tseparated too")), 3);
}

#[test]
fn character_count_test() {
    assert_eq!(count_character(&chars("")), 0);
    assert_eq!(count_character(&chars("abc")), 3);
    // a multi-byte character still counts once
    assert_eq!(count_character(&chars("a\u{e9}b")), 3);
}
