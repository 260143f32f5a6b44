use editor::text::{chars_of, compare_texts, contains, decimal_string, join, same_text, starts_with, Precedence};

#[test]
fn searching_finds_a_text_anywhere() {
    assert!(contains("Mesh group", "sh g"));
    assert!(contains("anything", ""));
    assert!(!contains("short", "longer text"));
    assert!(!contains("Mesh", "mesh"));
    assert!(starts_with("content/props", "content"));
    assert!(!starts_with("con", "content"));
}

#[test]
fn texts_compare_character_by_character() {
    assert!(same_text("Scene", "Scene"));
    assert!(!same_text("Scene", "Scenes"));
    assert_eq!(compare_texts("apple", "banana"), Precedence::Before);
    assert_eq!(compare_texts("apple", "app"), Precedence::After);
    assert_eq!(compare_texts("app", "apple"), Precedence::Before);
    assert_eq!(compare_texts("Zed", "apple"), Precedence::Before);
    assert_eq!(compare_texts("same", "same"), Precedence::Same);
    assert_eq!(compare_texts("", ""), Precedence::Same);
    assert_eq!(compare_texts("é", "z"), Precedence::After);
}

#[test]
fn the_order_agrees_with_str_ordering() {
    let words = ["b", "a", "ab", "", "Z", "é", "aa", "a b"];
    for x in words {
        for y in words {
            let expected = match x.cmp(y) {
                std::cmp::Ordering::Less => Precedence::Before,
                std::cmp::Ordering::Equal => Precedence::Same,
                std::cmp::Ordering::Greater => Precedence::After,
            };
            assert_eq!(compare_texts(x, y), expected, "{x:?} against {y:?}");
        }
    }
}

#[test]
fn numbers_are_written_in_decimal() {
    assert_eq!(decimal_string(0), "0");
    assert_eq!(decimal_string(7), "7");
    assert_eq!(decimal_string(1024), "1024");
    assert_eq!(decimal_string(u64::MAX), "18446744073709551615");
    assert_eq!(join("WORLD · ", "3"), "WORLD · 3");
    assert_eq!(chars_of("añb"), vec!['a', 'ñ', 'b']);
}
