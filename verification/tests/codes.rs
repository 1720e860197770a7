use timekeeper::codes::{code_before, normalized_code};

#[test]
fn codes_lose_the_white_space_around_them() {
    assert_eq!(normalized_code("PRJ-1001"), "PRJ-1001");
    assert_eq!(normalized_code("  PRJ-1001  "), "PRJ-1001");
    assert_eq!(normalized_code("\t\r\nPRJ 1001\u{a0}\u{2003}\u{3000}"), "PRJ 1001");
    assert_eq!(normalized_code("   "), "");
    assert_eq!(normalized_code(""), "");
    assert_eq!(normalized_code("\u{200b}X"), "\u{200b}X");
}

#[test]
fn codes_are_ordered_character_by_character() {
    assert!(code_before("PRJ-1001", "PRJ-2002"));
    assert!(!code_before("PRJ-2002", "PRJ-1001"));
    assert!(!code_before("PRJ-1001", "PRJ-1001"));
    assert!(code_before("", "A"));
    assert!(!code_before("A", ""));
    assert!(!code_before("", ""));
    assert!(code_before("A", "AB"));
    assert!(!code_before("AB", "A"));
    assert!(code_before("AB", "B"));
    assert!(code_before("B", "a"));
    assert!(code_before("Z", "a"));
    assert!(code_before("z", "\u{e9}"));
    assert!(code_before("\u{e9}", "\u{4e2d}"));
    assert!(code_before("\u{ffff}", "\u{10000}"));
    assert!(code_before("10", "9"));
    for (a, b) in [("PRJ-1001", "PRJ-2002"), ("", "A"), ("A", "AB"), ("B", "a"), ("\u{ffff}", "\u{10000}")] {
        assert_eq!(code_before(a, b), a < b);
        assert_eq!(code_before(b, a), b < a);
    }
}
