use status_hook::text::same_name;

#[test]
fn same_name_on_equal_text() {
    assert!(same_name("common", "common"));
    assert!(same_name("", ""));
    assert!(same_name("fighter_\u{30de}\u{30ea}\u{30aa}", "fighter_\u{30de}\u{30ea}\u{30aa}"));
}

#[test]
fn same_name_on_different_text() {
    assert!(!same_name("common", "Common"));
    assert!(!same_name("common", "commom"));
    assert!(!same_name("common", ""));
    assert!(!same_name("", "common"));
}

#[test]
fn same_name_on_a_prefix() {
    assert!(!same_name("mario", "mariod"));
    assert!(!same_name("mariod", "mario"));
}

#[test]
fn same_name_on_equal_lengths_in_bytes() {
    assert!(!same_name("\u{e9}", "ab"));
    assert!(!same_name("\u{e9}a", "\u{e8}a"));
}
