use environ::text::{characters, matches_at, same_text};

#[test]
fn characters_reads_each_character() {
    assert_eq!(characters(""), Vec::<char>::new());
    assert_eq!(characters("abc"), vec!['a', 'b', 'c']);
    assert_eq!(characters("né日"), vec!['n', 'é', '日']);
}

#[test]
fn same_text_compares_every_character() {
    assert!(same_text("", ""));
    assert!(same_text("abc", "abc"));
    assert!(same_text("日本", "日本"));
    assert!(!same_text("abc", "abd"));
    assert!(!same_text("abc", "ab"));
    assert!(!same_text("ab", "abc"));
    assert!(!same_text("", "a"));
    assert!(!same_text("a", ""));
    assert!(!same_text("abc", "ABC"));
}

#[test]
fn matches_at_finds_the_pattern_in_place() {
    let text = characters("abcabc");
    let pattern = characters("bc");
    assert!(!matches_at(&text, &pattern, 0));
    assert!(matches_at(&text, &pattern, 1));
    assert!(!matches_at(&text, &pattern, 2));
    assert!(matches_at(&text, &pattern, 4));
    assert!(!matches_at(&text, &pattern, 5));
    assert!(!matches_at(&text, &pattern, 6));
    assert!(!matches_at(&text, &pattern, 7));
    assert!(!matches_at(&text, &pattern, usize::MAX));
}

#[test]
fn matches_at_with_empty_pattern() {
    let text = characters("ab");
    let nothing = characters("");
    assert!(matches_at(&text, &nothing, 0));
    assert!(matches_at(&text, &nothing, 2));
    assert!(!matches_at(&text, &nothing, 3));
}
