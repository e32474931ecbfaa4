use environ::list::{join, split, DEFAULT_SEPARATOR};

fn owned(items: &[&str]) -> Vec<String> {
    items.iter().map(|item| item.to_string()).collect()
}

fn std_split(text: &str, separator: &str) -> Vec<String> {
    text.split(separator).map(|piece| piece.to_string()).collect()
}

#[test]
fn default_separator_is_a_semicolon() {
    assert_eq!(DEFAULT_SEPARATOR, ";");
}

#[test]
fn join_writes_the_separator_between_neighbours() {
    assert_eq!(join(&owned(&["1", "2", "3"]), ","), "1,2,3");
    assert_eq!(join(&owned(&["a", "b"]), "::"), "a::b");
    assert_eq!(join(&owned(&["a", "", "b"]), ";"), "a;;b");
    assert_eq!(join(&owned(&["", ""]), ";"), ";");
    assert_eq!(join(&owned(&["a", "b", "c"]), ""), "abc");
}

#[test]
fn join_of_one_element_is_the_element() {
    assert_eq!(join(&owned(&["alone"]), ","), "alone");
    assert_eq!(join(&owned(&[""]), ","), "");
}

#[test]
fn join_of_no_element_is_empty() {
    assert_eq!(join(&Vec::new(), ","), "");
}

#[test]
fn join_agrees_with_the_standard_library() {
    let lists: [&[&str]; 6] =
        [&[], &[""], &["a"], &["a", "b"], &["", "x", ""], &["né", "ü", "日本"]];
    for list in lists {
        for separator in ["", ";", ", ", "ab", "→"] {
            let values = owned(list);
            assert_eq!(join(&values, separator), values.join(separator));
        }
    }
}

#[test]
fn split_cuts_at_each_separator() {
    assert_eq!(split("1,2,3", ","), owned(&["1", "2", "3"]));
    assert_eq!(split("a::b::c", "::"), owned(&["a", "b", "c"]));
    assert_eq!(split("a;b", ","), owned(&["a;b"]));
}

#[test]
fn split_of_empty_text_is_one_empty_element() {
    assert_eq!(split("", ";"), owned(&[""]));
    assert_eq!(split("", "long"), owned(&[""]));
}

#[test]
fn split_keeps_empty_elements() {
    assert_eq!(split(";", ";"), owned(&["", ""]));
    assert_eq!(split("a;;b", ";"), owned(&["a", "", "b"]));
    assert_eq!(split(";a;", ";"), owned(&["", "a", ""]));
    assert_eq!(split(";;", ";"), owned(&["", "", ""]));
}

#[test]
fn split_takes_the_leftmost_separator_first() {
    assert_eq!(split("aaa", "aa"), owned(&["", "a"]));
    assert_eq!(split("aaaa", "aa"), owned(&["", "", ""]));
    assert_eq!(split("aaab", "aa"), owned(&["", "ab"]));
    assert_eq!(split("xabab", "ab"), owned(&["x", "", ""]));
}

#[test]
fn split_with_separator_longer_than_text() {
    assert_eq!(split("ab", "abc"), owned(&["ab"]));
    assert_eq!(split("abc", "abc"), owned(&["", ""]));
}

#[test]
fn split_with_empty_separator() {
    assert_eq!(split("abc", ""), owned(&["", "a", "b", "c", ""]));
    assert_eq!(split("", ""), owned(&["", ""]));
}

#[test]
fn split_counts_characters_not_bytes() {
    assert_eq!(split("né;ü;日本", ";"), owned(&["né", "ü", "日本"]));
    assert_eq!(split("a→b→", "→"), owned(&["a", "b", ""]));
    assert_eq!(split("日本", ""), owned(&["", "日", "本", ""]));
}

#[test]
fn split_agrees_with_the_standard_library() {
    let texts = [
        "", "a", ";", "a;b", "a;;b;", ";;;", "aaa", "aaaa", "abab", "xababy", "no separator",
        "né;ü;日本", "→→", "a→b", "ab", "aab", "aabaab",
    ];
    for text in texts {
        for separator in ["", ";", ";;", "a", "aa", "ab", "aab", "→", "日"] {
            assert_eq!(split(text, separator), std_split(text, separator), "{text:?} {separator:?}");
        }
    }
}

#[test]
fn split_undoes_join() {
    let values = owned(&["first", "", "second one", "3"]);
    for separator in [";", ",", "||", "-+-"] {
        assert_eq!(split(&join(&values, separator), separator), values);
    }
}

#[test]
fn split_does_not_undo_join_where_the_separator_is_found_early() {
    assert_eq!(split(&join(&owned(&["a", "b"]), "aa"), "aa"), owned(&["", "ab"]));
    assert_eq!(split(&join(&owned(&["a,b", "c"]), ","), ","), owned(&["a", "b", "c"]));
}

#[test]
fn join_undoes_split() {
    let texts = ["", "a", ";", "a;;b;", "aaa", "xababy", "né;ü"];
    for text in texts {
        for separator in ["", ";", "a", "aa", "ab"] {
            assert_eq!(join(&split(text, separator), separator), text);
        }
    }
}
