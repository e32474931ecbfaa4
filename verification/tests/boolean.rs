use environ::boolean::{bool_to_string, string_to_bool};

#[test]
fn bool_to_string_writes_true_and_false() {
    assert_eq!(bool_to_string(true), "true");
    assert_eq!(bool_to_string(false), "false");
}

#[test]
fn string_to_bool_reads_true() {
    assert!(string_to_bool("true"));
}

#[test]
fn string_to_bool_reads_false() {
    assert!(!string_to_bool("false"));
}

#[test]
fn string_to_bool_reads_every_other_string_as_false() {
    for text in ["", "TRUE", "True", "tRuE", "yes", "no", "1", "0", "on", "true\n", " true", "t"] {
        assert!(!string_to_bool(text), "{text:?}");
    }
}

#[test]
fn string_to_bool_undoes_bool_to_string() {
    assert!(string_to_bool(&bool_to_string(true)));
    assert!(!string_to_bool(&bool_to_string(false)));
}
