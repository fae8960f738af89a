use app_manager::handoff::{decode_handoff, encode_handoff};

#[test]
fn encode_joins_with_newlines() {
    let paths = vec![r"\Microsoft\Foo".to_string(), r"\Bar".to_string()];
    assert_eq!(encode_handoff(&paths), "\\Microsoft\\Foo\n\\Bar");
    assert_eq!(encode_handoff(&vec![]), "");
    assert_eq!(encode_handoff(&vec!["x".to_string()]), "x");
}

#[test]
fn decode_splits_lines() {
    assert_eq!(
        decode_handoff("\\Microsoft\\Foo\n\\Bar"),
        vec![r"\Microsoft\Foo".to_string(), r"\Bar".to_string()]
    );
    assert_eq!(decode_handoff(""), Vec::<String>::new());
}

#[test]
fn decode_tolerates_carriage_returns_and_trailing_newline() {
    assert_eq!(
        decode_handoff("a\r\nb\r\n"),
        vec!["a".to_string(), "b".to_string()]
    );
    assert_eq!(decode_handoff("only\n"), vec!["only".to_string()]);
}

#[test]
fn round_trip_preserves_paths() {
    let paths = vec![
        r"\Microsoft\Windows\Foo".to_string(),
        r"\Bar".to_string(),
        r"\Deep\Nested\Task Name".to_string(),
    ];
    assert_eq!(decode_handoff(&encode_handoff(&paths)), paths);
}
