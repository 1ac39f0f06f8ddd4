use gfty::create::{pairs, path_to_toml_string, text_fields, CreateError};

#[test]
fn create_rejects_incomplete_pairs() {
    assert!(pairs(&["only-one".to_owned()], "--text").is_err());
}

#[test]
fn create_normalizes_path_separators() {
    assert_eq!(path_to_toml_string(r"foo\bar.svg"), "foo/bar.svg");
}

#[test]
fn pairs_come_two_values_at_a_time() {
    let values = ["a".to_owned(), "1".to_owned(), "b".to_owned(), "2".to_owned()];
    assert_eq!(
        pairs(&values, "--text").unwrap(),
        vec![("a".to_owned(), "1".to_owned()), ("b".to_owned(), "2".to_owned())]
    );
    assert_eq!(
        pairs(&["x".to_owned()], "--icon").unwrap_err().message(),
        "--icon requires exactly two values each time"
    );
}

#[test]
fn text_fields_may_not_repeat() {
    let fields = text_fields(&vec![
        ("main".to_owned(), "A".to_owned()),
        ("sub".to_owned(), "B".to_owned()),
    ])
    .unwrap();
    assert_eq!(fields.len(), 2);
    assert_eq!(fields[1].1.content, "B");
    assert_eq!(
        text_fields(&vec![
            ("main".to_owned(), "A".to_owned()),
            ("main".to_owned(), "B".to_owned()),
        ])
        .unwrap_err(),
        CreateError::RepeatedTextField { field: "main".to_owned() }
    );
}

#[test]
fn text_fields_are_keyed_in_order() {
    let fields = text_fields(&vec![
        ("sub".to_owned(), "B".to_owned()),
        ("main".to_owned(), "A".to_owned()),
        ("extra".to_owned(), "C".to_owned()),
    ])
    .unwrap();
    let keys: Vec<&str> = fields.iter().map(|(key, _)| key.as_str()).collect();
    assert_eq!(keys, ["extra", "main", "sub"]);
    assert_eq!(fields[1].1.content, "A");
}
