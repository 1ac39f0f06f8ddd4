use gfty::quick::{pairs, path_to_toml_string};

#[test]
fn quick_rejects_incomplete_pairs() {
    assert!(pairs(&["only-one".to_owned()], "--text").is_err());
}

#[test]
fn quick_normalizes_path_separators() {
    assert_eq!(path_to_toml_string(r"foo\bar.svg"), "foo/bar.svg");
}
