use gfty::listing::keys_in_order;
use gfty::listing::{matching_files, ProjectEntries};

fn walk(values: &[&str]) -> Vec<String> {
    values.iter().map(|value| value.to_string()).collect()
}

#[test]
fn recursively_collects_sorted_matching_files() {
    let walked = walk(&["z.svg", "nested/a.SVG", "ignore.toml"]);
    assert_eq!(matching_files(&walked, "svg"), vec!["nested/a.SVG", "z.svg"]);
}

#[test]
fn listing_keeps_walk_independent_order() {
    let first = walk(&["b.svg", "a.svg", "C.svg"]);
    let second = walk(&["C.svg", "b.svg", "a.svg"]);
    assert_eq!(matching_files(&first, "svg"), vec!["C.svg", "a.svg", "b.svg"]);
    assert_eq!(matching_files(&first, "svg"), matching_files(&second, "svg"));
}

#[test]
fn listing_follows_path_extension_rules() {
    let walked = walk(&[
        ".svg",
        "dir.svg/readme",
        "plain",
        "archive.tar.SvG",
        "trailing.",
        "labels/x.toml",
    ]);
    assert_eq!(matching_files(&walked, "svg"), vec!["archive.tar.SvG"]);
    assert_eq!(matching_files(&walked, "TOML"), vec!["labels/x.toml"]);
    assert_eq!(matching_files(&walked, ""), vec!["trailing."]);
}

#[test]
fn listing_keeps_repeated_entries_and_prefix_order() {
    let walked = walk(&["ab.svg", "a.svg", "a.svg", "a/b.svg"]);
    assert_eq!(
        matching_files(&walked, "svg"),
        vec!["a.svg", "a.svg", "a/b.svg", "ab.svg"]
    );
    assert!(matching_files(&Vec::new(), "svg").is_empty());
}

#[test]
fn returns_project_relative_prefixed_paths() {
    let entries = ProjectEntries::from_walks(
        "/project".to_owned(),
        &walk(&["label.svg"]),
        &walk(&["icon.svg"]),
        &walk(&["example.toml"]),
    );
    assert_eq!(entries.root, "/project");
    assert_eq!(entries.templates, ["templates/label.svg"]);
    assert_eq!(entries.icons, ["icons/icon.svg"]);
    assert_eq!(entries.labels, ["labels/example.toml"]);
}

#[test]
fn project_entries_filter_each_directory_by_its_extension() {
    let entries = ProjectEntries::from_walks(
        "/project".to_owned(),
        &walk(&["b.svg", "notes.txt", "a/x.SVG"]),
        &walk(&["icon.toml"]),
        &walk(&["z.toml", "a.TOML", "readme.md"]),
    );
    assert_eq!(entries.templates, ["templates/a/x.SVG", "templates/b.svg"]);
    assert!(entries.icons.is_empty());
    assert_eq!(entries.labels, ["labels/a.TOML", "labels/z.toml"]);
}

#[test]
fn tables_need_distinct_keys_in_order() {
    let pairs = |keys: &[&str]| -> Vec<(String, u32)> {
        keys.iter().map(|key| (key.to_string(), 0)).collect()
    };
    assert!(keys_in_order(&pairs(&[])));
    assert!(keys_in_order(&pairs(&["000000", "0000ff", "ff0000"])));
    assert!(!keys_in_order(&pairs(&["0000ff", "000000"])));
    assert!(!keys_in_order(&pairs(&["a", "a"])));
}
