use gfty::watch::event_is_relevant;

fn path_list(values: &[&str]) -> Vec<String> {
    values.iter().map(|value| value.to_string()).collect()
}

#[test]
fn ignores_access_and_generated_output_events() {
    let output = path_list(&["/work/preview.svg"]);
    let files = path_list(&["/work/source.svg"]);
    let directories: Vec<String> = Vec::new();
    assert!(!event_is_relevant(false, &output, &files, &directories, &output));
    let source = path_list(&["/work/source.svg"]);
    assert!(!event_is_relevant(true, &source, &files, &directories, &Vec::new()));
    assert!(event_is_relevant(false, &source, &files, &directories, &Vec::new()));
}

#[test]
fn watched_directories_match_whole_components() {
    let files: Vec<String> = Vec::new();
    let directories = path_list(&["/fonts"]);
    let none: Vec<String> = Vec::new();
    assert!(event_is_relevant(false, &path_list(&["/fonts/a.ttf"]), &files, &directories, &none));
    assert!(event_is_relevant(false, &path_list(&["/fonts"]), &files, &directories, &none));
    assert!(!event_is_relevant(false, &path_list(&["/fontsx/a.ttf"]), &files, &directories, &none));
    assert!(event_is_relevant(false, &path_list(&["/x", "/fonts/b"]), &files, &directories, &none));
    assert!(event_is_relevant(false, &path_list(&["/a/b"]), &files, &path_list(&["/"]), &none));
    assert!(!event_is_relevant(false, &Vec::new(), &files, &directories, &none));
}

#[test]
fn ignored_outputs_win_over_watched_inputs() {
    let files = path_list(&["/work/out.svg"]);
    let directories = path_list(&["/work"]);
    let ignored = path_list(&["/work/out.svg"]);
    assert!(!event_is_relevant(false, &path_list(&["/work/out.svg"]), &files, &directories, &ignored));
    assert!(event_is_relevant(false, &path_list(&["/work/other.svg"]), &files, &directories, &ignored));
}
