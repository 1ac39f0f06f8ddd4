use gfty::color::ColorMapping;
use gfty::compose::{label_filaments, transform_style};
use gfty::config::{LabelConfig, LoadedLabel, TextValue};

#[test]
fn keeps_only_transform_declarations() {
    assert_eq!(
        transform_style("fill:red; transform: rotate(5deg) ;transform-origin:center").as_deref(),
        Some("transform: rotate(5deg);transform-origin:center")
    );
    assert_eq!(transform_style("fill:red;stroke:blue"), None);
    assert_eq!(transform_style(""), None);
}

#[test]
fn label_filaments_join_template_text_and_icon_colors() {
    let label = LoadedLabel::from_config(
        LabelConfig {
            kind: None,
            version: None,
            template: "t.svg".to_owned(),
            filament: 0,
            text: vec![("main".to_owned(), TextValue { content: "a{b}!7{c}".to_owned() })],
            icon: Vec::new(),
            icons: Vec::new(),
        },
        "/project".to_owned(),
    );
    let template = ColorMapping::automatic(&vec!["000000".to_owned()]);
    let icon = ColorMapping { source_to_filament: vec![("ff0000".to_owned(), 9)], sidecar: None };
    assert_eq!(label_filaments(&label, &template, &vec![icon]).unwrap(), vec![1, 2, 7, 9]);
}
