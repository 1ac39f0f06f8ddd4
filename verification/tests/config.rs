use gfty::config::{
    normalize_hex_color, validate_color_overrides, ConfigKind, IconDefinition, IconPlacement,
    LabelConfig, LabelError, LoadedLabel, TextValue, LABEL_CONFIG_VERSION,
};
use gfty::text::TextError;

fn label(config: LabelConfig) -> LoadedLabel {
    LoadedLabel::from_config(config, "/project".to_owned())
}

fn empty_config() -> LabelConfig {
    LabelConfig {
        kind: None,
        version: None,
        template: "template.svg".to_owned(),
        filament: 0,
        text: Vec::new(),
        icon: Vec::new(),
        icons: Vec::new(),
    }
}

#[test]
fn normalizes_hex_colors() {
    assert_eq!(normalize_hex_color("#F00").as_deref(), Some("ff0000"));
    assert_eq!(normalize_hex_color("00ff7F").as_deref(), Some("00ff7f"));
    assert_eq!(normalize_hex_color("nope"), None);
}

#[test]
fn resolves_svg_paths_directly_and_other_names_as_aliases() {
    let label = label(LabelConfig {
        icon: vec![(
            "nut".to_owned(),
            IconDefinition {
                src: "hardware/nut.svg".to_owned(),
                colors: Vec::new(),
            },
        )],
        ..empty_config()
    });

    assert_eq!(
        label.resolve_icon("icons/bolt.svg").unwrap().path,
        "/project/icons/bolt.svg"
    );
    assert_eq!(
        label.resolve_icon("nut").unwrap().path,
        "/project/hardware/nut.svg"
    );
    assert!(label.resolve_icon("bolt").is_err());
}

#[test]
fn rejects_unknown_label_schema_versions_before_resolving_assets() {
    let label = label(LabelConfig {
        kind: Some(ConfigKind::Label),
        version: Some(LABEL_CONFIG_VERSION + 1),
        template: "missing.svg".to_owned(),
        ..empty_config()
    });
    assert!(label.validate(&vec![], &vec![]).unwrap_err().message().contains("version"));
}

#[test]
fn normalizes_whitespace_and_rejects_wrong_lengths() {
    assert_eq!(normalize_hex_color("  #AbC\t").as_deref(), Some("aabbcc"));
    assert_eq!(normalize_hex_color("#abcd"), None);
    assert_eq!(normalize_hex_color("#ggg"), None);
    assert_eq!(normalize_hex_color(""), None);
}

#[test]
fn validation_reports_the_first_problem_in_order() {
    let text = label(LabelConfig {
        text: vec![("main".to_owned(), TextValue { content: "{open".to_owned() })],
        icons: vec![("icons-left".to_owned(), Vec::new())],
        ..empty_config()
    });
    assert_eq!(
        text.check_config().unwrap_err(),
        LabelError::InvalidText {
            field: "main".to_owned(),
            error: TextError::MissingClose { delimiter: '}' },
        }
    );
    let prefixed = label(LabelConfig {
        icons: vec![("icons-left".to_owned(), Vec::new())],
        ..empty_config()
    });
    assert_eq!(
        prefixed.check_config().unwrap_err().message(),
        "icon box \"icons-left\" must omit the template's `icons-` prefix"
    );
    let unknown = label(LabelConfig {
        icons: vec![(
            "left".to_owned(),
            vec![
                IconPlacement::Spacer { spacer: "2mm".to_owned() },
                IconPlacement::Icon { icon: "bolt".to_owned() },
            ],
        )],
        ..empty_config()
    });
    assert_eq!(
        unknown.check_config().unwrap_err(),
        LabelError::UnknownIcon { icon: "bolt".to_owned(), icon_box: "left".to_owned() }
    );
    let fine = label(LabelConfig {
        version: Some(1),
        text: vec![("main".to_owned(), TextValue { content: "M{3}".to_owned() })],
        icons: vec![(
            "left".to_owned(),
            vec![IconPlacement::Icon { icon: "icons/bolt.svg".to_owned() }],
        )],
        ..empty_config()
    });
    assert!(fine.check_config().is_ok());
}

#[test]
fn override_keys_must_be_indices_or_colors_and_distinct() {
    assert!(validate_color_overrides("nut", &vec![("1".into(), 2), ("#fff".into(), 3)]).is_ok());
    assert_eq!(
        validate_color_overrides("nut", &vec![("#FFF".into(), 2), ("ffffff".into(), 3)])
            .unwrap_err()
            .message(),
        "icon alias \"nut\" repeats color override \"ffffff\""
    );
    assert_eq!(
        validate_color_overrides("nut", &vec![("blue".into(), 2)]).unwrap_err(),
        LabelError::InvalidOverrideKey { alias: "nut".into(), key: "blue".into() }
    );
}

#[test]
fn template_names_must_exist() {
    let label = label(LabelConfig {
        text: vec![("main".to_owned(), TextValue { content: "x".to_owned() })],
        icons: vec![("left".to_owned(), Vec::new())],
        ..empty_config()
    });
    let fields = vec!["main".to_owned()];
    assert_eq!(
        label.validate(&fields, &vec![]).unwrap_err(),
        LabelError::UnknownIconBox { name: "left".to_owned() }
    );
    assert_eq!(
        label.validate(&vec![], &vec!["left".to_owned()]).unwrap_err(),
        LabelError::UnknownTextField { field: "main".to_owned() }
    );
    assert!(label.validate(&fields, &vec!["left".to_owned()]).is_ok());
}

#[test]
fn template_checks_follow_the_reading_order() {
    let label = label(LabelConfig {
        text: vec![
            ("main".to_owned(), TextValue { content: "{x".to_owned() }),
            ("other".to_owned(), TextValue { content: "y".to_owned() }),
        ],
        icons: vec![("icons-left".to_owned(), Vec::new())],
        ..empty_config()
    });
    let fields = vec!["main".to_owned()];
    assert!(matches!(
        label.validate(&fields, &vec![]).unwrap_err(),
        LabelError::InvalidText { .. }
    ));
    assert_eq!(
        label.validate(&vec![], &vec![]).unwrap_err(),
        LabelError::UnknownTextField { field: "main".to_owned() }
    );
    let later = LoadedLabel::from_config(
        LabelConfig {
            icons: vec![
                ("right".to_owned(), Vec::new()),
                ("icons-left".to_owned(), Vec::new()),
            ],
            ..empty_config()
        },
        "/project".to_owned(),
    );
    assert_eq!(
        later.validate(&vec![], &vec![]).unwrap_err(),
        LabelError::UnknownIconBox { name: "right".to_owned() }
    );
}

#[test]
fn plain_file_names_land_in_the_label_directory() {
    let label = LoadedLabel::from_config(
        LabelConfig { template: "plate.svg".to_owned(), ..empty_config() },
        "labels".to_owned(),
    );
    let template = label.template_path();
    assert!(template.ends_with("plate.svg"));
    assert!(template.starts_with("labels"));
    assert!(template.len() > "plate.svg".len());
    assert!(label.path.ends_with("<create>"));
    let icon = IconDefinition { src: "nut.svg".to_owned(), colors: Vec::new() };
    let path = label.icon_path(&icon);
    assert!(path.ends_with("nut.svg") && path.starts_with("labels"));
    let nested = IconDefinition { src: "hardware/m3.svg".to_owned(), colors: Vec::new() };
    assert!(label.icon_path(&nested).ends_with("m3.svg"));
}

#[test]
fn label_messages_quote_names_as_debug_does() {
    let error = LabelError::UnknownIconBox { name: "a\"b".to_owned() };
    assert_eq!(error.message(), "label config references unknown icon box \"a\\\"b\"");
}

#[test]
fn label_tables_hold_keys_once_in_order() {
    let sorted = LabelConfig {
        text: vec![
            ("a".to_owned(), TextValue { content: String::new() }),
            ("b".to_owned(), TextValue { content: String::new() }),
        ],
        ..empty_config()
    };
    assert!(sorted.is_wf());
    let repeated = LabelConfig {
        icons: vec![("left".to_owned(), Vec::new()), ("left".to_owned(), Vec::new())],
        ..empty_config()
    };
    assert!(!repeated.is_wf());
}
