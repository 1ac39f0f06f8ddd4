use gfty::color::{style_property, ColorMapping};
use gfty::sidecar::SidecarError;
use gfty::svgcolors::discover_colors;

fn colors(values: &[&str]) -> Vec<String> {
    values.iter().map(|v| v.to_string()).collect()
}

#[test]
fn automatic_mapping_uses_lexical_order() {
    let colors = discover_colors(
        r##"<svg><path fill="#ff0000"/><path fill="#000000"/><path fill="#0000ff"/></svg>"##,
    )
    .unwrap();
    let mapping = ColorMapping::automatic(&colors);
    assert_eq!(
        mapping.source_to_filament,
        vec![("000000".to_owned(), 1), ("0000ff".to_owned(), 2), ("ff0000".to_owned(), 3)]
    );
    assert_eq!(mapping.sidecar, None);
}

#[test]
fn sidecars_map_every_used_color_once() {
    let used = colors(&["000000", "ffffff"]);
    let mapping = ColorMapping::from_sidecar(
        &used,
        &vec![("#FFF".to_owned(), 2), ("000".to_owned(), 5)],
        "icon.toml".to_owned(),
    )
    .unwrap();
    assert_eq!(
        mapping.source_to_filament,
        vec![("000000".to_owned(), 5), ("ffffff".to_owned(), 2)]
    );
    assert_eq!(mapping.sidecar, Some("icon.toml".to_owned()));
}

#[test]
fn sidecars_reject_bad_repeated_missing_and_extra_colors() {
    let used = colors(&["000000", "ffffff"]);
    assert_eq!(
        ColorMapping::from_sidecar(&used, &vec![("blue".to_owned(), 1)], String::new()).unwrap_err(),
        SidecarError::NotHex { color: "blue".to_owned() }
    );
    assert_eq!(
        ColorMapping::from_sidecar(
            &used,
            &vec![("#fff".to_owned(), 1), ("ffffff".to_owned(), 2)],
            String::new()
        )
        .unwrap_err()
        .message(),
        "sidecar maps source color #ffffff more than once"
    );
    assert_eq!(
        ColorMapping::from_sidecar(&used, &vec![("fff".to_owned(), 1)], String::new())
            .unwrap_err()
            .message(),
        "color sidecar is not exhaustive; missing #000000"
    );
    let extra = ColorMapping::from_sidecar(
        &used,
        &vec![
            ("000".to_owned(), 1),
            ("fff".to_owned(), 2),
            ("ff0000".to_owned(), 3),
            ("00ff00".to_owned(), 4),
        ],
        String::new(),
    )
    .unwrap_err();
    assert_eq!(extra.message(), "color sidecar refers to absent colors: #00ff00, #ff0000");
}

#[test]
fn style_properties_are_read_from_the_last_declaration() {
    assert_eq!(style_property("fill:#fff; Stroke : #000 ;", "stroke").as_deref(), Some("#000"));
    assert_eq!(style_property("fill:red;fill: blue", "fill").as_deref(), Some("blue"));
    assert_eq!(style_property("fill", "fill"), None);
    assert_eq!(style_property("", "fill"), None);
}
