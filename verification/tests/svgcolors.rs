use gfty::svgcolors::{discover_colors, node_colors, SvgAttribute, SvgColorError, SvgNode};

fn strings(values: &[&str]) -> Vec<String> {
    values.iter().map(|v| v.to_string()).collect()
}

#[test]
fn discovers_inherited_stroke_colors() {
    let colors = discover_colors(
        r##"<svg stroke="#123456"><path fill="none" d="M0 0L1 1"/><line x2="1"/></svg>"##,
    )
    .unwrap();
    assert_eq!(colors, strings(&["123456"]));
}

#[test]
fn unpainted_shapes_are_filled_black() {
    let colors = discover_colors(r#"<svg><rect width="1" height="1"/></svg>"#).unwrap();
    assert_eq!(colors, strings(&["000000"]));
}

#[test]
fn lines_have_no_default_fill() {
    let colors = discover_colors(r#"<svg><line x2="1"/></svg>"#).unwrap();
    assert!(colors.is_empty());
}

#[test]
fn style_declarations_win_over_attributes() {
    let colors = discover_colors(
        r##"<svg><path fill="#ff0000" style="fill: #0F0; stroke:#00f"/></svg>"##,
    )
    .unwrap();
    assert_eq!(colors, strings(&["0000ff", "00ff00"]));
}

#[test]
fn inherit_defers_to_the_parent() {
    let colors = discover_colors(
        r##"<svg><g fill="#abcdef"><circle r="1" fill=" Inherit "/></g></svg>"##,
    )
    .unwrap();
    assert_eq!(colors, strings(&["abcdef"]));
}

#[test]
fn undrawn_elements_give_no_color() {
    let colors = discover_colors(
        r##"<svg fill="#111111"><g fill="#222222"/><defs><path fill="#333333"/></defs></svg>"##,
    )
    .unwrap();
    assert_eq!(colors, strings(&["333333"]));
}

#[test]
fn repeated_colors_are_listed_once() {
    let colors = discover_colors(
        r##"<svg><path fill="#FFF"/><rect fill="#ffffff" stroke="#fff"/><text fill="#000">a</text></svg>"##,
    )
    .unwrap();
    assert_eq!(colors, strings(&["000000", "ffffff"]));
}

#[test]
fn named_paint_is_refused() {
    let error = discover_colors(r#"<svg><path fill="red"/></svg>"#).unwrap_err();
    assert_eq!(
        error,
        SvgColorError::UnsupportedPaint { property: "fill".to_owned(), paint: "red".to_owned() }
    );
    assert_eq!(
        error.message(),
        "unsupported fill \"red\"; icon/template colors must use hex"
    );
}

#[test]
fn the_first_unsupported_paint_is_reported() {
    let error = discover_colors(
        r##"<svg><path fill="#000" stroke="url(#g)"/><rect fill="blue"/></svg>"##,
    )
    .unwrap_err();
    assert_eq!(
        error,
        SvgColorError::UnsupportedPaint {
            property: "stroke".to_owned(),
            paint: "url(#g)".to_owned()
        }
    );
}

#[test]
fn paint_messages_escape_quotes() {
    let error = SvgColorError::UnsupportedPaint {
        property: "stroke".to_owned(),
        paint: "a\"b".to_owned(),
    };
    assert_eq!(
        error.message(),
        "unsupported stroke \"a\\\"b\"; icon/template colors must use hex"
    );
}

#[test]
fn malformed_xml_is_refused() {
    let error = discover_colors("<svg><path></svg>").unwrap_err();
    assert!(matches!(error, SvgColorError::InvalidXml { .. }));
    assert_eq!(error.message(), "invalid SVG XML");
}

#[test]
fn namespaced_attributes_are_not_paint() {
    let colors = discover_colors(
        r##"<svg xmlns:x="urn:x"><path x:fill="#123123" fill="none"/></svg>"##,
    )
    .unwrap();
    assert!(colors.is_empty());
}

#[test]
fn parsed_nodes_are_read_in_document_order() {
    let root = SvgNode { element: false, tag: String::new(), attributes: vec![], parent: None, text_node: false, text: None, position: 0 };
    let group = SvgNode {
        element: true,
        tag: "g".to_owned(),
        attributes: vec![SvgAttribute {
            namespace: None,
            name: "stroke".to_owned(),
            value: "#00ff00".to_owned(),
        }],
        parent: Some(0),
        text_node: false,
        text: None,
        position: 5,
    };
    let path = SvgNode {
        element: true,
        tag: "path".to_owned(),
        attributes: vec![SvgAttribute {
            namespace: None,
            name: "fill".to_owned(),
            value: "#f00".to_owned(),
        }],
        parent: Some(1),
        text_node: false,
        text: None,
        position: 30,
    };
    let colors = node_colors(&vec![root, group, path]).unwrap();
    assert_eq!(colors, strings(&["00ff00", "ff0000"]));
}
