use gfty::svgcolors::attribute_of;
use gfty::svgtemplate::{template_structure, TemplateError, TemplateSlot};

const TEMPLATE: &str = r#"
        <svg xmlns="http://www.w3.org/2000/svg" width="42mm" height="21mm" viewBox="0 0 84 42">
          <text id="text-main" x="42" y="20">Default</text>
          <rect id="icons-fasteners" x="4" y="24" width="76" height="14"/>
        </svg>
    "#;

#[test]
fn discovers_contract_elements() {
    let info = template_structure(TEMPLATE).unwrap();
    assert_eq!(attribute_of(&info.root_attributes, "width").as_deref(), Some("42mm"));
    assert_eq!(attribute_of(&info.root_attributes, "height").as_deref(), Some("21mm"));
    assert!(info.fault.is_none());
    assert_eq!(info.slots.len(), 2);
    match &info.slots[0] {
        TemplateSlot::Text { name, default } => {
            assert_eq!(name, "main");
            assert_eq!(default, "Default");
        }
        _ => panic!("expected a text field"),
    }
    match &info.slots[1] {
        TemplateSlot::IconBox { name, attributes } => {
            assert_eq!(name, "fasteners");
            assert_eq!(attribute_of(attributes, "x").as_deref(), Some("4"));
            assert_eq!(attribute_of(attributes, "y").as_deref(), Some("24"));
            assert_eq!(attribute_of(attributes, "width").as_deref(), Some("76"));
            assert_eq!(attribute_of(attributes, "height").as_deref(), Some("14"));
        }
        _ => panic!("expected an icon box"),
    }
}

#[test]
fn rejects_wrong_special_elements() {
    let bad = TEMPLATE.replace("<rect id=\"icons-fasteners\"", "<g id=\"icons-fasteners\"");
    let info = template_structure(&bad).unwrap();
    assert_eq!(info.fault, Some(TemplateError::NotRect { id: "icons-fasteners".to_owned() }));
    assert_eq!(
        info.fault.unwrap().message(),
        "icon box \"icons-fasteners\" must be a <rect> element"
    );
}

#[test]
fn rejects_duplicate_ids() {
    let bad = TEMPLATE.replace("</svg>", "<g id=\"text-main\"/></svg>");
    let info = template_structure(&bad).unwrap();
    let start = bad.find("<g id").unwrap();
    let previous = bad.find("<text").unwrap();
    assert_eq!(
        info.fault,
        Some(TemplateError::DuplicateId { id: "text-main".to_owned(), previous, start })
    );
    assert_eq!(info.slots.len(), 2);
}

#[test]
fn the_root_must_be_svg() {
    assert_eq!(
        template_structure("<g><text id=\"text-a\">x</text></g>").err(),
        Some(TemplateError::NotSvg)
    );
    assert_eq!(TemplateError::NotSvg.message(), "root element must be <svg>");
    assert!(matches!(
        template_structure("<svg>").err(),
        Some(TemplateError::InvalidXml { .. })
    ));
}

#[test]
fn names_must_follow_the_prefixes() {
    let info = template_structure(r#"<svg><text id="text-"/></svg>"#).unwrap();
    assert_eq!(info.fault, Some(TemplateError::EmptyTextName));
    let info = template_structure(r#"<svg><rect id="icons-"/></svg>"#).unwrap();
    assert_eq!(info.fault, Some(TemplateError::EmptyIconName));
    let info = template_structure(r#"<svg><rect id="text-title"/></svg>"#).unwrap();
    assert_eq!(info.fault, Some(TemplateError::NotText { id: "text-title".to_owned() }));
    assert_eq!(
        info.fault.unwrap().message(),
        "configurable element \"text-title\" must be a <text> element"
    );
}

#[test]
fn default_text_joins_the_nested_text() {
    let info = template_structure(
        r#"<svg><text id="text-t">Hello <tspan>big</tspan> world</text><text id="other">x</text></svg>"#,
    )
    .unwrap();
    assert_eq!(info.slots.len(), 1);
    match &info.slots[0] {
        TemplateSlot::Text { name, default } => {
            assert_eq!(name, "t");
            assert_eq!(default, "Hello big world");
        }
        _ => panic!("expected a text field"),
    }
}

#[test]
fn slots_before_a_refused_id_are_kept() {
    let info = template_structure(
        r#"<svg><rect id="icons-a" width="1" height="1"/><text id="icons-b"/><rect id="icons-c"/></svg>"#,
    )
    .unwrap();
    assert_eq!(info.slots.len(), 1);
    assert_eq!(info.fault, Some(TemplateError::NotRect { id: "icons-b".to_owned() }));
}
