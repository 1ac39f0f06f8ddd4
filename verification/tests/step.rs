use gfty::step::{
    ensure_output_available, expected_filament_names, output_parent, validate_bin_step, validate_label_step, OutputError, StepError,
    StepRecord,
};

fn step(products: &[&str], bodies: &[&str]) -> Vec<u8> {
    let mut source = "ISO-10303-21;\nDATA;\n".to_owned();
    for (index, name) in products.iter().enumerate() {
        source.push_str(&format!(
            "#{}=PRODUCT('{name}','{name}','{name}',());\n",
            index + 1
        ));
    }
    for (index, name) in bodies.iter().enumerate() {
        source.push_str(&format!(
            "#{}=MANIFOLD_SOLID_BREP('{name}',#1);\n",
            index + 100
        ));
    }
    source.push_str("ENDSEC;\nEND-ISO-10303-21;\n");
    source.into_bytes()
}

#[test]
fn validates_exact_filament_products_and_bodies() {
    let contents = step(&["part-0", "part-3"], &["part-0", "part-3"]);
    validate_label_step(&contents, &[0, 3]).unwrap();
}

#[test]
fn zero_pads_names_to_the_largest_filament_width() {
    assert_eq!(
        expected_filament_names(&[0, 2, 10]),
        ["part-00", "part-02", "part-10"]
    );
}

#[test]
fn rejects_unexpected_disconnected_parts() {
    let contents = step(
        &["part-0", "part-1", "Part 1"],
        &["part-0", "part-1", "Part 1"],
    );
    let error = validate_label_step(&contents, &[0, 1]).unwrap_err().message();
    assert!(error.contains("Part 1"));
    assert!(error.contains("disconnected"));
}

#[test]
fn reports_the_expected_and_received_names() {
    let contents = step(&["part-1"], &["part-1"]);
    let error = validate_label_step(&contents, &[0]).unwrap_err();
    assert_eq!(
        error,
        StepError::UnexpectedNames {
            record: StepRecord::Product,
            expected: vec!["part-0".to_owned()],
            received: vec!["part-1".to_owned()],
        }
    );
    assert_eq!(
        error.message(),
        "Onshape generated unexpected products; expected part-0, received part-1. Artwork may be disconnected from or outside the label blank"
    );
}

#[test]
fn accepts_names_in_any_order_and_checks_bodies_after_products() {
    let contents = step(&["part-1", "part-0"], &["part-0"]);
    let error = validate_label_step(&contents, &[0, 1]).unwrap_err();
    assert_eq!(
        error.message(),
        "Onshape generated unexpected solid bodys; expected part-0, part-1, received part-0. Artwork may be disconnected from or outside the label blank"
    );
}

#[test]
fn rejects_non_utf8_and_non_step_contents() {
    assert_eq!(
        validate_label_step(&[0xff, 0xfe], &[0]).unwrap_err(),
        StepError::NotUtf8
    );
    assert_eq!(
        validate_label_step(b"HEADER;\n", &[0]).unwrap_err(),
        StepError::NotStep
    );
}

#[test]
fn rejects_unterminated_names_and_reads_doubled_quotes() {
    let unterminated = b"ISO-10303-21;\n#1=PRODUCT('part-0\n".to_vec();
    assert_eq!(
        validate_label_step(&unterminated, &[0]).unwrap_err(),
        StepError::MalformedName { record: StepRecord::Product }
    );
    let quoted = b"ISO-10303-21;\r\n#1=PRODUCT('it''s');\r\n".to_vec();
    let error = validate_label_step(&quoted, &[0]).unwrap_err();
    assert_eq!(
        error,
        StepError::UnexpectedNames {
            record: StepRecord::Product,
            expected: vec!["part-0".to_owned()],
            received: vec!["it's".to_owned()],
        }
    );
}

#[test]
fn names_without_filaments_use_width_one() {
    assert_eq!(expected_filament_names(&[]), Vec::<String>::new());
    assert_eq!(expected_filament_names(&[7, 123]), ["part-007", "part-123"]);
}

#[test]
fn output_needs_force_to_replace_and_an_existing_directory() {
    let out = || Some("out".to_owned());
    assert!(ensure_output_available("out/label.step", out(), false, false, true).is_ok());
    assert_eq!(
        ensure_output_available("out/label.step", out(), true, false, true),
        Err(OutputError::AlreadyExists { path: "out/label.step".to_owned() })
    );
    assert!(ensure_output_available("out/label.step", out(), true, true, true).is_ok());
    let missing = ensure_output_available("out/label.step", out(), false, false, false).unwrap_err();
    assert_eq!(missing.message(), "output directory does not exist: out");
    let bare = ensure_output_available("label.step", Some(String::new()), false, false, false)
        .unwrap_err();
    assert_eq!(bare.message(), "output directory does not exist: .");
    let rootless = ensure_output_available("", None, false, false, false).unwrap_err();
    assert_eq!(rootless.message(), "output directory does not exist: .");
    assert_eq!(output_parent(Some("a/b".to_owned())), "a/b");
}

#[test]
fn part_names_sort_as_their_filaments() {
    let filaments = [100, 9, 0, 42];
    let names = expected_filament_names(&filaments);
    assert_eq!(names, ["part-100", "part-009", "part-000", "part-042"]);
    for i in 0..filaments.len() {
        for j in 0..filaments.len() {
            if filaments[i] < filaments[j] {
                assert!(names[i] < names[j]);
            }
        }
    }
}

#[test]
fn bin_steps_hold_exactly_the_expected_parts() {
    let parts = vec!["Bin".to_owned(), "SwappableRim".to_owned()];
    validate_bin_step(&step(&["SwappableRim", "Bin"], &["Bin", "SwappableRim"]), &parts).unwrap();
    assert_eq!(
        validate_bin_step(&step(&["Bin"], &["Bin", "SwappableRim"]), &parts),
        Err(StepError::UnexpectedNames {
            record: StepRecord::Product,
            expected: parts.clone(),
            received: vec!["Bin".to_owned()],
        })
    );
    assert_eq!(validate_bin_step(b"not a step", &parts), Err(StepError::NotStep));
}
