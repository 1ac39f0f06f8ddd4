use gfty::bin_config::{
    all_faces, canonical_columns, check_bin_header, constituent_flags, easy_grab_faces,
    expected_parts, gcd, label_boundaries, row_zero_walls, validate_merges, BaseConfig,
    BinBodyConfig, BinComponent, BinError, Components, DividerConfig, DividerMerge,
    EasyGrabConfig, EasyGrabError, EasyGrabFace, EasyGrabMode, EffectiveLabelInterface, Face,
    InterfaceError, InterfaceMode, MergeError, Side,
};
use gfty::config::ConfigKind;

fn divider(columns: usize, rows: usize, merges: Vec<DividerMerge>) -> DividerConfig {
    DividerConfig {
        columns: vec!["auto".to_owned(); columns],
        rows: vec!["auto".to_owned(); rows],
        merges,
    }
}

fn face(side: Side, columns: [usize; 2], rows: [usize; 2]) -> Face {
    Face { side, columns, rows }
}

#[test]
fn default_divider_has_six_south_faces_of_walls() {
    let faces = all_faces(&DividerConfig::default()).unwrap();
    let south: Vec<_> = faces.iter().filter(|f| f.side == Side::South).collect();
    assert_eq!(south.len(), 6);
    let selected = easy_grab_faces(&DividerConfig::default(), &EasyGrabConfig::default()).unwrap();
    assert_eq!(selected.len(), 6);
    assert!(selected.iter().all(|f| f.side == Side::South));
}

#[test]
fn one_by_one_bin_has_one_face_per_side() {
    let faces = all_faces(&divider(1, 1, vec![])).unwrap();
    assert_eq!(
        faces,
        vec![
            face(Side::South, [0, 0], [0, 0]),
            face(Side::North, [0, 0], [0, 0]),
            face(Side::East, [0, 0], [0, 0]),
            face(Side::West, [0, 0], [0, 0]),
        ]
    );
}

#[test]
fn merged_columns_form_one_capped_face() {
    let grid = divider(3, 1, vec![DividerMerge { columns: [1, 2], rows: [0, 0] }]);
    let faces = all_faces(&grid).unwrap();
    assert!(faces.contains(&face(Side::South, [1, 2], [0, 0])));
    assert!(!faces.contains(&face(Side::South, [1, 1], [0, 0])));
    let custom = EasyGrabConfig {
        mode: EasyGrabMode::Custom,
        side: Side::South,
        radius: "18mm".to_owned(),
        faces: vec![EasyGrabFace { side: Side::South, columns: [1, 2], rows: [0, 0], radius: None }],
    };
    assert_eq!(easy_grab_faces(&grid, &custom).unwrap().len(), 1);
}

#[test]
fn rejects_invalid_custom_face() {
    let custom = EasyGrabConfig {
        mode: EasyGrabMode::Custom,
        side: Side::South,
        radius: "21mm".to_owned(),
        faces: vec![EasyGrabFace { side: Side::South, columns: [0, 1], rows: [0, 0], radius: None }],
    };
    let error = easy_grab_faces(&DividerConfig::default(), &custom).unwrap_err();
    assert_eq!(error, EasyGrabError::InvalidFace { face: 1 });
    assert!(error.message().contains("complete, capped"));
    let none = EasyGrabConfig { mode: EasyGrabMode::Off, ..custom };
    assert!(easy_grab_faces(&DividerConfig::default(), &none).unwrap().is_empty());
}

#[test]
fn rejects_base_only_bin_files_before_export() {
    let error = check_bin_header(ConfigKind::Bin, 1, [2, 2, 6], false).unwrap_err();
    assert_eq!(error, BinError::BodyDisabled);
    assert!(error.message().contains("base-only"));
    assert!(error.message().contains("helper body"));
}

#[test]
fn component_selection_uses_exact_named_manifests_without_mutating_geometry() {
    let base = BaseConfig::default();
    let bin = BinBodyConfig::default();
    assert_eq!(expected_parts(&base, &bin, true, true, BinComponent::Bin).unwrap(), ["Bin"]);
    assert_eq!(
        expected_parts(&base, &bin, true, true, BinComponent::SwappableRim).unwrap(),
        ["SwappableRim"]
    );
    assert!(base.enabled);
    assert_eq!(
        expected_parts(&base, &bin, true, true, BinComponent::All).unwrap(),
        ["Bin", "SwappableRim", "SwappableLabel", "Base", "ConnectorPin"]
    );
}

#[test]
fn loads_constituent_bin_version_two() {
    let flags =
        constituent_flags(ConfigKind::Bin, 2, InterfaceMode::Swappable, InterfaceMode::Swappable)
            .unwrap();
    assert!(flags.swappable_rim);
    assert!(flags.label_swappable);
    let base = BaseConfig { enabled: false, ..BaseConfig::default() };
    let bin = BinBodyConfig {
        nesting: flags.nesting,
        swappable_rim: flags.swappable_rim,
        ..BinBodyConfig::default()
    };
    assert_eq!(
        expected_parts(&base, &bin, flags.label_enabled, flags.label_swappable, BinComponent::All)
            .unwrap(),
        ["Bin", "SwappableRim", "SwappableLabel"]
    );
}

#[test]
fn merges_must_stay_inside_the_grid() {
    let bad_columns = divider(2, 2, vec![DividerMerge { columns: [1, 2], rows: [0, 0] }]);
    assert_eq!(validate_merges(&bad_columns, 2, 2), Err(MergeError::ColumnsOutOfRange { merge: 1 }));
    assert_eq!(
        MergeError::ColumnsOutOfRange { merge: 1 }.message(),
        "divider merge 1 columns are out of range"
    );
    let bad_rows = divider(
        2,
        2,
        vec![
            DividerMerge { columns: [0, 1], rows: [0, 0] },
            DividerMerge { columns: [0, 0], rows: [1, 0] },
        ],
    );
    assert_eq!(validate_merges(&bad_rows, 2, 2), Err(MergeError::RowsOutOfRange { merge: 2 }));
    assert!(all_faces(&bad_rows).is_err());
}

#[test]
fn components_join_merged_cells() {
    let merges = vec![DividerMerge { columns: [0, 1], rows: [0, 1] }];
    let components = Components::new(3, 2, &merges);
    assert!(components.same(0, 0, 1, 1));
    assert!(components.same(1, 0, 0, 1));
    assert!(!components.same(1, 0, 2, 0));
    assert!(!components.same(2, 0, 2, 1));
}

#[test]
fn first_row_walls_follow_compartments() {
    let merges = vec![
        DividerMerge { columns: [0, 1], rows: [0, 0] },
        DividerMerge { columns: [2, 3], rows: [0, 0] },
    ];
    assert_eq!(row_zero_walls(4, 2, &merges), vec![false, true, false, false]);
}

#[test]
fn normalizes_equivalent_first_row_partitions() {
    // Boundaries of equal columns at the first-row walls, in parts per billion.
    fn boundaries(walls: &[bool]) -> Vec<i64> {
        let count = walls.len() as i64;
        walls
            .iter()
            .enumerate()
            .filter(|(_, wall)| **wall)
            .map(|(index, _)| (index as i64 + 1) * 1_000_000_000 / count)
            .collect()
    }
    let pairs = vec![
        DividerMerge { columns: [0, 1], rows: [0, 0] },
        DividerMerge { columns: [2, 3], rows: [0, 0] },
    ];
    let four_merged = row_zero_walls(4, 1, &pairs);
    assert_eq!(four_merged, vec![false, true, false, false]);
    let two_columns = row_zero_walls(2, 1, &vec![]);
    assert_eq!(two_columns, vec![true, false]);

    let merged =
        EffectiveLabelInterface::from_boundaries(2, 10_000, &boundaries(&four_merged)).unwrap();
    let direct =
        EffectiveLabelInterface::from_boundaries(2, 10_000, &boundaries(&two_columns)).unwrap();
    assert_eq!(merged.boundaries_ppb, vec![500_000_000]);
    assert_eq!(merged, direct);
    assert_eq!(merged.canonical_columns, ["1fr", "1fr"]);
}

#[test]
fn canonical_columns_are_lowest_terms() {
    assert_eq!(canonical_columns(&vec![]), ["1fr"]);
    assert_eq!(canonical_columns(&vec![250_000_000, 750_000_000]), ["1fr", "2fr", "1fr"]);
    assert_eq!(gcd(12, 18), 6);
    assert_eq!(gcd(0, 0), 1);
    assert_eq!(gcd(7, 0), 7);
}

#[test]
fn boundaries_must_be_inside_and_increasing() {
    assert_eq!(label_boundaries(&vec![0]), Err(InterfaceError::OutsideWidth));
    assert_eq!(label_boundaries(&vec![1_000_000_000]), Err(InterfaceError::OutsideWidth));
    assert_eq!(label_boundaries(&vec![5, 5]), Err(InterfaceError::TooClose));
    assert_eq!(label_boundaries(&vec![5, 9]), Ok(vec![5, 9]));
}

#[test]
fn expected_parts_follow_the_enabled_parts() {
    let base = BaseConfig::default();
    let bin = BinBodyConfig::default();
    assert_eq!(
        expected_parts(&base, &bin, true, true, BinComponent::All).unwrap(),
        ["Bin", "SwappableRim", "SwappableLabel", "Base", "ConnectorPin"]
    );
    assert_eq!(expected_parts(&base, &bin, true, true, BinComponent::Bin).unwrap(), ["Bin"]);
    assert_eq!(
        expected_parts(&base, &bin, true, true, BinComponent::SwappableRim).unwrap(),
        ["SwappableRim"]
    );
    let no_base = BaseConfig { enabled: false, ..base };
    let missing = expected_parts(&no_base, &bin, true, true, BinComponent::Base).unwrap_err();
    assert_eq!(
        missing.message(),
        "configured component Base does not exist; available parts: Bin, SwappableRim, SwappableLabel"
    );
}

#[test]
fn bin_headers_are_checked_in_order() {
    assert_eq!(check_bin_header(ConfigKind::Label, 1, [1, 1, 1], true), Err(BinError::WrongKind));
    assert_eq!(
        check_bin_header(ConfigKind::Bin, 2, [1, 1, 1], true),
        Err(BinError::UnsupportedVersion { version: 2 })
    );
    assert_eq!(
        check_bin_header(ConfigKind::Bin, 1, [1, 0, 0], true),
        Err(BinError::EmptySize { axis: 1 })
    );
    assert_eq!(check_bin_header(ConfigKind::Bin, 1, [1, 1, 1], false), Err(BinError::BodyDisabled));
    assert!(check_bin_header(ConfigKind::Bin, 1, [2, 2, 6], true).is_ok());
}

#[test]
fn constituent_interfaces_set_the_carrier_flags() {
    let flags = constituent_flags(ConfigKind::Bin, 2, InterfaceMode::Swappable, InterfaceMode::Integrated)
        .unwrap();
    assert!(flags.nesting && flags.swappable_rim && flags.label_enabled && !flags.label_swappable);
    assert_eq!(
        constituent_flags(ConfigKind::Bin, 1, InterfaceMode::Off, InterfaceMode::Off),
        Err(BinError::UnsupportedBodyVersion { version: 1 })
    );
}

#[test]
fn part_names_of_components() {
    assert_eq!(BinComponent::All.part_name(), None);
    assert_eq!(BinComponent::ConnectorPin.part_name(), Some("ConnectorPin"));
    assert_eq!(Side::West.as_str(), "west");
}
