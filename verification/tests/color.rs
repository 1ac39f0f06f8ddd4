use gfty::color::{recolor_svg, ColorError, ColorMapping};
use gfty::palette::PreviewPalette;

#[test]
fn recolors_short_and_long_hex_values() {
    let mapping = vec![("ffffff".to_owned(), 3)];
    let palette = PreviewPalette::new(&[3]).unwrap();
    assert_eq!(
        recolor_svg(
            r##"<path fill="#fff"/><path style="fill:#FFFFFF"/>"##,
            &mapping,
            &palette,
        ),
        r##"<path fill="#8aaed6"/><path style="fill:#8aaed6"/>"##
    );
}

#[test]
fn palettes_are_reversible_and_resolve_collisions() {
    // Multiples of 2^24 have the same hashed fallback before collision resolution.
    let palette = PreviewPalette::new(&[0x01_00_00_00, 0x02_00_00_00]).unwrap();
    assert_eq!(palette.filament(0, 0, 0), Some(0x01_00_00_00));
    let second_color = palette.color(0x02_00_00_00);
    assert_ne!(second_color, "000000");
    let rgb = u32::from_str_radix(&second_color, 16).unwrap();
    assert_eq!(
        palette.filament((rgb >> 16) as u8, (rgb >> 8) as u8, rgb as u8),
        Some(0x02_00_00_00)
    );
}

#[test]
fn exact_override_wins_over_index_override() {
    let base = ColorMapping {
        source_to_filament: vec![
            ("000000".into(), 0),
            ("00ff00".into(), 1),
            ("ff0000".into(), 1),
        ],
        sidecar: None,
    };
    let mapped = base
        .with_overrides(&vec![("1".into(), 3), ("#ff0000".into(), 5)])
        .unwrap();
    let target = |color: &str| {
        mapped
            .source_to_filament
            .iter()
            .find(|(source, _)| source == color)
            .map(|(_, filament)| *filament)
            .unwrap()
    };
    assert_eq!(target("000000"), 0);
    assert_eq!(target("00ff00"), 3);
    assert_eq!(target("ff0000"), 5);
}

#[test]
fn fixed_palette_colors_come_first() {
    let palette = PreviewPalette::new(&[0, 1, 9]).unwrap();
    assert_eq!(palette.color(0), "eaeaea");
    assert_eq!(palette.color(1), "43484d");
    assert_eq!(palette.color(9), "999487");
    assert_eq!(palette.filament(0xea, 0xea, 0xea), Some(0));
    assert_eq!(palette.filament(1, 2, 3), None);
}

#[test]
fn colors_of_unmapped_sources_are_kept() {
    let mapping = vec![("000000".to_owned(), 1)];
    let palette = PreviewPalette::new(&[1]).unwrap();
    assert_eq!(
        recolor_svg("#123456 #000 #00000 #zz", &mapping, &palette),
        "#123456 #43484d #43484d00 #zz"
    );
}

#[test]
fn overrides_must_name_known_colors_and_indices() {
    let base = ColorMapping {
        source_to_filament: vec![("000000".into(), 1)],
        sidecar: None,
    };
    assert_eq!(
        base.with_overrides(&vec![("#abc".into(), 2)]).unwrap_err(),
        ColorError::AbsentColor { color: "aabbcc".into() }
    );
    assert_eq!(
        base.with_overrides(&vec![("2".into(), 2)]).unwrap_err(),
        ColorError::AbsentIndex { index: 2 }
    );
    assert_eq!(
        base.with_overrides(&vec![("red".into(), 2)]).unwrap_err(),
        ColorError::InvalidKey { key: "red".into() }
    );
    let unchanged = base.with_overrides(&vec![]).unwrap();
    assert_eq!(unchanged, base);
}

#[test]
fn every_palette_color_leads_back_to_its_filament() {
    let filaments = [0, 1, 5, 12, 40, 4096];
    let palette = PreviewPalette::new(&filaments).unwrap();
    let mut seen = Vec::new();
    for filament in filaments {
        let color = palette.color(filament);
        assert_eq!(color.len(), 6);
        assert!(color.chars().all(|c| c.is_ascii_hexdigit() && !c.is_ascii_uppercase()));
        let rgb = u32::from_str_radix(&color, 16).unwrap();
        assert_eq!(
            palette.filament((rgb >> 16) as u8, (rgb >> 8) as u8, rgb as u8),
            Some(filament)
        );
        assert!(!seen.contains(&rgb));
        seen.push(rgb);
    }
    assert_eq!(palette.filament(0xff, 0xff, 0xfe), None);
}

#[test]
fn the_lowest_filament_keeps_its_fallback_color() {
    let palette = PreviewPalette::new(&[7, 3]).unwrap();
    assert_eq!(palette.color(3), "8aaed6");
}

#[test]
fn a_colliding_higher_filament_takes_the_next_probe() {
    let palette = PreviewPalette::new(&[0x02_00_00_00, 0x01_00_00_00]).unwrap();
    assert_eq!(palette.color(0x01_00_00_00), "000000");
    assert_eq!(palette.color(0x02_00_00_00), "9e3779");
    assert_eq!(palette.filament(0x9e, 0x37, 0x79), Some(0x02_00_00_00));
}
