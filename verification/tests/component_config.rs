use gfty::bin_config::{BaseConfig, EffectiveLabelInterface};
use gfty::component_config::{
    apply_base, base_parts, bin_set_parts, interface_summary, label_parts, rim_parts, validate_header, validate_xy,
    BaseFileConfig, BaseMagnetsConfig, BinSetFileConfig, ComponentError, LabelCheck,
    RimFileConfig, SetBin, SetError, SwappableLabelFileConfig, EmbossingConfig,
};
use gfty::config::ConfigKind;

fn set() -> BinSetFileConfig {
    BinSetFileConfig {
        kind: ConfigKind::BinSet,
        version: 1,
        bin: "bin-b.toml".to_owned(),
        base: Some("base.toml".to_owned()),
        rim: Some("rim.toml".to_owned()),
        swappable_label: Some("label.toml".to_owned()),
        connector_pin: true,
    }
}

fn base(size: [u32; 2]) -> BaseFileConfig {
    BaseFileConfig {
        kind: ConfigKind::Base,
        version: 1,
        size,
        rounded_corners: false,
        magnets: BaseMagnetsConfig::default(),
    }
}

fn rim(size: [u32; 2]) -> RimFileConfig {
    RimFileConfig {
        kind: ConfigKind::Rim,
        version: 1,
        size,
        spring_compensation: true,
        additional_expansion: "0mm".to_owned(),
    }
}

fn interface(boundary: i64) -> EffectiveLabelInterface {
    EffectiveLabelInterface::from_boundaries(2, 10_000, &vec![boundary]).unwrap()
}

fn label(expected: i64, received: i64) -> LabelCheck {
    LabelCheck {
        label: SwappableLabelFileConfig {
            kind: ConfigKind::SwappableLabel,
            version: 1,
            bin: "bin-a.toml".to_owned(),
            embossing: EmbossingConfig::default(),
        },
        expected: interface(expected),
        received: interface(received),
    }
}

const BIN: SetBin = SetBin { size: [2, 5], swappable_rim: true, swappable_label: true };

#[test]
fn set_accepts_a_label_derived_from_a_compatible_bin() {
    let parts = bin_set_parts(
        &set(),
        BIN,
        Some(base([2, 5])),
        Some(rim([2, 5])),
        Some(label(500_000_000, 500_000_000)),
    )
    .unwrap();
    assert_eq!(parts, ["Bin", "Base", "ConnectorPin", "SwappableRim", "SwappableLabel"]);
}

#[test]
fn set_rejects_mismatched_sizes_and_interfaces() {
    assert_eq!(
        bin_set_parts(&set(), BIN, Some(base([2, 4])), Some(rim([2, 5])), Some(label(1, 1))),
        Err(SetError::BaseSize { base: [2, 4], bin: [2, 5] })
    );
    assert_eq!(
        bin_set_parts(&set(), BIN, Some(base([2, 5])), Some(rim([3, 5])), Some(label(1, 1))),
        Err(SetError::RimSize { rim: [3, 5], bin: [2, 5] })
    );
    assert!(matches!(
        bin_set_parts(&set(), BIN, Some(base([2, 5])), Some(rim([2, 5])), Some(label(1, 2))),
        Err(SetError::IncompatibleLabel { .. })
    ));
    let no_base = BinSetFileConfig { base: None, ..set() };
    assert_eq!(
        bin_set_parts(&no_base, BIN, None, Some(rim([2, 5])), Some(label(1, 1))),
        Err(SetError::PinWithoutBase)
    );
    let plain = SetBin { swappable_rim: false, swappable_label: false, ..BIN };
    let pinless = BinSetFileConfig { connector_pin: false, ..set() };
    assert_eq!(
        bin_set_parts(&pinless, plain, Some(base([2, 5])), None, None),
        Err(SetError::UnexpectedRim)
    );
}

#[test]
fn component_headers_and_sizes() {
    assert!(validate_header(ConfigKind::Rim, ConfigKind::Rim, 1, "rim").is_ok());
    assert_eq!(
        validate_header(ConfigKind::Base, ConfigKind::Rim, 1, "rim").unwrap_err().message(),
        "rim TOML has the wrong kind"
    );
    assert_eq!(
        validate_header(ConfigKind::Rim, ConfigKind::Rim, 3, "rim").unwrap_err(),
        ComponentError::UnsupportedVersion { description: "rim".to_owned(), version: 3 }
    );
    assert!(validate_xy([1, 1], "base").is_ok());
    assert!(validate_xy([0, 1], "base").is_err());
}

#[test]
fn bases_are_applied_to_carriers_and_interfaces_summarized() {
    let mut carrier = BaseConfig { enabled: false, connector_pin: false, ..BaseConfig::default() };
    apply_base(&mut carrier, &base([1, 1]), true);
    assert!(carrier.enabled && carrier.magnets && carrier.connector_pin && !carrier.rounded_corners);
    assert_eq!(
        interface_summary(&interface(250_000_000)),
        "x=2, depth=10000um, boundaries=[250000000]"
    );
    let two = EffectiveLabelInterface::from_boundaries(1, 5, &vec![1, 2]).unwrap();
    assert_eq!(interface_summary(&two), "x=1, depth=5um, boundaries=[1, 2]");
}

#[test]
fn set_stages_add_their_parts_in_order() {
    let parts = base_parts(&set(), BIN, Some(base([2, 5]))).unwrap();
    assert_eq!(parts, ["Bin", "Base", "ConnectorPin"]);
    assert_eq!(
        base_parts(&set(), BIN, Some(base([2, 4]))),
        Err(SetError::BaseSize { base: [2, 4], bin: [2, 5] })
    );
    let parts = rim_parts(&set(), BIN, Some(rim([2, 5])), parts).unwrap();
    assert_eq!(parts, ["Bin", "Base", "ConnectorPin", "SwappableRim"]);
    let no_rim = BinSetFileConfig { rim: None, ..set() };
    assert_eq!(rim_parts(&no_rim, BIN, None, parts.clone()), Err(SetError::MissingRim));
    let parts = label_parts(&set(), BIN, Some(label(7, 7)), parts).unwrap();
    assert_eq!(parts.last().map(String::as_str), Some("SwappableLabel"));
    let no_label = BinSetFileConfig { swappable_label: None, ..set() };
    assert_eq!(
        label_parts(&no_label, BIN, None, vec!["Bin".to_owned()]),
        Err(SetError::MissingLabel)
    );
}
