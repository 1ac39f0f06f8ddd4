//! Standalone component files (base, rim, swappable label, bin set): their
//! model, header checks, and how a bin set's parts fit together.
use vstd::prelude::*;
use crate::bin_config::{BaseConfig, EffectiveLabelInterface};
use crate::config::ConfigKind;
use crate::strings::{decimal_digits, decimal_string, push_str, strings_view};

verus! {

/// The schema version of component TOML files.
pub const COMPONENT_CONFIG_VERSION: u32 = 1;

/// The magnets of a base.
#[derive(Debug, Clone, Copy, PartialEq, Eq, Structural)]
pub struct BaseMagnetsConfig {
    pub enabled: bool,
    pub connector_cutouts: bool,
}

impl Default for BaseMagnetsConfig {
    fn default() -> (r: Self)
        ensures
            r.enabled && r.connector_cutouts,
    {
        BaseMagnetsConfig { enabled: true, connector_cutouts: true }
    }
}

/// A standalone Gridfinity base.
#[derive(Debug, Clone)]
pub struct BaseFileConfig {
    pub kind: ConfigKind,
    pub version: u32,
    pub size: [u32; 2],
    pub rounded_corners: bool,
    pub magnets: BaseMagnetsConfig,
}

/// A standalone detachable rim.
#[derive(Debug, Clone)]
pub struct RimFileConfig {
    pub kind: ConfigKind,
    pub version: u32,
    pub size: [u32; 2],
    pub spring_compensation: bool,
    pub additional_expansion: String,
}

/// The embossing of a swappable label blank.
#[derive(Debug, Clone)]
pub struct EmbossingConfig {
    pub clearance: String,
    pub inset: String,
}

impl Default for EmbossingConfig {
    fn default() -> (r: Self)
        ensures
            r.clearance@ == "0.4mm"@,
            r.inset@ == "0mm"@,
    {
        EmbossingConfig { clearance: "0.4mm".to_owned(), inset: "0mm".to_owned() }
    }
}

/// A swappable label blank derived from a bin.
#[derive(Debug, Clone)]
pub struct SwappableLabelFileConfig {
    pub kind: ConfigKind,
    pub version: u32,
    pub bin: String,
    pub embossing: EmbossingConfig,
}

/// A checked set of compatible bin parts.
#[derive(Debug, Clone)]
pub struct BinSetFileConfig {
    pub kind: ConfigKind,
    pub version: u32,
    pub bin: String,
    pub base: Option<String>,
    pub rim: Option<String>,
    pub swappable_label: Option<String>,
    pub connector_pin: bool,
}

/// A serde default that is `true`.
pub fn default_true() -> (r: bool)
    ensures
        r,
{
    true
}

/// The default additional rim expansion.
pub fn default_expansion() -> (r: String)
    ensures
        r@ == "0mm"@,
{
    "0mm".to_owned()
}

/// Why a component file was rejected.
#[derive(Debug, Clone, PartialEq, Eq)]
pub enum ComponentError {
    /// The file's kind is not the one expected.
    WrongKind { description: String },
    /// The file's schema version is not supported.
    UnsupportedVersion { description: String, version: u32 },
    /// An X or Y size is zero.
    EmptySize { description: String },
}

impl ComponentError {
    /// The text that reports this error.
    pub fn message(&self) -> (m: String)
        ensures
            m@ == match self {
                ComponentError::WrongKind { description } => description@
                    + " TOML has the wrong kind"@,
                ComponentError::UnsupportedVersion { description, version } => "unsupported "@
                    + description@ + " TOML version "@ + decimal_digits(*version as nat)
                    + "; expected 1"@,
                ComponentError::EmptySize { description } => description@
                    + " X and Y sizes must be at least one Gridfinity unit"@,
            },
    {
        let mut m = String::new();
        match self {
            ComponentError::WrongKind { description } => {
                push_str(&mut m, description.as_str());
                push_str(&mut m, " TOML has the wrong kind");
            },
            ComponentError::UnsupportedVersion { description, version } => {
                push_str(&mut m, "unsupported ");
                push_str(&mut m, description.as_str());
                push_str(&mut m, " TOML version ");
                let v = decimal_string(*version as u64);
                push_str(&mut m, v.as_str());
                push_str(&mut m, "; expected 1");
            },
            ComponentError::EmptySize { description } => {
                push_str(&mut m, description.as_str());
                push_str(&mut m, " X and Y sizes must be at least one Gridfinity unit");
            },
        }
        m
    }
}

/// Checks a component file's kind and schema version.
pub fn validate_header(actual_kind: ConfigKind, expected_kind: ConfigKind, version: u32, description: &str) -> (r:
    Result<(), ComponentError>)
    ensures
        actual_kind != expected_kind ==> (r matches Err(ComponentError::WrongKind { description: d })
            && d@ == description@),
        actual_kind == expected_kind && version != COMPONENT_CONFIG_VERSION ==> (r matches Err(
            ComponentError::UnsupportedVersion { description: d, version: v },
        ) && d@ == description@ && v == version),
        actual_kind == expected_kind && version == COMPONENT_CONFIG_VERSION ==> r is Ok,
{
    if actual_kind != expected_kind {
        return Err(ComponentError::WrongKind { description: description.to_owned() });
    }
    if version != COMPONENT_CONFIG_VERSION {
        return Err(ComponentError::UnsupportedVersion { description: description.to_owned(), version });
    }
    Ok(())
}

/// Checks that both horizontal sizes are at least one unit.
pub fn validate_xy(size: [u32; 2], description: &str) -> (r: Result<(), ComponentError>)
    ensures
        (size[0] == 0 || size[1] == 0) ==> (r matches Err(ComponentError::EmptySize { description: d })
            && d@ == description@),
        !(size[0] == 0 || size[1] == 0) ==> r is Ok,
{
    if size[0] == 0 || size[1] == 0 {
        return Err(ComponentError::EmptySize { description: description.to_owned() });
    }
    Ok(())
}

/// Puts a base file's settings on a carrier's base.
pub fn apply_base(base: &mut BaseConfig, config: &BaseFileConfig, connector_pin: bool)
    ensures
        *final(base) == (BaseConfig {
            enabled: true,
            rounded_corners: config.rounded_corners,
            magnets: config.magnets.enabled,
            connector_cutouts: config.magnets.connector_cutouts,
            connector_pin,
        }),
{
    base.enabled = true;
    base.rounded_corners = config.rounded_corners;
    base.magnets = config.magnets.enabled;
    base.connector_cutouts = config.magnets.connector_cutouts;
    base.connector_pin = connector_pin;
}

/// `[a, b, ...]`: a list of numbers as a debug listing shows it.
pub open spec fn number_list(values: Seq<u32>) -> Seq<char>
    decreases values.len(),
{
    if values.len() == 0 {
        "[]"@
    } else if values.len() == 1 {
        "["@ + decimal_digits(values[0] as nat) + "]"@
    } else {
        number_list(values.drop_last()).drop_last() + ", "@ + decimal_digits(values.last() as nat)
            + "]"@
    }
}

fn push_number_list(m: &mut String, values: &Vec<u32>)
    ensures
        final(m)@ == old(m)@ + number_list(values@),
{
    let ghost start = m@;
    if values.len() == 0 {
        push_str(m, "[]");
        return;
    }
    push_str(m, "[");
    let first = decimal_string(values[0] as u64);
    push_str(m, first.as_str());
    proof {
        reveal_strlit("]");
        reveal_strlit("[");
    }
    assert(m@ + "]"@ == start + number_list(values@.take(1)));
    let mut i: usize = 1;
    while i < values.len()
        invariant
            1 <= i <= values.len(),
            m@ + "]"@ == start + number_list(values@.take(i as int)),
        decreases values.len() - i,
    {
        let ghost before = m@;
        push_str(m, ", ");
        let n = decimal_string(values[i] as u64);
        push_str(m, n.as_str());
        assert(values@.take(i + 1).drop_last() =~= values@.take(i as int));
        proof {
            reveal_strlit("]");
        }
        assert((before + "]"@).drop_last() =~= before);
        assert(number_list(values@.take(i as int)).drop_last() =~= before.subrange(start.len() as int, before.len() as int));
        assert(m@ + "]"@ =~= start + number_list(values@.take(i + 1)));
        i = i + 1;
    }
    assert(values@.take(values.len() as int) =~= values@);
    push_str(m, "]");
}

/// A short description of a label interface for messages.
pub fn interface_summary(interface: &EffectiveLabelInterface) -> (r: String)
    ensures
        r@ == "x="@ + decimal_digits(interface.size_x as nat) + ", depth="@ + decimal_digits(
            interface.depth_micrometers as nat,
        ) + "um, boundaries="@ + number_list(interface.boundaries_ppb@),
{
    let mut m = String::new();
    push_str(&mut m, "x=");
    let x = decimal_string(interface.size_x as u64);
    push_str(&mut m, x.as_str());
    push_str(&mut m, ", depth=");
    let d = decimal_string(interface.depth_micrometers);
    push_str(&mut m, d.as_str());
    push_str(&mut m, "um, boundaries=");
    push_number_list(&mut m, &interface.boundaries_ppb);
    m
}

/// The component files that a bin set refers to.
#[derive(Debug, Clone, Copy, PartialEq, Eq, Structural)]
pub enum SetFile {
    Base,
    Rim,
    SwappableLabel,
}

/// Why the parts of a bin set do not fit together.
#[derive(Debug, Clone, PartialEq, Eq)]
pub enum SetError {
    /// A referenced file has the wrong kind, or another schema version.
    Header { file: SetFile, wrong_kind: bool, version: u32 },
    /// The base's size differs from the bin's.
    BaseSize { base: [u32; 2], bin: [u32; 2] },
    /// A connector pin needs a magnetic base with connector cutouts.
    PinWithoutMagnets,
    /// A connector pin needs a base.
    PinWithoutBase,
    /// The bin has a swappable rim, but the set names no rim.
    MissingRim,
    /// The rim's size differs from the bin's.
    RimSize { rim: [u32; 2], bin: [u32; 2] },
    /// The set names a rim, but the bin has no swappable rim.
    UnexpectedRim,
    /// The bin has a swappable label, but the set names no label.
    MissingLabel,
    /// The label's prototype bin has another label interface than the bin.
    IncompatibleLabel { expected: EffectiveLabelInterface, received: EffectiveLabelInterface },
    /// The set names a label, but the bin has no swappable label.
    UnexpectedLabel,
}

/// What a bin set's bin offers to the other parts.
#[derive(Debug, Clone, Copy, PartialEq, Eq)]
pub struct SetBin {
    pub size: [u32; 2],
    pub swappable_rim: bool,
    pub swappable_label: bool,
}

/// A swappable label named by a bin set, with the label interface of the
/// set's bin and that of the label's prototype bin.
#[derive(Debug, Clone)]
pub struct LabelCheck {
    pub label: SwappableLabelFileConfig,
    pub expected: EffectiveLabelInterface,
    pub received: EffectiveLabelInterface,
}

/// Two label interfaces are the same.
pub open spec fn same_interface(a: EffectiveLabelInterface, b: EffectiveLabelInterface) -> bool {
    &&& a.size_x == b.size_x
    &&& a.depth_micrometers == b.depth_micrometers
    &&& a.boundaries_ppb@ == b.boundaries_ppb@
    &&& strings_view(a.canonical_columns@) == strings_view(b.canonical_columns@)
}

pub open spec fn header_problem(file: SetFile, kind: ConfigKind, expected: ConfigKind, version: u32) -> Option<
    (SetFile, bool, u32),
> {
    if kind != expected {
        Some((file, true, version))
    } else if version != COMPONENT_CONFIG_VERSION {
        Some((file, false, version))
    } else {
        None
    }
}

/// The base stage of a bin set: the parts so far, or the first problem of
/// the base.
pub open spec fn base_outcome(set: BinSetFileConfig, bin: SetBin, base: Option<BaseFileConfig>) -> Result<
    Seq<Seq<char>>,
    SetError,
> {
    match base {
    Some(b) => match header_problem(SetFile::Base, b.kind, ConfigKind::Base, b.version) {
        Some(h) => Err(SetError::Header { file: h.0, wrong_kind: h.1, version: h.2 }),
        None => if b.size[0] != bin.size[0] || b.size[1] != bin.size[1] {
            Err(SetError::BaseSize { base: b.size, bin: bin.size })
        } else if set.connector_pin {
            if !b.magnets.enabled || !b.magnets.connector_cutouts {
                Err(SetError::PinWithoutMagnets)
            } else {
                Ok(seq!["Bin"@, "Base"@, "ConnectorPin"@])
            }
        } else {
            Ok(seq!["Bin"@, "Base"@])
        },
    },
    None => if set.connector_pin {
        Err(SetError::PinWithoutBase)
    } else {
        Ok(seq!["Bin"@])
    },
    }
}

/// The rim stage of a bin set after the parts so far.
pub open spec fn rim_outcome(
    set: BinSetFileConfig,
    bin: SetBin,
    rim: Option<RimFileConfig>,
    parts: Seq<Seq<char>>,
) -> Result<Seq<Seq<char>>, SetError> {
    if bin.swappable_rim {
        match rim {
            None => Err(SetError::MissingRim),
            Some(r) => match header_problem(SetFile::Rim, r.kind, ConfigKind::Rim, r.version) {
                Some(h) => Err(SetError::Header { file: h.0, wrong_kind: h.1, version: h.2 }),
                None => if r.size[0] != bin.size[0] || r.size[1] != bin.size[1] {
                    Err(SetError::RimSize { rim: r.size, bin: bin.size })
                } else {
                    Ok(parts.push("SwappableRim"@))
                },
            },
        }
    } else if set.rim is Some {
        Err(SetError::UnexpectedRim)
    } else {
        Ok(parts)
    }
}

/// The swappable-label stage of a bin set after the parts so far.
pub open spec fn label_outcome(
    set: BinSetFileConfig,
    bin: SetBin,
    label: Option<LabelCheck>,
    parts: Seq<Seq<char>>,
) -> Result<Seq<Seq<char>>, SetError> {
    if bin.swappable_label {
        match label {
            None => Err(SetError::MissingLabel),
            Some(l) => match header_problem(
                SetFile::SwappableLabel,
                l.label.kind,
                ConfigKind::SwappableLabel,
                l.label.version,
            ) {
                Some(h) => Err(SetError::Header { file: h.0, wrong_kind: h.1, version: h.2 }),
                None => if !same_interface(l.received, l.expected) {
                    Err(SetError::IncompatibleLabel { expected: l.expected, received: l.received })
                } else {
                    Ok(parts.push("SwappableLabel"@))
                },
            },
        }
    } else if set.swappable_label is Some {
        Err(SetError::UnexpectedLabel)
    } else {
        Ok(parts)
    }
}

/// The outcome of the base, rim and label stages of a bin set: the named
/// parts in order, or the first problem.
pub open spec fn bin_set_outcome(
    set: BinSetFileConfig,
    bin: SetBin,
    base: Option<BaseFileConfig>,
    rim: Option<RimFileConfig>,
    label: Option<LabelCheck>,
) -> Result<Seq<Seq<char>>, SetError> {
    match base_outcome(set, bin, base) {
        Err(e) => Err(e),
        Ok(parts) => match rim_outcome(set, bin, rim, parts) {
            Err(e) => Err(e),
            Ok(parts) => label_outcome(set, bin, label, parts),
        },
    }
}

fn header_check(file: SetFile, kind: ConfigKind, expected: ConfigKind, version: u32) -> (r: Result<
    (),
    SetError,
>)
    ensures
        match header_problem(file, kind, expected, version) {
            Some(h) => r == Err::<(), SetError>(SetError::Header { file: h.0, wrong_kind: h.1, version: h.2 }),
            None => r is Ok,
        },
{
    if kind != expected {
        return Err(SetError::Header { file, wrong_kind: true, version });
    }
    if version != COMPONENT_CONFIG_VERSION {
        return Err(SetError::Header { file, wrong_kind: false, version });
    }
    Ok(())
}

fn same_strings(a: &Vec<String>, b: &Vec<String>) -> (r: bool)
    ensures
        r == (strings_view(a@) == strings_view(b@)),
{
    if a.len() != b.len() {
        assert(strings_view(a@).len() != strings_view(b@).len());
        return false;
    }
    let mut i: usize = 0;
    while i < a.len()
        invariant
            i <= a.len() == b.len(),
            forall|k: int| 0 <= k < i ==> a@[k]@ == b@[k]@,
        decreases a.len() - i,
    {
        if a[i] != b[i] {
            assert(strings_view(a@)[i as int] != strings_view(b@)[i as int]);
            return false;
        }
        i = i + 1;
    }
    assert(strings_view(a@) =~= strings_view(b@));
    true
}

fn same_numbers(a: &Vec<u32>, b: &Vec<u32>) -> (r: bool)
    ensures
        r == (a@ == b@),
{
    if a.len() != b.len() {
        return false;
    }
    let mut i: usize = 0;
    while i < a.len()
        invariant
            i <= a.len() == b.len(),
            forall|k: int| 0 <= k < i ==> a@[k] == b@[k],
        decreases a.len() - i,
    {
        if a[i] != b[i] {
            return false;
        }
        i = i + 1;
    }
    assert(a@ =~= b@);
    true
}

/// Whether two label interfaces are the same.
pub fn interfaces_match(a: &EffectiveLabelInterface, b: &EffectiveLabelInterface) -> (r: bool)
    ensures
        r == same_interface(*a, *b),
{
    a.size_x == b.size_x && a.depth_micrometers == b.depth_micrometers && same_numbers(
        &a.boundaries_ppb,
        &b.boundaries_ppb,
    ) && same_strings(&a.canonical_columns, &b.canonical_columns)
}

fn push_name(parts: &mut Vec<String>, name: &str)
    ensures
        strings_view(final(parts)@) == strings_view(old(parts)@).push(name@),
{
    parts.push(name.to_owned());
    assert(strings_view(final(parts)@) =~= strings_view(old(parts)@).push(name@));
}

/// The parts of a bin set, in order, after checking that its base, rim and
/// swappable label fit its bin: a base of the bin's size (magnetic with
/// connector cutouts when the set adds a connector pin), a rim of the bin's
/// size exactly when the bin has a swappable rim, and a label whose
/// prototype bin has the bin's label interface exactly when the bin has a
/// swappable label. Each referenced file that the set needs is given loaded.
pub fn bin_set_parts(
    set: &BinSetFileConfig,
    bin: SetBin,
    base: Option<BaseFileConfig>,
    rim: Option<RimFileConfig>,
    label: Option<LabelCheck>,
) -> (r: Result<Vec<String>, SetError>)
    requires
        base is Some == set.base is Some,
        rim is Some == (bin.swappable_rim && set.rim is Some),
        label is Some == (bin.swappable_label && set.swappable_label is Some),
    ensures
        match bin_set_outcome(*set, bin, base, rim, label) {
            Ok(parts) => r matches Ok(v) && strings_view(v@) == parts,
            Err(e) => r == Err::<Vec<String>, SetError>(e),
        },
{
    let parts = base_parts(set, bin, base)?;
    let parts = rim_parts(set, bin, rim, parts)?;
    label_parts(set, bin, label, parts)
}

/// The base stage of a bin set: the parts so far (`Bin`, `Base` and
/// `ConnectorPin` as the set has them), or the first problem of the base.
/// The base is given loaded exactly when the set references one.
pub fn base_parts(set: &BinSetFileConfig, bin: SetBin, base: Option<BaseFileConfig>) -> (r: Result<
    Vec<String>,
    SetError,
>)
    requires
        base is Some == set.base is Some,
    ensures
        match base_outcome(*set, bin, base) {
            Ok(parts) => r matches Ok(v) && strings_view(v@) == parts,
            Err(e) => r == Err::<Vec<String>, SetError>(e),
        },
{
    let mut parts: Vec<String> = Vec::new();
    push_name(&mut parts, "Bin");
    match &base {
        Some(b) => {
            header_check(SetFile::Base, b.kind, ConfigKind::Base, b.version)?;
            if b.size[0] != bin.size[0] || b.size[1] != bin.size[1] {
                return Err(SetError::BaseSize { base: b.size, bin: bin.size });
            }
            push_name(&mut parts, "Base");
            if set.connector_pin {
                if !b.magnets.enabled || !b.magnets.connector_cutouts {
                    return Err(SetError::PinWithoutMagnets);
                }
                push_name(&mut parts, "ConnectorPin");
            }
        },
        None => {
            if set.connector_pin {
                return Err(SetError::PinWithoutBase);
            }
        },
    }
    Ok(parts)
}

/// The rim stage of a bin set after the parts so far: `SwappableRim` is
/// added, or the first problem of the rim. The rim is given loaded exactly
/// when the bin has a swappable rim and the set references one.
pub fn rim_parts(set: &BinSetFileConfig, bin: SetBin, rim: Option<RimFileConfig>, parts: Vec<String>) -> (r:
    Result<Vec<String>, SetError>)
    requires
        rim is Some == (bin.swappable_rim && set.rim is Some),
    ensures
        match rim_outcome(*set, bin, rim, strings_view(parts@)) {
            Ok(all) => r matches Ok(v) && strings_view(v@) == all,
            Err(e) => r == Err::<Vec<String>, SetError>(e),
        },
{
    let mut parts = parts;
    if bin.swappable_rim {
        match &rim {
            None => {
                return Err(SetError::MissingRim);
            },
            Some(r) => {
                header_check(SetFile::Rim, r.kind, ConfigKind::Rim, r.version)?;
                if r.size[0] != bin.size[0] || r.size[1] != bin.size[1] {
                    return Err(SetError::RimSize { rim: r.size, bin: bin.size });
                }
                push_name(&mut parts, "SwappableRim");
            },
        }
    } else if set.rim.is_some() {
        return Err(SetError::UnexpectedRim);
    }
    Ok(parts)
}

/// The swappable-label stage of a bin set after the parts so far:
/// `SwappableLabel` is added, or the first problem of the label. The label
/// check is given exactly when the bin has a swappable label and the set
/// references one.
pub fn label_parts(
    set: &BinSetFileConfig,
    bin: SetBin,
    label: Option<LabelCheck>,
    parts: Vec<String>,
) -> (r: Result<Vec<String>, SetError>)
    requires
        label is Some == (bin.swappable_label && set.swappable_label is Some),
    ensures
        match label_outcome(*set, bin, label, strings_view(parts@)) {
            Ok(all) => r matches Ok(v) && strings_view(v@) == all,
            Err(e) => r == Err::<Vec<String>, SetError>(e),
        },
{
    let mut parts = parts;
    if bin.swappable_label {
        match label {
            None => {
                return Err(SetError::MissingLabel);
            },
            Some(l) => {
                header_check(
                    SetFile::SwappableLabel,
                    l.label.kind,
                    ConfigKind::SwappableLabel,
                    l.label.version,
                )?;
                if !interfaces_match(&l.received, &l.expected) {
                    return Err(SetError::IncompatibleLabel { expected: l.expected, received: l.received });
                }
                push_name(&mut parts, "SwappableLabel");
            },
        }
    } else if set.swappable_label.is_some() {
        return Err(SetError::UnexpectedLabel);
    }
    Ok(parts)
}

} // verus!
