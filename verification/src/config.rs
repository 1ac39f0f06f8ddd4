//! Label configuration: the model of a label TOML, how icon references
//! resolve, and the checks of a label that need no asset file.
use vstd::prelude::*;
use crate::color::{ColorError, ColorMapping, overrides_applied, pairs_view, parse_u32, parsed_u32};
use crate::hexcolor::normalized_hex;
use crate::listing::{keys_in_order, ordered_keys};
pub use crate::hexcolor::normalize_hex_color;
use crate::strings::{debug_quoted, debug_text, decimal_digits, decimal_string, ends_with, has_prefix, has_suffix, push_char, push_str, starts_with};
use crate::text::{TextError, parse_colored_text, text_runs};

verus! {

/// The label TOML schema version this library reads.
pub const LABEL_CONFIG_VERSION: u32 = 1;

/// The `kind` of a configuration file.
#[derive(Debug, Clone, Copy, PartialEq, Eq, Structural)]
pub enum ConfigKind {
    Label,
    LabelPlate,
    Bin,
    Base,
    Rim,
    SwappableLabel,
    BinSet,
}

/// The content of one template text field.
#[derive(Debug, Clone)]
pub struct TextValue {
    pub content: String,
}

/// A locally named, reusable icon.
#[derive(Debug, Clone)]
pub struct IconDefinition {
    pub src: String,
    /// Keys are either resolved filament indices or exact source hex colors.
    pub colors: Vec<(String, u32)>,
}

/// One entry of an icon box: an icon reference or a spacer length.
#[derive(Debug, Clone)]
pub enum IconPlacement {
    Icon { icon: String },
    Spacer { spacer: String },
}

/// A label TOML; each table is a list of entries, which `wf` asks to hold
/// each key once, in increasing order.
#[derive(Debug, Clone)]
pub struct LabelConfig {
    pub kind: Option<ConfigKind>,
    pub version: Option<u32>,
    pub template: String,
    /// Filament used for the blank prototype body.
    pub filament: u32,
    pub text: Vec<(String, TextValue)>,
    /// Locally named, reusable icon configurations.
    pub icon: Vec<(String, IconDefinition)>,
    /// Ordered contents of each `icons-*` template box, keyed without the prefix.
    pub icons: Vec<(String, Vec<IconPlacement>)>,
}

impl LabelConfig {
    /// The tables of a label hold each key once, in increasing order, as the
    /// TOML's maps do.
    pub open spec fn wf(&self) -> bool {
        &&& ordered_keys(self.text@)
        &&& ordered_keys(self.icon@)
        &&& ordered_keys(self.icons@)
        &&& forall|i: int|
            0 <= i < self.icon@.len() ==> ordered_keys(#[trigger] self.icon@[i].1.colors@)
    }

    /// Whether the tables hold each key once, in increasing order.
    pub fn is_wf(&self) -> (r: bool)
        ensures
            r == self.wf(),
    {
        if !keys_in_order(&self.text) || !keys_in_order(&self.icon) || !keys_in_order(&self.icons) {
            return false;
        }
        let mut i: usize = 0;
        while i < self.icon.len()
            invariant
                i <= self.icon.len(),
                forall|k: int| 0 <= k < i ==> ordered_keys(#[trigger] self.icon@[k].1.colors@),
            decreases self.icon.len() - i,
        {
            if !keys_in_order(&self.icon[i].1.colors) {
                return false;
            }
            i = i + 1;
        }
        true
    }
}

/// A label configuration together with where it was read from.
#[derive(Debug)]
pub struct LoadedLabel {
    pub path: String,
    pub base_dir: String,
    pub config: LabelConfig,
}

/// An icon reference resolved to a file, with the alias it came through.
pub struct ResolvedIcon<'a> {
    pub path: String,
    pub definition: Option<&'a IconDefinition>,
    pub source: Ghost<Seq<char>>,
}

impl<'a> ResolvedIcon<'a> {
    /// The alias definition the icon was resolved through, if any.
    pub open spec fn definition(&self) -> Option<IconDefinition> {
        match self.definition {
            Some(d) => Some(*d),
            None => None,
        }
    }

    /// The reference or alias source that `path` was resolved from.
    pub open spec fn source(&self) -> Seq<char> {
        self.source@
    }
}

/// Why a label configuration was rejected.
#[derive(Debug, Clone, PartialEq, Eq)]
pub enum LabelError {
    UnsupportedVersion { version: u32 },
    InvalidText { field: String, error: TextError },
    InvalidOverrideKey { alias: String, key: String },
    RepeatedOverride { alias: String, color: String },
    PrefixedIconBox { name: String },
    UnknownIcon { icon: String, icon_box: String },
    UnknownAlias { reference: String },
    UnknownTextField { field: String },
    UnknownIconBox { name: String },
}

/// The mathematical content of a [`LabelError`].
pub enum LabelFault {
    UnsupportedVersion(u32),
    InvalidText(Seq<char>, TextError),
    InvalidOverrideKey(Seq<char>, Seq<char>),
    RepeatedOverride(Seq<char>, Seq<char>),
    PrefixedIconBox(Seq<char>),
    UnknownIcon(Seq<char>, Seq<char>),
    UnknownAlias(Seq<char>),
    UnknownTextField(Seq<char>),
    UnknownIconBox(Seq<char>),
}

impl LabelError {
    pub open spec fn view(&self) -> LabelFault {
        match self {
            LabelError::UnsupportedVersion { version } => LabelFault::UnsupportedVersion(*version),
            LabelError::InvalidText { field, error } => LabelFault::InvalidText(field@, *error),
            LabelError::InvalidOverrideKey { alias, key } => LabelFault::InvalidOverrideKey(
                alias@,
                key@,
            ),
            LabelError::RepeatedOverride { alias, color } => LabelFault::RepeatedOverride(
                alias@,
                color@,
            ),
            LabelError::PrefixedIconBox { name } => LabelFault::PrefixedIconBox(name@),
            LabelError::UnknownIcon { icon, icon_box } => LabelFault::UnknownIcon(icon@, icon_box@),
            LabelError::UnknownAlias { reference } => LabelFault::UnknownAlias(reference@),
            LabelError::UnknownTextField { field } => LabelFault::UnknownTextField(field@),
            LabelError::UnknownIconBox { name } => LabelFault::UnknownIconBox(name@),
        }
    }
}

/// The index of the first entry whose key is `key`.
pub open spec fn key_index<V>(pairs: Seq<(String, V)>, key: Seq<char>) -> Option<int>
    decreases pairs.len(),
{
    if pairs.len() == 0 {
        None
    } else if pairs[0].0@ == key {
        Some(0)
    } else {
        match key_index(pairs.drop_first(), key) {
            Some(i) => Some(i + 1),
            None => None,
        }
    }
}

pub proof fn lemma_key_index_range<V>(pairs: Seq<(String, V)>, key: Seq<char>)
    ensures
        key_index(pairs, key) matches Some(i) ==> 0 <= i < pairs.len() && pairs[i].0@ == key,
    decreases pairs.len(),
{
    if pairs.len() > 0 && pairs[0].0@ != key {
        lemma_key_index_range(pairs.drop_first(), key);
    }
}

/// Whether an icon reference names an SVG file or a declared alias.
pub open spec fn resolvable(config: LabelConfig, reference: Seq<char>) -> bool {
    has_suffix(reference, ".svg"@) || key_index(config.icon@, reference) is Some
}

/// The first text field whose colored markup is invalid.
pub open spec fn text_fault(text: Seq<(String, TextValue)>) -> Option<LabelFault>
    decreases text.len(),
{
    if text.len() == 0 {
        None
    } else {
        match text_runs(text[0].1.content@) {
            Err(e) => Some(LabelFault::InvalidText(text[0].0@, e)),
            Ok(_) => text_fault(text.drop_first()),
        }
    }
}

/// The key an override stands for: its normalized hex color, or itself.
pub open spec fn override_canonical(key: Seq<char>) -> Seq<char> {
    match normalized_hex(key) {
        Some(color) => color,
        None => key,
    }
}

/// Whether one of the first `n` keys stands for `canonical`.
pub open spec fn canonical_seen(keys: Seq<(String, u32)>, n: int, canonical: Seq<char>) -> bool {
    exists|j: int| 0 <= j < n && override_canonical(#[trigger] keys[j].0@) == canonical
}

/// The first invalid or repeated override key of an icon alias.
pub open spec fn override_key_fault(alias: Seq<char>, colors: Seq<(String, u32)>) -> Option<
    LabelFault,
>
    decreases colors.len(),
{
    if colors.len() == 0 {
        None
    } else {
        match override_key_fault(alias, colors.drop_last()) {
            Some(f) => Some(f),
            None => {
                let key = colors.last().0@;
                if parsed_u32(key) is None && normalized_hex(key) is None {
                    Some(LabelFault::InvalidOverrideKey(alias, key))
                } else if canonical_seen(colors, colors.len() - 1, override_canonical(key)) {
                    Some(LabelFault::RepeatedOverride(alias, override_canonical(key)))
                } else {
                    None
                }
            },
        }
    }
}

/// The first icon alias with an invalid override key.
pub open spec fn alias_fault(icons: Seq<(String, IconDefinition)>) -> Option<LabelFault>
    decreases icons.len(),
{
    if icons.len() == 0 {
        None
    } else {
        match override_key_fault(icons[0].0@, icons[0].1.colors@) {
            Some(f) => Some(f),
            None => alias_fault(icons.drop_first()),
        }
    }
}

/// The first icon of a box whose reference does not resolve.
pub open spec fn entry_fault(config: LabelConfig, icon_box: Seq<char>, entries: Seq<IconPlacement>) -> Option<
    LabelFault,
>
    decreases entries.len(),
{
    if entries.len() == 0 {
        None
    } else {
        match entries[0] {
            IconPlacement::Icon { icon } => if resolvable(config, icon@) {
                entry_fault(config, icon_box, entries.drop_first())
            } else {
                Some(LabelFault::UnknownIcon(icon@, icon_box))
            },
            IconPlacement::Spacer { .. } => entry_fault(config, icon_box, entries.drop_first()),
        }
    }
}

/// The first icon box that keeps the template prefix or holds an unknown icon.
pub open spec fn box_fault(config: LabelConfig, boxes: Seq<(String, Vec<IconPlacement>)>) -> Option<
    LabelFault,
>
    decreases boxes.len(),
{
    if boxes.len() == 0 {
        None
    } else if has_prefix(boxes[0].0@, "icons-"@) {
        Some(LabelFault::PrefixedIconBox(boxes[0].0@))
    } else {
        match entry_fault(config, boxes[0].0@, boxes[0].1@) {
            Some(f) => Some(f),
            None => box_fault(config, boxes.drop_first()),
        }
    }
}

/// The first problem of a label configuration that shows without its assets.
pub open spec fn label_fault(config: LabelConfig) -> Option<LabelFault> {
    match config.version {
        Some(v) if v != LABEL_CONFIG_VERSION => Some(LabelFault::UnsupportedVersion(v)),
        _ => match text_fault(config.text@) {
            Some(f) => Some(f),
            None => match alias_fault(config.icon@) {
                Some(f) => Some(f),
                None => box_fault(config, config.icons@),
            },
        },
    }
}

/// Whether `name` is a single plain path component on every platform: no
/// separator (`/` or `\\`), no drive colon, and neither `.` nor `..`.
pub open spec fn plain_name(name: Seq<char>) -> bool {
    &&& forall|i: int| 0 <= i < name.len() ==> #[trigger] name[i] != '/' && name[i] != '\\'
        && name[i] != ':'
    &&& name != seq!['.']
    &&& name != seq!['.', '.']
}

/// What follows the last `/` or `\\` of a path: all of it where there is
/// none.
pub open spec fn last_component(path: Seq<char>) -> Seq<char>
    decreases path.len(),
{
    if path.len() == 0 {
        path
    } else if path.last() == '/' || path.last() == '\\' {
        Seq::empty()
    } else {
        last_component(path.drop_last()).push(path.last())
    }
}

/// Whether a resolved path `r` ends with the file name that `path` ends
/// with, where that name is a plain one.
pub open spec fn keeps_file_name(r: Seq<char>, path: Seq<char>) -> bool {
    plain_name(last_component(path)) ==> has_suffix(r, last_component(path))
}

/// A path ends with its last component.
pub proof fn lemma_path_ends_with_last_component(path: Seq<char>)
    ensures
        has_suffix(path, last_component(path)),
    decreases path.len(),
{
    if path.len() > 0 && path.last() != '/' && path.last() != '\\' {
        let rest = path.drop_last();
        lemma_path_ends_with_last_component(rest);
        let l = last_component(rest);
        assert(last_component(path) == l.push(path.last()));
        assert(rest.skip(rest.len() - l.len()) == l);
        assert(path.skip(path.len() - l.len() - 1) =~= rest.skip(rest.len() - l.len()).push(
            path.last(),
        ));
    } else if path.len() > 0 {
        assert(last_component(path) == Seq::<char>::empty());
        assert(path.skip(path.len() as int) =~= Seq::<char>::empty());
    } else {
        assert(path.skip(0) =~= path);
    }
}

/// Whether the path `r` is `name` adjoined below the directory `base`: it
/// ends with `name`, and a non-empty `base` leaves something before it.
pub open spec fn adjoined(r: Seq<char>, base: Seq<char>, name: Seq<char>) -> bool {
    has_suffix(r, name) && (base.len() > 0 ==> r.len() > name.len())
}

/// `std::path::Path::is_absolute`: whether a path does not depend on the
/// current directory. The answer follows the platform's path syntax; what
/// holds on every platform is that a plain name has neither a root nor a
/// prefix, so it is not absolute.
#[verifier::external_body]
pub(crate) fn is_absolute_path(path: &str) -> (r: bool)
    ensures
        plain_name(path@) ==> !r,
{
    std::path::Path::new(path).is_absolute()
}

/// `std::path::Path::join`, read back as text: `path` adjoined to `base` by
/// the platform's path syntax. Stated is what holds on every platform: a
/// plain name extends `base`, and the result ends with the plain file name
/// that `path` ends with, for an absolute path replaces `base` and below a
/// Windows verbatim base (`\\?\`) only `.` and `..` are taken out. Nothing
/// more is stated of other paths: a rooted or prefixed path replaces part of
/// `base`, and the verbatim normalization rewrites separators.
#[verifier::external_body]
pub(crate) fn join_path(base: &str, path: &str) -> (r: String)
    ensures
        plain_name(path@) ==> adjoined(r@, base@, path@),
        keeps_file_name(r@, path@),
{
    std::path::Path::new(base).join(path).to_string_lossy().into_owned()
}

impl LoadedLabel {
    /// A label built in memory, resolving relative paths from `base_dir`; its
    /// own path is a placeholder name in that directory.
    pub fn from_config(config: LabelConfig, base_dir: String) -> (r: Self)
        ensures
            r.config == config,
            r.base_dir == base_dir,
            adjoined(r.path@, base_dir@, "<create>"@),
    {
        proof {
            reveal_strlit("<create>");
        }
        let path = join_path(base_dir.as_str(), "<create>");
        LoadedLabel { path, base_dir, config }
    }

    /// The path of a file that the label names: absolute paths stay, others
    /// are taken relative to the label's directory. Which paths are absolute
    /// and how they are joined follows the platform's path syntax; a plain
    /// name always lands below the label's directory.
    fn resolve_path(&self, value: &str) -> (r: String)
        ensures
            plain_name(value@) ==> adjoined(r@, self.base_dir@, value@),
            keeps_file_name(r@, value@),
    {
        if is_absolute_path(value) {
            proof {
                lemma_path_ends_with_last_component(value@);
            }
            value.to_owned()
        } else {
            join_path(self.base_dir.as_str(), value)
        }
    }

    /// The path of the label's template; a plain file name lands in the
    /// label's directory.
    pub fn template_path(&self) -> (r: String)
        ensures
            plain_name(self.config.template@) ==> adjoined(r@, self.base_dir@, self.config.template@),
            keeps_file_name(r@, self.config.template@),
    {
        self.resolve_path(self.config.template.as_str())
    }

    /// The path of an icon alias's SVG; a plain file name lands in the
    /// label's directory.
    pub fn icon_path(&self, icon: &IconDefinition) -> (r: String)
        ensures
            plain_name(icon.src@) ==> adjoined(r@, self.base_dir@, icon.src@),
            keeps_file_name(r@, icon.src@),
    {
        self.resolve_path(icon.src.as_str())
    }

    /// A reference ending in `.svg` is absolute or relative to the label file.
    /// All other references resolve through `[icon.NAME]` declarations.
    pub fn resolve_icon(&self, reference: &str) -> (r: Result<ResolvedIcon<'_>, LabelError>)
        requires
            ordered_keys(self.config.icon@),
        ensures
            has_suffix(reference@, ".svg"@) ==> (r matches Ok(icon) && icon.definition() is None
                && icon.source() == reference@),
            !has_suffix(reference@, ".svg"@) ==> match key_index(self.config.icon@, reference@) {
                Some(i) => r matches Ok(icon) && icon.definition() == Some(self.config.icon@[i].1)
                    && icon.source() == self.config.icon@[i].1.src@,
                None => r matches Err(e) && e.view() == LabelFault::UnknownAlias(reference@),
            },
            r matches Ok(icon) ==> (plain_name(icon.source()) ==> adjoined(
                icon.path@,
                self.base_dir@,
                icon.source(),
            )),
            r matches Ok(icon) ==> keeps_file_name(icon.path@, icon.source()),
    {
        if ends_with(reference, ".svg") {
            return Ok(
                ResolvedIcon {
                    path: self.resolve_path(reference),
                    definition: None,
                    source: Ghost(reference@),
                },
            );
        }
        match find_alias(&self.config.icon, reference) {
            Some(i) => {
                proof {
                    lemma_key_index_range(self.config.icon@, reference@);
                }
                let definition = &self.config.icon[i].1;
                assert(*definition == self.config.icon@[i as int].1);
                let icon = ResolvedIcon {
                    path: self.icon_path(definition),
                    definition: Some(definition),
                    source: Ghost(definition.src@),
                };
                Ok(icon)
            },
            None => {
                Err(LabelError::UnknownAlias { reference: reference.to_owned() })
            },
        }
    }

    /// The checks of the configuration alone, without the template: schema
    /// version, colored text markup, icon override keys, and icon boxes and
    /// their references. `validate` adds the template's names.
    pub fn check_config(&self) -> (r: Result<(), LabelError>)
        requires
            self.config.wf(),
        ensures
            match label_fault(self.config) {
                Some(f) => r matches Err(e) && e.view() == f,
                None => r is Ok,
            },
    {
        if let Some(version) = self.config.version {
            if version != LABEL_CONFIG_VERSION {
                return Err(LabelError::UnsupportedVersion { version });
            }
        }
        check_text(&self.config.text)?;
        check_aliases(&self.config.icon)?;
        self.check_boxes()
    }

    fn check_boxes(&self) -> (r: Result<(), LabelError>)
        ensures
            match box_fault(self.config, self.config.icons@) {
                Some(f) => r matches Err(e) && e.view() == f,
                None => r is Ok,
            },
    {
        let boxes = &self.config.icons;
        let mut i: usize = 0;
        assert(boxes@.skip(0) =~= boxes@);
        while i < boxes.len()
            invariant
                i <= boxes.len(),
                boxes == &self.config.icons,
                box_fault(self.config, boxes@) == box_fault(self.config, boxes@.skip(i as int)),
            decreases boxes.len() - i,
        {
            assert(boxes@.skip(i as int).drop_first() =~= boxes@.skip(i + 1));
            assert(boxes@.skip(i as int)[0] == boxes@[i as int]);
            let name = &boxes[i].0;
            if starts_with(name.as_str(), "icons-") {
                return Err(LabelError::PrefixedIconBox { name: name.clone() });
            }
            let entries = &boxes[i].1;
            let mut k: usize = 0;
            assert(entries@.skip(0) =~= entries@);
            while k < entries.len()
                invariant
                    k <= entries.len(),
                    i < boxes.len(),
                    boxes == &self.config.icons,
                    name@ == boxes@[i as int].0@,
                    !has_prefix(name@, "icons-"@),
                    box_fault(self.config, boxes@) == box_fault(self.config, boxes@.skip(i as int)),
                    entries@ == boxes@[i as int].1@,
                    entry_fault(self.config, name@, entries@) == entry_fault(
                        self.config,
                        name@,
                        entries@.skip(k as int),
                    ),
                decreases entries.len() - k,
            {
                assert(entries@.skip(k as int).drop_first() =~= entries@.skip(k + 1));
                assert(entries@.skip(k as int)[0] == entries@[k as int]);
                match &entries[k] {
                    IconPlacement::Icon { icon } => {
                        let found = ends_with(icon.as_str(), ".svg") || find_alias(
                            &self.config.icon,
                            icon.as_str(),
                        ).is_some();
                        if !found {
                            return Err(
                                LabelError::UnknownIcon { icon: icon.clone(), icon_box: name.clone() },
                            );
                        }
                    },
                    IconPlacement::Spacer { .. } => {},
                }
                k = k + 1;
            }
            i = i + 1;
        }
        Ok(())
    }

    /// The version check, which comes before anything is read.
    pub fn check_version(&self) -> (r: Result<(), LabelError>)
        ensures
            match self.config.version {
                Some(v) if v != LABEL_CONFIG_VERSION => r matches Err(e) && e.view()
                    == LabelFault::UnsupportedVersion(v),
                _ => r is Ok,
            },
    {
        if let Some(version) = self.config.version {
            if version != LABEL_CONFIG_VERSION {
                return Err(LabelError::UnsupportedVersion { version });
            }
        }
        Ok(())
    }

    /// Every check of the configuration against the template's text fields
    /// and icon boxes, in the order the label is read. The checks of files
    /// (template, icons, their colors) and of the decimal icon fit read the
    /// assets and stand around this one.
    pub fn validate(&self, text_fields: &Vec<String>, icon_boxes: &Vec<String>) -> (r:
        Result<(), LabelError>)
        requires
            self.config.wf(),
        ensures
            match label_template_fault(self.config, text_fields@, icon_boxes@) {
                Some(f) => r matches Err(e) && e.view() == f,
                None => r is Ok,
            },
    {
        self.check_version()?;
        check_fields(&self.config.text, text_fields)?;
        check_aliases(&self.config.icon)?;
        self.check_placed_boxes(icon_boxes)
    }

    /// Every text field against the template's fields, field by field: that
    /// the template has it, then its markup.
    pub fn validate_text_fields(&self, text_fields: &Vec<String>) -> (r: Result<(), LabelError>)
        requires
            ordered_keys(self.config.text@),
        ensures
            match field_fault(self.config.text@, text_fields@) {
                Some(f) => r matches Err(e) && e.view() == f,
                None => r is Ok,
            },
    {
        check_fields(&self.config.text, text_fields)
    }

    /// The name of one icon box: it must omit the `icons-` prefix, and the
    /// template must have it.
    pub fn check_box_name(&self, name: &String, icon_boxes: &Vec<String>) -> (r: Result<
        (),
        LabelError,
    >)
        ensures
            has_prefix(name@, "icons-"@) ==> (r matches Err(e) && e.view()
                == LabelFault::PrefixedIconBox(name@)),
            !has_prefix(name@, "icons-"@) && !listed(icon_boxes@, name@) ==> (r matches Err(e)
                && e.view() == LabelFault::UnknownIconBox(name@)),
            !has_prefix(name@, "icons-"@) && listed(icon_boxes@, name@) ==> r is Ok,
    {
        if starts_with(name.as_str(), "icons-") {
            return Err(LabelError::PrefixedIconBox { name: name.clone() });
        }
        if !contains_string(icon_boxes, name) {
            return Err(LabelError::UnknownIconBox { name: name.clone() });
        }
        Ok(())
    }

    fn check_placed_boxes(&self, icon_boxes: &Vec<String>) -> (r: Result<(), LabelError>)
        ensures
            match placed_box_fault(self.config, self.config.icons@, icon_boxes@) {
                Some(f) => r matches Err(e) && e.view() == f,
                None => r is Ok,
            },
    {
        let boxes = &self.config.icons;
        let mut i: usize = 0;
        assert(boxes@.skip(0) =~= boxes@);
        while i < boxes.len()
            invariant
                i <= boxes.len(),
                boxes == &self.config.icons,
                placed_box_fault(self.config, boxes@, icon_boxes@) == placed_box_fault(
                    self.config,
                    boxes@.skip(i as int),
                    icon_boxes@,
                ),
            decreases boxes.len() - i,
        {
            assert(boxes@.skip(i as int).drop_first() =~= boxes@.skip(i + 1));
            assert(boxes@.skip(i as int)[0] == boxes@[i as int]);
            let name = &boxes[i].0;
            if starts_with(name.as_str(), "icons-") {
                return Err(LabelError::PrefixedIconBox { name: name.clone() });
            }
            if !contains_string(icon_boxes, name) {
                return Err(LabelError::UnknownIconBox { name: name.clone() });
            }
            let entries = &boxes[i].1;
            let mut k: usize = 0;
            assert(entries@.skip(0) =~= entries@);
            while k < entries.len()
                invariant
                    k <= entries.len(),
                    i < boxes.len(),
                    boxes == &self.config.icons,
                    name@ == boxes@[i as int].0@,
                    !has_prefix(name@, "icons-"@),
                    listed(icon_boxes@, name@),
                    placed_box_fault(self.config, boxes@, icon_boxes@) == placed_box_fault(
                        self.config,
                        boxes@.skip(i as int),
                        icon_boxes@,
                    ),
                    entries@ == boxes@[i as int].1@,
                    entry_fault(self.config, name@, entries@) == entry_fault(
                        self.config,
                        name@,
                        entries@.skip(k as int),
                    ),
                decreases entries.len() - k,
            {
                assert(entries@.skip(k as int).drop_first() =~= entries@.skip(k + 1));
                assert(entries@.skip(k as int)[0] == entries@[k as int]);
                match &entries[k] {
                    IconPlacement::Icon { icon } => {
                        let found = ends_with(icon.as_str(), ".svg") || find_alias(
                            &self.config.icon,
                            icon.as_str(),
                        ).is_some();
                        if !found {
                            return Err(
                                LabelError::UnknownIcon { icon: icon.clone(), icon_box: name.clone() },
                            );
                        }
                    },
                    IconPlacement::Spacer { .. } => {},
                }
                k = k + 1;
            }
            i = i + 1;
        }
        Ok(())
    }

}

/// The first problem of the text fields, field by field: a field that the
/// template lacks, then markup that does not parse.
pub open spec fn field_fault(text: Seq<(String, TextValue)>, text_fields: Seq<String>) -> Option<
    LabelFault,
>
    decreases text.len(),
{
    if text.len() == 0 {
        None
    } else if !listed(text_fields, text[0].0@) {
        Some(LabelFault::UnknownTextField(text[0].0@))
    } else {
        match text_runs(text[0].1.content@) {
            Err(e) => Some(LabelFault::InvalidText(text[0].0@, e)),
            Ok(_) => field_fault(text.drop_first(), text_fields),
        }
    }
}

/// The first problem of the icon boxes, box by box: a prefixed name, a box
/// that the template lacks, then an icon that resolves to nothing.
pub open spec fn placed_box_fault(
    config: LabelConfig,
    boxes: Seq<(String, Vec<IconPlacement>)>,
    icon_boxes: Seq<String>,
) -> Option<LabelFault>
    decreases boxes.len(),
{
    if boxes.len() == 0 {
        None
    } else if has_prefix(boxes[0].0@, "icons-"@) {
        Some(LabelFault::PrefixedIconBox(boxes[0].0@))
    } else if !listed(icon_boxes, boxes[0].0@) {
        Some(LabelFault::UnknownIconBox(boxes[0].0@))
    } else {
        match entry_fault(config, boxes[0].0@, boxes[0].1@) {
            Some(f) => Some(f),
            None => placed_box_fault(config, boxes.drop_first(), icon_boxes),
        }
    }
}

/// The first problem of a label configuration against its template's text
/// fields and icon boxes, in the order the label is read: version, text
/// fields, icon aliases, icon boxes.
pub open spec fn label_template_fault(
    config: LabelConfig,
    text_fields: Seq<String>,
    icon_boxes: Seq<String>,
) -> Option<LabelFault> {
    match config.version {
        Some(v) if v != LABEL_CONFIG_VERSION => Some(LabelFault::UnsupportedVersion(v)),
        _ => match field_fault(config.text@, text_fields) {
            Some(f) => Some(f),
            None => match alias_fault(config.icon@) {
                Some(f) => Some(f),
                None => placed_box_fault(config, config.icons@, icon_boxes),
            },
        },
    }
}

/// Whether `name` is one of `names`.
pub open spec fn listed(names: Seq<String>, name: Seq<char>) -> bool {
    exists|k: int| 0 <= k < names.len() && #[trigger] names[k]@ == name
}

fn contains_string(names: &Vec<String>, name: &String) -> (r: bool)
    ensures
        r == listed(names@, name@),
{
    let mut i: usize = 0;
    while i < names.len()
        invariant
            i <= names.len(),
            forall|k: int| 0 <= k < i ==> names@[k]@ != name@,
        decreases names.len() - i,
    {
        if names[i] == *name {
            return true;
        }
        i = i + 1;
    }
    false
}

/// The index of the alias named `reference`.
fn find_alias(icons: &Vec<(String, IconDefinition)>, reference: &str) -> (r: Option<usize>)
    ensures
        r matches Some(k) ==> key_index(icons@, reference@) == Some(k as int) && k < icons@.len(),
        r is None ==> key_index(icons@, reference@) is None,
{
    proof {
        lemma_key_index_range(icons@, reference@);
    }
    let wanted = reference.to_owned();
    let mut i: usize = 0;
    assert(icons@.skip(0) =~= icons@);
    while i < icons.len()
        invariant
            i <= icons.len(),
            wanted@ == reference@,
            key_index(icons@, reference@) == match key_index(icons@.skip(i as int), reference@) {
                Some(k) => Some(k + i),
                None => None,
            },
        decreases icons.len() - i,
    {
        assert(icons@.skip(i as int).drop_first() =~= icons@.skip(i + 1));
        assert(icons@.skip(i as int)[0] == icons@[i as int]);
        if icons[i].0 == wanted {
            return Some(i);
        }
        i = i + 1;
    }
    None
}

/// Checks the colored markup of every text field.
fn check_text(text: &Vec<(String, TextValue)>) -> (r: Result<(), LabelError>)
    ensures
        match text_fault(text@) {
            Some(f) => r matches Err(e) && e.view() == f,
            None => r is Ok,
        },
{
    let mut i: usize = 0;
    assert(text@.skip(0) =~= text@);
    while i < text.len()
        invariant
            i <= text.len(),
            text_fault(text@) == text_fault(text@.skip(i as int)),
        decreases text.len() - i,
    {
        assert(text@.skip(i as int).drop_first() =~= text@.skip(i + 1));
        assert(text@.skip(i as int)[0] == text@[i as int]);
        match parse_colored_text(text[i].1.content.as_str()) {
            Err(error) => {
                return Err(LabelError::InvalidText { field: text[i].0.clone(), error });
            },
            Ok(_) => {},
        }
        i = i + 1;
    }
    Ok(())
}

/// Checks every text field: that the template has it, then its markup.
fn check_fields(text: &Vec<(String, TextValue)>, text_fields: &Vec<String>) -> (r: Result<
    (),
    LabelError,
>)
    ensures
        match field_fault(text@, text_fields@) {
            Some(f) => r matches Err(e) && e.view() == f,
            None => r is Ok,
        },
{
    let mut i: usize = 0;
    assert(text@.skip(0) =~= text@);
    while i < text.len()
        invariant
            i <= text.len(),
            field_fault(text@, text_fields@) == field_fault(text@.skip(i as int), text_fields@),
        decreases text.len() - i,
    {
        assert(text@.skip(i as int).drop_first() =~= text@.skip(i + 1));
        assert(text@.skip(i as int)[0] == text@[i as int]);
        if !contains_string(text_fields, &text[i].0) {
            return Err(LabelError::UnknownTextField { field: text[i].0.clone() });
        }
        match parse_colored_text(text[i].1.content.as_str()) {
            Err(error) => {
                return Err(LabelError::InvalidText { field: text[i].0.clone(), error });
            },
            Ok(_) => {},
        }
        i = i + 1;
    }
    Ok(())
}

/// Checks the override keys of every icon alias.
fn check_aliases(icons: &Vec<(String, IconDefinition)>) -> (r: Result<(), LabelError>)
    requires
        forall|i: int| 0 <= i < icons@.len() ==> ordered_keys(#[trigger] icons@[i].1.colors@),
    ensures
        match alias_fault(icons@) {
            Some(f) => r matches Err(e) && e.view() == f,
            None => r is Ok,
        },
{
    let mut i: usize = 0;
    assert(icons@.skip(0) =~= icons@);
    while i < icons.len()
        invariant
            i <= icons.len(),
            forall|k: int| 0 <= k < icons@.len() ==> ordered_keys(#[trigger] icons@[k].1.colors@),
            alias_fault(icons@) == alias_fault(icons@.skip(i as int)),
        decreases icons.len() - i,
    {
        assert(icons@.skip(i as int).drop_first() =~= icons@.skip(i + 1));
        assert(icons@.skip(i as int)[0] == icons@[i as int]);
        validate_color_overrides(icons[i].0.as_str(), &icons[i].1.colors)?;
        i = i + 1;
    }
    Ok(())
}

proof fn lemma_override_fault_prefix(alias: Seq<char>, colors: Seq<(String, u32)>, n: int)
    requires
        0 <= n <= colors.len(),
        override_key_fault(alias, colors.take(n)) is Some,
    ensures
        override_key_fault(alias, colors) == override_key_fault(alias, colors.take(n)),
    decreases colors.len(),
{
    if n == colors.len() {
        assert(colors.take(n) =~= colors);
    } else {
        assert(colors.drop_last().take(n) =~= colors.take(n));
        lemma_override_fault_prefix(alias, colors.drop_last(), n);
    }
}

/// Checks that every override key of an icon alias is a filament index or a
/// hex color, and that no two keys stand for the same color or index.
pub fn validate_color_overrides(name: &str, colors: &Vec<(String, u32)>) -> (r: Result<
    (),
    LabelError,
>)
    requires
        ordered_keys(colors@),
    ensures
        match override_key_fault(name@, colors@) {
            Some(f) => r matches Err(e) && e.view() == f,
            None => r is Ok,
        },
{
    let mut seen: Vec<String> = Vec::new();
    let mut i: usize = 0;
    while i < colors.len()
        invariant
            i <= colors.len(),
            seen@.len() == i,
            forall|j: int| 0 <= j < i ==> #[trigger] seen@[j]@ == override_canonical(colors@[j].0@),
            override_key_fault(name@, colors@.take(i as int)) is None,
        decreases colors.len() - i,
    {
        let ghost prefix = colors@.take(i + 1);
        assert(prefix.drop_last() =~= colors@.take(i as int));
        assert(prefix.last() == colors@[i as int]);
        let key = &colors[i].0;
        let index = parse_u32(key.as_str());
        let hex = normalize_hex_color(key.as_str());
        if index.is_none() && hex.is_none() {
            proof {
                lemma_override_fault_prefix(name@, colors@, i + 1);
            }
            return Err(LabelError::InvalidOverrideKey { alias: name.to_owned(), key: key.clone() });
        }
        let canonical = match hex {
            Some(color) => color,
            None => key.clone(),
        };
        assert(canonical@ == override_canonical(key@));
        let mut j: usize = 0;
        while j < seen.len()
            invariant
                j <= seen.len() == i,
                i < colors.len(),
                prefix == colors@.take(i + 1),
                override_key_fault(name@, colors@.take(i as int)) is None,
                key@ == colors@[i as int].0@,
                !(parsed_u32(key@) is None && normalized_hex(key@) is None),
                canonical@ == override_canonical(key@),
                prefix.drop_last() == colors@.take(i as int),
                prefix.last() == colors@[i as int],
                forall|t: int| 0 <= t < i ==> #[trigger] seen@[t]@ == override_canonical(colors@[t].0@),
                forall|t: int| 0 <= t < j ==> #[trigger] seen@[t]@ != canonical@,
            decreases seen.len() - j,
        {
            if seen[j] == canonical {
                assert(seen@[j as int]@ == override_canonical(colors@[j as int].0@));
                assert(prefix[j as int] == colors@[j as int]);
                assert(override_canonical(prefix[j as int].0@) == canonical@);
                assert(canonical_seen(prefix, prefix.len() - 1, canonical@));
                proof {
                    lemma_override_fault_prefix(name@, colors@, i + 1);
                }
                return Err(LabelError::RepeatedOverride { alias: name.to_owned(), color: canonical });
            }
            j = j + 1;
        }
        assert(!canonical_seen(prefix, prefix.len() - 1, canonical@)) by {
            if canonical_seen(prefix, prefix.len() - 1, canonical@) {
                let t = choose|t: int|
                    0 <= t < prefix.len() - 1 && override_canonical(#[trigger] prefix[t].0@)
                        == canonical@;
                assert(prefix[t] == colors@[t]);
                assert(seen@[t]@ == canonical@);
            }
        }
        seen.push(canonical);
        i = i + 1;
    }
    assert(colors@.take(colors.len() as int) =~= colors@);
    Ok(())
}

impl<'a> ResolvedIcon<'a> {
    /// The icon's color mapping: the mapping read from its SVG, with the
    /// alias's overrides applied when it came through an alias.
    pub fn color_mapping(&self, loaded: ColorMapping) -> (r: Result<ColorMapping, ColorError>)
        requires
            loaded.wf(),
            self.definition() matches Some(d) ==> ordered_keys(d.colors@),
        ensures
            match self.definition() {
                None => r == Ok::<ColorMapping, ColorError>(loaded),
                Some(d) => overrides_applied(loaded, pairs_view(d.colors@), r),
            },
    {
        match self.definition {
            Some(definition) => loaded.with_overrides(&definition.colors),
            None => Ok(loaded),
        }
    }
}

/// A name as the messages show it: as `{:?}` writes it, in double quotes
/// with escapes.
pub open spec fn quoted(s: Seq<char>) -> Seq<char> {
    debug_quoted(s)
}

fn push_quoted(m: &mut String, s: &str)
    ensures
        final(m)@ == old(m)@ + quoted(s@),
{
    let text = debug_text(s);
    push_str(m, text.as_str());
}

/// The text that reports a rejected label configuration.
pub open spec fn label_message(f: LabelFault) -> Seq<char> {
    match f {
        LabelFault::UnsupportedVersion(v) => "unsupported label TOML version "@ + decimal_digits(v as nat)
            + "; expected 1"@,
        LabelFault::InvalidText(field, _) => "invalid colored text in field "@ + quoted(field),
        LabelFault::InvalidOverrideKey(alias, key) => "icon alias "@ + quoted(alias)
            + " has invalid color override key "@ + quoted(key)
            + "; expected an index or hex color"@,
        LabelFault::RepeatedOverride(alias, color) => "icon alias "@ + quoted(alias)
            + " repeats color override "@ + quoted(color),
        LabelFault::PrefixedIconBox(name) => "icon box "@ + quoted(name)
            + " must omit the template's `icons-` prefix"@,
        LabelFault::UnknownIcon(icon, icon_box) => "invalid icon "@ + quoted(icon) + " in icon box "@
            + quoted(icon_box),
        LabelFault::UnknownAlias(reference) => "unknown icon alias "@ + quoted(reference)
            + "; use a path ending in .svg or declare [icon."@ + reference + "]"@,
        LabelFault::UnknownTextField(field) => "label config references unknown text field "@
            + quoted(field),
        LabelFault::UnknownIconBox(name) => "label config references unknown icon box "@ + quoted(
            name,
        ),
    }
}

impl LabelError {
    /// The text that reports this error.
    pub fn message(&self) -> (m: String)
        ensures
            m@ == label_message(self.view()),
    {
        let mut m = String::new();
        match self {
            LabelError::UnsupportedVersion { version } => {
                push_str(&mut m, "unsupported label TOML version ");
                let v = decimal_string(*version as u64);
                push_str(&mut m, v.as_str());
                push_str(&mut m, "; expected 1");
            },
            LabelError::InvalidText { field, .. } => {
                push_str(&mut m, "invalid colored text in field ");
                push_quoted(&mut m, field.as_str());
            },
            LabelError::InvalidOverrideKey { alias, key } => {
                push_str(&mut m, "icon alias ");
                push_quoted(&mut m, alias.as_str());
                push_str(&mut m, " has invalid color override key ");
                push_quoted(&mut m, key.as_str());
                push_str(&mut m, "; expected an index or hex color");
            },
            LabelError::RepeatedOverride { alias, color } => {
                push_str(&mut m, "icon alias ");
                push_quoted(&mut m, alias.as_str());
                push_str(&mut m, " repeats color override ");
                push_quoted(&mut m, color.as_str());
            },
            LabelError::PrefixedIconBox { name } => {
                push_str(&mut m, "icon box ");
                push_quoted(&mut m, name.as_str());
                push_str(&mut m, " must omit the template's `icons-` prefix");
            },
            LabelError::UnknownIcon { icon, icon_box } => {
                push_str(&mut m, "invalid icon ");
                push_quoted(&mut m, icon.as_str());
                push_str(&mut m, " in icon box ");
                push_quoted(&mut m, icon_box.as_str());
            },
            LabelError::UnknownAlias { reference } => {
                push_str(&mut m, "unknown icon alias ");
                push_quoted(&mut m, reference.as_str());
                push_str(&mut m, "; use a path ending in .svg or declare [icon.");
                push_str(&mut m, reference.as_str());
                push_str(&mut m, "]");
            },
            LabelError::UnknownTextField { field } => {
                push_str(&mut m, "label config references unknown text field ");
                push_quoted(&mut m, field.as_str());
            },
            LabelError::UnknownIconBox { name } => {
                push_str(&mut m, "label config references unknown icon box ");
                push_quoted(&mut m, name.as_str());
            },
        }
        m
    }
}

} // verus!
