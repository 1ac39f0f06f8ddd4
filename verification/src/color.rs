//! Source-color to filament mappings of template and icon SVGs, label-local
//! overrides, and recoloring of SVG text with preview colors.
use vstd::prelude::*;
use crate::hexcolor::{
    is_hex_digit, is_hex_digit_char, lowercase, lowercase_chars, normalize_hex_color, normalized_hex,
    trim, trim_chars,
};
use crate::palette::{PreviewPalette, hex6};
use crate::strings::{
    chars_of, debug_quoted, debug_text, decimal_digits, decimal_string, find_char, first_index, prefix_chars, push_char,
    push_str, same_chars, split_chars, split_on, string_of, suffix_chars,
};
use crate::text::{digits_value, is_digit, lemma_decimal_digits_read_back};
use crate::listing::{keys_in_order, ordered_keys};

verus! {

pub open spec fn all_digits(d: Seq<char>) -> bool {
    forall|i: int| 0 <= i < d.len() ==> is_digit(#[trigger] d[i])
}

/// `u32::from_str`: an optional `+` followed by decimal digits that fit in `u32`.
pub open spec fn parsed_u32(s: Seq<char>) -> Option<u32> {
    let d = if s.len() > 0 && s[0] == '+' {
        s.drop_first()
    } else {
        s
    };
    if d.len() > 0 && all_digits(d) && digits_value(d) <= u32::MAX {
        Some(digits_value(d) as u32)
    } else {
        None
    }
}

/// A filament index written in decimal reads back as that index.
pub proof fn lemma_decimal_index_reads_back(n: u32)
    ensures
        parsed_u32(decimal_digits(n as nat)) == Some(n),
{
    lemma_decimal_digits_read_back(n as nat);
    let d = decimal_digits(n as nat);
    assert(d[0] != '+') by {
        assert(is_digit(d[0]));
    }
    assert(all_digits(d));
}

/// Parses a filament index the way `str::parse::<u32>` does.
pub fn parse_u32(s: &str) -> (r: Option<u32>)
    ensures
        r == parsed_u32(s@),
{
    let chars = chars_of(s);
    let start: usize = if chars.len() > 0 && chars[0] == '+' { 1 } else { 0 };
    let ghost d = chars@.subrange(start as int, chars@.len() as int);
    assert(d == (if s@.len() > 0 && s@[0] == '+' { s@.drop_first() } else { s@ }));
    assert(parsed_u32(s@) == (if d.len() > 0 && all_digits(d) && digits_value(d) <= u32::MAX { Some(digits_value(d) as u32) } else { None }));
    if start == chars.len() {
        return None;
    }
    let mut i: usize = start;
    let mut acc: u64 = 0;
    let mut overflow = false;
    while i < chars.len()
        invariant
            start <= i <= chars.len(),
            parsed_u32(s@) == (if d.len() > 0 && all_digits(d) && digits_value(d) <= u32::MAX { Some(digits_value(d) as u32) } else { None }),
            d.len() > 0,
            d == chars@.subrange(start as int, chars@.len() as int),
            forall|k: int| 0 <= k < i - start ==> is_digit(#[trigger] d[k]),
            !overflow ==> acc == digits_value(d.take(i - start)) && acc <= u32::MAX,
            overflow ==> digits_value(d.take(i - start)) > u32::MAX,
        decreases chars.len() - i,
    {
        let c = chars[i];
        if !('0' <= c && c <= '9') {
            assert(d[i - start] == c);
            assert(!is_digit(d[i - start]));
            assert(!all_digits(d));
            return None;
        }
        assert(d[i - start] == c);
        assert(d.take(i - start + 1).drop_last() == d.take(i - start));
        let v = (c as u32 - 48) as u64;
        if !overflow {
            acc = acc * 10 + v;
            if acc > 0xffff_ffffu64 {
                overflow = true;
            }
        }
        i = i + 1;
    }
    assert(d.take(d.len() as int) == d);
    if overflow {
        return None;
    }
    Some(acc as u32)
}

/// Whether a mapping has an entry for source color `color`.
pub open spec fn has_color(entries: Seq<(Seq<char>, u32)>, color: Seq<char>) -> bool {
    exists|i: int| 0 <= i < entries.len() && #[trigger] entries[i].0 == color
}

/// Whether some source color of a mapping resolves to filament `index`.
pub open spec fn has_index(entries: Seq<(Seq<char>, u32)>, index: u32) -> bool {
    exists|i: int| 0 <= i < entries.len() && #[trigger] entries[i].1 == index
}

/// Why a color override is rejected.
#[derive(Debug, Clone, PartialEq, Eq)]
pub enum ColorError {
    /// The override names a hex color that the SVG does not use.
    AbsentColor { color: String },
    /// The key is neither a hex color nor a filament index.
    InvalidKey { key: String },
    /// The override names a filament index that no source color resolves to.
    AbsentIndex { index: u32 },
}

/// The mathematical content of a [`ColorError`].
pub enum ColorErrorView {
    AbsentColor(Seq<char>),
    InvalidKey(Seq<char>),
    AbsentIndex(u32),
}

impl ColorError {
    pub open spec fn view(&self) -> ColorErrorView {
        match self {
            ColorError::AbsentColor { color } => ColorErrorView::AbsentColor(color@),
            ColorError::InvalidKey { key } => ColorErrorView::InvalidKey(key@),
            ColorError::AbsentIndex { index } => ColorErrorView::AbsentIndex(*index),
        }
    }
}

/// What is wrong with one override entry, if anything.
pub open spec fn override_problem(existing: Seq<(Seq<char>, u32)>, key: Seq<char>) -> Option<
    ColorErrorView,
> {
    match normalized_hex(key) {
        Some(color) => if has_color(existing, color) {
            None
        } else {
            Some(ColorErrorView::AbsentColor(color))
        },
        None => match parsed_u32(key) {
            None => Some(ColorErrorView::InvalidKey(key)),
            Some(index) => if has_index(existing, index) {
                None
            } else {
                Some(ColorErrorView::AbsentIndex(index))
            },
        },
    }
}

/// The first problem among the overrides, in their order.
pub open spec fn first_override_problem(
    existing: Seq<(Seq<char>, u32)>,
    overrides: Seq<(Seq<char>, u32)>,
) -> Option<ColorErrorView>
    decreases overrides.len(),
{
    if overrides.len() == 0 {
        None
    } else {
        match first_override_problem(existing, overrides.drop_last()) {
            Some(e) => Some(e),
            None => override_problem(existing, overrides.last().0),
        }
    }
}

/// The target of the last override whose key is the hex color `color`.
pub open spec fn color_target(overrides: Seq<(Seq<char>, u32)>, color: Seq<char>) -> Option<u32>
    decreases overrides.len(),
{
    if overrides.len() == 0 {
        None
    } else if normalized_hex(overrides.last().0) == Some(color) {
        Some(overrides.last().1)
    } else {
        color_target(overrides.drop_last(), color)
    }
}

/// The target of the last override whose key is the filament index `index`.
pub open spec fn index_target(overrides: Seq<(Seq<char>, u32)>, index: u32) -> Option<u32>
    decreases overrides.len(),
{
    if overrides.len() == 0 {
        None
    } else if normalized_hex(overrides.last().0) is None && parsed_u32(overrides.last().0) == Some(
        index,
    ) {
        Some(overrides.last().1)
    } else {
        index_target(overrides.drop_last(), index)
    }
}

/// The filament of a source color after overrides: an exact hex key wins over
/// a key naming its resolved filament, which wins over no override.
pub open spec fn overridden(overrides: Seq<(Seq<char>, u32)>, color: Seq<char>, index: u32) -> u32 {
    match color_target(overrides, color) {
        Some(t) => t,
        None => match index_target(overrides, index) {
            Some(t) => t,
            None => index,
        },
    }
}

/// An override keyed by a source color's exact hex value decides its
/// filament, whatever overrides name its resolved filament index.
pub proof fn lemma_exact_override_wins(overrides: Seq<(Seq<char>, u32)>, color: Seq<char>, index: u32)
    requires
        color_target(overrides, color) is Some,
    ensures
        overridden(overrides, color, index) == color_target(overrides, color)->0,
{
}

/// Without any override naming it, a source color keeps its filament.
pub proof fn lemma_unnamed_color_keeps_filament(overrides: Seq<(Seq<char>, u32)>, color: Seq<char>, index: u32)
    requires
        color_target(overrides, color) is None,
        index_target(overrides, index) is None,
    ensures
        overridden(overrides, color, index) == index,
{
}

/// Entries of a string-keyed association list, by value.
pub open spec fn pairs_view(pairs: Seq<(String, u32)>) -> Seq<(Seq<char>, u32)> {
    pairs.map_values(|p: (String, u32)| (p.0@, p.1))
}

/// Which source colors of an SVG print with which filament.
#[derive(Debug, Clone, PartialEq, Eq)]
pub struct ColorMapping {
    /// Normalized source colors (six lowercase hex digits) and their filaments.
    pub source_to_filament: Vec<(String, u32)>,
    /// The sidecar file the mapping was read from, if any.
    pub sidecar: Option<String>,
}

impl ColorMapping {
    pub open spec fn entries(&self) -> Seq<(Seq<char>, u32)> {
        pairs_view(self.source_to_filament@)
    }

    /// Each source color appears once, in increasing order, as in a sorted
    /// map.
    pub open spec fn wf(&self) -> bool {
        ordered_keys(self.source_to_filament@)
    }

    /// Whether each source color appears once, in increasing order.
    pub fn is_wf(&self) -> (r: bool)
        ensures
            r == self.wf(),
    {
        keys_in_order(&self.source_to_filament)
    }
}

enum OverrideKey {
    Color(String),
    Index(u32),
}

fn find_color(existing: &Vec<(String, u32)>, color: &String) -> (b: bool)
    ensures
        b == has_color(pairs_view(existing@), color@),
{
    let mut i: usize = 0;
    while i < existing.len()
        invariant
            i <= existing.len(),
            forall|k: int| 0 <= k < i ==> existing@[k].0@ != color@,
        decreases existing.len() - i,
    {
        if existing[i].0 == *color {
            assert(pairs_view(existing@)[i as int].0 == color@);
            return true;
        }
        i = i + 1;
    }
    assert forall|k: int| 0 <= k < existing.len() implies #[trigger] pairs_view(existing@)[k].0 != color@ by {
        assert(existing@[k].0@ != color@);
    }
    false
}

fn find_index(existing: &Vec<(String, u32)>, index: u32) -> (b: bool)
    ensures
        b == has_index(pairs_view(existing@), index),
{
    let mut i: usize = 0;
    while i < existing.len()
        invariant
            i <= existing.len(),
            forall|k: int| 0 <= k < i ==> existing@[k].1 != index,
        decreases existing.len() - i,
    {
        if existing[i].1 == index {
            assert(pairs_view(existing@)[i as int].1 == index);
            return true;
        }
        i = i + 1;
    }
    assert forall|k: int| 0 <= k < existing.len() implies #[trigger] pairs_view(existing@)[k].1 != index by {
        assert(existing@[k].1 == pairs_view(existing@)[k].1);
    }
    false
}

proof fn lemma_first_problem_persists(
    existing: Seq<(Seq<char>, u32)>,
    overrides: Seq<(Seq<char>, u32)>,
    i: int,
)
    requires
        0 <= i <= overrides.len(),
        first_override_problem(existing, overrides.take(i)) is Some,
    ensures
        first_override_problem(existing, overrides) == first_override_problem(
            existing,
            overrides.take(i),
        ),
    decreases overrides.len() - i,
{
    if i < overrides.len() {
        assert(overrides.take(i + 1).drop_last() == overrides.take(i));
        lemma_first_problem_persists(existing, overrides, i + 1);
    } else {
        assert(overrides.take(i) == overrides);
    }
}

/// What each override key denotes: a normalized hex color or a filament index.
spec fn keys_match(keys: Seq<OverrideKey>, overrides: Seq<(Seq<char>, u32)>) -> bool {
    &&& keys.len() == overrides.len()
    &&& forall|k: int|
        0 <= k < keys.len() ==> match #[trigger] keys[k] {
            OverrideKey::Color(c) => normalized_hex(overrides[k].0) == Some(c@),
            OverrideKey::Index(n) => normalized_hex(overrides[k].0) is None && parsed_u32(
                overrides[k].0,
            ) == Some(n),
        }
}

fn lookup_color(keys: &Vec<OverrideKey>, overrides: &Vec<(String, u32)>, color: &String) -> (r:
    Option<u32>)
    requires
        keys_match(keys@, pairs_view(overrides@)),
    ensures
        r == color_target(pairs_view(overrides@), color@),
{
    let ghost pv = pairs_view(overrides@);
    let mut m: usize = keys.len();
    assert(pv.take(m as int) == pv);
    while m > 0
        invariant
            m <= keys.len(),
            keys_match(keys@, pv),
            pv == pairs_view(overrides@),
            color_target(pv, color@) == color_target(pv.take(m as int), color@),
        decreases m,
    {
        let ghost prefix = pv.take(m as int);
        assert(prefix.drop_last() == pv.take(m - 1));
        assert(prefix.last() == pv[m - 1]);
        let ghost kk = keys@[m - 1];
        assert(match kk {
            OverrideKey::Color(c) => normalized_hex(pv[m - 1].0) == Some(c@),
            OverrideKey::Index(n) => normalized_hex(pv[m - 1].0) is None && parsed_u32(pv[m - 1].0)
                == Some(n),
        });
        match &keys[m - 1] {
            OverrideKey::Color(c) => {
                if *c == *color {
                    return Some(overrides[m - 1].1);
                }
            },
            OverrideKey::Index(_) => {},
        }
        m = m - 1;
    }
    None
}

fn lookup_index(keys: &Vec<OverrideKey>, overrides: &Vec<(String, u32)>, index: u32) -> (r: Option<
    u32,
>)
    requires
        keys_match(keys@, pairs_view(overrides@)),
    ensures
        r == index_target(pairs_view(overrides@), index),
{
    let ghost pv = pairs_view(overrides@);
    let mut m: usize = keys.len();
    assert(pv.take(m as int) == pv);
    while m > 0
        invariant
            m <= keys.len(),
            keys_match(keys@, pv),
            pv == pairs_view(overrides@),
            index_target(pv, index) == index_target(pv.take(m as int), index),
        decreases m,
    {
        let ghost prefix = pv.take(m as int);
        assert(prefix.drop_last() == pv.take(m - 1));
        assert(prefix.last() == pv[m - 1]);
        let ghost kk = keys@[m - 1];
        assert(match kk {
            OverrideKey::Color(c) => normalized_hex(pv[m - 1].0) == Some(c@),
            OverrideKey::Index(n) => normalized_hex(pv[m - 1].0) is None && parsed_u32(pv[m - 1].0)
                == Some(n),
        });
        match &keys[m - 1] {
            OverrideKey::Color(_) => {},
            OverrideKey::Index(n) => {
                if *n == index {
                    return Some(overrides[m - 1].1);
                }
            },
        }
        m = m - 1;
    }
    None
}

/// What applying `overrides` to `mapping` gives: the first problem among
/// them, or every source color mapped to its overridden filament.
pub open spec fn overrides_applied(
    mapping: ColorMapping,
    overrides: Seq<(Seq<char>, u32)>,
    r: Result<ColorMapping, ColorError>,
) -> bool {
    match first_override_problem(mapping.entries(), overrides) {
        Some(e) => r matches Err(err) && err.view() == e,
        None => r matches Ok(m) && m.sidecar == mapping.sidecar && m.entries()
            == mapping.entries().map_values(
            |e: (Seq<char>, u32)| (e.0, overridden(overrides, e.0, e.1)),
        ),
    }
}

impl ColorMapping {
    /// Applies label-local overrides. Exact hex keys win over resolved index keys.
    pub fn with_overrides(&self, overrides: &Vec<(String, u32)>) -> (r: Result<
        ColorMapping,
        ColorError,
    >)
        requires
            self.wf(),
            ordered_keys(overrides@),
        ensures
            overrides_applied(*self, pairs_view(overrides@), r),
    {
        let ghost pv = pairs_view(overrides@);
        let ghost existing = self.entries();
        let mut keys: Vec<OverrideKey> = Vec::new();
        let mut i: usize = 0;
        while i < overrides.len()
            invariant
                i <= overrides.len(),
                pv == pairs_view(overrides@),
                existing == self.entries(),
                first_override_problem(existing, pv.take(i as int)) is None,
                keys_match(keys@, pv.take(i as int)),
            decreases overrides.len() - i,
        {
            let key = &overrides[i].0;
            assert(pv.take(i + 1).drop_last() == pv.take(i as int));
            assert(pv.take(i + 1).last().0 == key@);
            match normalize_hex_color(key.as_str()) {
                Some(color) => {
                    if !find_color(&self.source_to_filament, &color) {
                        proof {
                            lemma_first_problem_persists(existing, pv, i + 1);
                        }
                        return Err(ColorError::AbsentColor { color });
                    }
                    keys.push(OverrideKey::Color(color));
                },
                None => {
                    match parse_u32(key.as_str()) {
                        None => {
                            proof {
                                lemma_first_problem_persists(existing, pv, i + 1);
                            }
                            return Err(ColorError::InvalidKey { key: key.clone() });
                        },
                        Some(index) => {
                            if !find_index(&self.source_to_filament, index) {
                                proof {
                                    lemma_first_problem_persists(existing, pv, i + 1);
                                }
                                return Err(ColorError::AbsentIndex { index });
                            }
                            keys.push(OverrideKey::Index(index));
                        },
                    }
                },
            }
            i = i + 1;
            assert forall|k: int| 0 <= k < keys@.len() implies match #[trigger] keys@[k] {
                OverrideKey::Color(c) => normalized_hex(pv.take(i as int)[k].0) == Some(c@),
                OverrideKey::Index(n) => normalized_hex(pv.take(i as int)[k].0) is None && parsed_u32(
                    pv.take(i as int)[k].0,
                ) == Some(n),
            } by {
                if k < i - 1 {
                    assert(pv.take(i as int)[k] == pv.take(i - 1)[k]);
                }
            }
        }
        assert(pv.take(overrides.len() as int) == pv);
        let mut entries: Vec<(String, u32)> = Vec::new();
        let mut j: usize = 0;
        while j < self.source_to_filament.len()
            invariant
                j <= self.source_to_filament.len(),
                pv == pairs_view(overrides@),
                existing == self.entries(),
                keys_match(keys@, pv),
                pairs_view(entries@) == existing.take(j as int).map_values(
                    |e: (Seq<char>, u32)| (e.0, overridden(pv, e.0, e.1)),
                ),
            decreases self.source_to_filament.len() - j,
        {
            let color = &self.source_to_filament[j].0;
            let index = self.source_to_filament[j].1;
            let target = match lookup_color(&keys, overrides, color) {
                Some(t) => t,
                None => match lookup_index(&keys, overrides, index) {
                    Some(t) => t,
                    None => index,
                },
            };
            let ghost before = entries@;
            let copy = color.clone();
            entries.push((copy, target));
            assert(existing[j as int] == (color@, index));
            assert(pairs_view(entries@) == pairs_view(before).push((color@, target)));
            j = j + 1;
            assert(existing.take(j as int) == existing.take(j - 1).push(existing[j - 1]));
            assert(pairs_view(entries@) =~= existing.take(j as int).map_values(
                |e: (Seq<char>, u32)| (e.0, overridden(pv, e.0, e.1)),
            ));
        }
        assert(existing.take(existing.len() as int) == existing);
        Ok(ColorMapping { source_to_filament: entries, sidecar: self.sidecar.clone() })
    }
}

/// The filament that the first entry for `color` maps to.
pub open spec fn lookup(entries: Seq<(Seq<char>, u32)>, color: Seq<char>) -> Option<u32>
    decreases entries.len(),
{
    if entries.len() == 0 {
        None
    } else if entries[0].0 == color {
        Some(entries[0].1)
    } else {
        lookup(entries.drop_first(), color)
    }
}

/// Whether `n` hex digits follow position `start`.
pub open spec fn hex_follow(chars: Seq<char>, start: int, n: int) -> bool {
    start + n <= chars.len() && crate::hexcolor::all_hex(chars.subrange(start, start + n))
}

/// Number of hex digits of the color token after a `#` at `pos` (6, 3 or none).
pub open spec fn token_len(chars: Seq<char>, pos: int) -> int {
    if hex_follow(chars, pos + 1, 6) {
        6
    } else if hex_follow(chars, pos + 1, 3) {
        3
    } else {
        0
    }
}

/// The filament whose preview color replaces the `#` token at `pos`, if any.
pub open spec fn replaced_filament(chars: Seq<char>, pos: int, entries: Seq<(Seq<char>, u32)>)
    -> Option<u32>
{
    let n = token_len(chars, pos);
    if 0 <= pos < chars.len() && chars[pos] == '#' && n > 0 {
        match normalized_hex(chars.subrange(pos + 1, pos + 1 + n)) {
            Some(color) => lookup(entries, color),
            None => None,
        }
    } else {
        None
    }
}

/// `chars` from `pos` on with every mapped `#rgb`/`#rrggbb` token replaced by
/// the preview color of its filament.
pub open spec fn recolored(
    chars: Seq<char>,
    pos: int,
    entries: Seq<(Seq<char>, u32)>,
    palette: PreviewPalette,
) -> Seq<char>
    decreases chars.len() - pos,
    when 0 <= pos
{
    if pos >= chars.len() {
        Seq::empty()
    } else {
        match replaced_filament(chars, pos, entries) {
            Some(f) => seq!['#'] + hex6(palette.color_of(f) as int) + recolored(
                chars,
                pos + 1 + token_len(chars, pos),
                entries,
                palette,
            ),
            None => seq![chars[pos]] + recolored(chars, pos + 1, entries, palette),
        }
    }
}

fn hex_follows(chars: &Vec<char>, start: usize, n: usize) -> (b: bool)
    requires
        start <= chars.len(),
        n <= 6,
    ensures
        b == hex_follow(chars@, start as int, n as int),
{
    if chars.len() - start < n {
        return false;
    }
    let mut k: usize = 0;
    while k < n
        invariant
            k <= n,
            start + n <= chars.len(),
            forall|q: int| 0 <= q < k ==> is_hex_digit(#[trigger] chars@[start + q]),
        decreases n - k,
    {
        if !is_hex_digit_char(chars[start + k]) {
            assert(chars@.subrange(start as int, start + n)[k as int] == chars@[start + k]);
            return false;
        }
        k = k + 1;
    }
    assert forall|q: int| 0 <= q < n implies is_hex_digit(
        #[trigger] chars@.subrange(start as int, start + n)[q],
    ) by {
        assert(chars@.subrange(start as int, start + n)[q] == chars@[start + q]);
    }
    true
}

fn lookup_entry(entries: &Vec<(String, u32)>, color: &String) -> (r: Option<u32>)
    ensures
        r == lookup(pairs_view(entries@), color@),
{
    let ghost pv = pairs_view(entries@);
    let mut i: usize = 0;
    assert(pv.skip(0) == pv);
    while i < entries.len()
        invariant
            i <= entries.len(),
            pv == pairs_view(entries@),
            lookup(pv, color@) == lookup(pv.skip(i as int), color@),
        decreases entries.len() - i,
    {
        assert(pv.skip(i as int)[0] == pv[i as int]);
        assert(pv.skip(i as int).drop_first() == pv.skip(i + 1));
        if entries[i].0 == *color {
            return Some(entries[i].1);
        }
        i = i + 1;
    }
    assert(pv.skip(i as int).len() == 0);
    None
}

/// Replaces every mapped source color in SVG text with the preview color of
/// its filament; other text is kept as is.
pub fn recolor_svg(source: &str, mapping: &Vec<(String, u32)>, palette: &PreviewPalette) -> (r:
    String)
    requires
        palette.wf(),
        ordered_keys(mapping@),
        forall|i: int|
            0 <= i < mapping@.len() ==> palette.filament_seq().contains(#[trigger] mapping@[i].1),
    ensures
        r@ == recolored(source@, 0, pairs_view(mapping@), *palette),
{
    let chars = chars_of(source);
    let ghost entries = pairs_view(mapping@);
    let mut out = String::new();
    let mut pos: usize = 0;
    while pos < chars.len()
        invariant
            pos <= chars.len(),
            chars@ == source@,
            entries == pairs_view(mapping@),
            palette.wf(),
            forall|i: int|
                0 <= i < mapping@.len() ==> palette.filament_seq().contains(#[trigger] mapping@[i].1),
            out@ + recolored(chars@, pos as int, entries, *palette) == recolored(
                chars@,
                0,
                entries,
                *palette,
            ),
        decreases chars.len() - pos,
    {
        let c = chars[pos];
        let mut replacement: Option<(u32, usize)> = None;
        if c == '#' {
            let n: usize = if hex_follows(&chars, pos + 1, 6) {
                6
            } else if hex_follows(&chars, pos + 1, 3) {
                3
            } else {
                0
            };
            assert(n == token_len(chars@, pos as int));
            if n > 0 {
                let mut token: Vec<char> = Vec::new();
                let mut k: usize = 0;
                while k < n
                    invariant
                        k <= n,
                        pos + 1 + n <= chars.len(),
                        token@ == chars@.subrange(pos + 1, pos + 1 + k),
                    decreases n - k,
                {
                    token.push(chars[pos + 1 + k]);
                    k = k + 1;
                }
                let text = crate::strings::string_of(&token);
                match normalize_hex_color(text.as_str()) {
                    Some(color) => match lookup_entry(mapping, &color) {
                        Some(f) => {
                            replacement = Some((f, n));
                        },
                        None => {},
                    },
                    None => {},
                }
            }
        }
        assert(replacement matches Some((f, n)) ==> replaced_filament(chars@, pos as int, entries)
            == Some(f) && n == token_len(chars@, pos as int));
        assert(replacement is None ==> replaced_filament(chars@, pos as int, entries) is None);
        let ghost old_out = out@;
        match replacement {
            Some((f, n)) => {
                proof {
                    lemma_lookup_member(entries, f, chars@.subrange(pos + 1, pos + 1 + n));
                    let i = choose|i: int| 0 <= i < entries.len() && entries[i].1 == f;
                    assert(mapping@[i].1 == f);
                }
                push_char(&mut out, '#');
                let hex = palette.color(f);
                push_str(&mut out, hex.as_str());
                assert(out@ == old_out + (seq!['#'] + hex6(palette.color_of(f) as int)));
                pos = pos + 1 + n;
            },
            None => {
                push_char(&mut out, c);
                assert(out@ == old_out + seq![c]);
                pos = pos + 1;
            },
        }
    }
    out
}

proof fn lemma_lookup_member(entries: Seq<(Seq<char>, u32)>, f: u32, token: Seq<char>)
    requires
        match normalized_hex(token) {
            Some(color) => lookup(entries, color) == Some(f),
            None => false,
        },
    ensures
        exists|i: int| 0 <= i < entries.len() && entries[i].1 == f,
{
    let color = normalized_hex(token)->0;
    lemma_lookup_found(entries, color);
}

proof fn lemma_lookup_found(entries: Seq<(Seq<char>, u32)>, color: Seq<char>)
    ensures
        lookup(entries, color) matches Some(f) ==> exists|i: int| 0 <= i < entries.len() && entries[i].1 == f,
    decreases entries.len(),
{
    if entries.len() > 0 && entries[0].0 != color {
        lemma_lookup_found(entries.drop_first(), color);
        if lookup(entries, color) is Some {
            let f = lookup(entries, color)->0;
            let i = choose|i: int| 0 <= i < entries.drop_first().len() && entries.drop_first()[i].1 == f;
            assert(entries[i + 1].1 == f);
        }
    }
}

impl ColorError {
    /// The text that reports this error.
    pub fn message(&self) -> (m: String)
        ensures
            m@ == match self {
                ColorError::AbsentColor { color } => "color override refers to absent source color #"@
                    + color@,
                ColorError::InvalidKey { key } => "color override key "@ + debug_quoted(key@)
                    + " must be a filament index or hex color"@,
                ColorError::AbsentIndex { index } => "color override refers to nonexistent resolved filament "@
                    + decimal_digits(*index as nat),
            },
    {
        let mut m = String::new();
        match self {
            ColorError::AbsentColor { color } => {
                push_str(&mut m, "color override refers to absent source color #");
                push_str(&mut m, color.as_str());
            },
            ColorError::InvalidKey { key } => {
                push_str(&mut m, "color override key ");
                let quoted = debug_text(key.as_str());
                push_str(&mut m, quoted.as_str());
                push_str(&mut m, " must be a filament index or hex color");
            },
            ColorError::AbsentIndex { index } => {
                push_str(&mut m, "color override refers to nonexistent resolved filament ");
                let n = decimal_string(*index as u64);
                push_str(&mut m, n.as_str());
            },
        }
        m
    }
}
/// The value that one style declaration gives a property, if it names it.
pub open spec fn declaration_value(declaration: Seq<char>, property: Seq<char>) -> Option<Seq<char>> {
    match first_index(declaration, ':') {
        None => None,
        Some(k) => if lowercase(trim(declaration.take(k))) == property {
            Some(trim(declaration.skip(k + 1)))
        } else {
            None
        },
    }
}

/// The value that the last declaration naming a property gives it.
pub open spec fn last_value(declarations: Seq<Seq<char>>, property: Seq<char>) -> Option<Seq<char>>
    decreases declarations.len(),
{
    if declarations.len() == 0 {
        None
    } else {
        match declaration_value(declarations.last(), property) {
            Some(v) => Some(v),
            None => last_value(declarations.drop_last(), property),
        }
    }
}

/// The value of a property in an inline `style` attribute: declarations
/// are separated by `;`, a name ends at the first `:`, names are compared
/// trimmed and in ASCII lower case, values are trimmed, and a later
/// declaration replaces an earlier one.
pub open spec fn style_value(style: Seq<char>, property: Seq<char>) -> Option<Seq<char>> {
    last_value(split_on(style, ';'), property)
}

/// The value of one property in an inline `style` attribute.
pub fn style_property(style: &str, property: &str) -> (r: Option<String>)
    ensures
        match style_value(style@, property@) {
            Some(v) => r matches Some(s) && s@ == v,
            None => r is None,
        },
{
    let declarations = split_chars(&chars_of(style), ';');
    let ghost all = split_on(style@, ';');
    let wanted = chars_of(property);
    let mut found: Option<Vec<char>> = None;
    let mut i: usize = 0;
    while i < declarations.len()
        invariant
            i <= declarations.len(),
            all.len() == declarations@.len(),
            forall|k: int| 0 <= k < declarations@.len() ==> #[trigger] declarations@[k]@ == all[k],
            wanted@ == property@,
            match last_value(all.take(i as int), property@) {
                Some(v) => found matches Some(f) && f@ == v,
                None => found is None,
            },
        decreases declarations.len() - i,
    {
        let declaration = &declarations[i];
        assert(all.take(i + 1).drop_last() =~= all.take(i as int));
        assert(all.take(i + 1).last() == declaration@);
        match find_char(declaration, ':') {
            None => {
                assert(declaration_value(declaration@, property@) is None);
            },
            Some(k) => {
                let name = lowercase_chars(&trim_chars(&prefix_chars(declaration, k)));
                if same_chars(&name, &wanted) {
                    let value = trim_chars(&suffix_chars(declaration, k + 1));
                    assert(declaration_value(declaration@, property@) == Some(value@));
                    found = Some(value);
                } else {
                    assert(declaration_value(declaration@, property@) is None);
                }
            },
        }
        i = i + 1;
    }
    assert(all.take(declarations.len() as int) =~= all);
    match found {
        Some(f) => Some(string_of(&f)),
        None => None,
    }
}

} // verus!
