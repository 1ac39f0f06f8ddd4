//! Color mappings of SVG files: the automatic one, and one read from a
//! sidecar TOML that must map exactly the colors the SVG uses.
use vstd::prelude::*;
use crate::color::{ColorMapping, pairs_view};
use crate::hexcolor::{is_lower_hex, lemma_normalized_is_lower_hex, normalize_hex_color, normalized_hex};
use crate::palette::{hex6, hex6_string, sorted_distinct, strictly_increasing};
use crate::strings::{debug_quoted, debug_text, push_str, strings_view};
use crate::svgcolors::strictly_sorted;
use crate::listing::chars_le;

verus! {

/// The automatic mapping: the colors, in their (sorted) order, get the
/// filaments 1, 2, 3 and so on.
pub open spec fn automatic_entries(colors: Seq<String>) -> Seq<(Seq<char>, u32)> {
    Seq::new(colors.len(), |i: int| (colors[i]@, (i + 1) as u32))
}

/// In the automatic mapping, of two colors the one that sorts first gets the
/// lower filament, and the `i`-th color gets filament `i + 1`.
pub proof fn lemma_automatic_follows_lexical_order(colors: Seq<String>, i: int, j: int)
    requires
        colors.len() < u32::MAX,
        strictly_sorted(strings_view(colors)),
        0 <= i < j < colors.len(),
    ensures
        chars_le(automatic_entries(colors)[i].0, automatic_entries(colors)[j].0),
        automatic_entries(colors)[i].0 != automatic_entries(colors)[j].0,
        automatic_entries(colors)[i].1 == i + 1,
        automatic_entries(colors)[i].1 < automatic_entries(colors)[j].1,
{
    assert(strings_view(colors)[i] == colors[i]@);
    assert(strings_view(colors)[j] == colors[j]@);
}

impl ColorMapping {
    /// The mapping of an SVG without a sidecar: its colors, each once and in
    /// lexical order as `discover_colors` gives them, get the filaments 1, 2,
    /// 3 and so on.
    pub fn automatic(colors: &Vec<String>) -> (r: ColorMapping)
        requires
            colors@.len() < u32::MAX,
            strictly_sorted(strings_view(colors@)),
        ensures
            r.entries() == automatic_entries(colors@),
            r.sidecar is None,
    {
        let mut entries: Vec<(String, u32)> = Vec::new();
        let mut i: usize = 0;
        while i < colors.len()
            invariant
                i <= colors.len() < u32::MAX,
                pairs_view(entries@) == automatic_entries(colors@).take(i as int),
            decreases colors.len() - i,
        {
            let ghost before = entries@;
            let color = colors[i].clone();
            entries.push((color, (i + 1) as u32));
            assert(pairs_view(entries@) =~= pairs_view(before).push((colors@[i as int]@, (i + 1) as u32)));
            assert(pairs_view(entries@) =~= automatic_entries(colors@).take(i + 1));
            i = i + 1;
        }
        assert(automatic_entries(colors@).take(colors.len() as int) =~= automatic_entries(colors@));
        ColorMapping { source_to_filament: entries, sidecar: None }
    }
}

/// The value of a lowercase hex digit.
pub open spec fn digit_value(c: char) -> int {
    if c <= '9' {
        c as int - 48
    } else {
        c as int - 87
    }
}

/// The 24-bit value of six lowercase hex digits.
pub open spec fn color_value(s: Seq<char>) -> int {
    digit_value(s[0]) * 0x10_0000 + digit_value(s[1]) * 0x1_0000 + digit_value(s[2]) * 0x1000
        + digit_value(s[3]) * 0x100 + digit_value(s[4]) * 0x10 + digit_value(s[5])
}

/// Six lowercase hex digits.
pub open spec fn is_color_text(s: Seq<char>) -> bool {
    s.len() == 6 && forall|i: int| 0 <= i < 6 ==> is_lower_hex(#[trigger] s[i])
}

proof fn lemma_digit(c: char)
    requires
        is_lower_hex(c),
    ensures
        0 <= digit_value(c) < 16,
        crate::palette::hex_char(digit_value(c)) == c,
{
}

/// Six lowercase hex digits are the hex text of their value.
pub proof fn lemma_color_round_trip(s: Seq<char>)
    requires
        is_color_text(s),
    ensures
        0 <= color_value(s) < 0x100_0000,
        hex6(color_value(s)) == s,
{
    let d0 = digit_value(s[0]);
    let d1 = digit_value(s[1]);
    let d2 = digit_value(s[2]);
    let d3 = digit_value(s[3]);
    let d4 = digit_value(s[4]);
    let d5 = digit_value(s[5]);
    lemma_digit(s[0]);
    lemma_digit(s[1]);
    lemma_digit(s[2]);
    lemma_digit(s[3]);
    lemma_digit(s[4]);
    lemma_digit(s[5]);
    let v = color_value(s);
    assert(v == d0 * 0x10_0000 + d1 * 0x1_0000 + d2 * 0x1000 + d3 * 0x100 + d4 * 0x10 + d5);
    assert((v / 0x10_0000) % 16 == d0 && (v / 0x1_0000) % 16 == d1 && (v / 0x1000) % 16 == d2
        && (v / 0x100) % 16 == d3 && (v / 0x10) % 16 == d4 && v % 16 == d5 && 0 <= v < 0x100_0000)
        by (nonlinear_arith)
        requires
            v == d0 * 0x10_0000 + d1 * 0x1_0000 + d2 * 0x1000 + d3 * 0x100 + d4 * 0x10 + d5,
            0 <= d0 < 16,
            0 <= d1 < 16,
            0 <= d2 < 16,
            0 <= d3 < 16,
            0 <= d4 < 16,
            0 <= d5 < 16,
    ;
    assert(hex6(v) =~= s);
}

/// Why a sidecar's mapping was rejected.
#[derive(Debug, Clone, PartialEq, Eq)]
pub enum SidecarError {
    /// A key is not a hex color.
    NotHex { color: String },
    /// Two keys name the same color.
    Repeated { color: String },
    /// Colors of the SVG that the sidecar does not map.
    Missing { colors: Vec<String> },
    /// Colors that the sidecar maps but the SVG does not use.
    Extra { colors: Vec<String> },
}

/// The mathematical content of a [`SidecarError`] found among the keys.
pub enum SidecarFault {
    NotHex(Seq<char>),
    Repeated(Seq<char>),
    Missing(Seq<Seq<char>>),
}

/// The normalized color of a key.
pub open spec fn norm(key: Seq<char>) -> Seq<char> {
    normalized_hex(key)->0
}

/// Whether a key among the first `n` normalizes to `color`.
pub open spec fn key_seen(entries: Seq<(String, u32)>, n: int, color: Seq<char>) -> bool {
    exists|j: int| 0 <= j < n && normalized_hex(#[trigger] entries[j].0@) == Some(color)
}

/// The first key, in order, that is not a hex color or repeats an earlier one.
pub open spec fn entry_fault(entries: Seq<(String, u32)>) -> Option<SidecarFault>
    decreases entries.len(),
{
    if entries.len() == 0 {
        None
    } else {
        match entry_fault(entries.drop_last()) {
            Some(f) => Some(f),
            None => match normalized_hex(entries.last().0@) {
                None => Some(SidecarFault::NotHex(entries.last().0@)),
                Some(n) => if key_seen(entries, entries.len() - 1, n) {
                    Some(SidecarFault::Repeated(n))
                } else {
                    None
                },
            },
        }
    }
}

/// The normalized keys of the sidecar, in order.
pub open spec fn normalized_keys(entries: Seq<(String, u32)>) -> Seq<Seq<char>> {
    Seq::new(entries.len(), |i: int| norm(entries[i].0@))
}

/// The colors of the SVG, in order, that no key names.
pub open spec fn missing_colors(colors: Seq<String>, entries: Seq<(String, u32)>) -> Seq<Seq<char>>
    decreases colors.len(),
{
    if colors.len() == 0 {
        seq![]
    } else {
        missing_colors(colors.drop_last(), entries) + if normalized_keys(entries).contains(
            colors.last()@,
        ) {
            seq![]
        } else {
            seq![colors.last()@]
        }
    }
}

/// Whether some key names a color that the SVG does not use.
pub open spec fn has_extra(colors: Seq<String>, entries: Seq<(String, u32)>) -> bool {
    exists|i: int|
        0 <= i < entries.len() && !strings_view(colors).contains(#[trigger] normalized_keys(entries)[i])
}

/// The extra colors, each once, in increasing order of their value.
pub open spec fn extra_report(reported: Seq<String>, colors: Seq<String>, entries: Seq<(String, u32)>) -> bool {
    &&& forall|i: int|
        0 <= i < reported.len() ==> !strings_view(colors).contains(#[trigger] reported[i]@)
            && normalized_keys(entries).contains(reported[i]@)
    &&& forall|k: int|
        0 <= k < entries.len() && !strings_view(colors).contains(#[trigger] normalized_keys(entries)[k])
            ==> strings_view(reported).contains(normalized_keys(entries)[k])
    &&& forall|i: int, j: int|
        0 <= i < j < reported.len() ==> color_value(#[trigger] reported[i]@) < color_value(
            #[trigger] reported[j]@,
        )
}

/// The filament that the sidecar gives a color.
pub open spec fn sidecar_filament(entries: Seq<(String, u32)>, color: Seq<char>) -> u32 {
    entries[choose|i: int| 0 <= i < entries.len() && norm(entries[i].0@) == color].1
}

impl SidecarError {
    pub open spec fn fault(&self) -> Option<SidecarFault> {
        match self {
            SidecarError::NotHex { color } => Some(SidecarFault::NotHex(color@)),
            SidecarError::Repeated { color } => Some(SidecarFault::Repeated(color@)),
            SidecarError::Missing { colors } => Some(SidecarFault::Missing(strings_view(colors@))),
            SidecarError::Extra { .. } => None,
        }
    }
}

fn color_value_of(key: &String) -> (v: u32)
    requires
        is_color_text(key@),
    ensures
        v == color_value(key@),
{
    let chars = crate::strings::chars_of(key.as_str());
    let mut v: u32 = 0;
    let mut i: usize = 0;
    proof {
        lemma_color_round_trip(key@);
    }
    while i < 6
        invariant
            i <= 6,
            chars@ == key@,
            is_color_text(key@),
            v as int == (if i == 0 { 0 } else if i == 1 { digit_value(key@[0]) } else if i == 2 {
                digit_value(key@[0]) * 16 + digit_value(key@[1])
            } else if i == 3 {
                digit_value(key@[0]) * 256 + digit_value(key@[1]) * 16 + digit_value(key@[2])
            } else if i == 4 {
                digit_value(key@[0]) * 4096 + digit_value(key@[1]) * 256 + digit_value(key@[2]) * 16
                    + digit_value(key@[3])
            } else if i == 5 {
                digit_value(key@[0]) * 65536 + digit_value(key@[1]) * 4096 + digit_value(key@[2])
                    * 256 + digit_value(key@[3]) * 16 + digit_value(key@[4])
            } else {
                color_value(key@)
            }),
        decreases 6 - i,
    {
        let c = chars[i];
        proof {
            lemma_digit(c);
        }
        let d: u32 = if c <= '9' {
            (c as u32) - 48
        } else {
            (c as u32) - 87
        };
        proof {
            lemma_digit(key@[0]);
            lemma_digit(key@[1]);
            lemma_digit(key@[2]);
            lemma_digit(key@[3]);
            lemma_digit(key@[4]);
            lemma_digit(key@[5]);
        }
        v = v * 16 + d;
        i = i + 1;
    }
    v
}

fn has_key(keys: &Vec<(String, u32)>, color: &String) -> (r: Option<u32>)
    ensures
        r is Some <==> exists|j: int| 0 <= j < keys@.len() && #[trigger] keys@[j].0@ == color@,
        r matches Some(f) ==> exists|j: int| 0 <= j < keys@.len() && #[trigger] keys@[j].0@ == color@ && keys@[j].1 == f,
{
    let mut i: usize = 0;
    while i < keys.len()
        invariant
            i <= keys.len(),
            forall|j: int| 0 <= j < i ==> keys@[j].0@ != color@,
        decreases keys.len() - i,
    {
        if keys[i].0 == *color {
            return Some(keys[i].1);
        }
        i = i + 1;
    }
    None
}

fn contains_string(colors: &Vec<String>, color: &String) -> (r: bool)
    ensures
        r == strings_view(colors@).contains(color@),
{
    let mut i: usize = 0;
    while i < colors.len()
        invariant
            i <= colors.len(),
            forall|k: int| 0 <= k < i ==> colors@[k]@ != color@,
        decreases colors.len() - i,
    {
        if colors[i] == *color {
            assert(strings_view(colors@)[i as int] == color@);
            return true;
        }
        i = i + 1;
    }
    assert(!strings_view(colors@).contains(color@)) by {
        if strings_view(colors@).contains(color@) {
            let k = choose|k: int| 0 <= k < strings_view(colors@).len() && strings_view(colors@)[k] == color@;
            assert(colors@[k]@ == color@);
        }
    }
    false
}

proof fn lemma_missing_named(colors: Seq<String>, entries: Seq<(String, u32)>, m: int)
    requires
        missing_colors(colors, entries).len() == 0,
        0 <= m < colors.len(),
    ensures
        normalized_keys(entries).contains(colors[m]@),
    decreases colors.len(),
{
    if m < colors.len() - 1 {
        assert(colors.drop_last()[m] == colors[m]);
        lemma_missing_named(colors.drop_last(), entries, m);
    }
}

proof fn lemma_distinct_keys(entries: Seq<(String, u32)>)
    requires
        entry_fault(entries) is None,
    ensures
        forall|a: int| 0 <= a < entries.len() ==> normalized_hex(#[trigger] entries[a].0@) is Some,
        forall|a: int, b: int|
            0 <= a < b < entries.len() ==> norm(#[trigger] entries[a].0@) != norm(#[trigger] entries[b].0@),
    decreases entries.len(),
{
    if entries.len() > 0 {
        let prev = entries.drop_last();
        lemma_distinct_keys(prev);
        assert forall|a: int| 0 <= a < entries.len() implies normalized_hex(#[trigger] entries[a].0@) is Some by {
            if a < entries.len() - 1 {
                assert(prev[a] == entries[a]);
            }
        }
        assert forall|a: int, b: int| 0 <= a < b < entries.len() implies norm(#[trigger] entries[a].0@) != norm(
            #[trigger] entries[b].0@,
        ) by {
            if b < entries.len() - 1 {
                assert(prev[a] == entries[a]);
                assert(prev[b] == entries[b]);
            } else {
                if norm(entries[a].0@) == norm(entries[b].0@) {
                    assert(key_seen(entries, entries.len() - 1, norm(entries.last().0@)));
                }
            }
        }
    }
}

proof fn lemma_unique_keys(entries: Seq<(String, u32)>, j: int)
    requires
        entry_fault(entries) is None,
        0 <= j < entries.len(),
    ensures
        sidecar_filament(entries, norm(entries[j].0@)) == entries[j].1,
{
    lemma_distinct_keys(entries);
    let c = norm(entries[j].0@);
    let i = choose|i: int| 0 <= i < entries.len() && norm(entries[i].0@) == c;
    if i != j {
        if i < j {
            assert(norm(entries[i].0@) != norm(entries[j].0@));
        } else {
            assert(norm(entries[j].0@) != norm(entries[i].0@));
        }
    }
}

proof fn lemma_entry_fault_prefix(entries: Seq<(String, u32)>, n: int)
    requires
        0 <= n <= entries.len(),
        entry_fault(entries.take(n)) is Some,
    ensures
        entry_fault(entries) == entry_fault(entries.take(n)),
    decreases entries.len(),
{
    if n == entries.len() {
        assert(entries.take(n) =~= entries);
    } else {
        assert(entries.drop_last().take(n) =~= entries.take(n));
        lemma_entry_fault_prefix(entries.drop_last(), n);
    }
}

impl ColorMapping {
    /// The mapping of an SVG with a sidecar: every key must be a hex color,
    /// no two keys may name one color, every color of the SVG (given sorted)
    /// must be named, and no key may name a color the SVG does not use.
    pub fn from_sidecar(colors: &Vec<String>, entries: &Vec<(String, u32)>, sidecar: String) -> (r:
        Result<ColorMapping, SidecarError>)
        ensures
            match entry_fault(entries@) {
                Some(f) => r matches Err(e) && e.fault() == Some(f),
                None => if missing_colors(colors@, entries@).len() > 0 {
                    r matches Err(e) && e.fault() == Some(
                        SidecarFault::Missing(missing_colors(colors@, entries@)),
                    )
                } else if has_extra(colors@, entries@) {
                    r matches Err(SidecarError::Extra { colors: reported }) && extra_report(
                        reported@,
                        colors@,
                        entries@,
                    )
                } else {
                    r matches Ok(m) && m.sidecar == Some(sidecar) && m.entries() == Seq::new(
                        colors@.len(),
                        |i: int| (colors@[i]@, sidecar_filament(entries@, colors@[i]@)),
                    )
                },
            },
    {
        let mut keys: Vec<(String, u32)> = Vec::new();
        let mut i: usize = 0;
        while i < entries.len()
            invariant
                i <= entries.len(),
                keys@.len() == i,
                entry_fault(entries@.take(i as int)) is None,
                forall|k: int| 0 <= k < i ==> normalized_hex(entries@[k].0@) is Some,
                forall|k: int| 0 <= k < i ==> #[trigger] keys@[k].0@ == norm(entries@[k].0@) && keys@[k].1
                    == entries@[k].1,
            decreases entries.len() - i,
        {
            let ghost prefix = entries@.take(i + 1);
            assert(prefix.drop_last() =~= entries@.take(i as int));
            assert(prefix.last() == entries@[i as int]);
            match normalize_hex_color(entries[i].0.as_str()) {
                None => {
                    proof {
                        lemma_entry_fault_prefix(entries@, i + 1);
                    }
                    return Err(SidecarError::NotHex { color: entries[i].0.clone() });
                },
                Some(n) => {
                    match has_key(&keys, &n) {
                        Some(_) => {
                            proof {
                                let j = choose|j: int| 0 <= j < keys@.len() && #[trigger] keys@[j].0@ == n@;
                                assert(prefix[j] == entries@[j]);
                                assert(key_seen(prefix, prefix.len() - 1, n@));
                                lemma_entry_fault_prefix(entries@, i + 1);
                            }
                            return Err(SidecarError::Repeated { color: n });
                        },
                        None => {
                            proof {
                                assert(!key_seen(prefix, prefix.len() - 1, n@)) by {
                                    if key_seen(prefix, prefix.len() - 1, n@) {
                                        let j = choose|j: int| 0 <= j < prefix.len() - 1 && normalized_hex(#[trigger] prefix[j].0@) == Some(n@);
                                        assert(prefix[j] == entries@[j]);
                                        assert(keys@[j].0@ == n@);
                                    }
                                }
                            }
                            keys.push((n, entries[i].1));
                        },
                    }
                },
            }
            i = i + 1;
        }
        assert(entries@.take(entries.len() as int) =~= entries@);
        let ghost nk = normalized_keys(entries@);
        assert forall|k: int| 0 <= k < keys@.len() implies #[trigger] keys@[k].0@ == nk[k] by {}
        let mut missing: Vec<String> = Vec::new();
        let mut c: usize = 0;
        while c < colors.len()
            invariant
                c <= colors.len(),
                keys@.len() == entries@.len(),
                nk == normalized_keys(entries@),
                forall|k: int| 0 <= k < keys@.len() ==> #[trigger] keys@[k].0@ == nk[k],
                strings_view(missing@) == missing_colors(colors@.take(c as int), entries@),
            decreases colors.len() - c,
        {
            assert(colors@.take(c + 1).drop_last() =~= colors@.take(c as int));
            let ghost before = missing@;
            let named = has_key(&keys, &colors[c]).is_some();
            proof {
                if named {
                    let j = choose|j: int| 0 <= j < keys@.len() && #[trigger] keys@[j].0@ == colors@[c as int]@;
                    assert(nk[j] == colors@[c as int]@);
                    assert(nk.contains(colors@[c as int]@));
                } else {
                    assert(!nk.contains(colors@[c as int]@)) by {
                        if nk.contains(colors@[c as int]@) {
                            let j = choose|j: int| 0 <= j < nk.len() && nk[j] == colors@[c as int]@;
                            assert(keys@[j].0@ == nk[j]);
                        }
                    }
                }
            }
            if !named {
                missing.push(colors[c].clone());
                assert(strings_view(missing@) =~= strings_view(before).push(colors@[c as int]@));
            } else {
                assert(strings_view(missing@) =~= strings_view(before) + seq![]);
            }
            c = c + 1;
        }
        assert(colors@.take(colors.len() as int) =~= colors@);
        if missing.len() > 0 {
            return Err(SidecarError::Missing { colors: missing });
        }
        let mut values: Vec<u32> = Vec::new();
        let mut k: usize = 0;
        while k < keys.len()
            invariant
                k <= keys.len(),
                keys@.len() == entries@.len(),
                nk == normalized_keys(entries@),
                forall|t: int| 0 <= t < keys@.len() ==> #[trigger] keys@[t].0@ == nk[t],
                forall|t: int| 0 <= t < entries@.len() ==> normalized_hex(#[trigger] entries@[t].0@) is Some,
                forall|v: u32|
                    values@.contains(v) <==> exists|t: int|
                        0 <= t < k && !strings_view(colors@).contains(#[trigger] nk[t]) && color_value(
                            nk[t],
                        ) == v,
            decreases keys.len() - k,
        {
            let listed = contains_string(colors, &keys[k].0);
            assert(keys@[k as int].0@ == nk[k as int]);
            if !listed {
                proof {
                    lemma_normalized_is_lower_hex(entries@[k as int].0@);
                }
                let v = color_value_of(&keys[k].0);
                let ghost before = values@;
                values.push(v);
                assert forall|x: u32| values@.contains(x) <==> exists|t: int|
                    0 <= t < k + 1 && !strings_view(colors@).contains(#[trigger] nk[t]) && color_value(
                        nk[t],
                    ) == x by {
                    if values@.contains(x) && x != v {
                        let p = choose|p: int| 0 <= p < values@.len() && values@[p] == x;
                        assert(before[p] == x);
                        assert(before.contains(x));
                    }
                    if exists|t: int| 0 <= t < k + 1 && !strings_view(colors@).contains(#[trigger] nk[t]) && color_value(nk[t]) == x {
                        let t = choose|t: int| 0 <= t < k + 1 && !strings_view(colors@).contains(#[trigger] nk[t]) && color_value(nk[t]) == x;
                        if t < k {
                            assert(before.contains(x));
                            let p = choose|p: int| 0 <= p < before.len() && before[p] == x;
                            assert(values@[p] == x);
                        } else {
                            assert(values@[before.len() as int] == x);
                        }
                    }
                }
            } else {
                assert forall|x: u32| values@.contains(x) <==> exists|t: int|
                    0 <= t < k + 1 && !strings_view(colors@).contains(#[trigger] nk[t]) && color_value(
                        nk[t],
                    ) == x by {
                    if exists|t: int| 0 <= t < k + 1 && !strings_view(colors@).contains(#[trigger] nk[t]) && color_value(nk[t]) == x {
                        let t = choose|t: int| 0 <= t < k + 1 && !strings_view(colors@).contains(#[trigger] nk[t]) && color_value(nk[t]) == x;
                        assert(t != k as int);
                    }
                }
            }
            k = k + 1;
        }
        if values.len() > 0 {
            let sorted = sorted_distinct(values.as_slice());
            let mut reported: Vec<String> = Vec::new();
            let mut q: usize = 0;
            while q < sorted.len()
                invariant
                    q <= sorted.len(),
                    reported@.len() == q,
                    forall|p: int| 0 <= p < q ==> #[trigger] reported@[p]@ == hex6(sorted@[p] as int),
                decreases sorted.len() - q,
            {
                reported.push(hex6_string(sorted[q]));
                q = q + 1;
            }
            proof {
                assert forall|p: int| 0 <= p < sorted@.len() implies #[trigger] sorted@[p] == sorted@[p] && exists|t: int|
                    0 <= t < keys@.len() && !strings_view(colors@).contains(#[trigger] nk[t])
                        && color_value(nk[t]) == sorted@[p] && reported@[p]@ == nk[t] by {
                    assert(sorted@.contains(sorted@[p]));
                    assert(values@.contains(sorted@[p]));
                    let t = choose|t: int| 0 <= t < keys@.len() && !strings_view(colors@).contains(#[trigger] nk[t]) && color_value(nk[t]) == sorted@[p];
                    lemma_normalized_is_lower_hex(entries@[t].0@);
                    lemma_color_round_trip(nk[t]);
                }
                assert forall|i: int| 0 <= i < reported@.len() implies !strings_view(colors@).contains(
                    #[trigger] reported@[i]@,
                ) && nk.contains(reported@[i]@) by {
                    let t = choose|t: int| 0 <= t < keys@.len() && !strings_view(colors@).contains(#[trigger] nk[t]) && color_value(nk[t]) == sorted@[i] && reported@[i]@ == nk[t];
                }
                assert forall|t: int| 0 <= t < entries@.len() && !strings_view(colors@).contains(
                    #[trigger] nk[t],
                ) implies strings_view(reported@).contains(nk[t]) by {
                    lemma_normalized_is_lower_hex(entries@[t].0@);
                    lemma_color_round_trip(nk[t]);
                    let v = color_value(nk[t]) as u32;
                    assert(values@.contains(v));
                    assert(sorted@.contains(v));
                    let p = choose|p: int| 0 <= p < sorted@.len() && sorted@[p] == v;
                    assert(strings_view(reported@)[p] == nk[t]);
                }
                assert forall|i: int, j: int| 0 <= i < j < reported@.len() implies color_value(
                    #[trigger] reported@[i]@,
                ) < color_value(#[trigger] reported@[j]@) by {
                    let ti = choose|t: int| 0 <= t < keys@.len() && !strings_view(colors@).contains(#[trigger] nk[t]) && color_value(nk[t]) == sorted@[i] && reported@[i]@ == nk[t];
                    let tj = choose|t: int| 0 <= t < keys@.len() && !strings_view(colors@).contains(#[trigger] nk[t]) && color_value(nk[t]) == sorted@[j] && reported@[j]@ == nk[t];
                }
            }
            proof {
                assert(values@.contains(values@[0]));
                let t = choose|t: int| 0 <= t < keys@.len() && !strings_view(colors@).contains(#[trigger] nk[t]) && color_value(nk[t]) == values@[0];
                assert(!strings_view(colors@).contains(normalized_keys(entries@)[t]));
                assert(has_extra(colors@, entries@));
            }
            return Err(SidecarError::Extra { colors: reported });
        }
        proof {
            assert(!has_extra(colors@, entries@)) by {
                if has_extra(colors@, entries@) {
                    let t = choose|t: int| 0 <= t < entries@.len() && !strings_view(colors@).contains(#[trigger] normalized_keys(entries@)[t]);
                    lemma_normalized_is_lower_hex(entries@[t].0@);
                    lemma_color_round_trip(nk[t]);
                    assert(values@.contains(color_value(nk[t]) as u32));
                }
            }
        }
        let mut mapped: Vec<(String, u32)> = Vec::new();
        let mut m: usize = 0;
        while m < colors.len()
            invariant
                m <= colors.len(),
                keys@.len() == entries@.len(),
                nk == normalized_keys(entries@),
                forall|t: int| 0 <= t < keys@.len() ==> #[trigger] keys@[t].0@ == nk[t] && keys@[t].1 == entries@[t].1,
                missing_colors(colors@, entries@).len() == 0,
                entry_fault(entries@) is None,
                pairs_view(mapped@) == Seq::new(
                    m as nat,
                    |i: int| (colors@[i]@, sidecar_filament(entries@, colors@[i]@)),
                ),
            decreases colors.len() - m,
        {
            let found = has_key(&keys, &colors[m]);
            let f = match found {
                Some(f) => f,
                None => {
                    proof {
                        lemma_missing_named(colors@, entries@, m as int);
                        let j = choose|j: int| 0 <= j < nk.len() && nk[j] == colors@[m as int]@;
                        assert(keys@[j].0@ == colors@[m as int]@);
                    }
                    0
                },
            };
            proof {
                lemma_missing_named(colors@, entries@, m as int);
                let w = choose|w: int| 0 <= w < nk.len() && nk[w] == colors@[m as int]@;
                assert(keys@[w].0@ == colors@[m as int]@);
                let j = choose|j: int| 0 <= j < keys@.len() && #[trigger] keys@[j].0@ == colors@[m as int]@ && keys@[j].1 == f;
                assert(nk[j] == colors@[m as int]@);
                lemma_unique_keys(entries@, j);
            }
            let ghost before = mapped@;
            let color = colors[m].clone();
            mapped.push((color, f));
            assert(f == sidecar_filament(entries@, colors@[m as int]@));
            assert(pairs_view(mapped@) =~= pairs_view(before).push((colors@[m as int]@, f)));
            assert(pairs_view(mapped@) =~= Seq::new(
                (m + 1) as nat,
                |i: int| (colors@[i]@, sidecar_filament(entries@, colors@[i]@)),
            ));
            m = m + 1;
        }
        Ok(ColorMapping { source_to_filament: mapped, sidecar: Some(sidecar) })
    }
}

/// Colors as `#rrggbb`, separated by commas.
pub open spec fn hash_list(colors: Seq<Seq<char>>) -> Seq<char>
    decreases colors.len(),
{
    if colors.len() == 0 {
        seq![]
    } else if colors.len() == 1 {
        seq!['#'] + colors[0]
    } else {
        hash_list(colors.drop_last()) + ", #"@ + colors.last()
    }
}

fn push_hash_list(m: &mut String, colors: &Vec<String>)
    ensures
        final(m)@ == old(m)@ + hash_list(strings_view(colors@)),
{
    let ghost start = m@;
    let ghost all = strings_view(colors@);
    let mut i: usize = 0;
    while i < colors.len()
        invariant
            i <= colors.len(),
            all == strings_view(colors@),
            m@ == start + hash_list(all.take(i as int)),
        decreases colors.len() - i,
    {
        assert(all.take(i + 1).drop_last() =~= all.take(i as int));
        if i == 0 {
            crate::strings::push_char(m, '#');
        } else {
            push_str(m, ", #");
        }
        push_str(m, colors[i].as_str());
        i = i + 1;
        assert(m@ =~= start + hash_list(all.take(i as int)));
    }
    assert(all.take(colors.len() as int) =~= all);
}

impl SidecarError {
    /// The text that reports this error.
    pub fn message(&self) -> (m: String)
        ensures
            m@ == match self {
                SidecarError::NotHex { color } => "sidecar color "@ + debug_quoted(color@) + " is not a hex color"@,
                SidecarError::Repeated { color } => "sidecar maps source color #"@ + color@
                    + " more than once"@,
                SidecarError::Missing { colors } => "color sidecar is not exhaustive; missing "@
                    + hash_list(strings_view(colors@)),
                SidecarError::Extra { colors } => "color sidecar refers to absent colors: "@
                    + hash_list(strings_view(colors@)),
            },
    {
        let mut m = String::new();
        match self {
            SidecarError::NotHex { color } => {
                push_str(&mut m, "sidecar color ");
                let quoted = debug_text(color.as_str());
                push_str(&mut m, quoted.as_str());
                push_str(&mut m, " is not a hex color");
            },
            SidecarError::Repeated { color } => {
                push_str(&mut m, "sidecar maps source color #");
                push_str(&mut m, color.as_str());
                push_str(&mut m, " more than once");
            },
            SidecarError::Missing { colors } => {
                push_str(&mut m, "color sidecar is not exhaustive; missing ");
                push_hash_list(&mut m, colors);
            },
            SidecarError::Extra { colors } => {
                push_str(&mut m, "color sidecar refers to absent colors: ");
                push_hash_list(&mut m, colors);
            },
        }
        m
    }
}

} // verus!
