//! Preview colors: one distinct 24-bit RGB color per filament, so a rendered
//! preview can be read back filament by filament.
use vstd::prelude::*;
use vstd::arithmetic::div_mod::{
    lemma_add_mod_noop, lemma_mul_mod_noop_left, lemma_mod_multiples_vanish, lemma_mod_bound,
};
use crate::strings::string_of;

verus! {

/// Number of 24-bit RGB colors.
pub open spec fn color_space() -> int {
    0x0100_0000
}

/// Odd step of the collision search; odd steps visit every 24-bit value.
pub open spec fn probe_step() -> int {
    0x9e_37_79
}

/// The `j`-th color tried when `start` is taken.
pub open spec fn probe(start: int, j: int) -> int {
    (start + j * probe_step()) % color_space()
}

/// Fixed preview colors of filaments 0 to 9; higher filaments hash their id.
pub open spec fn fallback_rgb(filament: u32) -> u32 {
    if filament == 0 {
        0xeaeaea
    } else if filament == 1 {
        0x43484d
    } else if filament == 2 {
        0xa7d293
    } else if filament == 3 {
        0x8aaed6
    } else if filament == 4 {
        0xe1927a
    } else if filament == 5 {
        0xf5d578
    } else if filament == 6 {
        0xa795d2
    } else if filament == 7 {
        0x89dad3
    } else if filament == 8 {
        0xeab97d
    } else if filament == 9 {
        0x999487
    } else {
        ((filament as int * 2_654_435_761) % 0x0100_0000) as u32
    }
}

/// The first probed color, from probe `j` on, that `used` does not hold.
pub open spec fn probe_search(used: Seq<u32>, start: int, j: int) -> int
    decreases color_space() - j,
{
    if j >= color_space() {
        start
    } else if !used.contains(probe(start, j) as u32) {
        probe(start, j)
    } else {
        probe_search(used, start, j + 1)
    }
}

/// The color a filament receives when `used` colors are already taken.
pub open spec fn first_free(used: Seq<u32>, filament: u32) -> u32 {
    probe_search(used, fallback_rgb(filament) as int, 0) as u32
}

/// Colors of filaments assigned in the given order.
pub open spec fn assigned_colors(filaments: Seq<u32>) -> Seq<u32>
    decreases filaments.len(),
{
    if filaments.len() == 0 {
        Seq::empty()
    } else {
        let prev = assigned_colors(filaments.drop_last());
        prev.push(first_free(prev, filaments.last()))
    }
}

pub open spec fn strictly_increasing(s: Seq<u32>) -> bool {
    forall|i: int, j: int| 0 <= i < j < s.len() ==> s[i] < s[j]
}

/// A preview palette: filaments in increasing order, each with its color.
pub struct PreviewPalette {
    filaments: Vec<u32>,
    colors: Vec<u32>,
}

/// Why a palette cannot be built.
#[derive(Debug, Clone, Copy, PartialEq, Eq)]
pub enum PaletteError {
    /// More distinct filaments than there are 24-bit colors.
    TooManyFilaments,
}

impl PreviewPalette {
    /// The filaments of the palette, in increasing order.
    pub closed spec fn filament_seq(&self) -> Seq<u32> {
        self.filaments@
    }

    pub closed spec fn wf(&self) -> bool {
        &&& self.filaments@.len() == self.colors@.len()
        &&& self.filaments@.len() <= color_space()
        &&& strictly_increasing(self.filaments@)
        &&& self.colors@ == assigned_colors(self.filaments@)
    }
}

/// Whether `v` is a 24-bit color that `used` does not hold.
pub open spec fn is_free(used: Seq<u32>, v: int) -> bool {
    0 <= v < color_space() && !used.contains(v as u32)
}

proof fn lemma_free_color(used: Seq<u32>)
    requires
        used.len() < color_space(),
    ensures
        exists|v: int| #[trigger] is_free(used, v),
{
    broadcast use vstd::seq_lib::seq_to_set_is_finite;
    let u = used.map_values(|c: u32| c as int);
    u.lemma_cardinality_of_set();
    vstd::set_lib::lemma_int_range(0, color_space());
    if forall|v: int| !#[trigger] is_free(used, v) {
        let range = vstd::set_lib::set_int_range(0, color_space());
        assert forall|v: int| range.contains(v) implies u.to_set().contains(v) by {
            assert(!is_free(used, v));
            assert(used.contains(v as u32));
            let i = choose|i: int| 0 <= i < used.len() && used[i] == v as u32;
            assert(u[i] == v);
        }
        vstd::set_lib::lemma_len_subset(range, u.to_set());
        assert(false);
    }
}

proof fn lemma_probe_reaches(start: int, v: int) -> (k: int)
    requires
        0 <= start < color_space(),
        0 <= v < color_space(),
    ensures
        0 <= k < color_space(),
        probe(start, k) == v,
{
    let m = color_space();
    let inv: int = 0xb3_82_c9;
    let d = (v - start) % m;
    lemma_mod_bound(v - start, m);
    let k = (d * inv) % m;
    lemma_mod_bound(d * inv, m);
    // (k * step) % m == (d * inv * step) % m == d
    lemma_mul_mod_noop_left(d * inv, probe_step(), m);
    assert(d * 0xb3_82_c9 * 0x9e_37_79 == d + 0x0100_0000 * (d * 7270814)) by (nonlinear_arith);
    lemma_mod_multiples_vanish(d * 7270814, d, m);
    assert((d * inv * probe_step()) % m == d % m);
    lemma_mod_bound(d, m);
    assert(d % m == d) by {
        vstd::arithmetic::div_mod::lemma_small_mod(d as nat, m as nat);
    }
    lemma_add_mod_noop(start, k * probe_step(), m);
    lemma_add_mod_noop(start, v - start, m);
    vstd::arithmetic::div_mod::lemma_small_mod(start as nat, m as nat);
    vstd::arithmetic::div_mod::lemma_small_mod(v as nat, m as nat);
    assert((k * probe_step()) % m == ((d * inv) % m * probe_step()) % m);
    k
}

proof fn lemma_probe_bound(start: int, j: int)
    ensures
        0 <= probe(start, j) < color_space(),
{
    lemma_mod_bound(start + j * probe_step(), color_space());
}

proof fn lemma_first_free(used: Seq<u32>, filament: u32)
    requires
        used.len() < color_space(),
    ensures
        !used.contains(first_free(used, filament)),
        first_free(used, filament) < color_space(),
{
    lemma_free_color(used);
    let v = choose|v: int| is_free(used, v);
    let start = fallback_rgb(filament) as int;
    assert(0 <= start < color_space()) by {
        if filament >= 10 {
            lemma_mod_bound(filament as int * 2_654_435_761, 0x0100_0000);
        }
    }
    let k = lemma_probe_reaches(start, v);
    lemma_probe_search_finds(used, start, 0, k);
}

proof fn lemma_probe_search_finds(used: Seq<u32>, start: int, j: int, k: int)
    requires
        0 <= j <= k < color_space(),
        !used.contains(probe(start, k) as u32),
    ensures
        !used.contains(probe_search(used, start, j) as u32),
        0 <= probe_search(used, start, j) < color_space(),
        probe_search(used, start, j) as u32 as int == probe_search(used, start, j),
    decreases k - j,
{
    lemma_probe_bound(start, j);
    if used.contains(probe(start, j) as u32) {
        assert(j != k);
        lemma_probe_search_finds(used, start, j + 1, k);
    }
}

/// Colors assigned to distinct filaments are distinct 24-bit values.
pub proof fn lemma_assigned_colors_distinct(filaments: Seq<u32>)
    requires
        filaments.len() <= color_space(),
    ensures
        assigned_colors(filaments).len() == filaments.len(),
        forall|i: int|
            0 <= i < filaments.len() ==> #[trigger] assigned_colors(filaments)[i] < color_space(),
        forall|i: int, j: int|
            0 <= i < j < filaments.len() ==> assigned_colors(filaments)[i] != assigned_colors(
                filaments,
            )[j],
    decreases filaments.len(),
{
    if filaments.len() > 0 {
        let prev = filaments.drop_last();
        lemma_assigned_colors_distinct(prev);
        let used = assigned_colors(prev);
        lemma_first_free(used, filaments.last());
        let all = assigned_colors(filaments);
        assert(all == used.push(first_free(used, filaments.last())));
        assert forall|i: int, j: int| 0 <= i < j < filaments.len() implies all[i] != all[j] by {
            if j == filaments.len() - 1 {
                assert(used.contains(all[i]));
            } else {
                assert(all[i] == used[i] && all[j] == used[j]);
            }
        }
    }
}

fn fallback_preview_rgb(filament: u32) -> (c: u32)
    ensures
        c == fallback_rgb(filament),
{
    if filament == 0 {
        0xeaeaea
    } else if filament == 1 {
        0x43484d
    } else if filament == 2 {
        0xa7d293
    } else if filament == 3 {
        0x8aaed6
    } else if filament == 4 {
        0xe1927a
    } else if filament == 5 {
        0xf5d578
    } else if filament == 6 {
        0xa795d2
    } else if filament == 7 {
        0x89dad3
    } else if filament == 8 {
        0xeab97d
    } else if filament == 9 {
        0x999487
    } else {
        ((filament as u64 * 2_654_435_761u64) % 0x0100_0000u64) as u32
    }
}

/// The distinct values of a sequence, in increasing order.
pub fn sorted_distinct(values: &[u32]) -> (r: Vec<u32>)
    ensures
        strictly_increasing(r@),
        forall|x: u32| r@.contains(x) <==> values@.contains(x),
{
    let mut r: Vec<u32> = Vec::new();
    let mut i: usize = 0;
    while i < values.len()
        invariant
            i <= values.len(),
            strictly_increasing(r@),
            forall|x: u32| r@.contains(x) <==> values@.take(i as int).contains(x),
        decreases values.len() - i,
    {
        let x = values[i];
        let ghost before = r@;
        let mut pos: usize = 0;
        while pos < r.len() && r[pos] < x
            invariant
                pos <= r.len(),
                r@ == before,
                forall|k: int| 0 <= k < pos ==> r@[k] < x,
            decreases r.len() - pos,
        {
            pos = pos + 1;
        }
        if pos == r.len() || r[pos] != x {
            r.insert(pos, x);
            assert forall|a: int, b: int| 0 <= a < b < r@.len() implies r@[a] < r@[b] by {
                if a < pos as int && b == pos as int {
                } else if a < pos as int && b > pos as int {
                    assert(r@[b] == before[b - 1]);
                } else if a == pos as int {
                    assert(r@[b] == before[b - 1]);
                    assert(before[pos as int] >= x);
                } else if a > pos as int {
                    assert(r@[a] == before[a - 1] && r@[b] == before[b - 1]);
                }
            }
            assert forall|y: u32| r@.contains(y) <==> (before.contains(y) || y == x) by {
                if r@.contains(y) {
                    let k = choose|k: int| 0 <= k < r@.len() && r@[k] == y;
                    if k < pos as int {
                        assert(before[k] == y);
                    } else if k > pos as int {
                        assert(before[k - 1] == y);
                    }
                }
                if before.contains(y) {
                    let k = choose|k: int| 0 <= k < before.len() && before[k] == y;
                    if k < pos as int {
                        assert(r@[k] == y);
                    } else {
                        assert(r@[k + 1] == y);
                    }
                }
                if y == x {
                    assert(r@[pos as int] == x);
                }
            }
        }
        else {
            assert(r@[pos as int] == x);
            assert(r@ == before);
            assert(before.contains(x));
        }
        assert(forall|y: u32| r@.contains(y) <==> (before.contains(y) || y == x));
        assert(values@.take(i + 1) == values@.take(i as int).push(x));
        assert forall|y: u32| r@.contains(y) <==> values@.take(i + 1).contains(y) by {
            assert(before.contains(y) <==> values@.take(i as int).contains(y));
            assert(r@.contains(y) <==> (before.contains(y) || y == x));
            if values@.take(i + 1).contains(y) && y != x {
                let k = choose|k: int| 0 <= k < i + 1 && #[trigger] values@.take(i + 1)[k] == y;
                assert(values@.take(i as int)[k] == y);
            }
            if values@.take(i as int).contains(y) {
                let k = choose|k: int| 0 <= k < i && #[trigger] values@.take(i as int)[k] == y;
                assert(values@.take(i + 1)[k] == y);
            }
            if y == x {
                assert(values@.take(i + 1)[i as int] == x);
            }
        }
        i = i + 1;
    }
    assert(values@.take(values.len() as int) == values@);
    r
}

impl PreviewPalette {
    /// Assigns each distinct filament its fallback color, or on a collision the
    /// next free color of the probe sequence, taking filaments in increasing order.
    pub fn new(filaments: &[u32]) -> (r: Result<PreviewPalette, PaletteError>)
        ensures
            r is Err <==> filaments@.to_set().len() > color_space(),
            r matches Ok(p) ==> p.wf() && strictly_increasing(p.filament_seq()) && forall|x: u32|
                #[trigger] p.filament_seq().contains(x) <==> filaments@.contains(x),
    {
        let sorted = sorted_distinct(filaments);
        proof {
            assert(sorted@.no_duplicates());
            sorted@.unique_seq_to_set();
            assert(sorted@.to_set() =~= filaments@.to_set());
        }
        if sorted.len() > 0x0100_0000 {
            return Err(PaletteError::TooManyFilaments);
        }
        let mut colors: Vec<u32> = Vec::new();
        let mut i: usize = 0;
        while i < sorted.len()
            invariant
                i <= sorted.len() <= color_space(),
                colors@ == assigned_colors(sorted@.take(i as int)),
            decreases sorted.len() - i,
        {
            let f = sorted[i];
            let start = fallback_preview_rgb(f);
            let ghost used = colors@;
            proof {
                lemma_assigned_colors_distinct(sorted@.take(i as int));
                lemma_free_color(used);
            }
            let ghost v = choose|v: int| is_free(used, v);
            assert(0 <= start < color_space()) by {
                if f >= 10 {
                    lemma_mod_bound(f as int * 2_654_435_761, 0x0100_0000);
                }
            }
            let ghost k = lemma_probe_reaches(start as int, v);
            let mut candidate: u32 = start;
            let ghost mut j: int = 0;
            proof {
                vstd::arithmetic::div_mod::lemma_small_mod(start as nat, color_space() as nat);
            }
            while color_in(&colors, candidate)
                invariant
                    0 <= j <= k < color_space(),
                    colors@ == used,
                    candidate as int == probe(start as int, j),
                    !used.contains(probe(start as int, k) as u32),
                    probe_search(used, start as int, 0) == probe_search(used, start as int, j),
                decreases k - j,
            {
                assert(j != k);
                proof {
                    lemma_add_mod_noop(start as int + j * probe_step(), probe_step(), color_space());
                    vstd::arithmetic::div_mod::lemma_mod_twice(start as int + j * probe_step(), color_space());
                    lemma_probe_bound(start as int, j);
                    lemma_add_mod_noop(probe(start as int, j), probe_step(), color_space());
                    vstd::arithmetic::div_mod::lemma_small_mod(probe_step() as nat, color_space() as nat);
                    assert((start as int + (j + 1) * probe_step()) == (start as int + j * probe_step()) + probe_step()) by (nonlinear_arith);
                }
                candidate = (candidate + 0x9e_37_79) % 0x0100_0000;
                proof {
                    j = j + 1;
                }
            }
            proof {
                lemma_probe_bound(start as int, j);
                assert(probe_search(used, start as int, j) == probe(start as int, j));
                assert(sorted@.take(i + 1).drop_last() == sorted@.take(i as int));
            }
            colors.push(candidate);
            i = i + 1;
        }
        assert(sorted@.take(sorted.len() as int) == sorted@);
        proof {
            lemma_assigned_colors_distinct(sorted@);
        }
        Ok(PreviewPalette { filaments: sorted, colors })
    }
}

fn color_in(colors: &Vec<u32>, c: u32) -> (b: bool)
    ensures
        b == colors@.contains(c),
{
    let mut i: usize = 0;
    while i < colors.len()
        invariant
            i <= colors.len(),
            forall|k: int| 0 <= k < i ==> colors@[k] != c,
        decreases colors.len() - i,
    {
        if colors[i] == c {
            return true;
        }
        i = i + 1;
    }
    false
}

/// Lowercase hexadecimal digit.
pub open spec fn hex_char(d: int) -> char {
    if d < 10 {
        (48 + d) as char
    } else {
        (87 + d) as char
    }
}

/// Six lowercase hex digits of a 24-bit value, as `format!("{v:06x}")` writes it.
pub open spec fn hex6(v: int) -> Seq<char> {
    seq![
        hex_char((v / 0x10_0000) % 16),
        hex_char((v / 0x1_0000) % 16),
        hex_char((v / 0x1000) % 16),
        hex_char((v / 0x100) % 16),
        hex_char((v / 0x10) % 16),
        hex_char(v % 16),
    ]
}

fn hex_digit(d: u32) -> (c: char)
    requires
        d < 16,
    ensures
        c == hex_char(d as int),
{
    if d < 10 {
        ((d as u8) + 48) as char
    } else {
        ((d as u8) + 87) as char
    }
}

/// The six lowercase hex digits of a 24-bit color.
pub fn hex6_string(v: u32) -> (s: String)
    ensures
        s@ == hex6(v as int),
{
    let mut chars: Vec<char> = Vec::new();
    chars.push(hex_digit((v / 0x10_0000) % 16));
    chars.push(hex_digit((v / 0x1_0000) % 16));
    chars.push(hex_digit((v / 0x1000) % 16));
    chars.push(hex_digit((v / 0x100) % 16));
    chars.push(hex_digit((v / 0x10) % 16));
    chars.push(hex_digit(v % 16));
    string_of(&chars)
}

impl PreviewPalette {
    /// The color given to a filament of the palette.
    pub closed spec fn color_of(&self, filament: u32) -> u32 {
        let i = choose|i: int| 0 <= i < self.filaments@.len() && self.filaments@[i] == filament;
        self.colors@[i]
    }

    /// The filament whose color is `rgb`, if any.
    pub closed spec fn owner(&self, rgb: u32) -> Option<u32> {
        if exists|i: int| 0 <= i < self.colors@.len() && self.colors@[i] == rgb {
            let i = choose|i: int| 0 <= i < self.colors@.len() && self.colors@[i] == rgb;
            Some(self.filaments@[i])
        } else {
            None
        }
    }

    /// The preview color of a filament, as six lowercase hex digits.
    pub fn color(&self, filament: u32) -> (s: String)
        requires
            self.wf(),
            self.filament_seq().contains(filament),
        ensures
            s@ == hex6(self.color_of(filament) as int),
    {
        let mut i: usize = 0;
        while i < self.filaments.len() && self.filaments[i] != filament
            invariant
                i <= self.filaments@.len(),
                self.filaments@.len() == self.colors@.len(),
                forall|k: int| 0 <= k < i ==> self.filaments@[k] != filament,
                self.filaments@.contains(filament),
            decreases self.filaments@.len() - i,
        {
            i = i + 1;
        }
        proof {
            if i == self.filaments@.len() {
                let k = choose|k: int| 0 <= k < self.filaments@.len() && self.filaments@[k] == filament;
                assert(self.filaments@[k] != filament);
            }
            let j = choose|j: int| 0 <= j < self.filaments@.len() && self.filaments@[j] == filament;
            assert(j == i) by {
                if j < i { assert(self.filaments@[j] != filament); }
                if j > i { assert(self.filaments@[i as int] < self.filaments@[j]); }
            }
        }
        hex6_string(self.colors[i])
    }

    /// The filament whose preview color has these channels, if any.
    pub fn filament(&self, red: u8, green: u8, blue: u8) -> (r: Option<u32>)
        requires
            self.wf(),
        ensures
            r == self.owner(channel_rgb(red, green, blue)),
    {
        let rgb: u32 = (red as u32) * 0x1_0000 + (green as u32) * 0x100 + (blue as u32);
        let mut i: usize = 0;
        while i < self.colors.len() && self.colors[i] != rgb
            invariant
                i <= self.colors@.len(),
                self.filaments@.len() == self.colors@.len(),
                forall|k: int| 0 <= k < i ==> self.colors@[k] != rgb,
            decreases self.colors@.len() - i,
        {
            i = i + 1;
        }
        if i == self.colors.len() {
            return None;
        }
        proof {
            lemma_assigned_colors_distinct(self.filaments@);
            let j = choose|j: int| 0 <= j < self.colors@.len() && self.colors@[j] == rgb;
            assert(j == i) by {
                if j < i { assert(self.colors@[j] != rgb); }
                if j > i { assert(self.colors@[i as int] != self.colors@[j]); }
            }
        }
        Some(self.filaments[i])
    }
}

/// A palette is reversible: the color of any of its filaments leads back to
/// that filament, and distinct filaments never share a color.
pub proof fn lemma_palette_is_reversible(palette: &PreviewPalette, filament: u32)
    requires
        palette.wf(),
        palette.filament_seq().contains(filament),
    ensures
        palette.color_of(filament) < color_space(),
        palette.owner(palette.color_of(filament)) == Some(filament),
{
    let fs = palette.filaments@;
    let cs = palette.colors@;
    lemma_assigned_colors_distinct(fs);
    let i = choose|i: int| 0 <= i < fs.len() && fs[i] == filament;
    assert(palette.color_of(filament) == cs[i]);
    let j = choose|j: int| 0 <= j < cs.len() && cs[j] == cs[i];
    assert(j == i) by {
        if j != i {
            if j < i { assert(cs[j] != cs[i]); } else { assert(cs[i] != cs[j]); }
        }
    }
}

/// The 24-bit color with these red, green and blue channels.
pub open spec fn channel_rgb(red: u8, green: u8, blue: u8) -> u32 {
    ((red as int) * 0x1_0000 + (green as int) * 0x100 + (blue as int)) as u32
}

/// The red, green and blue channels of a 24-bit color.
pub open spec fn channels(rgb: u32) -> (u8, u8, u8) {
    ((rgb / 0x1_0000) as u8, ((rgb / 0x100) % 0x100) as u8, (rgb % 0x100) as u8)
}

proof fn lemma_first_assigned(filaments: Seq<u32>)
    requires
        filaments.len() > 0,
    ensures
        assigned_colors(filaments).len() == filaments.len(),
        assigned_colors(filaments)[0] == first_free(Seq::empty(), filaments[0]),
    decreases filaments.len(),
{
    let prev = assigned_colors(filaments.drop_last());
    let next = first_free(prev, filaments.last());
    assert(assigned_colors(filaments) == prev.push(next));
    if filaments.len() > 1 {
        lemma_first_assigned(filaments.drop_last());
        assert(filaments.drop_last()[0] == filaments[0]);
        assert(prev.push(next)[0] == prev[0]);
    } else {
        assert(filaments.drop_last() =~= Seq::<u32>::empty());
        assert(prev =~= Seq::<u32>::empty());
        assert(filaments.last() == filaments[0]);
        assert(prev.push(next)[0] == next);
    }
}

proof fn lemma_fallback_is_free_when_nothing_is_taken(filament: u32)
    ensures
        first_free(Seq::empty(), filament) == fallback_rgb(filament),
{
    assert(0 <= (filament as int * 2_654_435_761) % 0x0100_0000 < 0x0100_0000) by (nonlinear_arith);
    let start = fallback_rgb(filament) as int;
    assert(0 <= start < color_space());
    assert(probe(start, 0) == start);
    assert(!Seq::<u32>::empty().contains(start as u32));
}

/// The lowest filament of a palette keeps its fallback color: filament 0, for
/// one, is always `eaeaea`.
pub proof fn lemma_lowest_filament_keeps_fallback(palette: &PreviewPalette)
    requires
        palette.wf(),
        palette.filament_seq().len() > 0,
    ensures
        palette.color_of(palette.filament_seq()[0]) == fallback_rgb(palette.filament_seq()[0]),
{
    lemma_palette_colors(palette);
    lemma_first_assigned(palette.filament_seq());
    lemma_fallback_is_free_when_nothing_is_taken(palette.filament_seq()[0]);
}

/// The colors of a palette are those assigned to its filaments in
/// increasing order; distinct filaments have distinct colors; a color leads
/// to the filament it was given to, and to none where no filament has it.
pub proof fn lemma_palette_colors(palette: &PreviewPalette)
    requires
        palette.wf(),
    ensures
        forall|i: int|
            0 <= i < palette.filament_seq().len() ==> #[trigger] palette.color_of(
                palette.filament_seq()[i],
            ) == assigned_colors(palette.filament_seq())[i],
        forall|f1: u32, f2: u32|
            palette.filament_seq().contains(f1) && palette.filament_seq().contains(f2) && f1 != f2
                ==> #[trigger] palette.color_of(f1) != #[trigger] palette.color_of(f2),
        forall|rgb: u32|
            #[trigger] palette.owner(rgb) is Some ==> palette.filament_seq().contains(
                palette.owner(rgb)->0,
            ) && palette.color_of(palette.owner(rgb)->0) == rgb,
        forall|rgb: u32|
            #[trigger] palette.owner(rgb) is None <==> forall|f: u32|
                palette.filament_seq().contains(f) ==> #[trigger] palette.color_of(f) != rgb,
{
    let fs = palette.filaments@;
    let cs = palette.colors@;
    lemma_assigned_colors_distinct(fs);
    assert forall|i: int| 0 <= i < fs.len() implies #[trigger] palette.color_of(fs[i]) == cs[i] by {
        let k = choose|k: int| 0 <= k < fs.len() && fs[k] == fs[i];
        if k < i {
            assert(fs[k] < fs[i]);
        } else if k > i {
            assert(fs[i] < fs[k]);
        }
    }
    assert forall|f1: u32, f2: u32|
        fs.contains(f1) && fs.contains(f2) && f1 != f2 implies #[trigger] palette.color_of(f1)
        != #[trigger] palette.color_of(f2) by {
        let i = choose|i: int| 0 <= i < fs.len() && fs[i] == f1;
        let j = choose|j: int| 0 <= j < fs.len() && fs[j] == f2;
        assert(palette.color_of(fs[i]) == cs[i]);
        assert(palette.color_of(fs[j]) == cs[j]);
        if i < j {
            assert(cs[i] != cs[j]);
        } else {
            assert(cs[j] != cs[i]);
        }
    }
    assert forall|rgb: u32| #[trigger] palette.owner(rgb) is Some implies fs.contains(
        palette.owner(rgb)->0,
    ) && palette.color_of(palette.owner(rgb)->0) == rgb by {
        let i = choose|i: int| 0 <= i < cs.len() && cs[i] == rgb;
        assert(fs[i] == palette.owner(rgb)->0);
        assert(palette.color_of(fs[i]) == cs[i]);
    }
    assert forall|rgb: u32| #[trigger] palette.owner(rgb) is None <==> forall|f: u32|
        fs.contains(f) ==> #[trigger] palette.color_of(f) != rgb by {
        if palette.owner(rgb) is None {
            assert forall|f: u32| fs.contains(f) implies #[trigger] palette.color_of(f) != rgb by {
                let i = choose|i: int| 0 <= i < fs.len() && fs[i] == f;
                assert(palette.color_of(fs[i]) == cs[i]);
            }
        } else {
            let i = choose|i: int| 0 <= i < cs.len() && cs[i] == rgb;
            assert(palette.color_of(fs[i]) == cs[i]);
            assert(fs.contains(fs[i]));
        }
    }
}

/// A filament's preview color, split into its red, green and blue channels,
/// leads back to the filament.
pub proof fn lemma_channels_lead_back(palette: &PreviewPalette, filament: u32)
    requires
        palette.wf(),
        palette.filament_seq().contains(filament),
    ensures
        channel_rgb(
            channels(palette.color_of(filament)).0,
            channels(palette.color_of(filament)).1,
            channels(palette.color_of(filament)).2,
        ) == palette.color_of(filament),
        palette.owner(
            channel_rgb(
                channels(palette.color_of(filament)).0,
                channels(palette.color_of(filament)).1,
                channels(palette.color_of(filament)).2,
            ),
        ) == Some(filament),
{
    lemma_palette_is_reversible(palette, filament);
    let c = palette.color_of(filament);
    assert(c / 0x1_0000 * 0x1_0000 + c / 0x100 % 0x100 * 0x100 + c % 0x100 == c) by (bit_vector)
        requires
            c < 0x100_0000,
    ;
    assert(c / 0x1_0000 < 0x100) by (bit_vector)
        requires
            c < 0x100_0000,
    ;
    assert(((c / 0x1_0000) as u8) as int == c / 0x1_0000);
    assert(((c / 0x100 % 0x100) as u8) as int == c / 0x100 % 0x100);
    assert(((c % 0x100) as u8) as int == c % 0x100);
}

impl PaletteError {
    /// The text that reports this error.
    pub fn message(&self) -> (m: &'static str)
        ensures
            m@ == "a preview cannot represent more than 2^24 distinct filaments"@,
    {
        "a preview cannot represent more than 2^24 distinct filaments"
    }
}
} // verus!
