//! Which project files `list` reports, and in what order: the walked
//! files whose extension matches (ASCII case-insensitively), sorted.
use vstd::prelude::*;
use vstd::relations::{sorted_by, total_ordering};
use vstd::seq_lib::lemma_sorted_unique;
use crate::hexcolor::{lowercase, lowercase_chars};
use crate::strings::{chars_of, push_str, same_chars, string_of, strings_view, suffix_chars};
use crate::svgcolors::strictly_sorted;

verus! {

broadcast use vstd::seq_lib::group_to_multiset_ensures;

/// The index of the last `c` in `s`.
pub open spec fn last_index(s: Seq<char>, c: char) -> Option<int>
    decreases s.len(),
{
    if s.len() == 0 {
        None
    } else if s.last() == c {
        Some(s.len() - 1)
    } else {
        last_index(s.drop_last(), c)
    }
}

/// The final component of a `/`-separated path.
pub open spec fn file_name(path: Seq<char>) -> Seq<char> {
    match last_index(path, '/') {
        Some(k) => path.skip(k + 1),
        None => path,
    }
}

/// The extension of a path, as `Path::extension` documents it: the text
/// after the final `.` of the file name; none where the name has no `.`,
/// or only a leading one.
pub open spec fn extension(path: Seq<char>) -> Option<Seq<char>> {
    let name = file_name(path);
    match last_index(name, '.') {
        Some(k) => if k > 0 {
            Some(name.skip(k + 1))
        } else {
            None
        },
        None => None,
    }
}

/// Whether the extension of `path` is `wanted`, ignoring ASCII case.
pub open spec fn has_extension(path: Seq<char>, wanted: Seq<char>) -> bool {
    extension(path) matches Some(e) && lowercase(e) == lowercase(wanted)
}

/// Lexicographic order of character sequences (for UTF-8 text the same
/// order as that of its bytes).
pub open spec fn chars_le(a: Seq<char>, b: Seq<char>) -> bool
    decreases a.len(),
{
    if a.len() == 0 {
        true
    } else if b.len() == 0 {
        false
    } else if a[0] != b[0] {
        a[0] < b[0]
    } else {
        chars_le(a.drop_first(), b.drop_first())
    }
}

/// The order in which paths are listed.
pub open spec fn path_order() -> spec_fn(Seq<char>, Seq<char>) -> bool {
    |a: Seq<char>, b: Seq<char>| chars_le(a, b)
}

/// The test that selects the paths with a given extension.
pub open spec fn extension_filter(wanted: Seq<char>) -> spec_fn(Seq<char>) -> bool {
    |p: Seq<char>| has_extension(p, wanted)
}

/// The walked paths that carry the extension, in walk order.
pub open spec fn selected(paths: Seq<Seq<char>>, wanted: Seq<char>) -> Seq<Seq<char>> {
    paths.filter(extension_filter(wanted))
}

/// The listing: the selected paths, sorted.
pub open spec fn listed(paths: Seq<Seq<char>>, wanted: Seq<char>) -> Seq<Seq<char>> {
    selected(paths, wanted).sort_by(path_order())
}

proof fn lemma_last_index(s: Seq<char>, c: char)
    ensures
        last_index(s, c) matches Some(k) ==> 0 <= k < s.len() && s[k] == c,
    decreases s.len(),
{
    if s.len() > 0 && s.last() != c {
        lemma_last_index(s.drop_last(), c);
    }
}

pub(crate) proof fn lemma_chars_le_reflexive(a: Seq<char>)
    ensures
        chars_le(a, a),
    decreases a.len(),
{
    if a.len() > 0 {
        lemma_chars_le_reflexive(a.drop_first());
    }
}

pub(crate) proof fn lemma_chars_le_antisymmetric(a: Seq<char>, b: Seq<char>)
    requires
        chars_le(a, b),
        chars_le(b, a),
    ensures
        a == b,
    decreases a.len(),
{
    if a.len() == 0 {
        assert(b.len() == 0);
    } else {
        assert(b.len() > 0);
        assert(a[0] == b[0]);
        lemma_chars_le_antisymmetric(a.drop_first(), b.drop_first());
        assert(a.drop_first().len() == b.drop_first().len());
        assert forall|i: int| 0 <= i < a.len() implies a[i] == b[i] by {
            if i > 0 {
                assert(a[i] == a.drop_first()[i - 1]);
                assert(b[i] == b.drop_first()[i - 1]);
            }
        }
    }
    assert(a =~= b);
}

pub(crate) proof fn lemma_chars_le_transitive(a: Seq<char>, b: Seq<char>, c: Seq<char>)
    requires
        chars_le(a, b),
        chars_le(b, c),
    ensures
        chars_le(a, c),
    decreases a.len(),
{
    if a.len() > 0 && a[0] == b[0] && b[0] == c[0] {
        lemma_chars_le_transitive(a.drop_first(), b.drop_first(), c.drop_first());
    }
}

pub(crate) proof fn lemma_chars_le_total(a: Seq<char>, b: Seq<char>)
    ensures
        chars_le(a, b) || chars_le(b, a),
    decreases a.len(),
{
    if a.len() > 0 && b.len() > 0 && a[0] == b[0] {
        lemma_chars_le_total(a.drop_first(), b.drop_first());
    }
}

/// The listing order is a total order.
pub proof fn lemma_path_order_total()
    ensures
        total_ordering(path_order()),
{
    let le = path_order();
    assert forall|x: Seq<char>| #[trigger] le(x, x) by {
        lemma_chars_le_reflexive(x);
    }
    assert forall|x: Seq<char>, y: Seq<char>| #[trigger] le(x, y) && #[trigger] le(y, x) implies x
        == y by {
        lemma_chars_le_antisymmetric(x, y);
    }
    assert forall|x: Seq<char>, y: Seq<char>, z: Seq<char>| #[trigger] le(x, y) && #[trigger] le(
        y,
        z,
    ) implies le(x, z) by {
        lemma_chars_le_transitive(x, y, z);
    }
    assert forall|x: Seq<char>, y: Seq<char>| #[trigger] le(x, y) || #[trigger] le(y, x) by {
        lemma_chars_le_total(x, y);
    }
}

/// A listing is sorted, holds every walked path with the extension as
/// often as the walk gave it, and nothing else.
pub proof fn lemma_listing_is_sorted_selection(paths: Seq<Seq<char>>, wanted: Seq<char>)
    ensures
        sorted_by(listed(paths, wanted), path_order()),
        listed(paths, wanted).to_multiset() == selected(paths, wanted).to_multiset(),
        forall|i: int|
            0 <= i < listed(paths, wanted).len() ==> has_extension(
                #[trigger] listed(paths, wanted)[i],
                wanted,
            ),
        forall|i: int|
            0 <= i < paths.len() && has_extension(paths[i], wanted) ==> #[trigger] listed(
                paths,
                wanted,
            ).contains(paths[i]),
{
    lemma_path_order_total();
    let chosen = selected(paths, wanted);
    let out = listed(paths, wanted);
    chosen.lemma_sort_by_ensures(path_order());
    assert forall|i: int| 0 <= i < out.len() implies has_extension(#[trigger] out[i], wanted) by {
        assert(out.contains(out[i]));
        assert(chosen.to_multiset().count(out[i]) > 0);
        assert(chosen.contains(out[i]));
        let j = choose|j: int| 0 <= j < chosen.len() && chosen[j] == out[i];
        paths.lemma_filter_pred(extension_filter(wanted), j);
    }
    assert forall|i: int| 0 <= i < paths.len() && has_extension(paths[i], wanted) implies #[trigger] out.contains(
        paths[i],
    ) by {
        paths.lemma_filter_contains(extension_filter(wanted), i);
        assert(chosen.to_multiset().count(paths[i]) > 0);
        assert(out.to_multiset().count(paths[i]) > 0);
    }
}

/// The index of the last `c` in `chars`.
fn find_last(chars: &Vec<char>, c: char) -> (r: Option<usize>)
    ensures
        r matches Some(k) ==> last_index(chars@, c) == Some(k as int) && k < chars.len(),
        r is None ==> last_index(chars@, c) is None,
{
    let mut i: usize = chars.len();
    assert(chars@.take(i as int) =~= chars@);
    while i > 0
        invariant
            i <= chars.len(),
            last_index(chars@, c) == last_index(chars@.take(i as int), c),
        decreases i,
    {
        if chars[i - 1] == c {
            return Some(i - 1);
        }
        assert(chars@.take(i as int).drop_last() =~= chars@.take(i - 1));
        i = i - 1;
    }
    None
}

/// The extension of a path.
fn extension_chars(path: &Vec<char>) -> (r: Option<Vec<char>>)
    ensures
        match extension(path@) {
            Some(e) => r matches Some(v) && v@ == e,
            None => r is None,
        },
{
    proof {
        lemma_last_index(path@, '/');
    }
    let name = match find_last(path, '/') {
        Some(k) => suffix_chars(path, k + 1),
        None => suffix_chars(path, 0),
    };
    assert(path@.skip(0) =~= path@);
    assert(name@ == file_name(path@));
    proof {
        lemma_last_index(name@, '.');
    }
    match find_last(&name, '.') {
        Some(k) => if k > 0 {
            Some(suffix_chars(&name, k + 1))
        } else {
            None
        },
        None => None,
    }
}

/// Lexicographic comparison of two character vectors.
pub(crate) fn chars_le_exec(a: &Vec<char>, b: &Vec<char>) -> (r: bool)
    ensures
        r == chars_le(a@, b@),
{
    let mut i: usize = 0;
    assert(a@.skip(0) =~= a@);
    assert(b@.skip(0) =~= b@);
    while i < a.len()
        invariant
            i <= a.len(),
            i <= b.len(),
            chars_le(a@, b@) == chars_le(a@.skip(i as int), b@.skip(i as int)),
        decreases a.len() - i,
    {
        if i == b.len() {
            return false;
        }
        if a[i] != b[i] {
            return a[i] < b[i];
        }
        assert(a@.skip(i as int).drop_first() =~= a@.skip(i + 1));
        assert(b@.skip(i as int).drop_first() =~= b@.skip(i + 1));
        i = i + 1;
    }
    true
}

/// The character sequences held by a list of character vectors.
pub open spec fn chars_view(v: Seq<Vec<char>>) -> Seq<Seq<char>> {
    v.map_values(|p: Vec<char>| p@)
}

/// Where `x` goes in a sorted list: after every entry not above it.
pub(crate) fn insertion_point(sorted: &Vec<Vec<char>>, x: &Vec<char>) -> (pos: usize)
    ensures
        pos <= sorted.len(),
        forall|k: int| 0 <= k < pos ==> chars_le(#[trigger] chars_view(sorted@)[k], x@),
        pos < sorted.len() ==> !chars_le(chars_view(sorted@)[pos as int], x@),
{
    let mut pos: usize = 0;
    while pos < sorted.len()
        invariant
            pos <= sorted.len(),
            forall|k: int| 0 <= k < pos ==> chars_le(#[trigger] chars_view(sorted@)[k], x@),
        decreases sorted.len() - pos,
    {
        if !chars_le_exec(&sorted[pos], x) {
            return pos;
        }
        pos = pos + 1;
    }
    pos
}

proof fn lemma_insert_sorted(s: Seq<Seq<char>>, pos: int, x: Seq<char>)
    requires
        total_ordering(path_order()),
        sorted_by(s, path_order()),
        0 <= pos <= s.len(),
        forall|k: int| 0 <= k < pos ==> chars_le(#[trigger] s[k], x),
        pos < s.len() ==> !chars_le(s[pos], x),
    ensures
        sorted_by(s.insert(pos, x), path_order()),
        s.insert(pos, x).to_multiset() == s.to_multiset().insert(x),
{
    let le = path_order();
    let n = s.insert(pos, x);
    assert forall|i: int, j: int| 0 <= i < j < n.len() implies #[trigger] le(n[i], n[j]) by {
        if j < pos {
            assert(le(s[i], s[j]));
        } else if j == pos {
            assert(chars_le(s[i], x));
        } else if i < pos {
            assert(le(s[i], s[j - 1]));
        } else if i == pos {
            lemma_chars_le_total(s[pos], x);
            if j - 1 > pos {
                assert(le(s[pos], s[j - 1]));
                lemma_chars_le_transitive(x, s[pos], s[j - 1]);
            }
        } else {
            assert(le(s[i - 1], s[j - 1]));
        }
    }
    assert(n.remove(pos) =~= s);
    assert(n[pos] == x);
    assert(n.remove(pos).to_multiset() == n.to_multiset().remove(x));
    assert(n.to_multiset().count(x) > 0) by {
        assert(n.contains(x));
    }
    broadcast use vstd::multiset::group_multiset_axioms;
    assert(n.to_multiset() =~= s.to_multiset().insert(x));
}

/// The walked files (paths relative to the walked directory, `/`-separated)
/// whose extension is `extension`, ignoring ASCII case, sorted.
pub fn matching_files(paths: &Vec<String>, extension: &str) -> (r: Vec<String>)
    ensures
        strings_view(r@) == listed(strings_view(paths@), extension@),
{
    let wanted = lowercase_chars(&chars_of(extension));
    let ghost all = strings_view(paths@);
    let ghost pred = extension_filter(extension@);
    let mut sorted: Vec<Vec<char>> = Vec::new();
    proof {
        lemma_path_order_total();
        assert(all.take(0) =~= Seq::<Seq<char>>::empty());
        reveal(Seq::filter);
    }
    let mut i: usize = 0;
    while i < paths.len()
        invariant
            i <= paths.len(),
            all == strings_view(paths@),
            pred == extension_filter(extension@),
            wanted@ == lowercase(extension@),
            total_ordering(path_order()),
            sorted_by(chars_view(sorted@), path_order()),
            chars_view(sorted@).to_multiset() == all.take(i as int).filter(pred).to_multiset(),
        decreases paths.len() - i,
    {
        let p = chars_of(paths[i].as_str());
        assert(p@ == all[i as int]);
        let keep = match extension_chars(&p) {
            Some(e) => same_chars(&lowercase_chars(&e), &wanted),
            None => false,
        };
        assert(keep == pred(all[i as int]));
        proof {
            reveal(Seq::filter);
            assert(all.take(i + 1).drop_last() =~= all.take(i as int));
            assert(all.take(i + 1).last() == all[i as int]);
        }
        if keep {
            let pos = insertion_point(&sorted, &p);
            let ghost before = chars_view(sorted@);
            proof {
                lemma_insert_sorted(before, pos as int, p@);
            }
            sorted.insert(pos, p);
            assert(chars_view(sorted@) =~= before.insert(pos as int, p@));
            assert(all.take(i + 1).filter(pred) == all.take(i as int).filter(pred).push(p@));
        } else {
            assert(all.take(i + 1).filter(pred) == all.take(i as int).filter(pred));
        }
        i = i + 1;
    }
    let ghost chosen = all.filter(pred);
    proof {
        assert(all.take(paths.len() as int) =~= all);
        chosen.lemma_sort_by_ensures(path_order());
        lemma_sorted_unique(chars_view(sorted@), chosen.sort_by(path_order()), path_order());
    }
    let mut r: Vec<String> = Vec::new();
    let mut k: usize = 0;
    while k < sorted.len()
        invariant
            k <= sorted.len(),
            r.len() == k,
            forall|j: int| 0 <= j < k ==> #[trigger] r@[j]@ == sorted@[j]@,
        decreases sorted.len() - k,
    {
        r.push(string_of(&sorted[k]));
        k = k + 1;
    }
    assert(strings_view(r@) =~= chars_view(sorted@));
    r
}

/// Each path with a prefix put before it.
pub open spec fn prefixed(prefix: Seq<char>, paths: Seq<Seq<char>>) -> Seq<Seq<char>> {
    paths.map_values(|p: Seq<char>| prefix + p)
}

fn prefix_all(prefix: &str, paths: Vec<String>) -> (r: Vec<String>)
    ensures
        strings_view(r@) == prefixed(prefix@, strings_view(paths@)),
{
    let mut r: Vec<String> = Vec::new();
    let mut i: usize = 0;
    while i < paths.len()
        invariant
            i <= paths.len(),
            r.len() == i,
            forall|j: int| 0 <= j < i ==> #[trigger] r@[j]@ == prefix@ + paths@[j]@,
        decreases paths.len() - i,
    {
        let mut entry = String::new();
        push_str(&mut entry, prefix);
        push_str(&mut entry, paths[i].as_str());
        r.push(entry);
        i = i + 1;
    }
    assert(strings_view(r@) =~= prefixed(prefix@, strings_view(paths@)));
    r
}

/// What `list` reports of a project: its templates and icons (SVG files
/// below `templates/` and `icons/`) and its labels (TOML files below
/// `labels/`), each sorted and given as a path from the project root.
#[derive(Debug, Clone)]
pub struct ProjectEntries {
    pub root: String,
    pub templates: Vec<String>,
    pub icons: Vec<String>,
    pub labels: Vec<String>,
}

impl ProjectEntries {
    /// The entries from the files walked below each of the three
    /// directories, as paths relative to that directory.
    pub fn from_walks(root: String, templates: &Vec<String>, icons: &Vec<String>, labels: &Vec<String>) -> (r:
        ProjectEntries)
        ensures
            r.root == root,
            strings_view(r.templates@) == prefixed(
                "templates/"@,
                listed(strings_view(templates@), "svg"@),
            ),
            strings_view(r.icons@) == prefixed("icons/"@, listed(strings_view(icons@), "svg"@)),
            strings_view(r.labels@) == prefixed("labels/"@, listed(strings_view(labels@), "toml"@)),
    {
        ProjectEntries {
            root,
            templates: prefix_all("templates/", matching_files(templates, "svg")),
            icons: prefix_all("icons/", matching_files(icons, "svg")),
            labels: prefix_all("labels/", matching_files(labels, "toml")),
        }
    }
}

/// The keys of a table held as a list of pairs.
pub open spec fn pair_keys<V>(pairs: Seq<(String, V)>) -> Seq<Seq<char>> {
    pairs.map_values(|p: (String, V)| p.0@)
}

/// Whether a table held as a list of pairs has its keys distinct and in
/// increasing order, as a sorted map keeps them.
pub open spec fn ordered_keys<V>(pairs: Seq<(String, V)>) -> bool {
    strictly_sorted(pair_keys(pairs))
}

proof fn lemma_sorted_pair(s: Seq<Seq<char>>, j: int, k: int)
    requires
        strictly_sorted(s),
        0 <= j < k < s.len(),
    ensures
        chars_le(s[j], s[k]),
        s[j] != s[k],
{
    assert(chars_le(s[j], s[k]));
}

/// Whether the keys of a table are distinct and in increasing order.
pub fn keys_in_order<V>(pairs: &Vec<(String, V)>) -> (r: bool)
    ensures
        r == ordered_keys(pairs@),
{
    let ghost keys = pair_keys(pairs@);
    if pairs.len() == 0 {
        return true;
    }
    let mut i: usize = 1;
    while i < pairs.len()
        invariant
            1 <= i <= pairs.len(),
            keys == pair_keys(pairs@),
            strictly_sorted(keys.take(i as int)),
        decreases pairs.len() - i,
    {
        let a = chars_of(pairs[i - 1].0.as_str());
        let b = chars_of(pairs[i].0.as_str());
        assert(keys[i - 1] == a@ && keys[i as int] == b@);
        if !chars_le_exec(&a, &b) || same_chars(&a, &b) {
            assert(!strictly_sorted(keys)) by {
                assert(keys[i - 1] == keys.take(i as int + 1)[i - 1]);
            }
            return false;
        }
        proof {
            assert(keys.len() == pairs@.len());
            let t = keys.take(i + 1);
            assert(t.len() == i + 1);
            assert forall|j: int, k: int| 0 <= j < k < t.len() implies chars_le(t[j], t[k]) && t[j]
                != t[k] by {
                if k < i {
                    let p = keys.take(i as int);
                    assert(p.len() == i);
                    assert(strictly_sorted(p));
                    assert(t[j] == p[j] && t[k] == p[k]);
                    assert(chars_le(p[j], p[k]) && p[j] != p[k]);
                } else {
                    assert(t[k] == keys[i as int]);
                    if j == i - 1 {
                        assert(t[j] == keys[i - 1]);
                        assert(chars_le(a@, b@));
                        assert(a@ != b@);
                        assert(chars_le(t[j], t[k]) && t[j] != t[k]);
                    } else {
                        let p = keys.take(i as int);
                        assert(p.len() == i);
                        assert(strictly_sorted(p));
                        assert(0 <= j < i - 1);
                        assert(t[j] == p[j]);
                        assert(p[i - 1] == keys[i - 1]);
                        lemma_sorted_pair(p, j, i - 1);
                        lemma_chars_le_transitive(t[j], keys[i - 1], t[k]);
                        if t[j] == t[k] {
                            lemma_chars_le_antisymmetric(keys[i - 1], t[k]);
                        }
                    }
                }
            }
        }
        i = i + 1;
    }
    assert(keys.take(i as int) =~= keys);
    true
}

} // verus!
