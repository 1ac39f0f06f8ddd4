//! Building a label configuration from command-line pairs.
use vstd::prelude::*;
use crate::config::TextValue;
use crate::listing::{
    chars_le, chars_le_exec, lemma_chars_le_reflexive, lemma_chars_le_total,
    lemma_chars_le_transitive, ordered_keys, pair_keys,
};
use crate::svgcolors::strictly_sorted;
use crate::strings::{chars_of, debug_quoted, debug_text, push_str, string_of};

verus! {

broadcast use vstd::string::group_string_axioms;

/// Why command-line pairs were rejected.
#[derive(Debug, Clone, PartialEq, Eq)]
pub enum CreateError {
    /// An option was given a value without its partner.
    IncompletePairs { option: String },
    /// `--text` names a field twice.
    RepeatedTextField { field: String },
}

impl CreateError {
    /// The text that reports this error.
    pub fn message(&self) -> (m: String)
        ensures
            m@ == match self {
                CreateError::IncompletePairs { option } => option@
                    + " requires exactly two values each time"@,
                CreateError::RepeatedTextField { field } => "--text specifies field "@ + debug_quoted(field@)
                    + " more than once"@,
            },
    {
        let mut m = String::new();
        match self {
            CreateError::IncompletePairs { option } => {
                push_str(&mut m, option.as_str());
                push_str(&mut m, " requires exactly two values each time");
            },
            CreateError::RepeatedTextField { field } => {
                push_str(&mut m, "--text specifies field ");
                let quoted = debug_text(field.as_str());
                push_str(&mut m, quoted.as_str());
                push_str(&mut m, " more than once");
            },
        }
        m
    }
}

/// The values of a repeated two-value option, taken two at a time.
pub fn pairs(values: &[String], option: &str) -> (r: Result<Vec<(String, String)>, CreateError>)
    ensures
        values@.len() % 2 == 1 ==> (r matches Err(CreateError::IncompletePairs { option: o }) && o@
            == option@),
        values@.len() % 2 == 0 ==> (r matches Ok(v) && v@.len() * 2 == values@.len() && forall|
            i: int,
        | 0 <= i < v@.len() ==> #[trigger] v@[i].0 == values@[2 * i] && v@[i].1 == values@[2 * i
            + 1]),
{
    if values.len() % 2 != 0 {
        return Err(CreateError::IncompletePairs { option: option.to_owned() });
    }
    let mut v: Vec<(String, String)> = Vec::new();
    let mut i: usize = 0;
    while i < values.len() / 2
        invariant
            values@.len() % 2 == 0,
            i <= values@.len() / 2,
            v@.len() == i,
            forall|k: int| 0 <= k < i ==> #[trigger] v@[k].0 == values@[2 * k] && v@[k].1 == values@[2
                * k + 1],
        decreases values.len() / 2 - i,
    {
        let first = values[2 * i].clone();
        let second = values[2 * i + 1].clone();
        v.push((first, second));
        i = i + 1;
    }
    assert(v@.len() * 2 == values@.len()) by (nonlinear_arith)
        requires
            v@.len() == values@.len() / 2,
            values@.len() % 2 == 0,
    ;
    Ok(v)
}

/// A path as written into TOML: backslashes become forward slashes.
pub fn path_to_toml_string(path: &str) -> (r: String)
    ensures
        r@ == path@.map_values(|c: char| if c == '\\' { '/' } else { c }),
{
    let chars = chars_of(path);
    let mut out: Vec<char> = Vec::new();
    let mut i: usize = 0;
    while i < chars.len()
        invariant
            i <= chars.len(),
            chars@ == path@,
            out@ == path@.take(i as int).map_values(|c: char| if c == '\\' { '/' } else { c }),
        decreases chars.len() - i,
    {
        let c = chars[i];
        out.push(if c == '\\' { '/' } else { c });
        i = i + 1;
        assert(out@ =~= path@.take(i as int).map_values(|c: char| if c == '\\' { '/' } else { c }));
    }
    assert(path@.take(chars.len() as int) =~= path@);
    string_of(&out)
}

/// Text fields as plain values.
pub open spec fn field_views(fields: Seq<(String, TextValue)>) -> Seq<(Seq<char>, Seq<char>)> {
    fields.map_values(|f: (String, TextValue)| (f.0@, f.1.content@))
}

/// Text pairs as plain values.
pub open spec fn pair_views(pairs: Seq<(String, String)>) -> Seq<(Seq<char>, Seq<char>)> {
    pairs.map_values(|p: (String, String)| (p.0@, p.1@))
}

/// Puts a field with a new key into a table whose keys are in increasing
/// order, at its place.
fn insert_field(fields: &mut Vec<(String, TextValue)>, key: String, content: String)
    requires
        ordered_keys(old(fields)@),
        !pair_keys(old(fields)@).contains(key@),
    ensures
        ordered_keys(final(fields)@),
        final(fields)@.len() == old(fields)@.len() + 1,
        forall|x: (Seq<char>, Seq<char>)|
            field_views(final(fields)@).contains(x) <==> (field_views(old(fields)@).contains(x) || x
                == (key@, content@)),
{
    let ghost s = pair_keys(fields@);
    let ghost before = field_views(fields@);
    let wanted = chars_of(key.as_str());
    let mut pos: usize = 0;
    while pos < fields.len() && chars_le_exec(&chars_of(fields[pos].0.as_str()), &wanted)
        invariant
            pos <= fields@.len(),
            s == pair_keys(fields@),
            wanted@ == key@,
            forall|k: int| 0 <= k < pos ==> chars_le(#[trigger] s[k], key@),
        decreases fields.len() - pos,
    {
        pos = pos + 1;
    }
    proof {
        assert(s.len() == fields@.len());
        assert forall|k: int| 0 <= k < pos implies #[trigger] s[k] != key@ by {
            assert(s.contains(s[k]));
        }
        assert forall|k: int| pos <= k < s.len() implies !chars_le(#[trigger] s[k], key@) by {
            if chars_le(s[k], key@) && k > pos {
                lemma_sorted_keys(s, pos as int, k);
                lemma_chars_le_transitive(s[pos as int], s[k], key@);
            }
        }
    }
    let ghost item = (key@, content@);
    fields.insert(pos, (key, TextValue { content }));
    proof {
        let n = pair_keys(fields@);
        assert(n =~= s.insert(pos as int, item.0));
        assert forall|i: int, j: int| 0 <= i < j < n.len() implies chars_le(n[i], n[j]) && n[i]
            != n[j] by {
            if j < pos {
                lemma_sorted_keys(s, i, j);
            } else if j == pos {
                assert(n[i] == s[i]);
            } else if i < pos {
                lemma_sorted_keys(s, i, j - 1);
            } else if i == pos {
                assert(n[j] == s[j - 1]);
                lemma_chars_le_total(s[j - 1], item.0);
                lemma_chars_le_reflexive(item.0);
            } else {
                lemma_sorted_keys(s, i - 1, j - 1);
            }
        }
        assert(strictly_sorted(n));
        let v = field_views(fields@);
        assert(v =~= before.insert(pos as int, item));
        assert forall|x: (Seq<char>, Seq<char>)| v.contains(x) <==> (before.contains(x) || x == item) by {
            if v.contains(x) {
                let k = choose|k: int| 0 <= k < v.len() && v[k] == x;
                if k < pos {
                    assert(before[k] == x);
                } else if k > pos {
                    assert(before[k - 1] == x);
                }
            }
            if before.contains(x) {
                let k = choose|k: int| 0 <= k < before.len() && before[k] == x;
                if k < pos {
                    assert(v[k] == x);
                } else {
                    assert(v[k + 1] == x);
                }
            }
            if x == item {
                assert(v[pos as int] == x);
            }
        }
    }
}

proof fn lemma_sorted_keys(s: Seq<Seq<char>>, j: int, k: int)
    requires
        strictly_sorted(s),
        0 <= j < k < s.len(),
    ensures
        chars_le(s[j], s[k]),
        s[j] != s[k],
{
    assert(chars_le(s[j], s[k]));
}

/// Text fields from `--text FIELD CONTENT` pairs, keyed by field in
/// increasing order; a field may appear once.
pub fn text_fields(pairs: &Vec<(String, String)>) -> (r: Result<Vec<(String, TextValue)>, CreateError>)
    ensures
        match r {
            Ok(fields) => (forall|j: int, k: int|
                0 <= j < k < pairs@.len() ==> pairs@[j].0@ != pairs@[k].0@) && fields@.len()
                == pairs@.len() && ordered_keys(fields@) && forall|x: (Seq<char>, Seq<char>)|
                field_views(fields@).contains(x) <==> pair_views(pairs@).contains(x),
            Err(e) => exists|j: int, k: int|
                0 <= j < k < pairs@.len() && pairs@[j].0@ == pairs@[k].0@ && (forall|m: int, n: int|
                    0 <= n < m < k ==> pairs@[n].0@ != pairs@[m].0@) && e == CreateError::RepeatedTextField {
                    field: pairs@[k].0,
                },
        },
{
    let mut fields: Vec<(String, TextValue)> = Vec::new();
    let mut k: usize = 0;
    assert(strictly_sorted(pair_keys(fields@)));
    while k < pairs.len()
        invariant
            k <= pairs.len(),
            fields@.len() == k,
            ordered_keys(fields@),
            forall|j: int, m: int| 0 <= j < m < k ==> pairs@[j].0@ != pairs@[m].0@,
            forall|x: (Seq<char>, Seq<char>)|
                field_views(fields@).contains(x) <==> pair_views(pairs@).take(k as int).contains(x),
        decreases pairs.len() - k,
    {
        let mut j: usize = 0;
        while j < k
            invariant
                j <= k < pairs.len(),
                forall|t: int| 0 <= t < j ==> pairs@[t].0@ != pairs@[k as int].0@,
                forall|a: int, b: int| 0 <= a < b < k ==> pairs@[a].0@ != pairs@[b].0@,
            decreases k - j,
        {
            if pairs[j].0 == pairs[k].0 {
                assert(0 <= j < k < pairs@.len() && pairs@[j as int].0@ == pairs@[k as int].0@);
                return Err(CreateError::RepeatedTextField { field: pairs[k].0.clone() });
            }
            j = j + 1;
        }
        proof {
            if pair_keys(fields@).contains(pairs@[k as int].0@) {
                let i = choose|i: int| 0 <= i < fields@.len() && pair_keys(fields@)[i] == pairs@[k as int].0@;
                let x = field_views(fields@)[i];
                assert(field_views(fields@).contains(x));
                let t = choose|t: int| 0 <= t < k && pair_views(pairs@).take(k as int)[t] == x;
                assert(pairs@[t].0@ == pairs@[k as int].0@);
            }
        }
        let ghost old_views = field_views(fields@);
        insert_field(&mut fields, pairs[k].0.clone(), pairs[k].1.clone());
        proof {
            let taken = pair_views(pairs@).take(k + 1);
            assert(taken =~= pair_views(pairs@).take(k as int).push((pairs@[k as int].0@, pairs@[k as int].1@)));
            assert forall|x: (Seq<char>, Seq<char>)| field_views(fields@).contains(x) <==> taken.contains(x) by {
                if x == (pairs@[k as int].0@, pairs@[k as int].1@) {
                    assert(taken[k as int] == x);
                }
                if taken.contains(x) {
                    let t = choose|t: int| 0 <= t < taken.len() && taken[t] == x;
                    if t < k {
                        assert(pair_views(pairs@).take(k as int)[t] == x);
                    }
                }
                if pair_views(pairs@).take(k as int).contains(x) {
                    let t = choose|t: int| 0 <= t < k && pair_views(pairs@).take(k as int)[t] == x;
                    assert(taken[t] == x);
                }
            }
        }
        k = k + 1;
    }
    assert(pair_views(pairs@).take(pairs.len() as int) =~= pair_views(pairs@));
    Ok(fields)
}

} // verus!
