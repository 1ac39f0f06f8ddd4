//! Hex colors as written in SVG paint and label configuration.
use vstd::prelude::*;
use crate::strings::{chars_of, string_of};

verus! {

/// `char::is_whitespace`: the Unicode `White_Space` characters.
pub open spec fn is_whitespace(c: char) -> bool {
    ||| '\u{9}' <= c && c <= '\u{d}'
    ||| c == ' '
    ||| c == '\u{85}'
    ||| c == '\u{a0}'
    ||| c == '\u{1680}'
    ||| '\u{2000}' <= c && c <= '\u{200a}'
    ||| c == '\u{2028}'
    ||| c == '\u{2029}'
    ||| c == '\u{202f}'
    ||| c == '\u{205f}'
    ||| c == '\u{3000}'
}

/// `s` without leading whitespace.
pub open spec fn trim_start(s: Seq<char>) -> Seq<char>
    decreases s.len(),
{
    if s.len() > 0 && is_whitespace(s[0]) {
        trim_start(s.drop_first())
    } else {
        s
    }
}

/// `s` without trailing whitespace.
pub open spec fn trim_end(s: Seq<char>) -> Seq<char>
    decreases s.len(),
{
    if s.len() > 0 && is_whitespace(s.last()) {
        trim_end(s.drop_last())
    } else {
        s
    }
}

/// `str::trim`.
pub open spec fn trim(s: Seq<char>) -> Seq<char> {
    trim_end(trim_start(s))
}

pub open spec fn ascii_lower(c: char) -> char {
    if 'A' <= c && c <= 'Z' {
        ((c as u32) + 32) as char
    } else {
        c
    }
}

/// `str::to_ascii_lowercase`.
pub open spec fn lowercase(s: Seq<char>) -> Seq<char> {
    s.map_values(|c: char| ascii_lower(c))
}

pub open spec fn is_hex_digit(c: char) -> bool {
    ('0' <= c && c <= '9') || ('a' <= c && c <= 'f') || ('A' <= c && c <= 'F')
}

pub open spec fn all_hex(s: Seq<char>) -> bool {
    forall|i: int| 0 <= i < s.len() ==> is_hex_digit(#[trigger] s[i])
}

/// Each character written twice, as CSS expands `#abc` to `#aabbcc`.
pub open spec fn doubled(s: Seq<char>) -> Seq<char>
    decreases s.len(),
{
    if s.len() == 0 {
        Seq::empty()
    } else {
        doubled(s.drop_last()) + seq![s.last(), s.last()]
    }
}

/// The six lowercase hex digits of a color written as `#rgb`, `rgb`,
/// `#rrggbb` or `rrggbb` (case-insensitive, surrounding whitespace ignored).
pub open spec fn normalized_hex(value: Seq<char>) -> Option<Seq<char>> {
    let t = lowercase(trim(value));
    let digits = if t.len() > 0 && t[0] == '#' {
        t.drop_first()
    } else {
        t
    };
    if digits.len() == 3 && all_hex(digits) {
        Some(doubled(digits))
    } else if digits.len() == 6 && all_hex(digits) {
        Some(digits)
    } else {
        None
    }
}

pub fn is_whitespace_char(c: char) -> (b: bool)
    ensures
        b == is_whitespace(c),
{
    ('\u{9}' <= c && c <= '\u{d}') || c == ' ' || c == '\u{85}' || c == '\u{a0}' || c
        == '\u{1680}' || ('\u{2000}' <= c && c <= '\u{200a}') || c == '\u{2028}' || c
        == '\u{2029}' || c == '\u{202f}' || c == '\u{205f}' || c == '\u{3000}'
}

pub fn is_hex_digit_char(c: char) -> (b: bool)
    ensures
        b == is_hex_digit(c),
{
    ('0' <= c && c <= '9') || ('a' <= c && c <= 'f') || ('A' <= c && c <= 'F')
}

pub fn ascii_lower_char(c: char) -> (r: char)
    ensures
        r == ascii_lower(c),
{
    if 'A' <= c && c <= 'Z' {
        ((c as u8) + 32) as char
    } else {
        c
    }
}

/// `str::to_ascii_lowercase` on a character vector.
pub fn lowercase_chars(chars: &Vec<char>) -> (r: Vec<char>)
    ensures
        r@ == lowercase(chars@),
{
    let mut r: Vec<char> = Vec::new();
    let mut i: usize = 0;
    while i < chars.len()
        invariant
            i <= chars.len(),
            r@ == lowercase(chars@.take(i as int)),
        decreases chars.len() - i,
    {
        r.push(ascii_lower_char(chars[i]));
        i = i + 1;
        assert(r@ =~= lowercase(chars@.take(i as int)));
    }
    assert(chars@.take(chars.len() as int) =~= chars@);
    r
}

proof fn lemma_trim_start_skip(s: Seq<char>, i: int)
    requires
        0 <= i <= s.len(),
        forall|j: int| 0 <= j < i ==> is_whitespace(#[trigger] s[j]),
    ensures
        trim_start(s) == trim_start(s.subrange(i, s.len() as int)),
    decreases i,
{
    if i > 0 {
        assert(s.drop_first().subrange(i - 1, s.drop_first().len() as int) == s.subrange(
            i,
            s.len() as int,
        ));
        assert forall|j: int| 0 <= j < i - 1 implies is_whitespace(#[trigger] s.drop_first()[j]) by {
            assert(s.drop_first()[j] == s[j + 1]);
        }
        lemma_trim_start_skip(s.drop_first(), i - 1);
    } else {
        assert(s.subrange(0, s.len() as int) == s);
    }
}

proof fn lemma_trim_end_skip(s: Seq<char>, k: int)
    requires
        0 <= k <= s.len(),
        forall|j: int| k <= j < s.len() ==> is_whitespace(#[trigger] s[j]),
    ensures
        trim_end(s) == trim_end(s.subrange(0, k)),
    decreases s.len() - k,
{
    if k < s.len() {
        assert(s.drop_last().subrange(0, k) == s.subrange(0, k));
        lemma_trim_end_skip(s.drop_last(), k);
    } else {
        assert(s.subrange(0, k) == s);
    }
}

/// `str::trim` on characters.
pub fn trim_chars(s: &Vec<char>) -> (r: Vec<char>)
    ensures
        r@ == trim(s@),
{
    let mut start: usize = 0;
    while start < s.len() && is_whitespace_char(s[start])
        invariant
            start <= s.len(),
            forall|j: int| 0 <= j < start ==> is_whitespace(#[trigger] s@[j]),
        decreases s.len() - start,
    {
        start = start + 1;
    }
    let mut end: usize = s.len();
    while end > start && is_whitespace_char(s[end - 1])
        invariant
            start <= end <= s.len(),
            forall|j: int| end <= j < s.len() ==> is_whitespace(#[trigger] s@[j]),
        decreases end,
    {
        end = end - 1;
    }
    let ghost rest = s@.subrange(start as int, s.len() as int);
    proof {
        lemma_trim_start_skip(s@, start as int);
        if start < s.len() {
            assert(!is_whitespace(rest[0]));
        }
        assert(trim_start(rest) == rest);
        assert forall|j: int| end - start <= j < rest.len() implies is_whitespace(#[trigger] rest[j]) by {
            assert(rest[j] == s@[j + start]);
        }
        lemma_trim_end_skip(rest, end - start);
        let kept = rest.subrange(0, end - start);
        if end > start {
            assert(kept.last() == s@[end - 1]);
        }
        assert(trim_end(kept) == kept);
        assert(kept == s@.subrange(start as int, end as int));
    }
    let mut r: Vec<char> = Vec::new();
    let mut i: usize = start;
    while i < end
        invariant
            start <= i <= end <= s.len(),
            r@ == s@.subrange(start as int, i as int),
        decreases end - i,
    {
        r.push(s[i]);
        i = i + 1;
    }
    r
}

/// Normalizes a hex color to six lowercase digits without `#`.
pub fn normalize_hex_color(value: &str) -> (r: Option<String>)
    ensures
        r matches Some(s) ==> normalized_hex(value@) == Some(s@),
        r is None ==> normalized_hex(value@) is None,
{
    let raw = chars_of(value);
    let trimmed = trim_chars(&raw);
    let mut t: Vec<char> = Vec::new();
    let mut i: usize = 0;
    while i < trimmed.len()
        invariant
            i <= trimmed.len(),
            t@ == lowercase(trimmed@).take(i as int),
        decreases trimmed.len() - i,
    {
        t.push(ascii_lower_char(trimmed[i]));
        i = i + 1;
        assert(t@ == lowercase(trimmed@).take(i as int));
    }
    assert(lowercase(trimmed@).take(trimmed.len() as int) == lowercase(trimmed@));
    assert(t@ == lowercase(trim(value@)));
    let skip: usize = if t.len() > 0 && t[0] == '#' { 1 } else { 0 };
    let count = t.len() - skip;
    let ghost digits = t@.subrange(skip as int, t.len() as int);
    assert(digits == (if t@.len() > 0 && t@[0] == '#' { t@.drop_first() } else { t@ }));
    assert(digits.len() == count);
    if count != 3 && count != 6 {
        proof {
            let tt = lowercase(trim(value@));
            let dd = if tt.len() > 0 && tt[0] == '#' { tt.drop_first() } else { tt };
            assert(dd == digits);
            assert(dd.len() != 3 && dd.len() != 6);
        }
        return None;
    }
    let ghost expected = if all_hex(digits) {
        if digits.len() == 3 { Some(doubled(digits)) } else { Some(digits) }
    } else {
        None
    };
    assert(normalized_hex(value@) == expected);
    let mut j: usize = skip;
    while j < t.len()
        invariant
            skip <= j <= t.len(),
            normalized_hex(value@) == expected,
            expected == (if all_hex(digits) {
                if digits.len() == 3 { Some(doubled(digits)) } else { Some(digits) }
            } else {
                None
            }),
            digits == t@.subrange(skip as int, t.len() as int),
            forall|k: int| 0 <= k < j - skip ==> is_hex_digit(#[trigger] digits[k]),
        decreases t.len() - j,
    {
        if !is_hex_digit_char(t[j]) {
            assert(digits[j - skip] == t@[j as int]);
            return None;
        }
        assert(digits[j - skip] == t@[j as int]);
        j = j + 1;
    }
    assert(all_hex(digits));
    let mut out: Vec<char> = Vec::new();
    if count == 3 {
        let a = t[skip];
        let b = t[skip + 1];
        let c = t[skip + 2];
        out.push(a);
        out.push(a);
        out.push(b);
        out.push(b);
        out.push(c);
        out.push(c);
        proof {
            let d = digits;
            assert(d.drop_last().drop_last().drop_last() == Seq::<char>::empty());
            assert(d.drop_last().drop_last() == seq![a]);
            assert(d.drop_last() == seq![a, b]);
            assert(seq![a].drop_last() == Seq::<char>::empty());
            assert(doubled(Seq::<char>::empty()) == Seq::<char>::empty());
            assert(doubled(seq![a]) =~= seq![a, a]);
            assert(seq![a, b].drop_last() == seq![a]);
            assert(doubled(seq![a, b]) == seq![a, a, b, b]);
            assert(doubled(d) == seq![a, a, b, b, c, c]);
        }
    } else {
        let mut k: usize = skip;
        while k < t.len()
            invariant
                skip <= k <= t.len(),
                out@ == t@.subrange(skip as int, k as int),
            decreases t.len() - k,
        {
            out.push(t[k]);
            k = k + 1;
        }
    }
    Some(string_of(&out))
}

pub open spec fn is_lower_hex(c: char) -> bool {
    ('0' <= c && c <= '9') || ('a' <= c && c <= 'f')
}

proof fn lemma_doubled(s: Seq<char>)
    ensures
        doubled(s).len() == 2 * s.len(),
        forall|i: int| 0 <= i < doubled(s).len() ==> #[trigger] doubled(s)[i] == s[i / 2],
    decreases s.len(),
{
    if s.len() > 0 {
        lemma_doubled(s.drop_last());
        let d = doubled(s);
        let p = doubled(s.drop_last());
        assert forall|i: int| 0 <= i < d.len() implies #[trigger] d[i] == s[i / 2] by {
            if i < p.len() {
                assert(d[i] == p[i]);
                assert(s.drop_last()[i / 2] == s[i / 2]);
            } else {
                assert(i / 2 == s.len() - 1);
            }
        }
    }
}

pub proof fn lemma_normalized_is_lower_hex(value: Seq<char>)
    requires
        normalized_hex(value) is Some,
    ensures
        normalized_hex(value)->0.len() == 6,
        forall|i: int| 0 <= i < 6 ==> is_lower_hex(#[trigger] normalized_hex(value)->0[i]),
{
    let t = lowercase(trim(value));
    let digits = if t.len() > 0 && t[0] == '#' {
        t.drop_first()
    } else {
        t
    };
    assert forall|i: int| 0 <= i < digits.len() && is_hex_digit(digits[i]) implies is_lower_hex(
        #[trigger] digits[i],
    ) by {
        let k = if t.len() > 0 && t[0] == '#' {
            i + 1
        } else {
            i
        };
        assert(digits[i] == t[k]);
        let c = trim(value)[k];
        assert(t[k] == ascii_lower(c));
    }
    if digits.len() == 3 && all_hex(digits) {
        lemma_doubled(digits);
        assert forall|i: int| 0 <= i < 6 implies is_lower_hex(#[trigger] doubled(digits)[i]) by {
            assert(doubled(digits)[i] == digits[i / 2]);
            assert(is_hex_digit(digits[i / 2]));
        }
    } else {
        assert forall|i: int| 0 <= i < 6 implies is_lower_hex(#[trigger] digits[i]) by {
            assert(is_hex_digit(digits[i]));
        }
    }
}

/// A normalized color is its own normalization: six lowercase hex digits
/// normalize to themselves.
pub proof fn lemma_normalization_is_idempotent(value: Seq<char>)
    requires
        normalized_hex(value) is Some,
    ensures
        normalized_hex(normalized_hex(value)->0) == normalized_hex(value),
{
    let h = normalized_hex(value)->0;
    lemma_normalized_is_lower_hex(value);
    assert(!is_whitespace(h[0]));
    assert(!is_whitespace(h.last())) by {
        assert(is_lower_hex(h[5]));
    }
    assert(trim_start(h) == h);
    assert(trim_end(h) == h);
    assert(lowercase(h) =~= h) by {
        assert forall|i: int| 0 <= i < h.len() implies #[trigger] lowercase(h)[i] == h[i] by {
            assert(is_lower_hex(h[i]));
        }
    }
    assert(h[0] != '#');
    assert(all_hex(h)) by {
        assert forall|i: int| 0 <= i < h.len() implies is_hex_digit(#[trigger] h[i]) by {
            assert(is_lower_hex(h[i]));
        }
    }
}

} // verus!
