//! Character-sequence helpers shared by the parsers and formatters.
use vstd::prelude::*;

verus! {

broadcast use vstd::string::group_string_axioms;

/// The ASCII character of a decimal digit.
pub open spec fn digit_char(d: nat) -> char {
    (48 + d) as char
}

/// Decimal digits of `n` without leading zeros (`"0"` for zero).
pub open spec fn decimal_digits(n: nat) -> Seq<char>
    decreases n,
{
    if n < 10 {
        seq![digit_char(n)]
    } else {
        decimal_digits(n / 10).push(digit_char(n % 10))
    }
}

/// `String::push` from std: appends one character.
#[verifier::external_body]
pub(crate) fn push_char(s: &mut String, c: char)
    ensures
        final(s)@ == old(s)@.push(c),
{
    s.push(c);
}

/// The text that `{:?}` writes for a string: the string in double quotes,
/// with quotes, backslashes and characters that do not print escaped.
pub uninterp spec fn debug_quoted(text: Seq<char>) -> Seq<char>;

/// Whether every character is printable ASCII other than `"` and `\\`, the
/// characters that `{:?}` writes unchanged.
pub open spec fn plain_ascii(text: Seq<char>) -> bool {
    forall|i: int|
        0 <= i < text.len() ==> ' ' <= #[trigger] text[i] && text[i] <= '~' && text[i] != '"'
            && text[i] != '\\'
}

/// `<str as Debug>::fmt`, through `format!("{:?}")`. Its result is named
/// `debug_quoted`; stated beside the name is what the documentation of
/// `str::escape_debug` gives for plain printable ASCII: it stays as it is,
/// between double quotes.
#[verifier::external_body]
pub(crate) fn debug_text(text: &str) -> (r: String)
    ensures
        r@ == debug_quoted(text@),
        plain_ascii(text@) ==> r@ == seq!['"'] + text@ + seq!['"'],
{
    format!("{:?}", text)
}

/// Appends a string slice.
pub fn push_str(s: &mut String, t: &str)
    ensures
        final(s)@ == old(s)@ + t@,
{
    s.append(t);
}

/// The characters of a string slice.
pub fn chars_of(s: &str) -> (v: Vec<char>)
    ensures
        v@ == s@,
{
    let mut v: Vec<char> = Vec::new();
    for c in it: s.chars()
        invariant
            v@ == it.seq().take(it.index() as int),
    {
        v.push(c);
    }
    v
}

/// A string holding exactly the given characters.
pub fn string_of(chars: &Vec<char>) -> (s: String)
    ensures
        s@ == chars@,
{
    let mut s = String::new();
    let mut i: usize = 0;
    while i < chars.len()
        invariant
            i <= chars.len(),
            s@ == chars@.take(i as int),
        decreases chars.len() - i,
    {
        push_char(&mut s, chars[i]);
        i = i + 1;
        assert(s@ == chars@.take(i as int));
    }
    assert(chars@.take(chars.len() as int) == chars@);
    s
}

proof fn lemma_decimal_digits_step(r: nat)
    ensures
        r < 10 ==> decimal_digits(r) == seq![digit_char(r)],
        r >= 10 ==> decimal_digits(r) == decimal_digits(r / 10).push(digit_char(r % 10)),
{
}

/// Decimal representation of an unsigned integer.
pub fn decimal_string(n: u64) -> (s: String)
    ensures
        s@ == decimal_digits(n as nat),
{
    let mut digits: Vec<char> = Vec::new();
    let mut rest: u64 = n;
    loop
        invariant_except_break
            decimal_digits(n as nat) == decimal_digits(rest as nat) + digits@,
        ensures
            decimal_digits(n as nat) == digits@,
        decreases rest,
    {
        let d: u64 = rest % 10;
        let c = ((d as u8) + 48u8) as char;
        proof {
            lemma_decimal_digits_step(rest as nat);
        }
        let ghost before = digits@;
        digits.insert(0, c);
        assert(digits@ == seq![c] + before);
        if rest < 10 {
            break;
        }
        assert(decimal_digits((rest / 10) as nat).push(c) + before
            == decimal_digits((rest / 10) as nat) + digits@);
        rest = rest / 10;
    }
    string_of(&digits)
}

/// Whether `pattern` occurs in `s` at index `k`.
pub open spec fn occurs_at(s: Seq<char>, pattern: Seq<char>, k: int) -> bool {
    0 <= k && k + pattern.len() <= s.len() && s.subrange(k, k + pattern.len()) == pattern
}

/// Whether `pattern` occurs in `chars` at `k`.
pub fn matches_at(chars: &Vec<char>, pattern: &Vec<char>, k: usize) -> (r: bool)
    ensures
        r == occurs_at(chars@, pattern@, k as int),
{
    if k > chars.len() || pattern.len() > chars.len() - k {
        return false;
    }
    let mut i: usize = 0;
    while i < pattern.len()
        invariant
            i <= pattern.len(),
            k + pattern.len() <= chars.len(),
            chars@.subrange(k as int, k + i) == pattern@.take(i as int),
        decreases pattern.len() - i,
    {
        if chars[k + i] != pattern[i] {
            assert(chars@.subrange(k as int, k + pattern.len())[i as int] == chars@[k + i]);
            return false;
        }
        assert(chars@.subrange(k as int, k + i + 1) =~= chars@.subrange(k as int, k + i).push(
            chars@[k + i],
        ));
        assert(pattern@.take(i + 1) =~= pattern@.take(i as int).push(pattern@[i as int]));
        i = i + 1;
    }
    assert(pattern@.take(pattern.len() as int) == pattern@);
    true
}

/// Whether `pattern` occurs anywhere in `s`.
pub open spec fn mentions(s: Seq<char>, pattern: Seq<char>) -> bool {
    exists|k: int| #[trigger] occurs_at(s, pattern, k)
}

/// Whether `pattern` occurs anywhere in `chars` (`str::contains`).
pub fn contains_chars(chars: &Vec<char>, pattern: &Vec<char>) -> (r: bool)
    ensures
        r == mentions(chars@, pattern@),
{
    let mut k: usize = 0;
    loop
        invariant
            k <= chars.len(),
            forall|j: int| 0 <= j < k ==> !occurs_at(chars@, pattern@, j),
        decreases chars.len() - k,
    {
        if matches_at(chars, pattern, k) {
            return true;
        }
        if k == chars.len() {
            assert forall|j: int| !occurs_at(chars@, pattern@, j) by {
                if 0 <= j && j < k {
                } else if j == k {
                }
            }
            return false;
        }
        k = k + 1;
    }
}

/// Whether `s` starts with `prefix`.
pub open spec fn has_prefix(s: Seq<char>, prefix: Seq<char>) -> bool {
    prefix.len() <= s.len() && s.take(prefix.len() as int) == prefix
}

/// Whether `s` ends with `suffix`.
pub open spec fn has_suffix(s: Seq<char>, suffix: Seq<char>) -> bool {
    suffix.len() <= s.len() && s.skip(s.len() - suffix.len()) == suffix
}

/// Whether `s` starts with `prefix`.
pub fn starts_with(s: &str, prefix: &str) -> (r: bool)
    ensures
        r == has_prefix(s@, prefix@),
{
    let chars = chars_of(s);
    let pattern = chars_of(prefix);
    if pattern.len() <= chars.len() {
        assert(chars@.subrange(0, pattern@.len() as int) =~= chars@.take(pattern@.len() as int));
    }
    matches_at(&chars, &pattern, 0)
}

/// Whether `s` ends with `suffix`.
pub fn ends_with(s: &str, suffix: &str) -> (r: bool)
    ensures
        r == has_suffix(s@, suffix@),
{
    let chars = chars_of(s);
    let pattern = chars_of(suffix);
    if pattern.len() > chars.len() {
        return false;
    }
    let k = chars.len() - pattern.len();
    assert(chars@.subrange(k as int, k + pattern@.len()) =~= chars@.skip(k as int));
    matches_at(&chars, &pattern, k)
}

/// The character sequences of a list of strings.
pub open spec fn strings_view(v: Seq<String>) -> Seq<Seq<char>> {
    Seq::new(v.len(), |i: int| v[i]@)
}

/// The names separated by commas.
pub open spec fn joined(names: Seq<Seq<char>>) -> Seq<char>
    decreases names.len(),
{
    if names.len() == 0 {
        seq![]
    } else if names.len() == 1 {
        names[0]
    } else {
        joined(names.drop_last()) + ", "@ + names.last()
    }
}

/// A list of names for a message; `(none)` for no names.
pub open spec fn name_list(names: Seq<Seq<char>>) -> Seq<char> {
    if names.len() == 0 {
        "(none)"@
    } else {
        joined(names)
    }
}

/// The names for a message, separated by commas.
pub fn display_names(names: &Vec<String>) -> (s: String)
    ensures
        s@ == name_list(strings_view(names@)),
{
    let ghost all = strings_view(names@);
    if names.len() == 0 {
        let mut s = String::new();
        push_str(&mut s, "(none)");
        return s;
    }
    let mut s = String::new();
    push_str(&mut s, names[0].as_str());
    let mut i: usize = 1;
    assert(all.take(1).drop_last().len() == 0);
    while i < names.len()
        invariant
            1 <= i <= names.len(),
            all == strings_view(names@),
            s@ == joined(all.take(i as int)),
        decreases names.len() - i,
    {
        push_str(&mut s, ", ");
        push_str(&mut s, names[i].as_str());
        assert(all.take(i + 1).drop_last() =~= all.take(i as int));
        i = i + 1;
    }
    assert(all.take(names.len() as int) =~= all);
    s
}

/// The index of the first `c` in `s`.
pub open spec fn first_index(s: Seq<char>, c: char) -> Option<int>
    decreases s.len(),
{
    if s.len() == 0 {
        None
    } else if s[0] == c {
        Some(0)
    } else {
        match first_index(s.drop_first(), c) {
            Some(i) => Some(i + 1),
            None => None,
        }
    }
}

pub proof fn lemma_first_index(s: Seq<char>, c: char)
    ensures
        first_index(s, c) matches Some(i) ==> 0 <= i < s.len() && s[i] == c && forall|k: int|
            0 <= k < i ==> s[k] != c,
        first_index(s, c) is None ==> forall|k: int| 0 <= k < s.len() ==> s[k] != c,
    decreases s.len(),
{
    if s.len() > 0 {
        lemma_first_index(s.drop_first(), c);
        if s[0] != c {
            assert forall|k: int| 1 <= k < s.len() implies s[k] == s.drop_first()[k - 1] by {}
        }
    }
}

/// The pieces of `s` between the separators `sep`, as `str::split` yields
/// them (one empty piece for empty text).
pub open spec fn split_on(s: Seq<char>, sep: char) -> Seq<Seq<char>>
    decreases s.len(),
{
    match first_index(s, sep) {
        None => seq![s],
        Some(i) => {
            proof {
                lemma_first_index(s, sep);
            }
            seq![s.take(i)] + split_on(s.skip(i + 1), sep)
        },
    }
}

/// The index of the first `c` in `chars`.
pub fn find_char(chars: &Vec<char>, c: char) -> (r: Option<usize>)
    ensures
        r matches Some(k) ==> first_index(chars@, c) == Some(k as int) && k < chars@.len()
            && chars@[k as int] == c,
        r is None ==> first_index(chars@, c) is None,
{
    proof {
        lemma_first_index(chars@, c);
    }
    let mut i: usize = 0;
    while i < chars.len()
        invariant
            i <= chars.len(),
            forall|k: int| 0 <= k < i ==> chars@[k] != c,
        decreases chars.len() - i,
    {
        if chars[i] == c {
            proof {
                lemma_first_index(chars@, c);
            }
            return Some(i);
        }
        i = i + 1;
    }
    None
}

/// The pieces of `chars` between separators.
pub fn split_chars(chars: &Vec<char>, sep: char) -> (r: Vec<Vec<char>>)
    ensures
        r@.len() == split_on(chars@, sep).len(),
        forall|i: int| 0 <= i < r@.len() ==> #[trigger] r@[i]@ == split_on(chars@, sep)[i],
{
    let mut pieces: Vec<Vec<char>> = Vec::new();
    let mut current: Vec<char> = Vec::new();
    let mut i: usize = 0;
    let ghost mut start: int = 0;
    assert(chars@.skip(0) =~= chars@);
    assert(pieces@.map_values(|p: Vec<char>| p@) + split_on(chars@, sep) =~= split_on(chars@, sep));
    while i < chars.len()
        invariant
            0 <= start <= i <= chars.len(),
            current@ == chars@.subrange(start, i as int),
            forall|k: int| start <= k < i ==> chars@[k] != sep,
            split_on(chars@, sep) == pieces@.map_values(|p: Vec<char>| p@) + split_on(chars@.skip(start), sep),
        decreases chars.len() - i,
    {
        if chars[i] == sep {
            let ghost rest = chars@.skip(start);
            proof {
                lemma_first_index(rest, sep);
                assert(rest[i - start] == sep);
                if let Some(j) = first_index(rest, sep) {
                    if j < i - start {
                        assert(rest[j] == chars@[start + j]);
                    }
                    assert(j == i - start);
                }
                assert(rest.take(i - start) =~= current@);
                assert(rest.skip(i - start + 1) =~= chars@.skip(i + 1));
            }
            let ghost before = pieces@.map_values(|p: Vec<char>| p@);
            pieces.push(current);
            assert(pieces@.map_values(|p: Vec<char>| p@) =~= before.push(current@));
            current = Vec::new();
            proof {
                start = i + 1;
            }
        } else {
            current.push(chars[i]);
        }
        i = i + 1;
        assert(current@ =~= chars@.subrange(start, i as int));
    }
    proof {
        let rest = chars@.skip(start);
        lemma_first_index(rest, sep);
        assert(rest =~= current@);
        if let Some(j) = first_index(rest, sep) {
            assert(rest[j] == chars@[start + j]);
        }
    }
    let ghost before = pieces@.map_values(|p: Vec<char>| p@);
    pieces.push(current);
    assert(pieces@.map_values(|p: Vec<char>| p@) =~= before.push(current@));
    let ghost all = pieces@.map_values(|p: Vec<char>| p@);
    assert forall|k: int| 0 <= k < pieces@.len() implies #[trigger] pieces@[k]@ == split_on(chars@, sep)[k] by {
        assert(all[k] == pieces@[k]@);
    }
    pieces
}

/// Whether two character vectors hold the same characters.
pub fn same_chars(a: &Vec<char>, b: &Vec<char>) -> (r: bool)
    ensures
        r == (a@ == b@),
{
    if a.len() != b.len() {
        return false;
    }
    let mut i: usize = 0;
    while i < a.len()
        invariant
            i <= a.len() == b.len(),
            forall|k: int| 0 <= k < i ==> a@[k] == b@[k],
        decreases a.len() - i,
    {
        if a[i] != b[i] {
            return false;
        }
        i = i + 1;
    }
    assert(a@ =~= b@);
    true
}

/// The first `n` characters of a vector.
pub fn prefix_chars(chars: &Vec<char>, n: usize) -> (r: Vec<char>)
    requires
        n <= chars.len(),
    ensures
        r@ == chars@.take(n as int),
{
    let mut r: Vec<char> = Vec::new();
    let mut i: usize = 0;
    while i < n
        invariant
            i <= n <= chars.len(),
            r@ == chars@.take(i as int),
        decreases n - i,
    {
        r.push(chars[i]);
        i = i + 1;
        assert(r@ =~= chars@.take(i as int));
    }
    r
}

/// The characters of a vector from index `n` on.
pub fn suffix_chars(chars: &Vec<char>, n: usize) -> (r: Vec<char>)
    requires
        n <= chars.len(),
    ensures
        r@ == chars@.skip(n as int),
{
    let mut r: Vec<char> = Vec::new();
    let mut i: usize = n;
    while i < chars.len()
        invariant
            n <= i <= chars.len(),
            r@ == chars@.subrange(n as int, i as int),
        decreases chars.len() - i,
    {
        r.push(chars[i]);
        i = i + 1;
        assert(r@ =~= chars@.subrange(n as int, i as int));
    }
    assert(chars@.subrange(n as int, chars.len() as int) =~= chars@.skip(n as int));
    r
}

} // verus!
