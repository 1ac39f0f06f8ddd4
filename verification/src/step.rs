//! Checks of a downloaded label STEP file: each filament must appear as
//! exactly one product and one solid body named `part-N`, with `N` zero-padded
//! to the width of the largest filament.
use vstd::prelude::*;
use vstd::utf8::{valid_utf8, decode_utf8};
use crate::onshape::optional_text;
use crate::listing::chars_le;
use crate::strings::{
    chars_of, decimal_digits, decimal_string, digit_char, display_names, matches_at, name_list, occurs_at,
    push_char, push_str, string_of, strings_view,
};

verus! {

broadcast use vstd::string::group_string_axioms;

/// `count` copies of the digit zero (none when `count` is not positive).
pub open spec fn zeros(count: int) -> Seq<char> {
    Seq::new(if count > 0 { count as nat } else { 0 }, |i: int| '0')
}

/// Decimal digits of `n`, left-padded with zeros to at least `width` characters.
pub open spec fn padded_decimal(n: nat, width: nat) -> Seq<char> {
    zeros(width - decimal_digits(n).len()) + decimal_digits(n)
}

/// The largest value, or zero for none.
pub open spec fn seq_max(values: Seq<u32>) -> nat
    decreases values.len(),
{
    if values.len() == 0 {
        0
    } else {
        let rest = seq_max(values.drop_last());
        if values.last() as nat > rest {
            values.last() as nat
        } else {
            rest
        }
    }
}

/// Number of digits of the largest filament (one when there is none).
pub open spec fn name_width(filaments: Seq<u32>) -> nat {
    if filaments.len() == 0 {
        1
    } else {
        decimal_digits(seq_max(filaments)).len()
    }
}

pub open spec fn part_prefix() -> Seq<char> {
    seq!['p', 'a', 'r', 't', '-']
}

/// The part name that a filament gets among names of the given width.
pub open spec fn filament_name(filament: u32, width: nat) -> Seq<char> {
    part_prefix() + padded_decimal(filament as nat, width)
}

/// The expected part names, one per filament, in the given order.
pub open spec fn expected_names(filaments: Seq<u32>) -> Seq<Seq<char>> {
    Seq::new(filaments.len(), |i: int| filament_name(filaments[i], name_width(filaments)))
}

proof fn lemma_digits_len_positive(n: nat)
    ensures
        decimal_digits(n).len() >= 1,
    decreases n,
{
    if n >= 10 {
        lemma_digits_len_positive(n / 10);
    }
}

proof fn lemma_digits_len_monotonic(a: nat, b: nat)
    requires
        a <= b,
    ensures
        decimal_digits(a).len() <= decimal_digits(b).len(),
    decreases b,
{
    if a >= 10 {
        lemma_digits_len_monotonic(a / 10, b / 10);
    } else if b >= 10 {
        lemma_digits_len_positive(b / 10);
    }
}

proof fn lemma_seq_max_bounds(values: Seq<u32>, i: int)
    requires
        0 <= i < values.len(),
    ensures
        values[i] as nat <= seq_max(values),
    decreases values.len(),
{
    if i < values.len() - 1 {
        lemma_seq_max_bounds(values.drop_last(), i);
    }
}

pub open spec fn pow10(n: nat) -> nat
    decreases n,
{
    if n == 0 {
        1
    } else {
        10 * pow10((n - 1) as nat)
    }
}

/// The number that a text of decimal digits denotes, read from the front.
pub open spec fn digits_number(s: Seq<char>) -> int
    decreases s.len(),
{
    if s.len() == 0 {
        0
    } else {
        (s[0] as int - 48) * pow10((s.len() - 1) as nat) + digits_number(s.drop_first())
    }
}

pub open spec fn all_decimal(s: Seq<char>) -> bool {
    forall|i: int| 0 <= i < s.len() ==> '0' <= #[trigger] s[i] && s[i] <= '9'
}

proof fn lemma_pow10_positive(n: nat)
    ensures
        pow10(n) >= 1,
    decreases n,
{
    if n > 0 {
        lemma_pow10_positive((n - 1) as nat);
    }
}

proof fn lemma_digits_number_bound(s: Seq<char>)
    requires
        all_decimal(s),
    ensures
        0 <= digits_number(s) < pow10(s.len()),
    decreases s.len(),
{
    if s.len() > 0 {
        let p = pow10((s.len() - 1) as nat);
        let d = s[0] as int - 48;
        assert(all_decimal(s.drop_first()));
        lemma_digits_number_bound(s.drop_first());
        lemma_pow10_positive((s.len() - 1) as nat);
        assert(0 <= d <= 9);
        assert(0 <= d * p <= 9 * p) by (nonlinear_arith)
            requires
                0 <= d <= 9,
                p >= 1,
        ;
    }
}

proof fn lemma_digits_number_push(s: Seq<char>, c: char)
    ensures
        digits_number(s.push(c)) == digits_number(s) * 10 + (c as int - 48),
    decreases s.len(),
{
    if s.len() > 0 {
        assert(s.push(c).drop_first() =~= s.drop_first().push(c));
        lemma_digits_number_push(s.drop_first(), c);
        let p = pow10((s.len() - 1) as nat);
        let d = s[0] as int - 48;
        assert(s.push(c)[0] == s[0]);
        assert(pow10(s.len()) == 10 * p);
        assert(digits_number(s.push(c)) == d * pow10(s.len()) + digits_number(
            s.drop_first().push(c),
        ));
        assert(digits_number(s) == d * p + digits_number(s.drop_first()));
        assert(d * (10 * p) == (d * p) * 10) by (nonlinear_arith);
        assert(d * pow10(s.len()) == (d * p) * 10);
        assert(digits_number(s.push(c)) == (d * p) * 10 + digits_number(s.drop_first()) * 10 + (c
            as int - 48));
    } else {
        assert(s.push(c).drop_first() =~= Seq::<char>::empty());
        assert(s.push(c)[0] == c);
        assert(pow10(0) == 1);
        assert(digits_number(Seq::<char>::empty()) == 0);
        assert(s.push(c).len() == 1);
        assert(digits_number(s.push(c)) == (c as int - 48) * pow10(0) + digits_number(
            s.push(c).drop_first(),
        ));
    }
}

proof fn lemma_decimal_digits_number(n: nat)
    ensures
        digits_number(decimal_digits(n)) == n,
        all_decimal(decimal_digits(n)),
    decreases n,
{
    if n < 10 {
        let c = digit_char(n);
        assert((c as int) == 48 + n);
        assert(seq![c].drop_first() =~= Seq::<char>::empty());
        assert(pow10(0) == 1);
        assert(digits_number(Seq::<char>::empty()) == 0);
        assert(seq![c][0] == c);
        assert(digits_number(seq![c]) == (c as int - 48) * pow10(0) + digits_number(
            seq![c].drop_first(),
        ));
    } else {
        lemma_decimal_digits_number(n / 10);
        let c = digit_char(n % 10);
        assert((c as int) == 48 + n % 10);
        lemma_digits_number_push(decimal_digits(n / 10), c);
        assert((n / 10) * 10 + n % 10 == n) by (nonlinear_arith);
        let all = decimal_digits(n);
        assert(all == decimal_digits(n / 10).push(c));
        assert forall|i: int| 0 <= i < all.len() implies '0' <= #[trigger] all[i] && all[i] <= '9' by {
            if i < all.len() - 1 {
                assert(all[i] == decimal_digits(n / 10)[i]);
            }
        }
    }
}

proof fn lemma_zeros_number(k: int, b: Seq<char>)
    ensures
        digits_number(zeros(k) + b) == digits_number(b),
    decreases k,
{
    if k > 0 {
        let x = zeros(k) + b;
        assert(x[0] == '0');
        assert(x.drop_first() =~= zeros(k - 1) + b);
        lemma_zeros_number(k - 1, b);
    } else {
        assert(zeros(k) + b =~= b);
    }
}

proof fn lemma_number_order(s: Seq<char>, t: Seq<char>)
    requires
        s.len() == t.len(),
        all_decimal(s),
        all_decimal(t),
        digits_number(s) < digits_number(t),
    ensures
        chars_le(s, t),
        s != t,
    decreases s.len(),
{
    if s.len() == 0 {
        assert(digits_number(s) == 0 && digits_number(t) == 0);
    }
    let p = pow10((s.len() - 1) as nat);
    let ds = s[0] as int - 48;
    let dt = t[0] as int - 48;
    assert(all_decimal(s.drop_first()));
    assert(all_decimal(t.drop_first()));
    lemma_digits_number_bound(s.drop_first());
    lemma_digits_number_bound(t.drop_first());
    if s[0] == t[0] {
        lemma_number_order(s.drop_first(), t.drop_first());
    } else if s[0] > t[0] {
        assert(ds * p >= dt * p + p) by (nonlinear_arith)
            requires
                ds >= dt + 1,
                p >= 0,
        ;
        assert(digits_number(s) == ds * p + digits_number(s.drop_first()));
        assert(digits_number(t) == dt * p + digits_number(t.drop_first()));
        assert(false);
    }
}

proof fn lemma_prefixed_order(p: Seq<char>, s: Seq<char>, t: Seq<char>)
    requires
        chars_le(s, t),
        s != t,
    ensures
        chars_le(p + s, p + t),
        p + s != p + t,
    decreases p.len(),
{
    assert((p + s).skip(p.len() as int) =~= s);
    assert((p + t).skip(p.len() as int) =~= t);
    if p.len() > 0 {
        assert((p + s).drop_first() =~= p.drop_first() + s);
        assert((p + t).drop_first() =~= p.drop_first() + t);
        lemma_prefixed_order(p.drop_first(), s, t);
    } else {
        assert(p + s =~= s);
        assert(p + t =~= t);
    }
}

/// Part names sort as their filaments do: the name of a lower filament comes
/// first in lexicographic order.
pub proof fn lemma_names_sort_as_filaments(filaments: Seq<u32>, i: int, j: int)
    requires
        0 <= i < filaments.len(),
        0 <= j < filaments.len(),
        filaments[i] < filaments[j],
    ensures
        chars_le(expected_names(filaments)[i], expected_names(filaments)[j]),
        expected_names(filaments)[i] != expected_names(filaments)[j],
{
    let w = name_width(filaments);
    let m = filaments[i] as nat;
    let n = filaments[j] as nat;
    lemma_seq_max_bounds(filaments, j);
    lemma_digits_len_monotonic(n, seq_max(filaments));
    lemma_digits_len_monotonic(m, n);
    lemma_decimal_digits_number(m);
    lemma_decimal_digits_number(n);
    let a = padded_decimal(m, w);
    let b = padded_decimal(n, w);
    lemma_zeros_number(w - decimal_digits(m).len(), decimal_digits(m));
    lemma_zeros_number(w - decimal_digits(n).len(), decimal_digits(n));
    assert(all_decimal(a)) by {
        assert forall|k: int| 0 <= k < a.len() implies '0' <= #[trigger] a[k] && a[k] <= '9' by {
            let z = w - decimal_digits(m).len();
            if k >= z {
                assert(a[k] == decimal_digits(m)[k - z]);
            }
        }
    }
    assert(all_decimal(b)) by {
        assert forall|k: int| 0 <= k < b.len() implies '0' <= #[trigger] b[k] && b[k] <= '9' by {
            let z = w - decimal_digits(n).len();
            if k >= z {
                assert(b[k] == decimal_digits(n)[k - z]);
            }
        }
    }
    lemma_number_order(a, b);
    lemma_prefixed_order(part_prefix(), a, b);
}

/// Zero-padded part names for the filaments of a label, in their order.
pub fn expected_filament_names(filaments: &[u32]) -> (names: Vec<String>)
    ensures
        strings_view(names@) == expected_names(filaments@),
{
    let mut largest: u32 = 0;
    let mut i: usize = 0;
    while i < filaments.len()
        invariant
            i <= filaments.len(),
            largest as nat == seq_max(filaments@.take(i as int)),
        decreases filaments.len() - i,
    {
        assert(filaments@.take(i + 1).drop_last() == filaments@.take(i as int));
        if filaments[i] > largest {
            largest = filaments[i];
        }
        i = i + 1;
    }
    assert(filaments@.take(filaments.len() as int) == filaments@);
    let width: usize = if filaments.len() == 0 {
        1
    } else {
        decimal_string(largest as u64).unicode_len()
    };
    assert(width == name_width(filaments@));
    let mut names: Vec<String> = Vec::new();
    let mut k: usize = 0;
    while k < filaments.len()
        invariant
            k <= filaments.len(),
            width == name_width(filaments@),
            strings_view(names@) == expected_names(filaments@).take(k as int),
        decreases filaments.len() - k,
    {
        let digits = decimal_string(filaments[k] as u64);
        let mut name = String::new();
        push_str(&mut name, "part-");
        proof {
            reveal_strlit("part-");
        }
        let mut padding: usize = 0;
        let count = digits.unicode_len();
        while padding + count < width
            invariant
                name@ == part_prefix() + zeros(padding as int),
                padding + count <= width || padding == 0,
                k < filaments.len(),
                digits@ == decimal_digits(filaments@[k as int] as nat),
                count == digits@.len(),
            decreases width - padding,
        {
            push_char(&mut name, '0');
            padding = padding + 1;
            assert(zeros(padding as int) == zeros(padding - 1).push('0'));
        }
        assert(zeros(padding as int) == zeros(width - count));
        push_str(&mut name, digits.as_str());
        assert(name@ == filament_name(filaments@[k as int], width as nat));
        let ghost before = names@;
        names.push(name);
        assert(strings_view(names@) =~= strings_view(before).push(name@));
        assert(expected_names(filaments@).take(k + 1) =~= expected_names(filaments@).take(
            k as int,
        ).push(expected_names(filaments@)[k as int]));
        k = k + 1;
    }
    assert(expected_names(filaments@).take(filaments.len() as int) == expected_names(filaments@));
    names
}

/// Every expected name has the same length: the prefix and the width of the
/// largest filament.
pub proof fn lemma_names_share_width(filaments: Seq<u32>, i: int)
    requires
        0 <= i < filaments.len(),
    ensures
        expected_names(filaments)[i].len() == 5 + name_width(filaments),
{
    lemma_seq_max_bounds(filaments, i);
    lemma_digits_len_monotonic(filaments[i] as nat, seq_max(filaments));
}

/// Index of the first line feed at or after `i`, or the length when there is none.
pub open spec fn line_break(s: Seq<char>, i: int) -> int
    decreases s.len() - i,
{
    if i < 0 || i >= s.len() {
        s.len() as int
    } else if s[i] == '\n' {
        i
    } else {
        line_break(s, i + 1)
    }
}

pub proof fn lemma_line_break(s: Seq<char>, i: int)
    requires
        0 <= i <= s.len(),
    ensures
        i <= line_break(s, i) <= s.len(),
        forall|k: int| i <= k < line_break(s, i) ==> s[k] != '\n',
        line_break(s, i) < s.len() ==> s[line_break(s, i)] == '\n',
    decreases s.len() - i,
{
    if i < s.len() && s[i] != '\n' {
        lemma_line_break(s, i + 1);
    }
}

/// The lines of `s` from index `i` on, as `str::lines` yields them: split at
/// each line feed, with a carriage return before the line feed removed, and
/// no empty line after a final line feed.
pub open spec fn text_lines(s: Seq<char>, i: int) -> Seq<Seq<char>>
    decreases s.len() + 1 - i,
{
    if i < 0 || i >= s.len() {
        seq![]
    } else {
        let j = line_break(s, i);
        let raw = s.subrange(i, j);
        let line = if j < s.len() && raw.len() > 0 && raw.last() == '\r' {
            raw.drop_last()
        } else {
            raw
        };
        proof {
            lemma_line_break(s, i);
        }
        seq![line] + text_lines(s, j + 1)
    }
}

/// The first index at or after `k` at which `pattern` occurs in `s`.
pub open spec fn find_from(s: Seq<char>, pattern: Seq<char>, k: int) -> Option<int>
    decreases s.len() + 1 - k,
{
    if k < 0 || k + pattern.len() > s.len() {
        None
    } else if occurs_at(s, pattern, k) {
        Some(k)
    } else {
        find_from(s, pattern, k + 1)
    }
}

/// The content of a STEP string whose opening quote precedes `s`: characters
/// up to the first lone quote, with each doubled quote read as one. `None`
/// when no closing quote follows.
pub open spec fn step_string(s: Seq<char>) -> Option<Seq<char>>
    decreases s.len(),
{
    if s.len() == 0 {
        None
    } else if s[0] != '\'' {
        match step_string(s.drop_first()) {
            Some(rest) => Some(seq![s[0]] + rest),
            None => None,
        }
    } else if s.len() >= 2 && s[1] == '\'' {
        match step_string(s.skip(2)) {
            Some(rest) => Some(seq!['\''] + rest),
            None => None,
        }
    } else {
        Some(seq![])
    }
}

/// The names of the records that `marker` introduces, line by line in file
/// order; `None` when one of them is not a terminated string.
pub open spec fn records(lines: Seq<Seq<char>>, marker: Seq<char>) -> Option<Seq<Seq<char>>>
    decreases lines.len(),
{
    if lines.len() == 0 {
        Some(seq![])
    } else {
        let line = lines[0];
        let rest = records(lines.drop_first(), marker);
        match find_from(line, marker, 0) {
            None => rest,
            Some(k) => match step_string(line.skip(k + marker.len())) {
                None => None,
                Some(name) => match rest {
                    None => None,
                    Some(names) => Some(seq![name] + names),
                },
            },
        }
    }
}

/// How often `x` occurs in `s`.
pub open spec fn occurrences(s: Seq<Seq<char>>, x: Seq<char>) -> nat
    decreases s.len(),
{
    if s.len() == 0 {
        0
    } else {
        occurrences(s.drop_last(), x) + if s.last() == x {
            1nat
        } else {
            0nat
        }
    }
}

/// Both lists hold the same names equally often, in any order.
pub open spec fn same_names(a: Seq<Seq<char>>, b: Seq<Seq<char>>) -> bool {
    forall|x: Seq<char>| occurrences(a, x) == occurrences(b, x)
}

/// The two kinds of named STEP records that a label must hold.
#[derive(Debug, Clone, Copy, PartialEq, Eq)]
pub enum StepRecord {
    Product,
    SolidBody,
}

pub open spec fn record_marker(record: StepRecord) -> Seq<char> {
    match record {
        StepRecord::Product => seq!['P', 'R', 'O', 'D', 'U', 'C', 'T', '(', '\''],
        StepRecord::SolidBody => seq![
            'M', 'A', 'N', 'I', 'F', 'O', 'L', 'D', '_', 'S', 'O', 'L', 'I', 'D', '_', 'B',
            'R', 'E', 'P', '(', '\'',
        ],
    }
}

pub open spec fn step_header() -> Seq<char> {
    seq!['I', 'S', 'O', '-', '1', '0', '3', '0', '3', '-', '2', '1', ';']
}

/// Why a downloaded label STEP was rejected.
#[derive(Debug, Clone, PartialEq, Eq)]
pub enum StepError {
    /// The bytes are not UTF-8 text.
    NotUtf8,
    /// The text does not start with the ISO-10303-21 header.
    NotStep,
    /// A record name is not a terminated STEP string.
    MalformedName { record: StepRecord },
    /// The record names differ from the expected part names.
    UnexpectedNames { record: StepRecord, expected: Vec<String>, received: Vec<String> },
}

/// The mathematical content of a [`StepError`].
pub enum StepFault {
    NotUtf8,
    NotStep,
    MalformedName(StepRecord),
    UnexpectedNames(StepRecord, Seq<Seq<char>>, Seq<Seq<char>>),
}

impl StepError {
    pub open spec fn view(&self) -> StepFault {
        match self {
            StepError::NotUtf8 => StepFault::NotUtf8,
            StepError::NotStep => StepFault::NotStep,
            StepError::MalformedName { record } => StepFault::MalformedName(*record),
            StepError::UnexpectedNames { record, expected, received } => StepFault::UnexpectedNames(
                *record,
                strings_view(expected@),
                strings_view(received@),
            ),
        }
    }
}

/// The verdict on the records of one kind.
pub open spec fn record_verdict(text: Seq<char>, record: StepRecord, expected: Seq<Seq<char>>) -> Result<(), StepFault> {
    match records(text_lines(text, 0), record_marker(record)) {
        None => Err(StepFault::MalformedName(record)),
        Some(names) => if same_names(names, expected) {
            Ok(())
        } else {
            Err(StepFault::UnexpectedNames(record, expected, names))
        },
    }
}

/// The verdict on a downloaded label STEP for the given filaments.
pub open spec fn label_step_verdict(bytes: Seq<u8>, filaments: Seq<u32>) -> Result<(), StepFault> {
    step_verdict(bytes, expected_names(filaments))
}

/// The verdict on a downloaded STEP whose products and solid bodies must be
/// named exactly `expected`, as often as there.
pub open spec fn step_verdict(bytes: Seq<u8>, expected: Seq<Seq<char>>) -> Result<(), StepFault> {
    if !valid_utf8(bytes) {
        Err(StepFault::NotUtf8)
    } else {
        let text = decode_utf8(bytes);
        if !(text.len() >= step_header().len() && text.take(step_header().len() as int) == step_header()) {
            Err(StepFault::NotStep)
        } else {
            match record_verdict(text, StepRecord::Product, expected) {
                Err(e) => Err(e),
                Ok(()) => record_verdict(text, StepRecord::SolidBody, expected),
            }
        }
    }
}

/// `std::str::from_utf8`: the text that the bytes encode, or `None` when they
/// are not valid UTF-8.
#[verifier::external_body]
fn utf8_text(bytes: &[u8]) -> (r: Option<String>)
    ensures
        r is Some <==> valid_utf8(bytes@),
        r matches Some(text) ==> text@ == decode_utf8(bytes@),
{
    match std::str::from_utf8(bytes) {
        Ok(text) => Some(text.to_owned()),
        Err(_) => None,
    }
}

/// The index of the first line feed at or after `start`, or the length.
fn next_line_break(chars: &Vec<char>, start: usize) -> (end: usize)
    requires
        start <= chars.len(),
    ensures
        end == line_break(chars@, start as int),
{
    let mut j = start;
    while j < chars.len() && chars[j] != '\n'
        invariant
            start <= j <= chars.len(),
            line_break(chars@, start as int) == line_break(chars@, j as int),
        decreases chars.len() - j,
    {
        j = j + 1;
    }
    j
}

/// A copy of `chars[from..to]`.
fn slice_chars(chars: &Vec<char>, from: usize, to: usize) -> (r: Vec<char>)
    requires
        from <= to <= chars.len(),
    ensures
        r@ == chars@.subrange(from as int, to as int),
{
    let mut r: Vec<char> = Vec::new();
    let mut i = from;
    while i < to
        invariant
            from <= i <= to <= chars.len(),
            r@ == chars@.subrange(from as int, i as int),
        decreases to - i,
    {
        r.push(chars[i]);
        i = i + 1;
        assert(r@ =~= chars@.subrange(from as int, i as int));
    }
    r
}

proof fn lemma_found_occurs(s: Seq<char>, pattern: Seq<char>, j: int, k: int)
    requires
        find_from(s, pattern, j) == Some(k),
    ensures
        occurs_at(s, pattern, k),
    decreases s.len() + 1 - j,
{
    if j >= 0 && j + pattern.len() <= s.len() && !occurs_at(s, pattern, j) {
        lemma_found_occurs(s, pattern, j + 1, k);
    }
}

/// The first index at which `pattern` occurs in `line`.
fn find_in(line: &Vec<char>, pattern: &Vec<char>) -> (r: Option<usize>)
    ensures
        match r {
            None => find_from(line@, pattern@, 0) is None,
            Some(k) => find_from(line@, pattern@, 0) == Some(k as int),
        },
{
    let mut k: usize = 0;
    while k <= line.len() && pattern.len() <= line.len() - k
        invariant
            k <= line.len(),
            find_from(line@, pattern@, 0) == find_from(line@, pattern@, k as int),
        decreases line.len() + 1 - k,
    {
        if matches_at(line, pattern, k) {
            return Some(k);
        }
        if pattern.len() == 0 {
            assert(line@.subrange(k as int, k as int) =~= pattern@);
        }
        k = k + 1;
    }
    None
}

/// The STEP string whose content starts at `from` in `line`.
fn step_name(line: &Vec<char>, from: usize) -> (r: Option<String>)
    requires
        from <= line.len(),
    ensures
        match r {
            None => step_string(line@.skip(from as int)) is None,
            Some(name) => step_string(line@.skip(from as int)) == Some(name@),
        },
{
    let mut content: Vec<char> = Vec::new();
    let mut p = from;
    while p < line.len()
        invariant
            from <= p <= line.len(),
            step_string(line@.skip(from as int)) == match step_string(line@.skip(p as int)) {
                Some(rest) => Some(content@ + rest),
                None => None,
            },
        decreases line.len() - p,
    {
        let ghost tail = line@.skip(p as int);
        if line[p] != '\'' {
            assert(tail.drop_first() =~= line@.skip(p + 1));
            content.push(line[p]);
            p = p + 1;
            assert forall|rest: Seq<char>| #[trigger] (content@ + rest) =~= content@.drop_last() + (
                seq![tail[0]] + rest) by {}
        } else if p + 1 < line.len() && line[p + 1] == '\'' {
            assert(tail.skip(2) =~= line@.skip(p + 2));
            content.push('\'');
            p = p + 2;
            assert forall|rest: Seq<char>| #[trigger] (content@ + rest) =~= content@.drop_last() + (
                seq!['\''] + rest) by {}
        } else {
            assert(content@ + seq![] =~= content@);
            return Some(string_of(&content));
        }
    }
    assert(line@.skip(p as int).len() == 0);
    None
}

/// How often `x` occurs in `names`.
fn count_of(names: &Vec<String>, x: &String) -> (n: usize)
    ensures
        n == occurrences(strings_view(names@), x@),
{
    let ghost all = strings_view(names@);
    let mut n: usize = 0;
    let mut i: usize = 0;
    while i < names.len()
        invariant
            i <= names.len(),
            all == strings_view(names@),
            n == occurrences(all.take(i as int), x@),
            n <= i,
        decreases names.len() - i,
    {
        assert(all.take(i + 1).drop_last() =~= all.take(i as int));
        if names[i] == *x {
            n = n + 1;
        }
        i = i + 1;
    }
    assert(all.take(names.len() as int) =~= all);
    n
}

proof fn lemma_absent_occurs_never(s: Seq<Seq<char>>, x: Seq<char>)
    requires
        forall|i: int| 0 <= i < s.len() ==> s[i] != x,
    ensures
        occurrences(s, x) == 0,
    decreases s.len(),
{
    if s.len() > 0 {
        lemma_absent_occurs_never(s.drop_last(), x);
    }
}

/// Whether both lists hold the same names equally often.
fn same_name_counts(a: &Vec<String>, b: &Vec<String>) -> (r: bool)
    ensures
        r == same_names(strings_view(a@), strings_view(b@)),
{
    let ghost va = strings_view(a@);
    let ghost vb = strings_view(b@);
    let mut i: usize = 0;
    while i < a.len()
        invariant
            i <= a.len(),
            va == strings_view(a@),
            vb == strings_view(b@),
            forall|k: int| 0 <= k < i ==> occurrences(va, #[trigger] va[k]) == occurrences(vb, va[k]),
        decreases a.len() - i,
    {
        if count_of(a, &a[i]) != count_of(b, &a[i]) {
            assert(va[i as int] == a@[i as int]@);
            return false;
        }
        i = i + 1;
    }
    let mut j: usize = 0;
    while j < b.len()
        invariant
            j <= b.len(),
            va == strings_view(a@),
            vb == strings_view(b@),
            forall|k: int| 0 <= k < a.len() ==> occurrences(va, #[trigger] va[k]) == occurrences(vb, va[k]),
            forall|k: int| 0 <= k < j ==> occurrences(va, #[trigger] vb[k]) == occurrences(vb, vb[k]),
        decreases b.len() - j,
    {
        if count_of(a, &b[j]) != count_of(b, &b[j]) {
            assert(vb[j as int] == b@[j as int]@);
            return false;
        }
        j = j + 1;
    }
    assert forall|x: Seq<char>| occurrences(va, x) == occurrences(vb, x) by {
        if exists|k: int| 0 <= k < va.len() && va[k] == x {
            let k = choose|k: int| 0 <= k < va.len() && va[k] == x;
            assert(occurrences(va, va[k]) == occurrences(vb, va[k]));
        } else if exists|k: int| 0 <= k < vb.len() && vb[k] == x {
            let k = choose|k: int| 0 <= k < vb.len() && vb[k] == x;
            assert(occurrences(va, vb[k]) == occurrences(vb, vb[k]));
        } else {
            lemma_absent_occurs_never(va, x);
            lemma_absent_occurs_never(vb, x);
        }
    }
    true
}

/// The names of all records that `marker` introduces, or `None` when one is
/// malformed.
fn record_names(chars: &Vec<char>, marker: &Vec<char>) -> (r: Option<Vec<String>>)
    ensures
        match r {
            None => records(text_lines(chars@, 0), marker@) is None,
            Some(names) => records(text_lines(chars@, 0), marker@) == Some(strings_view(names@)),
        },
{
    let mut names: Vec<String> = Vec::new();
    let mut start: usize = 0;
    while start < chars.len()
        invariant
            start <= chars.len(),
            records(text_lines(chars@, 0), marker@) == match records(
                text_lines(chars@, start as int),
                marker@,
            ) {
                Some(rest) => Some(strings_view(names@) + rest),
                None => None,
            },
        decreases chars.len() - start,
    {
        let end = next_line_break(chars, start);
        proof {
            lemma_line_break(chars@, start as int);
        }
        let mut line_end = end;
        if end < chars.len() && end > start && chars[end - 1] == '\r' {
            line_end = end - 1;
        }
        let line = slice_chars(chars, start, line_end);
        let ghost lines = text_lines(chars@, start as int);
        let ghost next = if end < chars.len() {
            end + 1
        } else {
            end as int
        };
        assert(text_lines(chars@, next) == text_lines(chars@, end + 1));
        assert(line@ == lines[0]);
        assert(lines.drop_first() =~= text_lines(chars@, next));
        match find_in(&line, marker) {
            None => {},
            Some(k) => {
                proof {
                    lemma_found_occurs(line@, marker@, 0, k as int);
                }
                match step_name(&line, k + marker.len()) {
                    None => {
                        return None;
                    },
                    Some(name) => {
                        let ghost before = names@;
                        names.push(name);
                        assert(strings_view(names@) =~= strings_view(before).push(name@));
                        assert forall|rest: Seq<Seq<char>>| #[trigger] (strings_view(names@) + rest)
                            =~= strings_view(before) + (seq![name@] + rest) by {}
                    },
                }
            },
        }
        if end < chars.len() {
            start = end + 1;
        } else {
            start = end;
        }
    }
    assert(strings_view(names@) + seq![] =~= strings_view(names@));
    Some(names)
}

/// The characters of a record kind's marker.
fn marker_chars(record: StepRecord) -> (v: Vec<char>)
    ensures
        v@ == record_marker(record),
{
    match record {
        StepRecord::Product => {
            proof {
                reveal_strlit("PRODUCT('");
            }
            chars_of("PRODUCT('")
        },
        StepRecord::SolidBody => {
            proof {
                reveal_strlit("MANIFOLD_SOLID_BREP('");
            }
            chars_of("MANIFOLD_SOLID_BREP('")
        },
    }
}

/// Checks the records of one kind against the expected names.
fn check_records(chars: &Vec<char>, record: StepRecord, expected: &Vec<String>) -> (r: Result<
    (),
    StepError,
>)
    ensures
        match r {
            Ok(()) => record_verdict(chars@, record, strings_view(expected@)) is Ok,
            Err(e) => record_verdict(chars@, record, strings_view(expected@)) == Err::<(), StepFault>(e.view()),
        },
{
    let marker = marker_chars(record);
    let expected = expected.clone();
    match record_names(chars, &marker) {
        None => Err(StepError::MalformedName { record }),
        Some(received) => {
            if same_name_counts(&received, &expected) {
                Ok(())
            } else {
                Err(StepError::UnexpectedNames { record, expected, received })
            }
        },
    }
}

/// Checks that downloaded bytes are a STEP file whose products and solid
/// bodies are named exactly after the label's filaments, each once.
pub fn validate_label_step(contents: &[u8], filaments: &[u32]) -> (r: Result<(), StepError>)
    ensures
        match r {
            Ok(()) => label_step_verdict(contents@, filaments@) is Ok,
            Err(e) => label_step_verdict(contents@, filaments@) == Err::<(), StepFault>(e.view()),
        },
{
    let expected = expected_filament_names(filaments);
    validate_step_names(contents, &expected)
}

/// Checks that downloaded or cached bytes are a STEP file whose products and
/// solid bodies are exactly the bin's expected parts, each once.
pub fn validate_bin_step(contents: &[u8], expected_parts: &Vec<String>) -> (r: Result<(), StepError>)
    ensures
        match r {
            Ok(()) => step_verdict(contents@, strings_view(expected_parts@)) is Ok,
            Err(e) => step_verdict(contents@, strings_view(expected_parts@)) == Err::<(), StepFault>(
                e.view(),
            ),
        },
{
    validate_step_names(contents, expected_parts)
}

fn validate_step_names(contents: &[u8], expected: &Vec<String>) -> (r: Result<(), StepError>)
    ensures
        match r {
            Ok(()) => step_verdict(contents@, strings_view(expected@)) is Ok,
            Err(e) => step_verdict(contents@, strings_view(expected@)) == Err::<(), StepFault>(e.view()),
        },
{
    let text = match utf8_text(contents) {
        Some(text) => text,
        None => {
            return Err(StepError::NotUtf8);
        },
    };
    let chars = chars_of(text.as_str());
    proof {
        reveal_strlit("ISO-10303-21;");
    }
    let header = chars_of("ISO-10303-21;");
    assert(header@ == step_header());
    proof {
        if chars@.len() >= 13 {
            assert(chars@.subrange(0, 13) =~= chars@.take(13));
        }
    }
    if !matches_at(&chars, &header, 0) {
        return Err(StepError::NotStep);
    }
    match check_records(&chars, StepRecord::Product, expected) {
        Err(e) => Err(e),
        Ok(()) => check_records(&chars, StepRecord::SolidBody, expected),
    }
}

pub open spec fn record_word(record: StepRecord) -> Seq<char> {
    match record {
        StepRecord::Product => "product"@,
        StepRecord::SolidBody => "solid body"@,
    }
}

/// The text that reports a rejected label STEP.
pub open spec fn step_message(fault: StepFault) -> Seq<char> {
    match fault {
        StepFault::NotUtf8 => "downloaded STEP is not UTF-8 text"@,
        StepFault::NotStep => "downloaded file is not an ISO-10303-21 STEP file"@,
        StepFault::MalformedName(record) => "downloaded STEP has a malformed "@ + record_word(record)
            + " name record"@,
        StepFault::UnexpectedNames(record, expected, received) => "Onshape generated unexpected "@
            + record_word(record) + "s; expected "@ + name_list(expected) + ", received "@
            + name_list(received)
            + ". Artwork may be disconnected from or outside the label blank"@,
    }
}

fn push_record_word(s: &mut String, record: StepRecord)
    ensures
        final(s)@ == old(s)@ + record_word(record),
{
    match record {
        StepRecord::Product => push_str(s, "product"),
        StepRecord::SolidBody => push_str(s, "solid body"),
    }
}

impl StepError {
    /// The text that reports this error.
    pub fn message(&self) -> (m: String)
        ensures
            m@ == step_message(self.view()),
    {
        let mut m = String::new();
        match self {
            StepError::NotUtf8 => push_str(&mut m, "downloaded STEP is not UTF-8 text"),
            StepError::NotStep => push_str(
                &mut m,
                "downloaded file is not an ISO-10303-21 STEP file",
            ),
            StepError::MalformedName { record } => {
                push_str(&mut m, "downloaded STEP has a malformed ");
                push_record_word(&mut m, *record);
                push_str(&mut m, " name record");
            },
            StepError::UnexpectedNames { record, expected, received } => {
                push_str(&mut m, "Onshape generated unexpected ");
                push_record_word(&mut m, *record);
                push_str(&mut m, "s; expected ");
                let e = display_names(expected);
                push_str(&mut m, e.as_str());
                push_str(&mut m, ", received ");
                let r = display_names(received);
                push_str(&mut m, r.as_str());
                push_str(&mut m, ". Artwork may be disconnected from or outside the label blank");
            },
        }
        m
    }
}

/// The directory an output file goes to: the parent that its path names,
/// or `.` when it names none or an empty one.
pub open spec fn output_directory(parent: Option<Seq<char>>) -> Seq<char> {
    match parent {
        Some(p) => if p.len() > 0 {
            p
        } else {
            "."@
        },
        None => "."@,
    }
}

/// The directory that an output path writes into, given the parent that the
/// path names (`std::path::Path::parent`, which follows the platform's path
/// syntax and is taken by the caller).
pub fn output_parent(parent: Option<String>) -> (r: String)
    ensures
        r@ == output_directory(optional_text(parent)),
{
    match parent {
        Some(p) => {
            if p.unicode_len() > 0 {
                return p;
            }
        },
        None => {},
    }
    let mut r = String::new();
    push_str(&mut r, ".");
    r
}

/// Why an output path cannot be written.
#[derive(Debug, Clone, PartialEq, Eq)]
pub enum OutputError {
    /// The file exists and replacing it was not asked for.
    AlreadyExists { path: String },
    /// The directory the file goes to is not a directory.
    MissingDirectory { directory: String },
}

/// Decides whether an output path may be written, given the parent that
/// the path names, whether something is there, whether replacing was asked
/// for, and whether its directory exists as a directory.
pub fn ensure_output_available(
    path: &str,
    parent: Option<String>,
    present: bool,
    force: bool,
    directory_present: bool,
) -> (r: Result<(), OutputError>)
    ensures
        present && !force ==> (r matches Err(OutputError::AlreadyExists { path: p }) && p@
            == path@),
        !(present && !force) && !directory_present ==> (r matches Err(
            OutputError::MissingDirectory { directory },
        ) && directory@ == output_directory(optional_text(parent))),
        (r is Ok) == ((!present || force) && directory_present),
{
    if present && !force {
        return Err(OutputError::AlreadyExists { path: path.to_owned() });
    }
    if !directory_present {
        return Err(OutputError::MissingDirectory { directory: output_parent(parent) });
    }
    Ok(())
}

impl OutputError {
    /// The text that reports this error.
    pub fn message(&self) -> (m: String)
        ensures
            m@ == match self {
                OutputError::AlreadyExists { path } => "output already exists: "@ + path@
                    + "; use --force to replace it"@,
                OutputError::MissingDirectory { directory } => "output directory does not exist: "@
                    + directory@,
            },
    {
        let mut m = String::new();
        match self {
            OutputError::AlreadyExists { path } => {
                push_str(&mut m, "output already exists: ");
                push_str(&mut m, path.as_str());
                push_str(&mut m, "; use --force to replace it");
            },
            OutputError::MissingDirectory { directory } => {
                push_str(&mut m, "output directory does not exist: ");
                push_str(&mut m, directory.as_str());
            },
        }
        m
    }
}

} // verus!
