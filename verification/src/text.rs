//! Colored-text markup: plain text uses filament 1, `{}`, `[]` and `<>` select
//! filaments 2, 3 and 4, `!N{}` selects filament `N`, and a backslash escapes
//! the next character.
use vstd::prelude::*;
use crate::strings::{chars_of, string_of, decimal_string, push_str, push_char, decimal_digits, digit_char};

verus! {

/// A maximal stretch of text printed with one filament.
#[derive(Debug, Clone, PartialEq, Eq)]
pub struct TextRun {
    pub filament: u32,
    pub text: String,
}

/// Why colored markup was rejected; offsets count characters from zero.
#[derive(Debug, Clone, Copy, PartialEq, Eq)]
pub enum TextError {
    /// A backslash is the last character.
    TrailingEscape { offset: usize },
    /// A closing delimiter does not close the innermost open region.
    UnexpectedClose { delimiter: char, offset: usize },
    /// The text ends while a region still waits for this delimiter.
    MissingClose { delimiter: char },
    /// The digits of an explicit `!N{` filament exceed `u32`.
    FilamentTooLarge { offset: usize },
}

pub open spec fn is_closing(c: char) -> bool {
    c == '}' || c == ']' || c == '>'
}

/// The filament and closing delimiter that an opening shorthand selects.
pub open spec fn shorthand(c: char) -> Option<(u32, char)> {
    if c == '{' {
        Some((2u32, '}'))
    } else if c == '[' {
        Some((3u32, ']'))
    } else if c == '<' {
        Some((4u32, '>'))
    } else {
        None
    }
}

pub open spec fn is_digit(c: char) -> bool {
    '0' <= c && c <= '9'
}

/// Number of consecutive ASCII digits in `chars` from `start` on.
pub open spec fn digit_run(chars: Seq<char>, start: int) -> nat
    decreases chars.len() - start,
{
    if 0 <= start < chars.len() && is_digit(chars[start]) {
        1 + digit_run(chars, start + 1)
    } else {
        0
    }
}

/// The number that a sequence of ASCII digits denotes.
pub open spec fn digits_value(digits: Seq<char>) -> nat
    decreases digits.len(),
{
    if digits.len() == 0 {
        0
    } else {
        digits_value(digits.drop_last()) * 10 + ((digits.last() as nat) - 48) as nat
    }
}

/// Whether `chars[pos]` starts an explicit `!N{` region.
pub open spec fn explicit_open(chars: Seq<char>, pos: int) -> bool {
    let n = digit_run(chars, pos + 1);
    &&& 0 <= pos < chars.len()
    &&& chars[pos] == '!'
    &&& n > 0
    &&& pos + 1 + n < chars.len()
    &&& chars[pos + 1 + n] == '{'
}

/// The filament number written in the explicit region that starts at `pos`.
pub open spec fn explicit_value(chars: Seq<char>, pos: int) -> nat {
    digits_value(chars.subrange(pos + 1, pos + 1 + digit_run(chars, pos + 1)))
}

/// The filament of the innermost open region (the text itself uses filament 1).
pub open spec fn current_filament(stack: Seq<(u32, char)>) -> u32 {
    if stack.len() == 0 {
        1
    } else {
        stack.last().0
    }
}

/// Reads the markup from `pos` on, with `stack` holding the open regions
/// (filament, awaited delimiter) and `out` the characters read so far, each
/// tagged with its filament.
pub open spec fn scan(chars: Seq<char>, pos: int, stack: Seq<(u32, char)>, out: Seq<(u32, char)>)
    -> Result<Seq<(u32, char)>, TextError>
    decreases chars.len() - pos,
    when 0 <= pos
{
    if pos >= chars.len() {
        if stack.len() == 0 {
            Ok(out)
        } else {
            Err(TextError::MissingClose { delimiter: stack.last().1 })
        }
    } else {
        let c = chars[pos];
        let f = current_filament(stack);
        if c == '\\' {
            if pos + 1 < chars.len() {
                scan(chars, pos + 2, stack, out.push((f, chars[pos + 1])))
            } else {
                Err(TextError::TrailingEscape { offset: (pos + 1) as usize })
            }
        } else if is_closing(c) {
            if stack.len() > 0 && stack.last().1 == c {
                scan(chars, pos + 1, stack.drop_last(), out)
            } else {
                Err(TextError::UnexpectedClose { delimiter: c, offset: pos as usize })
            }
        } else if shorthand(c) is Some {
            scan(chars, pos + 1, stack.push(shorthand(c)->0), out)
        } else if explicit_open(chars, pos) {
            if explicit_value(chars, pos) > u32::MAX {
                Err(TextError::FilamentTooLarge { offset: pos as usize })
            } else {
                scan(
                    chars,
                    pos + 2 + digit_run(chars, pos + 1),
                    stack.push((explicit_value(chars, pos) as u32, '}')),
                    out,
                )
            }
        } else {
            scan(chars, pos + 1, stack, out.push((f, c)))
        }
    }
}

/// Every character of the text with the filament it is printed in.
pub open spec fn colored_chars(text: Seq<char>) -> Result<Seq<(u32, char)>, TextError> {
    scan(text, 0, Seq::empty(), Seq::empty())
}

/// Groups consecutive characters of one filament into runs.
pub open spec fn group_runs(cs: Seq<(u32, char)>) -> Seq<(u32, Seq<char>)>
    decreases cs.len(),
{
    if cs.len() == 0 {
        Seq::empty()
    } else {
        let g = group_runs(cs.drop_last());
        let (f, c) = cs.last();
        if g.len() > 0 && g.last().0 == f {
            g.update(g.len() - 1, (f, g.last().1.push(c)))
        } else {
            g.push((f, seq![c]))
        }
    }
}

pub open spec fn runs_view(runs: Seq<TextRun>) -> Seq<(u32, Seq<char>)> {
    runs.map_values(|r: TextRun| (r.filament, r.text@))
}

/// The runs that markup denotes, or the first error met reading it.
pub open spec fn text_runs(text: Seq<char>) -> Result<Seq<(u32, Seq<char>)>, TextError> {
    match colored_chars(text) {
        Ok(cs) => Ok(group_runs(cs)),
        Err(e) => Err(e),
    }
}

fn is_digit_char(c: char) -> (b: bool)
    ensures
        b == is_digit(c),
{
    '0' <= c && c <= '9'
}

fn shorthand_of(c: char) -> (r: Option<(u32, char)>)
    ensures
        r == shorthand(c),
{
    if c == '{' {
        Some((2u32, '}'))
    } else if c == '[' {
        Some((3u32, ']'))
    } else if c == '<' {
        Some((4u32, '>'))
    } else {
        None
    }
}

proof fn lemma_digit_run_step(chars: Seq<char>, start: int)
    ensures
        0 <= start < chars.len() && is_digit(chars[start]) ==> digit_run(chars, start) == 1
            + digit_run(chars, start + 1),
        !(0 <= start < chars.len() && is_digit(chars[start])) ==> digit_run(chars, start) == 0,
{
}

/// Reads an explicit `!N{` opener at `pos`: `Ok(None)` when the `!` is plain
/// text, `Err(())` when `N` does not fit in `u32`, else the filament and the
/// position after the `{`.
fn explicit_color(chars: &Vec<char>, pos: usize) -> (r: Result<Option<(u32, usize)>, ()>)
    requires
        pos < chars.len(),
        chars@[pos as int] == '!',
    ensures
        r == Ok::<Option<(u32, usize)>, ()>(None) <==> !explicit_open(chars@, pos as int),
        r is Err <==> explicit_open(chars@, pos as int) && explicit_value(chars@, pos as int)
            > u32::MAX,
        r matches Ok(Some((f, after))) ==> explicit_open(chars@, pos as int) && f
            == explicit_value(chars@, pos as int) && after == pos + 2 + digit_run(
            chars@,
            pos + 1,
        ),
{
    let start = pos + 1;
    let mut cursor: usize = start;
    let mut acc: u64 = 0;
    let mut overflow = false;
    while cursor < chars.len() && is_digit_char(chars[cursor])
        invariant
            start <= cursor <= chars.len(),
            start == pos + 1,
            pos < chars.len(),
            digit_run(chars@, start as int) == (cursor - start) + digit_run(chars@, cursor as int),
            !overflow ==> acc == digits_value(chars@.subrange(start as int, cursor as int)) && acc
                <= u32::MAX,
            overflow ==> digits_value(chars@.subrange(start as int, cursor as int)) > u32::MAX,
        decreases chars.len() - cursor,
    {
        proof {
            lemma_digit_run_step(chars@, cursor as int);
            assert(chars@.subrange(start as int, cursor + 1).drop_last() == chars@.subrange(
                start as int,
                cursor as int,
            ));
        }
        let d = (chars[cursor] as u32 - 48) as u64;
        if !overflow {
            acc = acc * 10 + d;
            if acc > 0xffff_ffffu64 {
                overflow = true;
            }
        }
        cursor = cursor + 1;
    }
    proof {
        lemma_digit_run_step(chars@, cursor as int);
    }
    if cursor == start || cursor >= chars.len() || chars[cursor] != '{' {
        return Ok(None);
    }
    if overflow {
        return Err(());
    }
    Ok(Some((acc as u32, cursor + 1)))
}

/// One more character of filament `f` appended to grouped runs.
pub open spec fn step_group(g: Seq<(u32, Seq<char>)>, f: u32, c: char) -> Seq<(u32, Seq<char>)> {
    if g.len() > 0 && g.last().0 == f {
        g.update(g.len() - 1, (f, g.last().1.push(c)))
    } else {
        g.push((f, seq![c]))
    }
}

proof fn lemma_group_runs_push(cs: Seq<(u32, char)>, f: u32, c: char)
    ensures
        group_runs(cs.push((f, c))) == step_group(group_runs(cs), f, c),
{
    assert(cs.push((f, c)).drop_last() == cs);
}

/// Finished runs followed by the run still being collected, if any.
spec fn pending(runs: Seq<TextRun>, fil: u32, text: Seq<char>) -> Seq<(u32, Seq<char>)> {
    if text.len() > 0 {
        runs_view(runs).push((fil, text))
    } else {
        runs_view(runs)
    }
}

fn emit(runs: &mut Vec<TextRun>, fil: &mut u32, text: &mut Vec<char>, f: u32, c: char)
    requires
        old(text)@.len() == 0 ==> old(runs)@.len() == 0,
    ensures
        final(text)@.len() > 0,
        pending(final(runs)@, *final(fil), final(text)@) == step_group(
            pending(old(runs)@, *old(fil), old(text)@),
            f,
            c,
        ),
{
    let ghost g = pending(runs@, *fil, text@);
    if text.len() > 0 && *fil == f {
        text.push(c);
        assert(runs_view(runs@).push((f, text@)) == g.update(g.len() - 1, (f, g.last().1.push(c))));
    } else {
        if text.len() > 0 {
            let finished = string_of(text);
            runs.push(TextRun { filament: *fil, text: finished });
            assert(runs_view(runs@) == g);
        } else {
            assert(runs_view(runs@) =~= g);
        }
        *fil = f;
        *text = Vec::new();
        text.push(c);
        assert(text@ == seq![c]);
    }
}

/// Parses colored-text markup into maximal runs of one filament each.
pub fn parse_colored_text(input: &str) -> (result: Result<Vec<TextRun>, TextError>)
    ensures
        match text_runs(input@) {
            Ok(runs) => result matches Ok(v) && runs_view(v@) == runs,
            Err(e) => result == Err::<Vec<TextRun>, TextError>(e),
        },
{
    let chars = chars_of(input);
    let mut pos: usize = 0;
    let mut stack: Vec<(u32, char)> = Vec::new();
    let ghost mut out: Seq<(u32, char)> = Seq::empty();
    let mut runs: Vec<TextRun> = Vec::new();
    let mut fil: u32 = 1;
    let mut text: Vec<char> = Vec::new();
    assert(runs_view(runs@) =~= Seq::<(u32, Seq<char>)>::empty());
    while pos < chars.len()
        invariant
            chars@ == input@,
            pos <= chars.len(),
            scan(chars@, pos as int, stack@, out) == colored_chars(input@),
            group_runs(out) == pending(runs@, fil, text@),
            text@.len() == 0 ==> runs@.len() == 0,
        decreases chars.len() - pos,
    {
        let c = chars[pos];
        let f: u32 = if stack.len() == 0 {
            1
        } else {
            stack[stack.len() - 1].0
        };
        assert(f == current_filament(stack@));
        if c == '\\' {
            if pos + 1 < chars.len() {
                let escaped = chars[pos + 1];
                proof {
                    lemma_group_runs_push(out, f, escaped);
                    out = out.push((f, escaped));
                }
                emit(&mut runs, &mut fil, &mut text, f, escaped);
                pos = pos + 2;
            } else {
                return Err(TextError::TrailingEscape { offset: pos + 1 });
            }
        } else if c == '}' || c == ']' || c == '>' {
            if stack.len() > 0 && stack[stack.len() - 1].1 == c {
                stack.pop();
                pos = pos + 1;
            } else {
                return Err(TextError::UnexpectedClose { delimiter: c, offset: pos });
            }
        } else if let Some(opened) = shorthand_of(c) {
            stack.push(opened);
            pos = pos + 1;
        } else {
            let explicit = if c == '!' {
                explicit_color(&chars, pos)
            } else {
                Ok(None)
            };
            match explicit {
                Err(()) => {
                    return Err(TextError::FilamentTooLarge { offset: pos });
                },
                Ok(Some((child, after))) => {
                    stack.push((child, '}'));
                    pos = after;
                },
                Ok(None) => {
                    proof {
                        lemma_group_runs_push(out, f, c);
                        out = out.push((f, c));
                    }
                    emit(&mut runs, &mut fil, &mut text, f, c);
                    pos = pos + 1;
                },
            }
        }
    }
    if stack.len() > 0 {
        return Err(TextError::MissingClose { delimiter: stack[stack.len() - 1].1 });
    }
    if text.len() > 0 {
        let finished = string_of(&text);
        runs.push(TextRun { filament: fil, text: finished });
    }
    assert(runs_view(runs@) == group_runs(out));
    Ok(runs)
}

/// The characters of `text`, each tagged with filament `f`.
pub open spec fn tagged(text: Seq<char>, f: u32) -> Seq<(u32, char)> {
    text.map_values(|c: char| (f, c))
}

/// `text` with every character preceded by a backslash.
pub open spec fn escape_all(text: Seq<char>) -> Seq<char>
    decreases text.len(),
{
    if text.len() == 0 {
        Seq::empty()
    } else {
        escape_all(text.drop_last()) + seq!['\\', text.last()]
    }
}

/// The concatenated texts of grouped runs.
pub open spec fn run_texts(runs: Seq<(u32, Seq<char>)>) -> Seq<char>
    decreases runs.len(),
{
    if runs.len() == 0 {
        Seq::empty()
    } else {
        run_texts(runs.drop_last()) + runs.last().1
    }
}

/// Grouping yields runs that are never empty, neighbouring runs never share a
/// filament, and together the runs hold exactly the parsed characters.
pub proof fn lemma_runs_are_maximal(cs: Seq<(u32, char)>)
    ensures
        forall|i: int| 0 <= i < group_runs(cs).len() ==> #[trigger] group_runs(cs)[i].1.len() > 0,
        forall|i: int|
            0 <= i < group_runs(cs).len() - 1 ==> #[trigger] group_runs(cs)[i].0 != group_runs(
                cs,
            )[i + 1].0,
        run_texts(group_runs(cs)) == cs.map_values(|x: (u32, char)| x.1),
    decreases cs.len(),
{
    if cs.len() > 0 {
        let prev = cs.drop_last();
        lemma_runs_are_maximal(prev);
        let g = group_runs(prev);
        let (f, c) = cs.last();
        assert(cs == prev.push((f, c)));
        lemma_group_runs_push(prev, f, c);
        let ng = group_runs(cs);
        if g.len() > 0 && g.last().0 == f {
            assert(ng.drop_last() == g.drop_last());
            assert(run_texts(g) == run_texts(g.drop_last()) + g.last().1);
            assert(run_texts(ng) == run_texts(g.drop_last()) + g.last().1.push(c));
        } else {
            assert(ng.drop_last() == g);
        }
        assert(cs.map_values(|x: (u32, char)| x.1) == prev.map_values(|x: (u32, char)| x.1).push(c));
    }
}

proof fn lemma_group_single_filament(text: Seq<char>, f: u32)
    ensures
        text.len() > 0 ==> group_runs(tagged(text, f)) == seq![(f, text)],
        text.len() == 0 ==> group_runs(tagged(text, f)) == Seq::<(u32, Seq<char>)>::empty(),
    decreases text.len(),
{
    if text.len() > 0 {
        let prev = text.drop_last();
        lemma_group_single_filament(prev, f);
        assert(tagged(text, f) == tagged(prev, f).push((f, text.last())));
        lemma_group_runs_push(tagged(prev, f), f, text.last());
        assert(prev.push(text.last()) == text);
        if prev.len() == 0 {
            assert(text == seq![text.last()]);
        }
    }
}

proof fn lemma_escape_all_shape(text: Seq<char>)
    ensures
        escape_all(text).len() == 2 * text.len(),
        forall|i: int|
            0 <= i < text.len() ==> #[trigger] escape_all(text)[2 * i] == '\\' && escape_all(text)[2 * i + 1]
                == text[i],
    decreases text.len(),
{
    if text.len() > 0 {
        let prev = text.drop_last();
        lemma_escape_all_shape(prev);
        let pair = seq!['\\', text.last()];
        let e = escape_all(text);
        assert(e == escape_all(prev) + pair);
        assert forall|i: int| 0 <= i < text.len() implies #[trigger] e[2 * i] == '\\'
            && e[2 * i + 1] == text[i] by {
            if i < prev.len() {
                assert(escape_all(prev)[2 * i] == '\\');
                assert(text[i] == prev[i]);
                assert(e[2 * i] == escape_all(prev)[2 * i]);
                assert(e[2 * i + 1] == escape_all(prev)[2 * i + 1]);
            } else {
                assert(e[2 * i] == pair[0]);
                assert(e[2 * i + 1] == pair[1]);
            }
        }
        assert(forall|i: int|
            0 <= i < text.len() ==> #[trigger] escape_all(text)[2 * i] == '\\' && escape_all(text)[2 * i + 1]
                == text[i]);
    } else {
        assert(forall|i: int|
            0 <= i < text.len() ==> #[trigger] escape_all(text)[2 * i] == '\\' && escape_all(text)[2 * i + 1]
                == text[i]);
    }
}

/// Escaping every character with a backslash makes any text literal: it reads
/// back as one run of filament 1 holding exactly that text.
pub proof fn lemma_escaped_text_is_literal(text: Seq<char>)
    ensures
        text.len() > 0 ==> text_runs(escape_all(text)) == Ok::<_, TextError>(seq![(1u32, text)]),
        text.len() == 0 ==> text_runs(escape_all(text)) == Ok::<_, TextError>(
            Seq::<(u32, Seq<char>)>::empty(),
        ),
{
    let e = escape_all(text);
    lemma_escape_all_shape(text);
    let n = text.len() as int;
    assert forall|k: int| 0 <= k <= n implies #[trigger] scan(
        e,
        2 * (n - k),
        Seq::empty(),
        tagged(text.take(n - k), 1),
    ) == scan(e, 2 * n, Seq::empty(), tagged(text, 1)) by {
        lemma_escape_scan(text, k);
    }
    assert(text.take(0) == Seq::<char>::empty());
    assert(tagged(text.take(0), 1) == Seq::<(u32, char)>::empty());
    assert(scan(e, 0, Seq::empty(), Seq::empty()) == scan(e, 2 * (n - n), Seq::empty(), tagged(text.take(n - n), 1)));
    assert(text.take(n) == text);
    lemma_group_single_filament(text, 1);
}

proof fn lemma_escape_scan(text: Seq<char>, k: int)
    requires
        0 <= k <= text.len(),
    ensures
        scan(escape_all(text), 2 * (text.len() - k), Seq::empty(), tagged(text.take(text.len() - k), 1))
            == scan(escape_all(text), 2 * (text.len() as int), Seq::empty(), tagged(text, 1)),
    decreases k,
{
    let n = text.len() as int;
    lemma_escape_all_shape(text);
    if k == 0 {
        assert(text.take(n) == text);
    } else {
        let p = n - k;
        let e = escape_all(text);
        assert(e[2 * p] == '\\' && e[2 * p + 1] == text[p]);
        assert(tagged(text.take(p), 1).push((1u32, text[p])) == tagged(text.take(p + 1), 1));
        assert(scan(e, 2 * p, Seq::empty(), tagged(text.take(p), 1)) == scan(
            e,
            2 * p + 2,
            Seq::empty(),
            tagged(text.take(p), 1).push((1u32, e[2 * p + 1])),
        ));
        lemma_escape_scan(text, k - 1);
        assert(2 * (n - (k - 1)) == 2 * p + 2);
    }
}

proof fn lemma_digit_run_shift(a: Seq<char>, b: Seq<char>, t: Seq<char>, k: int)
    requires
        0 <= k,
    ensures
        digit_run(a + t, a.len() + k) == digit_run(b + t, b.len() + k),
    decreases t.len() - k,
{
    if k < t.len() {
        assert((a + t)[a.len() + k] == t[k]);
        assert((b + t)[b.len() + k] == t[k]);
        lemma_digit_run_shift(a, b, t, k + 1);
    }
}

/// Reading the same remaining text gives the same characters whatever came
/// before it; only the offsets that errors report can differ.
proof fn lemma_scan_shift(
    a: Seq<char>,
    b: Seq<char>,
    t: Seq<char>,
    k: int,
    stack: Seq<(u32, char)>,
    out: Seq<(u32, char)>,
)
    requires
        0 <= k <= t.len(),
    ensures
        scan(a + t, a.len() + k, stack, out) is Ok <==> scan(b + t, b.len() + k, stack, out) is Ok,
        scan(a + t, a.len() + k, stack, out) is Ok ==> scan(a + t, a.len() + k, stack, out) == scan(
            b + t,
            b.len() + k,
            stack,
            out,
        ),
    decreases t.len() - k,
{
    let ca = a + t;
    let cb = b + t;
    let pa = a.len() + k;
    let pb = b.len() + k;
    if k < t.len() {
        assert(ca[pa] == t[k]);
        assert(cb[pb] == t[k]);
        let c = t[k];
        let f = current_filament(stack);
        if c == '\\' {
            if k + 1 < t.len() {
                assert(ca[pa + 1] == t[k + 1]);
                assert(cb[pb + 1] == t[k + 1]);
                lemma_scan_shift(a, b, t, k + 2, stack, out.push((f, t[k + 1])));
            }
        } else if is_closing(c) {
            if stack.len() > 0 && stack.last().1 == c {
                lemma_scan_shift(a, b, t, k + 1, stack.drop_last(), out);
            }
        } else if shorthand(c) is Some {
            lemma_scan_shift(a, b, t, k + 1, stack.push(shorthand(c)->0), out);
        } else {
            lemma_digit_run_shift(a, b, t, k + 1);
            let n = digit_run(ca, pa + 1);
            if k + 1 + n < t.len() {
                assert(ca[pa + 1 + n] == t[k + 1 + n]);
                assert(cb[pb + 1 + n] == t[k + 1 + n]);
            }
            if explicit_open(ca, pa) {
                assert(explicit_open(cb, pb));
                assert(ca.subrange(pa + 1, pa + 1 + n) =~= cb.subrange(pb + 1, pb + 1 + n));
                if explicit_value(ca, pa) <= u32::MAX {
                    lemma_scan_shift(
                        a,
                        b,
                        t,
                        k + 2 + n,
                        stack.push((explicit_value(ca, pa) as u32, '}')),
                        out,
                    );
                }
            } else {
                assert(!explicit_open(cb, pb));
                lemma_scan_shift(a, b, t, k + 1, stack, out.push((f, c)));
            }
        }
    }
}

/// The explicit form `!2{…}` selects the same filament as the `{…}`
/// shorthand: for every inner text both forms are refused, or both give the
/// same runs.
pub proof fn lemma_explicit_two_is_brace_shorthand(inner: Seq<char>)
    ensures
        text_runs(seq!['!', '2', '{'] + inner + seq!['}']) is Ok <==> text_runs(
            seq!['{'] + inner + seq!['}'],
        ) is Ok,
        text_runs(seq!['!', '2', '{'] + inner + seq!['}']) is Ok ==> text_runs(
            seq!['!', '2', '{'] + inner + seq!['}'],
        ) == text_runs(seq!['{'] + inner + seq!['}']),
{
    let a = seq!['!', '2', '{'];
    let b = seq!['{'];
    let t = inner + seq!['}'];
    let explicit = seq!['!', '2', '{'] + inner + seq!['}'];
    let brace = seq!['{'] + inner + seq!['}'];
    assert(explicit =~= a + t);
    assert(brace =~= b + t);
    assert(explicit[0] == '!' && explicit[1] == '2' && explicit[2] == '{');
    assert(brace[0] == '{');
    assert(digit_run(explicit, 2) == 0);
    assert(digit_run(explicit, 1) == 1);
    assert(explicit.subrange(1, 2) =~= seq!['2']);
    assert(seq!['2'].drop_last() =~= Seq::<char>::empty());
    assert(seq!['2'].last() == '2');
    assert(digits_value(Seq::<char>::empty()) == 0);
    assert(('2' as nat) == 50);
    assert(digits_value(seq!['2']) == 2);
    assert(explicit_open(explicit, 0));
    assert(explicit_value(explicit, 0) == 2);
    let stack = Seq::<(u32, char)>::empty().push((2u32, '}'));
    assert(scan(explicit, 0, Seq::empty(), Seq::empty()) == scan(explicit, 3, stack, Seq::empty()));
    assert(scan(brace, 0, Seq::empty(), Seq::empty()) == scan(brace, 1, stack, Seq::empty()));
    lemma_scan_shift(a, b, t, 0, stack, Seq::empty());
}

/// Reading the decimal digits of a number gives the number back, so the
/// digits of an explicit filament are read in base ten.
pub proof fn lemma_decimal_digits_read_back(n: nat)
    ensures
        digits_value(decimal_digits(n)) == n,
        decimal_digits(n).len() >= 1,
        forall|i: int| 0 <= i < decimal_digits(n).len() ==> is_digit(#[trigger] decimal_digits(n)[i]),
    decreases n,
{
    let d = decimal_digits(n);
    if n < 10 {
        let c = digit_char(n);
        assert((c as int) == 48 + n);
        assert(d == seq![c]);
        assert(d.drop_last() =~= Seq::<char>::empty());
        assert(digits_value(Seq::<char>::empty()) == 0);
        assert(d.last() == c);
    } else {
        lemma_decimal_digits_read_back(n / 10);
        let c = digit_char(n % 10);
        assert((c as int) == 48 + n % 10);
        let p = decimal_digits(n / 10);
        assert(d == p.push(c));
        assert(d.drop_last() =~= p);
        assert(d.last() == c);
        assert((n / 10) * 10 + n % 10 == n) by (nonlinear_arith);
        assert forall|i: int| 0 <= i < d.len() implies is_digit(#[trigger] d[i]) by {
            if i < p.len() {
                assert(d[i] == p[i]);
            }
        }
    }
}

proof fn lemma_digit_run_of_digits(t: Seq<char>, start: int, len: int, k: int)
    requires
        0 <= start,
        0 <= k <= len,
        start + len < t.len(),
        forall|i: int| start <= i < start + len ==> is_digit(#[trigger] t[i]),
        !is_digit(t[start + len]),
    ensures
        digit_run(t, start + k) == len - k,
    decreases len - k,
{
    if k < len {
        lemma_digit_run_of_digits(t, start, len, k + 1);
    }
}

/// The explicit form `!N{c}` prints `c` with filament `N` for every filament
/// number `N` written in decimal and every plain character `c`.
pub proof fn lemma_explicit_filament_is_decimal(n: u32, c: char)
    requires
        c != '\\',
        !is_closing(c),
        shorthand(c) is None,
    ensures
        text_runs(seq!['!'] + decimal_digits(n as nat) + seq!['{', c, '}']) == Ok::<
            Seq<(u32, Seq<char>)>,
            TextError,
        >(seq![(n, seq![c])]),
{
    let d = decimal_digits(n as nat);
    lemma_decimal_digits_read_back(n as nat);
    let t = seq!['!'] + d + seq!['{', c, '}'];
    let len = d.len() as int;
    assert(t.len() == len + 4);
    assert(t[0] == '!');
    assert forall|i: int| 1 <= i < 1 + len implies is_digit(#[trigger] t[i]) by {
        assert(t[i] == d[i - 1]);
    }
    assert(t[1 + len] == '{');
    assert(t[2 + len] == c);
    assert(t[3 + len] == '}');
    lemma_digit_run_of_digits(t, 1, len, 0);
    assert(digit_run(t, 1) == len);
    assert(t.subrange(1, 1 + len) =~= d);
    assert(explicit_open(t, 0));
    assert(explicit_value(t, 0) == n);
    let stack = Seq::<(u32, char)>::empty().push((n, '}'));
    assert(scan(t, 0, Seq::empty(), Seq::empty()) == scan(t, 2 + len, stack, Seq::empty()));
    assert(digit_run(t, 3 + len) == 0);
    assert(!explicit_open(t, 2 + len));
    assert(current_filament(stack) == n);
    let out = Seq::<(u32, char)>::empty().push((n, c));
    assert(scan(t, 2 + len, stack, Seq::empty()) == scan(t, 3 + len, stack, out));
    assert(stack.drop_last() =~= Seq::<(u32, char)>::empty());
    assert(scan(t, 3 + len, stack, out) == scan(t, 4 + len, Seq::empty(), out));
    assert(scan(t, 4 + len, Seq::<(u32, char)>::empty(), out) == Ok::<Seq<(u32, char)>, TextError>(out));
    assert(out.drop_last() =~= Seq::<(u32, char)>::empty());
    assert(group_runs(Seq::<(u32, char)>::empty()) =~= Seq::<(u32, Seq<char>)>::empty());
    assert(group_runs(out) =~= seq![(n, seq![c])]);
}

/// A character as a debug listing shows it, in single quotes.
pub open spec fn quoted_char(c: char) -> Seq<char> {
    seq!['\'', c, '\'']
}

impl TextError {
    /// The text that reports this error.
    pub fn message(&self) -> (m: String)
        ensures
            m@ == match *self {
                TextError::TrailingEscape { offset } => "trailing escape at character "@
                    + decimal_digits(offset as nat),
                TextError::UnexpectedClose { delimiter, offset } => "unexpected closing delimiter "@
                    + quoted_char(delimiter) + " at character "@ + decimal_digits(offset as nat),
                TextError::MissingClose { delimiter } => "missing closing delimiter "@ + quoted_char(
                    delimiter,
                ) + " at end of text"@,
                TextError::FilamentTooLarge { offset } => "filament index is too large at character "@
                    + decimal_digits(offset as nat),
            },
    {
        let mut m = String::new();
        match *self {
            TextError::TrailingEscape { offset } => {
                push_str(&mut m, "trailing escape at character ");
                let n = decimal_string(offset as u64);
                push_str(&mut m, n.as_str());
            },
            TextError::UnexpectedClose { delimiter, offset } => {
                push_str(&mut m, "unexpected closing delimiter ");
                push_char(&mut m, '\'');
                push_char(&mut m, delimiter);
                push_char(&mut m, '\'');
                push_str(&mut m, " at character ");
                let n = decimal_string(offset as u64);
                push_str(&mut m, n.as_str());
            },
            TextError::MissingClose { delimiter } => {
                push_str(&mut m, "missing closing delimiter ");
                push_char(&mut m, '\'');
                push_char(&mut m, delimiter);
                push_char(&mut m, '\'');
                push_str(&mut m, " at end of text");
            },
            TextError::FilamentTooLarge { offset } => {
                push_str(&mut m, "filament index is too large at character ");
                let n = decimal_string(offset as u64);
                push_str(&mut m, n.as_str());
            },
        }
        m
    }
}
} // verus!
