use gfty::text::{parse_colored_text, TextError};

fn runs(input: &str) -> Vec<(u32, String)> {
    parse_colored_text(input)
        .unwrap()
        .into_iter()
        .map(|run| (run.filament, run.text))
        .collect()
}

#[test]
fn parses_shorthand_and_restores_parent() {
    assert_eq!(
        runs("M{3}x[10]"),
        vec![
            (1, "M".into()),
            (2, "3".into()),
            (1, "x".into()),
            (3, "10".into())
        ]
    );
}

#[test]
fn supports_nested_explicit_colors() {
    assert_eq!(
        runs("!2{Green !0{Normal} Green}"),
        vec![
            (2, "Green ".into()),
            (0, "Normal".into()),
            (2, " Green".into())
        ]
    );
}

#[test]
fn supports_nested_shorthand() {
    assert_eq!(
        runs("{one [two] one}"),
        vec![(2, "one ".into()), (3, "two".into()), (2, " one".into())]
    );
}

#[test]
fn backslash_escapes_markup() {
    assert_eq!(runs(r"\{x\} \!2\{y\} \\"), vec![(1, "{x} !2{y} \\".into())]);
}

#[test]
fn rejects_mismatched_or_unclosed_markup() {
    assert!(parse_colored_text("{abc]").is_err());
    assert!(parse_colored_text("{abc").is_err());
    assert!(parse_colored_text("abc}").is_err());
    assert!(parse_colored_text("abc\\").is_err());
}

#[test]
fn reports_each_markup_error_with_its_position() {
    assert_eq!(
        parse_colored_text("{abc]").unwrap_err(),
        TextError::UnexpectedClose { delimiter: ']', offset: 4 }
    );
    assert_eq!(
        parse_colored_text("[abc").unwrap_err(),
        TextError::MissingClose { delimiter: ']' }
    );
    assert_eq!(
        parse_colored_text("ab\\").unwrap_err(),
        TextError::TrailingEscape { offset: 3 }
    );
    assert_eq!(
        parse_colored_text("x!99999999999{y}").unwrap_err(),
        TextError::FilamentTooLarge { offset: 1 }
    );
}

#[test]
fn adjacent_runs_of_one_filament_merge() {
    assert_eq!(runs("a{}b"), vec![(1, "ab".into())]);
    assert_eq!(runs("!1{a}b"), vec![(1, "ab".into())]);
    assert_eq!(runs(""), Vec::<(u32, String)>::new());
}

#[test]
fn angle_brackets_select_filament_four() {
    assert_eq!(runs("<x>"), vec![(4, "x".into())]);
}

#[test]
fn an_exclamation_mark_without_digits_and_brace_is_plain_text() {
    assert_eq!(runs("hi! !x{y}"), vec![(1, "hi! !x".into()), (2, "y".into())]);
}

#[test]
fn explicit_filament_two_matches_the_brace_shorthand() {
    for inner in ["ab", "a[b]c", "x\\}y", "", "<q>!7{r}"] {
        let explicit = parse_colored_text(&format!("!2{{{inner}}}")).unwrap();
        let brace = parse_colored_text(&format!("{{{inner}}}")).unwrap();
        assert_eq!(explicit, brace);
    }
    assert!(parse_colored_text("!2{a]}").is_err());
    assert!(parse_colored_text("{a]}").is_err());
}
