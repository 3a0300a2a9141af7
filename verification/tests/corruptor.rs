use name_corruptor::parse_patterns;
use name_corruptor::Corruptor;

fn pairs(ps: &[(&str, &str)]) -> Vec<(String, String)> {
    ps.iter().map(|(a, b)| (a.to_string(), b.to_string())).collect()
}

#[test]
fn parse_pattern() {
    // Grimm's Law
    let input = r#"
            bh => b => p => f;
            dh => d => t => th;
            gh => g => k => x;
            gwh => gw => kw => xw"#;
    let expected: Vec<(String, String)> = vec![
        ("bh", "b"),
        ("b", "p"),
        ("p", "f"),
        ("dh", "d"),
        ("d", "t"),
        ("t", "th"),
        ("gh", "g"),
        ("g", "k"),
        ("k", "x"),
        ("gwh", "gw"),
        ("gw", "kw"),
        ("kw", "xw"),
    ]
    .into_iter()
    .map(|(a, b)| (a.into(), b.into()))
    .collect();
    let actual = parse_patterns(input);
    assert_eq!(actual, expected);
}

#[test]
fn corrupt_agatha() {
    let patterns = parse_patterns("th => ff");
    let mut corruptor = Corruptor::new(patterns);
    let corrupted_name = corruptor.corrupt("agatha", 1);
    assert_eq!(corrupted_name, "agaffa");
}

#[test]
fn corrupt_david() {
    let patterns = parse_patterns("d => t");
    let mut corruptor = Corruptor::new(patterns);
    let corrupted_name = corruptor.corrupt_once("david");
    assert_eq!(corrupted_name, "tavit");
}

#[test]
fn parse_empty_input_yields_no_pairs() {
    assert_eq!(parse_patterns(""), Vec::<(String, String)>::new());
}

#[test]
fn parse_empty_chains_are_skipped() {
    assert_eq!(parse_patterns(";;"), Vec::<(String, String)>::new());
    assert_eq!(parse_patterns("a;;b"), Vec::<(String, String)>::new());
}

#[test]
fn parse_single_token_chain_yields_no_pairs() {
    assert_eq!(parse_patterns("abc"), Vec::<(String, String)>::new());
    assert_eq!(parse_patterns("  abc  "), Vec::<(String, String)>::new());
}

#[test]
fn parse_trims_whitespace() {
    assert_eq!(parse_patterns("  a  =>\tb ;\n c => d"), pairs(&[("a", "b"), ("c", "d")]));
}

#[test]
fn parse_keeps_empty_tokens() {
    assert_eq!(parse_patterns("a => => b"), pairs(&[("a", ""), ("", "b")]));
}

#[test]
fn parse_keeps_duplicates_in_order() {
    assert_eq!(
        parse_patterns("a => b; a => b => a"),
        pairs(&[("a", "b"), ("a", "b"), ("b", "a")])
    );
}

#[test]
fn corrupt_zero_iterations_is_identity() {
    let mut corruptor = Corruptor::new(pairs(&[("d", "t")]));
    assert_eq!(corruptor.corrupt("david", 0), "david");
}

#[test]
fn corrupt_exhaustion_returns_word_unchanged() {
    let mut corruptor = Corruptor::new(pairs(&[("x", "y")]));
    assert_eq!(corruptor.corrupt_once("abc"), "abc");
    // The cursor was left untouched, so the same call is the same no-op.
    assert_eq!(corruptor.corrupt_once("abc"), "abc");
    assert_eq!(corruptor.corrupt("abc", 5), "abc");
}

#[test]
fn corrupt_cursor_picks_a_different_pattern_next() {
    // Both patterns apply to "a"; consecutive calls must use different ones.
    let mut corruptor = Corruptor::new(pairs(&[("a", "1"), ("a", "2")]));
    let first = corruptor.corrupt_once("a");
    let second = corruptor.corrupt_once("a");
    assert_eq!(first, "2");
    assert_eq!(second, "1");
}

#[test]
fn corrupt_scans_past_non_matching_patterns() {
    let mut corruptor = Corruptor::new(pairs(&[("d", "t"), ("t", "th")]));
    assert_eq!(corruptor.corrupt_once("david"), "tavit");
    assert_eq!(corruptor.corrupt_once("tavit"), "thavith");
}

#[test]
fn corrupt_applies_only_one_pattern_per_step() {
    // Even though ("b", "c") would also match the result, one step applies
    // exactly one pattern.
    let mut corruptor = Corruptor::new(pairs(&[("a", "b"), ("b", "c")]));
    let first = corruptor.corrupt_once("aa");
    assert!(first == "bb" || first == "cc");
    // The first scan starts at index 1: ("b", "c") does not match "aa", so
    // index 0 is applied.
    assert_eq!(first, "bb");
}

#[test]
fn corrupt_matches_repeated_single_steps() {
    let patterns = "d => t; a => e; v => w; t => th";
    let mut by_steps = Corruptor::new(parse_patterns(patterns));
    let mut at_once = Corruptor::new(parse_patterns(patterns));

    let mut word = "david".to_string();
    word = by_steps.corrupt_once(&word);
    word = by_steps.corrupt_once(&word);
    word = by_steps.corrupt_once(&word);

    assert_eq!(at_once.corrupt("david", 3), word);
}

#[test]
fn relax_collapses_triple_runs() {
    assert_eq!(Corruptor::relax("lll"), "ll");
    assert_eq!(Corruptor::relax("alffflonzo"), "alfflonzo");
    assert_eq!(Corruptor::relax("aaabbb"), "aabb");
    assert_eq!(Corruptor::relax("zzz"), "zz");
}

#[test]
fn relax_collapses_one_run_per_letter_per_call() {
    // A single pass: "llll" loses one "l", not two.
    assert_eq!(Corruptor::relax("llll"), "lll");
    assert_eq!(Corruptor::relax("llllll"), "llll");
    // A second call collapses further.
    assert_eq!(Corruptor::relax("lll"), "ll");
}

#[test]
fn relax_leaves_short_runs_alone() {
    assert_eq!(Corruptor::relax("hello"), "hello");
    assert_eq!(Corruptor::relax(""), "");
    assert_eq!(Corruptor::relax("aa"), "aa");
}

#[test]
fn corrupt_smooths_its_result() {
    // Replacing "b" by "ll" in "bll" gives "llll", which one smoothing pass
    // collapses to "lll".
    let mut corruptor = Corruptor::new(pairs(&[("b", "ll")]));
    assert_eq!(corruptor.corrupt_once("bll"), "lll");
}

#[test]
fn corrupt_does_not_smooth_an_unchanged_word() {
    // No pattern matches, so the triple run survives untouched.
    let mut corruptor = Corruptor::new(pairs(&[("x", "y")]));
    assert_eq!(corruptor.corrupt_once("lll"), "lll");
}
