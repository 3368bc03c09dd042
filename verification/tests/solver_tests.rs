use word_guess::solver::{compile, scan, suggest_next_letter, ConstraintError};

fn run(used: &str, pattern: &str, corpus: &str) -> Vec<String> {
    let constraint = compile(used, pattern).unwrap();
    scan(corpus, &constraint)
}

#[test]
fn scenario_partial_pattern() {
    // food: wildcards f and d are not 'e'; bear fails the fixed 'o' slots.
    let matches = run("e", "_oo_", "food\nbear\ntool\n");
    assert_eq!(matches, vec!["food".to_string(), "tool".to_string()]);
}

#[test]
fn scenario_no_constraints() {
    let matches = run("", "____", "abcd\nefgh\n");
    assert_eq!(matches, vec!["abcd".to_string(), "efgh".to_string()]);
}

#[test]
fn scenario_wildcard_in_used_letters_ignored() {
    // used-set is {a, b}: cat is rejected ('a' in a wildcard slot), cde passes.
    let matches = run("a_b", "c__", "cat\ncde\n");
    assert_eq!(matches, vec!["cde".to_string()]);
}

#[test]
fn scenario_empty_corpus() {
    let matches = run("e", "_oo_", "");
    assert!(matches.is_empty());
    let (letter, count) = suggest_next_letter("e", &matches);
    assert_eq!((letter, count), ('a', 0));
}

#[test]
fn exact_pattern_never_partial() {
    // a pattern without wildcards matches only the exact token, and only
    // where the line ends or goes on with a non-word character.
    let matches = run("", "foo", "foo\nfood\nfoobar\nfoo bar\n");
    assert_eq!(matches, vec!["foo".to_string(), "foo".to_string()]);
}

#[test]
fn token_must_end_at_word_boundary() {
    assert_eq!(run("", "_oo_", "foodx\n"), Vec::<String>::new());
    assert_eq!(run("", "_oo_", "food stuff\n"), vec!["food".to_string()]);
}

#[test]
fn corpus_without_trailing_newline() {
    let matches = run("e", "_oo_", "food\ntool");
    assert_eq!(matches, vec!["food".to_string(), "tool".to_string()]);
}

#[test]
fn used_letter_blocks_wildcard_but_not_fixed_slot() {
    // 'o' is used: the fixed 'o' slots still match, a wildcard never takes 'o'.
    assert_eq!(run("o", "_oo_", "food\n"), vec!["food".to_string()]);
    assert_eq!(run("o", "_oo_", "ooof\n"), Vec::<String>::new());
}

#[test]
fn duplicate_used_letters_collapse() {
    assert_eq!(run("ee", "_oo_", "food\nbeer\n"), vec!["food".to_string()]);
}

#[test]
fn empty_pattern_matches_empty_token_before_word() {
    // the empty token anchors at a line start only in front of a word character
    assert_eq!(run("", "", "abc\n"), vec!["".to_string()]);
    assert_eq!(run("", "", ""), Vec::<String>::new());
}

#[test]
fn compile_rejects_bad_used_letters() {
    assert_eq!(
        compile("e!", "_oo_").unwrap_err(),
        ConstraintError::InvalidUsedLetters
    );
    assert_eq!(
        compile("E", "abc").unwrap_err(),
        ConstraintError::InvalidUsedLetters
    );
}

#[test]
fn compile_rejects_bad_pattern() {
    assert_eq!(
        compile("e", "_oO_").unwrap_err(),
        ConstraintError::InvalidPattern
    );
    assert_eq!(
        compile("", "a.c").unwrap_err(),
        ConstraintError::InvalidPattern
    );
}

#[test]
fn suggestion_counts_presence_per_match() {
    let matches = run("e", "_oo_", "food\nbear\ntool\n");
    // 'o' occurs in both matches (twice each, counted once per match)
    assert_eq!(suggest_next_letter("e", &matches), ('o', 2));
}

#[test]
fn suggestion_counts_a_word_once() {
    let matches = vec!["ee".to_string()];
    assert_eq!(suggest_next_letter("", &matches), ('e', 1));
}

#[test]
fn suggestion_never_returns_used_letter() {
    let matches = vec!["food".to_string(), "tool".to_string()];
    // 'o' has the top count but is used; of d, f, l, t (all count 1) the
    // alphabetically first wins the tie
    assert_eq!(suggest_next_letter("o", &matches), ('d', 1));
}

#[test]
fn suggestion_tie_breaks_to_lowest_letter() {
    let matches = vec!["ab".to_string()];
    assert_eq!(suggest_next_letter("", &matches), ('a', 1));
}

#[test]
fn suggestion_falls_back_when_all_letters_used() {
    let matches = vec!["ab".to_string()];
    assert_eq!(suggest_next_letter("ab", &matches), ('a', 0));
}

#[test]
fn tighter_constraints_never_grow_the_match_set() {
    let corpus = "food\nbear\ntool\nmoon\n";
    let loose = run("", "_oo_", corpus);
    let tight = run("m", "_oo_", corpus);
    assert!(tight.len() <= loose.len());
    assert_eq!(loose.len(), 3);
    assert_eq!(tight, vec!["food".to_string(), "tool".to_string()]);
}

#[test]
fn compile_twice_matches_identically() {
    let c1 = compile("ab", "_oo_").unwrap();
    let c2 = compile("ab", "_oo_").unwrap();
    let corpus = "food\ntool\nboot\n";
    assert_eq!(scan(corpus, &c1), scan(corpus, &c2));
}
