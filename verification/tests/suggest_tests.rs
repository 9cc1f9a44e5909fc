use didyoumean::suggest::{select_suggestion, suggest, SuggestResult};

fn names(v: &[&str]) -> Vec<String> {
    v.iter().map(|s| s.to_string()).collect()
}

#[test]
fn test_exact_match_excluded() {
    let candidates = vec!["git".to_string()];
    let result = suggest("git", &candidates, 2, 5);
    assert_eq!(result, SuggestResult::NoMatch);
}

#[test]
fn test_distance_1_single_match_confident() {
    let candidates = vec!["git".to_string()];
    let result = suggest("gti", &candidates, 2, 5);
    assert_eq!(result, SuggestResult::ConfidentCorrect("git".to_string()));
}

#[test]
fn test_confident_correct_long_command() {
    let candidates = vec!["python".to_string(), "pytest".to_string()];
    let result = suggest("pyhton", &candidates, 2, 5);
    assert_eq!(result, SuggestResult::ConfidentCorrect("python".to_string()));
}

#[test]
fn test_not_confident_when_short() {
    let candidates = vec!["ls".to_string()];
    let result = suggest("sl", &candidates, 2, 5);
    assert_eq!(result, SuggestResult::AutoCorrect("ls".to_string()));
}

#[test]
fn test_confident_with_close_second() {
    let candidates = vec!["abcd".to_string(), "abxy".to_string()];
    let result = suggest("abce", &candidates, 2, 5);
    assert_eq!(result, SuggestResult::ConfidentCorrect("abcd".to_string()));
}

#[test]
fn test_distance_1_multiple_matches() {
    let candidates = vec!["git".to_string(), "gci".to_string()];
    let result = suggest("gti", &candidates, 2, 5);
    match result {
        SuggestResult::Suggestions(s) => {
            assert!(s.contains(&"git".to_string()));
            assert!(s.contains(&"gci".to_string()));
        }
        _ => panic!("Expected Suggestions, got {:?}", result),
    }
}

#[test]
fn test_no_match() {
    let candidates = vec!["git".to_string(), "cargo".to_string()];
    let result = suggest("xyzabc", &candidates, 2, 5);
    assert_eq!(result, SuggestResult::NoMatch);
}

#[test]
fn test_length_filter() {
    let candidates = vec!["abcdefghij".to_string()];
    let result = suggest("abc", &candidates, 2, 5);
    assert_eq!(result, SuggestResult::NoMatch);
}

#[test]
fn test_max_suggestions() {
    let candidates = vec![
        "abc".to_string(),
        "abd".to_string(),
        "aec".to_string(),
        "axc".to_string(),
    ];
    let result = suggest("abc", &candidates, 2, 2);
    match result {
        SuggestResult::Suggestions(s) => assert_eq!(s.len(), 2),
        _ => panic!("Expected Suggestions, got {:?}", result),
    }
}

#[test]
fn suggestions_are_ranked_by_distance_then_name() {
    let candidates = names(&["gitk", "gcc", "gdb", "go", "git"]);
    // "gt": git, go, gcc? distances: git 1, go 1, gdb 2, gcc 2, gitk 2
    let result = suggest("gt", &candidates, 2, 5);
    assert_eq!(
        result,
        SuggestResult::Suggestions(names(&["git", "go", "gcc", "gdb", "gitk"]))
    );
}

#[test]
fn readme_examples_are_confident() {
    let known = names(&[
        "git", "docker", "python", "kubectl", "clear", "brew", "node", "cargo", "gd",
    ]);
    for (typo, fix) in [
        ("gti", "git"),
        ("dcoker", "docker"),
        ("pyhton", "python"),
        ("kubeclt", "kubectl"),
        ("claer", "clear"),
        ("brwe", "brew"),
        ("ndoe", "node"),
        ("carg", "cargo"),
    ] {
        assert_eq!(
            suggest(typo, &known, 2, 5),
            SuggestResult::ConfidentCorrect(fix.to_string()),
            "{}",
            typo
        );
    }
}

#[test]
fn readme_short_command_gets_suggestions() {
    let known = names(&["git", "gd"]);
    assert_eq!(
        suggest("gt", &known, 2, 5),
        SuggestResult::Suggestions(names(&["gd", "git"]))
    );
}

#[test]
fn no_match_when_everything_is_too_far() {
    let known = names(&["git", "docker", "python"]);
    assert_eq!(suggest("xyzabc123", &known, 2, 5), SuggestResult::NoMatch);
}

#[test]
fn zero_max_suggestions_gives_an_empty_list() {
    let known = names(&["abd", "abe"]);
    assert_eq!(
        suggest("abc", &known, 2, 0),
        SuggestResult::Suggestions(vec![])
    );
}

#[test]
fn byte_length_filter_counts_bytes() {
    // "é" is two bytes: the length filter excludes it at max distance 0,
    // though one edit would turn "e" into it.
    let known = names(&["é"]);
    assert_eq!(suggest("e", &known, 0, 5), SuggestResult::NoMatch);
    assert_eq!(suggest("e", &known, 1, 5), SuggestResult::AutoCorrect("é".to_string()));
}

#[test]
fn candidate_order_does_not_matter() {
    let a = names(&["gd", "git", "go"]);
    let b = names(&["go", "gd", "git"]);
    assert_eq!(suggest("gt", &a, 2, 5), suggest("gt", &b, 2, 5));
}

#[test]
fn select_uses_the_given_distances() {
    let scored = vec![
        ("zeta".to_string(), 2usize),
        ("alpha".to_string(), 2usize),
        ("same".to_string(), 0usize),
        ("far".to_string(), 3usize),
    ];
    assert_eq!(
        select_suggestion("cmd", &scored, 2, 5),
        SuggestResult::Suggestions(names(&["alpha", "zeta"]))
    );
    let scored = vec![("one".to_string(), 1usize), ("two".to_string(), 2usize)];
    assert_eq!(
        select_suggestion("cmd", &scored, 2, 5),
        SuggestResult::ConfidentCorrect("one".to_string())
    );
    assert_eq!(
        select_suggestion("cm", &scored, 2, 5),
        SuggestResult::AutoCorrect("one".to_string())
    );
}
