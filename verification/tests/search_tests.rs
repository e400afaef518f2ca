use minigrep::SearchInterface;
use minigrep::Searchable;

#[test]
fn case_sensitive_search_1() {
    let actual = vec![
        "2: Apple announced a new iPhone today.",
        "3: The company is named Apple, but they sell fruit?",
    ];
    let mut search_object = SearchInterface::new(
        Some(false),
        None,
        String::from(
            "1: An apple a day keeps the doctor away.
2: Apple announced a new iPhone today.
3: The company is named Apple, but they sell fruit?
4: I prefer a green apple over a red one.",
        ),
    );
    let res = search_object.search("Apple");
    assert_eq!(actual, res);
}

#[test]
fn case_sensitive_search_2() {
    let actual = vec!["1: help me!", "3: He is very helpful."];
    let mut search_object = SearchInterface::new(
        Some(false),
        None,
        String::from(
            "1: help me!
2: I need some HELP over here.
3: He is very helpful.
4: Can anyone HElp?",
        ),
    );
    let res = search_object.search("help");
    assert_eq!(actual, res);
}

#[test]
fn case_insensitive_search_1() {
    let actual = vec![
        "1: An apple a day keeps the doctor away.",
        "2: Apple announced a new iPhone today.",
        "3: The company is named Apple, but they sell fruit?",
        "4: I prefer a green apple over a red one.",
    ];
    let mut search_object = SearchInterface::new(
        Some(true),
        None,
        String::from(
            "1: An apple a day keeps the doctor away.
2: Apple announced a new iPhone today.
3: The company is named Apple, but they sell fruit?
4: I prefer a green apple over a red one.",
        ),
    );
    let res = search_object.search("Apple");
    assert_eq!(actual, res);
}

#[test]
fn case_insensitive_search_2() {
    let actual = vec![
        "1: help me!",
        "2: I need some HELP over here.",
        "3: He is very helpful.",
        "4: Can anyone HElp?",
    ];
    let mut search_object = SearchInterface::new(
        Some(true),
        None,
        String::from(
            "1: help me!
2: I need some HELP over here.
3: He is very helpful.
4: Can anyone HElp?",
        ),
    );
    let res = search_object.search("help");
    assert_eq!(actual, res);
}

#[test]
fn env_var_test_1() {
    let actual = vec![
        "1: help me!",
        "2: I need some HELP over here.",
        "3: He is very helpful.",
        "4: Can anyone HElp?",
    ];
    let mut search_object = SearchInterface::new(
        None,
        Some(String::from("1")),
        String::from(
            "1: help me!
2: I need some HELP over here.
3: He is very helpful.
4: Can anyone HElp?",
        ),
    );
    let res = search_object.search("help");
    assert_eq!(actual, res);
}

#[test]
fn env_var_test_2() {
    let actual = vec!["1: help me!", "3: He is very helpful."];
    let mut search_object = SearchInterface::new(
        None,
        Some(String::from("0")),
        String::from(
            "1: help me!
2: I need some HELP over here.
3: He is very helpful.
4: Can anyone HElp?",
        ),
    );
    let res = search_object.search("help");
    assert_eq!(actual, res);
}

#[test]
fn env_var_absent_is_case_sensitive() {
    let mut search_object = SearchInterface::new(
        None,
        None,
        String::from("HELP\nhelp wanted\n"),
    );
    let res = search_object.search("help");
    assert_eq!(res, vec!["help wanted"]);
}

#[test]
fn env_var_other_value_is_case_sensitive() {
    let mut search_object = SearchInterface::new(
        None,
        Some(String::from("yes")),
        String::from("HELP\nhelp wanted\n"),
    );
    let res = search_object.search("help");
    assert_eq!(res, vec!["help wanted"]);
}

#[test]
fn explicit_flag_wins_over_env() {
    let mut search_object = SearchInterface::new(
        Some(false),
        Some(String::from("1")),
        String::from("HELP\nhelp wanted\n"),
    );
    let res = search_object.search("help");
    assert_eq!(res, vec!["help wanted"]);
}

#[test]
fn empty_pattern_matches_every_line() {
    let mut search_object = SearchInterface::new(
        Some(false),
        None,
        String::from("alpha\nbeta\ngamma"),
    );
    let res = search_object.search("");
    assert_eq!(res, vec!["alpha", "beta", "gamma"]);
}

#[test]
fn empty_pattern_matches_every_line_ignoring_case() {
    let mut search_object = SearchInterface::new(
        Some(true),
        None,
        String::from("Alpha\nBETA"),
    );
    let res = search_object.search("");
    assert_eq!(res, vec!["Alpha", "BETA"]);
}

#[test]
fn empty_input_yields_no_matches() {
    let mut search_object = SearchInterface::new(Some(false), None, String::new());
    let res = search_object.search("anything");
    assert!(res.is_empty());
}

#[test]
fn result_lines_are_trimmed() {
    let mut search_object = SearchInterface::new(
        Some(false),
        None,
        String::from("  padded match  \r\nother\nmatch at end\n"),
    );
    let res = search_object.search("match");
    assert_eq!(res, vec!["padded match", "match at end"]);
}

#[test]
fn matching_sees_untrimmed_lines() {
    // The newline terminator is part of the scanned line, so a pattern can
    // match inside whitespace that trimming later removes.
    let mut search_object = SearchInterface::new(
        Some(false),
        None,
        String::from("first\nsecond\nlast"),
    );
    let res = search_object.search("d\n");
    assert_eq!(res, vec!["second"]);
}

#[test]
fn duplicate_lines_are_kept_in_order() {
    let mut search_object = SearchInterface::new(
        Some(false),
        None,
        String::from("echo\nother\necho\n"),
    );
    let res = search_object.search("echo");
    assert_eq!(res, vec!["echo", "echo"]);
}

#[test]
fn second_search_reports_accumulated_matches() {
    // The stream is drained by the first search; a second call adds nothing
    // new but still reports everything matched so far.
    let mut search_object = SearchInterface::new(
        Some(false),
        None,
        String::from("one match\nnothing here\n"),
    );
    let first = search_object.search("match");
    assert_eq!(first, vec!["one match"]);
    let second = search_object.search("nothing");
    assert_eq!(second, vec!["one match"]);
}

#[test]
fn lowercasing_applies_to_pattern_and_line() {
    let mut search_object = SearchInterface::new(
        Some(true),
        None,
        String::from("MIXED Case Line\nno hit\n"),
    );
    let res = search_object.search("mixed cASE");
    assert_eq!(res, vec!["MIXED Case Line"]);
}

#[test]
fn search_through_trait_object_interface() {
    fn run_search<S: Searchable>(s: &mut S, pat: &str) -> Vec<String> {
        s.search(pat)
    }
    let mut search_object = SearchInterface::new(
        Some(false),
        None,
        String::from("needle in haystack\nplain hay\n"),
    );
    let res = run_search(&mut search_object, "needle");
    assert_eq!(res, vec!["needle in haystack"]);
}
