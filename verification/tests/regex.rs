use ofgpu::regex::{looks_like_a_pattern, Regex};

fn m(p: &str, s: &str) -> bool {
    match Regex::new(p) {
        Ok(r) => r.is_match(s),
        Err(e) => panic!("{e}"),
    }
}

#[test]
fn the_two_idioms_that_matter() {
    assert!(m(".*", "inlet"));
    assert!(m(".*", ""));
    assert!(m("(U|k|epsilon)", "epsilon"));
    assert!(m("(U|k|epsilon)", "U"));
    assert!(!m("(U|k|epsilon)", "omega"));
    assert!(!m("(U|k|epsilon)", "epsilonX"));
}

#[test]
fn the_match_is_anchored_at_both_ends() {
    assert!(!m("let", "inlet"));
    assert!(!m("inle", "inlet"));
    assert!(m("inlet", "inlet"));
    assert!(m("^inlet$", "inlet"));
    assert!(m("^wall.*$", "wallLeft"));
}

#[test]
fn repetition() {
    assert!(m("walls?", "wall"));
    assert!(m("walls?", "walls"));
    assert!(!m("walls?", "wallss"));
    assert!(m("a+", "aaa"));
    assert!(!m("a+", ""));
    assert!(m("a{2,3}", "aa"));
    assert!(m("a{2,3}", "aaa"));
    assert!(!m("a{2,3}", "a"));
    assert!(!m("a{2,3}", "aaaa"));
    assert!(m("a{2}", "aa"));
    assert!(m("a{2,}", "aaaaa"));
}

#[test]
fn character_classes() {
    assert!(m("procBoundary[0-9]+", "procBoundary12"));
    assert!(!m("procBoundary[0-9]+", "procBoundary"));
    assert!(m("[^0-9]+", "wall"));
    assert!(!m("[^0-9]+", "wall1"));
    assert!(m("[]a]", "]"));
    assert!(m("[a-]", "-"));
}

#[test]
fn escapes_and_literal_braces() {
    assert!(m(r"div\(phi,U\)", "div(phi,U)"));
    assert!(m(r"a\.b", "a.b"));
    assert!(!m(r"a\.b", "axb"));
    assert!(m("a{b", "a{b"));
}

#[test]
fn nested_groups_backtrack() {
    assert!(m("(ab|a)(b?)c", "abc"));
    assert!(m("(a*)*b", "aaab"));
    assert!(!m("(a*)*b", "aaa"));
    assert!(m("(inlet|outlet)[0-9]*", "outlet3"));
}

#[test]
fn a_plain_name_is_not_a_pattern() {
    assert!(!looks_like_a_pattern("inlet"));
    assert!(!looks_like_a_pattern("movingWall"));
    assert!(looks_like_a_pattern(".*"));
    assert!(looks_like_a_pattern("(U|k)"));
    assert!(looks_like_a_pattern("walls?"));
}

#[test]
fn a_broken_pattern_is_an_error_not_a_panic() {
    assert!(Regex::new("(unclosed").is_err());
    assert!(Regex::new("[unclosed").is_err());
    assert!(Regex::new("closed)").is_err());
    assert!(Regex::new("*").is_err());
    assert!(Regex::new("trailing\\").is_err());
}

#[test]
fn a_round_that_matches_nothing_counts() {
    assert!(m("(a*)+", ""));
    assert!(m("(a*)+", "aa"));
    assert!(!m("(a*)+", "b"));
    assert!(m("(a?){3}", "a"));
    assert!(m("(a?){3}", "aaa"));
    assert!(!m("(a?){3}", "aaaa"));
    assert!(m("(a|){2,3}b", "ab"));
    assert!(m("(a*){4000000000}", "aaa"));
    assert!(!m("a{3,2}", "aaa"));
    assert!(!m("(a*){3,2}", ""));
    assert!(m("(^)+x", "x"));
}

#[test]
fn a_broken_pattern_is_named() {
    for p in ["(unclosed", "[unclosed", "[a-", "closed)", "*", "a|+", "trailing\\", "a{2", "a{2,x}"] {
        let e = Regex::new(p).unwrap_err();
        assert!(e.contains(&format!("regular expression \"{p}\": ")), "{e}");
    }
    assert_eq!(
        Regex::new("(unclosed").unwrap_err(),
        "regular expression \"(unclosed\": missing ')'"
    );
    assert_eq!(
        Regex::new("a{99999999999}").unwrap_err(),
        "regular expression \"a{99999999999}\": repetition count out of range"
    );
    assert_eq!(
        Regex::new("closed)").unwrap_err(),
        "regular expression \"closed)\": unbalanced ')' at character 7"
    );
}

#[test]
fn a_plain_name_matches_itself_alone() {
    for name in ["inlet", "in-let_2", "a]b", "a}b", "div,phi"] {
        assert!(!looks_like_a_pattern(name));
        assert!(m(name, name));
        assert!(!m(name, "other"));
        assert!(!m(name, &format!("{name}2")));
    }
    assert!(!looks_like_a_pattern("a)b"));
    assert!(Regex::new("a)b").is_err());
}

#[test]
fn a_copy_of_a_pattern_matches_alike() {
    let r = Regex::new("(ab|[c-e])+x{2,3}.?").unwrap();
    let twin = r.clone();
    assert_eq!(twin.as_str(), r.as_str());
    for t in ["abcxx", "abxxxy", "xx", "cx", "deabxxx", "abxxxyz"] {
        assert_eq!(twin.is_match(t), r.is_match(t), "{t}");
    }
    assert!(twin.is_match("abcxx") && !twin.is_match("cx"));
}
