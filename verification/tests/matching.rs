use zox::record::History;

fn rec(path: &str) -> History {
    History { path: path.as_bytes().to_vec(), rank: 0, time: 0 }
}

fn pats(words: &[&str]) -> Vec<Vec<u8>> {
    words.iter().map(|w| w.as_bytes().to_vec()).collect()
}

#[test]
fn test_history_match_order() {
    assert!(rec("/foo/bar").matches(&pats(&["foo", "bar"])));
    assert!(!rec("/foo/bar").matches(&pats(&["bar", "foo"])));
}

#[test]
fn test_history_match_repeat() {
    assert!(rec("/foo/foo").matches(&pats(&["foo", "foo"])));
    assert!(!rec("/foo/bar").matches(&pats(&["foo", "foo"])));
}

#[test]
fn match_is_case_insensitive_on_the_path() {
    assert!(rec("/Foo/BAR").matches(&pats(&["foo", "bar"])));
}

#[test]
fn match_with_no_patterns_always_succeeds() {
    assert!(rec("/anything").matches(&pats(&[])));
    assert!(rec("").matches(&pats(&[])));
}

#[test]
fn match_requires_every_pattern() {
    assert!(!rec("/foo/bar").matches(&pats(&["foo", "baz"])));
    assert!(!rec("").matches(&pats(&["a"])));
}

#[test]
fn match_cursor_advances_past_the_occurrence() {
    // the two occurrences of "oo" must not overlap
    assert!(!rec("/ooo").matches(&pats(&["oo", "oo"])));
    assert!(rec("/oooo").matches(&pats(&["oo", "oo"])));
}
