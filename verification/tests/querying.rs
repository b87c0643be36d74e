use zox::query::query;
use zox::record::History;
use zox::scorer::SortBy;

fn rec(path: &str, rank: u64, time: u64) -> History {
    History { path: path.as_bytes().to_vec(), rank, time }
}

fn pats(words: &[&str]) -> Vec<Vec<u8>> {
    words.iter().map(|w| w.as_bytes().to_vec()).collect()
}

fn paths(res: &[History]) -> Vec<Vec<u8>> {
    res.iter().map(|h| h.path.clone()).collect()
}

#[test]
fn empty_patterns_list_by_rank_whatever_the_mode() {
    // recency would put /new first; rank order must win anyway
    let store = vec![rec("/old", 300, 10), rec("/new", 100, 1000000), rec("/mid", 200, 500000)];
    for mode in [SortBy::Frecent, SortBy::Time, SortBy::Rank] {
        let res = query(&store, &pats(&[]), mode, 1000000, true);
        assert_eq!(paths(&res), pats(&["/old", "/mid", "/new"]));
    }
}

#[test]
fn empty_pattern_ties_keep_store_order() {
    let store = vec![rec("/a", 100, 1), rec("/b", 100, 2), rec("/c", 200, 3)];
    let res = query(&store, &pats(&[]), SortBy::Frecent, 10, true);
    assert_eq!(paths(&res), pats(&["/c", "/a", "/b"]));
}

#[test]
fn patterns_filter_and_frecency_orders() {
    let now = 1000000;
    let store = vec![
        rec("/work/notes", 100, now), // fresh: frecency 4.0
        rec("/work/code", 200, 0),    // stale: frecency 0.5
        rec("/play", 900, now),       // does not match
    ];
    let res = query(&store, &pats(&["work"]), SortBy::Frecent, now, true);
    assert_eq!(paths(&res), pats(&["/work/notes", "/work/code"]));
}

#[test]
fn rank_mode_overrides_frecency() {
    let now = 1000000;
    let store = vec![rec("/work/notes", 100, now), rec("/work/code", 200, 0)];
    let res = query(&store, &pats(&["work"]), SortBy::Rank, now, true);
    assert_eq!(paths(&res), pats(&["/work/code", "/work/notes"]));
}

#[test]
fn best_match_only_without_list_mode() {
    let now = 1000000;
    let store = vec![rec("/work/notes", 100, now), rec("/work/code", 200, 0)];
    let res = query(&store, &pats(&["work"]), SortBy::Frecent, now, false);
    assert_eq!(paths(&res), pats(&["/work/notes"]));
}

#[test]
fn no_match_returns_nothing() {
    let store = vec![rec("/work/notes", 100, 5)];
    let res = query(&store, &pats(&["zzz"]), SortBy::Frecent, 10, false);
    assert!(res.is_empty());
    let listed = query(&store, &pats(&["zzz"]), SortBy::Frecent, 10, true);
    assert!(listed.is_empty());
}

#[test]
fn patterns_must_match_in_order() {
    let store = vec![rec("/foo/bar", 100, 5)];
    assert!(query(&store, &pats(&["bar", "foo"]), SortBy::Rank, 10, false).is_empty());
    assert_eq!(query(&store, &pats(&["foo", "bar"]), SortBy::Rank, 10, false).len(), 1);
}
