use zox::record::History;
use zox::scorer::SortBy;

fn rec(rank: u64, time: u64) -> History {
    History { path: b"/a".to_vec(), rank, time }
}

// Scores are reported in quarter rank units, ranks held in hundredths:
// a rank of 1.0 is 100, and its within-the-hour frecency 4.0 is 1600.
#[test]
fn frecency_buckets_have_exact_values() {
    let h = rec(100, 1000);
    assert_eq!(h.frecent(1000), 1600); // age 0: rank * 4.0
    assert_eq!(h.frecent(1000 + 3599), 1600); // just under an hour
    assert_eq!(h.frecent(1000 + 3600), 800); // an hour old: rank * 2.0
    assert_eq!(h.frecent(1000 + 86399), 800); // just under a day
    assert_eq!(h.frecent(1000 + 86400), 200); // a day old: rank / 2.0
    assert_eq!(h.frecent(1000 + 604799), 200); // just under a week
    assert_eq!(h.frecent(1000 + 604800), 100); // a week old: rank / 4.0
}

#[test]
fn frecency_never_increases_with_age() {
    let h = rec(250, 5000);
    let mut last = h.frecent(5000);
    for age in [1u64, 3600, 3601, 86400, 90000, 604800, 1000000] {
        let score = h.frecent(5000 + age);
        assert!(score <= last);
        last = score;
    }
}

#[test]
fn future_timestamps_count_as_age_zero() {
    let h = rec(100, 2000);
    assert_eq!(h.frecent(1000), 1600);
}

#[test]
fn sort_key_follows_the_mode() {
    let h = rec(300, 7777);
    assert_eq!(h.get_sort(SortBy::Rank, 7777), 300);
    assert_eq!(h.get_sort(SortBy::Time, 7777), 7777);
    assert_eq!(h.get_sort(SortBy::Frecent, 7777), 4800);
}
