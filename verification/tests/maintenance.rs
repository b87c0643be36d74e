use zox::maintain::apply_visit;
use zox::maintain::apply_visits;
use zox::maintain::maintain;
use zox::record::History;

fn rec(path: &str, rank: u64, time: u64) -> History {
    History { path: path.as_bytes().to_vec(), rank, time }
}

#[test]
fn visiting_a_new_path_then_again_updates_one_record() {
    let mut store: Vec<History> = Vec::new();
    apply_visit(&mut store, b"/a".to_vec(), 1000);
    assert_eq!(store.len(), 1);
    assert_eq!(store[0].path, b"/a".to_vec());
    assert_eq!(store[0].rank, 100); // 1.0 in hundredths
    assert_eq!(store[0].time, 1000);

    apply_visit(&mut store, b"/a".to_vec(), 1500);
    assert_eq!(store.len(), 1);
    assert_eq!(store[0].rank, 200); // 2.0: incremented, not duplicated
    assert_eq!(store[0].time, 1500);
}

#[test]
fn a_batch_applies_each_visit_in_order() {
    let mut store: Vec<History> = Vec::new();
    let paths = vec![b"/a".to_vec(), b"/b".to_vec(), b"/a".to_vec()];
    apply_visits(&mut store, &paths, &b"/home/u".to_vec(), 42);
    assert_eq!(store.len(), 2);
    assert_eq!(store[0].path, b"/a".to_vec());
    assert_eq!(store[0].rank, 200); // repeated path got both increments
    assert_eq!(store[1].path, b"/b".to_vec());
    assert_eq!(store[1].rank, 100);
}

#[test]
fn the_home_directory_is_never_recorded() {
    let mut store: Vec<History> = Vec::new();
    let home = b"/home/u".to_vec();
    let paths = vec![b"/home/u".to_vec(), b"/home/u/src".to_vec()];
    apply_visits(&mut store, &paths, &home, 42);
    assert_eq!(store.len(), 1);
    assert_eq!(store[0].path, b"/home/u/src".to_vec());
}

#[test]
fn maintain_decays_when_the_total_exceeds_the_threshold() {
    // one record of rank 9500.0: the sum exceeds 9000.0, so the rank
    // decays to 9500.0 * 0.99 = 9405.0 and the record is retained
    let mut store = vec![rec("/a", 950000, 7)];
    maintain(&mut store);
    assert_eq!(store.len(), 1);
    assert_eq!(store[0].rank, 940500);
    assert_eq!(store[0].time, 7);
}

#[test]
fn maintain_leaves_small_totals_undecayed() {
    let mut store = vec![rec("/a", 400, 7), rec("/b", 100, 8)];
    maintain(&mut store);
    assert_eq!(store.len(), 2);
    assert_eq!(store[0].rank, 400);
    assert_eq!(store[1].rank, 100);
}

#[test]
fn maintain_prunes_ranks_below_one() {
    // 0.5 after a decay pass: pruned from the store entirely
    let mut store = vec![rec("/a", 50, 7), rec("/b", 100, 8)];
    maintain(&mut store);
    assert_eq!(store.len(), 1);
    assert_eq!(store[0].path, b"/b".to_vec());
}

#[test]
fn maintain_twice_equals_maintain_once() {
    // the first pass decays (the total exceeds 9000.0) and prunes; the
    // decayed total then sits below the threshold, so a second pass is a
    // no-op
    let mut once = vec![rec("/a", 905000, 1), rec("/b", 50, 2), rec("/c", 333, 3)];
    maintain(&mut once);
    let mut twice: Vec<History> = once.iter().map(|h| h.duplicate()).collect();
    maintain(&mut twice);
    assert_eq!(once.len(), twice.len());
    for (a, b) in once.iter().zip(twice.iter()) {
        assert_eq!(a.path, b.path);
        assert_eq!(a.rank, b.rank);
        assert_eq!(a.time, b.time);
    }
}
