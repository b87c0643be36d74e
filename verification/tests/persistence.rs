use zox::codec::parse_store;
use zox::codec::serialize_store;
use zox::record::History;

fn rec(path: &str, rank: u64, time: u64) -> History {
    History { path: path.as_bytes().to_vec(), rank, time }
}

fn same(a: &[History], b: &[History]) -> bool {
    a.len() == b.len()
        && a.iter().zip(b.iter()).all(|(x, y)| {
            x.path == y.path && x.rank == y.rank && x.time == y.time
        })
}

#[test]
fn serialized_form_is_bar_separated_lines() {
    let store = vec![rec("/a", 940500, 123), rec("/b c", 100, 0)];
    let text = serialize_store(&store);
    assert_eq!(String::from_utf8(text).unwrap(), "/a|9405.00|123\n/b c|1.00|0\n");
}

#[test]
fn round_trip_preserves_the_store() {
    let store = vec![
        rec("/a", 940500, 123),
        rec("/home/u/some dir", 1, 0),
        rec("/x", u64::MAX, u64::MAX),
    ];
    let back = parse_store(&serialize_store(&store));
    assert!(same(&store, &back));
}

#[test]
fn empty_text_is_an_empty_store() {
    assert!(parse_store(&Vec::new()).is_empty());
}

#[test]
fn malformed_lines_are_skipped() {
    let data = b"/a|1.00|5\nnot a record\n/b|2.50|7\n|too|many|bars|\n/c|x.00|1\n/d|1.00|\n"
        .to_vec();
    let back = parse_store(&data);
    assert!(same(&back, &[rec("/a", 100, 5), rec("/b", 250, 7)]));
}

#[test]
fn rank_field_accepts_whole_and_short_fractions() {
    let data = b"/a|3|1\n/b|3.5|1\n/c|3.25|1\n/d|3.255|1\n".to_vec();
    let back = parse_store(&data);
    assert!(same(&back, &[rec("/a", 300, 1), rec("/b", 350, 1), rec("/c", 325, 1)]));
}

#[test]
fn out_of_range_numbers_are_malformed() {
    let data = b"/a|1.00|99999999999999999999\n/b|999999999999999999999.00|1\n/c|1.00|2\n"
        .to_vec();
    let back = parse_store(&data);
    assert!(same(&back, &[rec("/c", 100, 2)]));
}

#[test]
fn an_empty_path_still_parses() {
    let back = parse_store(&b"|1.00|5\n".to_vec());
    assert!(same(&back, &[rec("", 100, 5)]));
}
