use rdups::aggregate::{
    group_files_by_checksum, Aggregator, FingerprintGroup, HashOutcome, HashResult,
};
use rdups::duplicates::duplicated_files;
use rdups::report::{report_lines, ReportLine};

fn result(fingerprint: &str, path: &'static str) -> HashResult<&'static str> {
    HashResult { fingerprint: fingerprint.to_string(), path }
}

fn hashed(fingerprint: &str, path: &'static str) -> HashOutcome<&'static str> {
    HashOutcome::Hashed(result(fingerprint, path))
}

fn group(fingerprint: &str, paths: Vec<&'static str>) -> FingerprintGroup<&'static str> {
    FingerprintGroup { fingerprint: fingerprint.to_string(), paths }
}

#[test]
fn nothing_recorded_no_groups() {
    let aggregator: Aggregator<&str> = Aggregator::new();
    assert!(aggregator.finish().is_empty());
    assert!(group_files_by_checksum(Vec::<HashOutcome<&str>>::new()).is_empty());
}

#[test]
fn one_group_per_fingerprint_in_order_of_first_arrival() {
    let mut aggregator = Aggregator::new();
    aggregator.record(result("bb", "1"));
    aggregator.record(result("aa", "2"));
    aggregator.record(result("bb", "3"));
    aggregator.record(result("cc", "4"));
    aggregator.record(result("aa", "5"));
    aggregator.record(result("bb", "6"));
    assert_eq!(
        aggregator.finish(),
        vec![group("bb", vec!["1", "3", "6"]), group("aa", vec!["2", "5"]), group("cc", vec!["4"])]
    );
}

#[test]
fn fingerprints_are_compared_as_whole_strings() {
    let groups = group_files_by_checksum(vec![
        hashed("abc", "1"),
        hashed("ab", "2"),
        hashed("abcd", "3"),
        hashed("", "4"),
        hashed("ab", "5"),
        hashed("", "6"),
    ]);
    assert_eq!(
        groups,
        vec![
            group("abc", vec!["1"]),
            group("ab", vec!["2", "5"]),
            group("abcd", vec!["3"]),
            group("", vec!["4", "6"]),
        ]
    );
}

#[test]
fn whole_batch_agrees_with_the_stream() {
    let arrivals = [("x", "a"), ("y", "b"), ("x", "c"), ("z", "d")];
    let mut aggregator = Aggregator::new();
    for (fingerprint, path) in arrivals {
        aggregator.record(result(fingerprint, path));
    }
    let outcomes = arrivals.iter().map(|(fingerprint, path)| hashed(fingerprint, path)).collect();
    assert_eq!(group_files_by_checksum(outcomes), aggregator.finish());
}

#[test]
fn a_read_gives_a_result_and_a_failure_gives_the_path() {
    let read: Result<String, ()> = Ok("abc".to_string());
    assert_eq!(HashOutcome::from_read("a", read), hashed("abc", "a"));
    let failed: Result<String, std::io::Error> =
        Err(std::io::Error::new(std::io::ErrorKind::NotFound, "gone"));
    assert_eq!(HashOutcome::from_read("b", failed), HashOutcome::Unreadable("b"));
}

#[test]
fn an_unreadable_path_is_handed_back() {
    let mut aggregator = Aggregator::new();
    assert_eq!(aggregator.collect(hashed("x", "a")), None);
    assert_eq!(aggregator.collect(HashOutcome::Unreadable("gone")), Some("gone"));
    assert_eq!(aggregator.collect(hashed("x", "b")), None);
    assert_eq!(aggregator.finish(), vec![group("x", vec!["a", "b"])]);
}

#[test]
fn unreadable_paths_join_no_group() {
    let groups = group_files_by_checksum(vec![
        HashOutcome::Unreadable("gone"),
        hashed("x", "a"),
        HashOutcome::Unreadable("locked"),
        hashed("x", "b"),
    ]);
    assert_eq!(groups, vec![group("x", vec!["a", "b"])]);
}

#[test]
fn only_failures_give_no_groups() {
    let groups =
        group_files_by_checksum(vec![HashOutcome::Unreadable("a"), HashOutcome::Unreadable("b")]);
    assert!(groups.is_empty());
}

#[test]
fn a_failure_leaves_the_other_groups_as_they_are() {
    let without =
        group_files_by_checksum(vec![hashed("x", "a"), hashed("y", "b"), hashed("x", "c")]);
    for at in 0..4 {
        let mut outcomes = vec![hashed("x", "a"), hashed("y", "b"), hashed("x", "c")];
        outcomes.insert(at, HashOutcome::Unreadable("broken"));
        assert_eq!(group_files_by_checksum(outcomes), without);
    }
}

#[test]
fn groups_of_two_or_more_are_duplicates() {
    let dups = duplicated_files(vec![
        group("a", vec!["1"]),
        group("b", vec!["2", "3"]),
        group("c", vec![]),
        group("d", vec!["4", "5", "6"]),
        group("e", vec!["7"]),
    ]);
    assert_eq!(dups, vec![group("b", vec!["2", "3"]), group("d", vec!["4", "5", "6"])]);
}

#[test]
fn no_groups_no_duplicates() {
    assert!(duplicated_files(Vec::<FingerprintGroup<&str>>::new()).is_empty());
    assert!(duplicated_files(vec![group("a", vec!["1"]), group("b", vec!["2"])]).is_empty());
}

#[test]
fn a_pair_is_the_smallest_duplicate_group() {
    assert_eq!(
        duplicated_files(vec![group("f", vec!["x", "y"])]),
        vec![group("f", vec!["x", "y"])]
    );
    assert!(duplicated_files(vec![group("f", vec!["x"])]).is_empty());
}

#[test]
fn every_group_is_closed_by_a_blank_line() {
    let lines = report_lines(vec![group("a", vec!["1", "2"]), group("b", vec!["3", "4", "5"])]);
    assert_eq!(
        lines,
        vec![
            ReportLine::Path("1"),
            ReportLine::Path("2"),
            ReportLine::Blank,
            ReportLine::Path("3"),
            ReportLine::Path("4"),
            ReportLine::Path("5"),
            ReportLine::Blank,
        ]
    );
}

#[test]
fn an_empty_report_has_no_lines() {
    assert!(report_lines(Vec::<FingerprintGroup<&str>>::new()).is_empty());
}

#[test]
fn paths_with_spaces_stay_whole_lines() {
    let lines = report_lines(vec![group("a", vec!["dir/a file", "dir/another\nfile"])]);
    assert_eq!(
        lines,
        vec![
            ReportLine::Path("dir/a file"),
            ReportLine::Path("dir/another\nfile"),
            ReportLine::Blank
        ]
    );
}
