use rdups::listing::{walk_files, WalkEntry};

#[test]
fn regular_files_are_listed_in_walk_order() {
    let entries = vec![
        WalkEntry::File { size: 3, path: "a" },
        WalkEntry::File { size: 1, path: "b" },
        WalkEntry::File { size: 3, path: "c" },
    ];
    assert_eq!(walk_files(entries), vec![(3, "a"), (1, "b"), (3, "c")]);
}

#[test]
fn empty_files_are_left_out() {
    let entries = vec![
        WalkEntry::File { size: 0, path: "empty" },
        WalkEntry::File { size: 1, path: "one" },
        WalkEntry::File { size: 0, path: "also empty" },
    ];
    assert_eq!(walk_files(entries), vec![(1, "one")]);
}

#[test]
fn directories_and_failures_are_skipped() {
    let entries = vec![
        WalkEntry::Other,
        WalkEntry::File { size: 7, path: "kept" },
        WalkEntry::Failed,
        WalkEntry::Other,
        WalkEntry::File { size: 7, path: "kept too" },
        WalkEntry::Failed,
    ];
    assert_eq!(walk_files(entries), vec![(7, "kept"), (7, "kept too")]);
}

#[test]
fn nothing_walked_nothing_listed() {
    assert_eq!(walk_files(Vec::<WalkEntry<&str>>::new()), Vec::<(u64, &str)>::new());
    assert_eq!(
        walk_files(vec![WalkEntry::<&str>::Failed, WalkEntry::Other]),
        Vec::<(u64, &str)>::new()
    );
}
