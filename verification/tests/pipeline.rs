use rdups::aggregate::{group_files_by_checksum, FingerprintGroup, HashOutcome, HashResult};
use rdups::digest::{blake3_checksum, Digest};
use rdups::duplicates::duplicated_files;
use rdups::listing::{walk_files, WalkEntry};
use rdups::size_filter::group_files_by_size;

/// A file of a tree held in memory: its path, its bytes, and whether it can
/// still be read when a worker gets to it.
struct TreeFile {
    path: String,
    content: Vec<u8>,
    readable: bool,
}

fn file(path: &str, content: &[u8]) -> TreeFile {
    TreeFile { path: path.to_string(), content: content.to_vec(), readable: true }
}

fn vanished(path: &str, content: &[u8]) -> TreeFile {
    TreeFile { path: path.to_string(), content: content.to_vec(), readable: false }
}

/// What a scan of the tree gives: the duplicate groups, and the paths that
/// were handed to the hash stage.
struct Scan {
    groups: Vec<FingerprintGroup<String>>,
    hashed: Vec<String>,
}

/// Runs the stages over the tree. `delivery` puts the candidates into the
/// order in which their results arrive.
fn scan_in_order(tree: &[TreeFile], delivery: fn(&mut Vec<String>)) -> Scan {
    let entries = tree
        .iter()
        .map(|f| WalkEntry::File { size: f.content.len() as u64, path: f.path.clone() })
        .collect();
    let mut candidates = group_files_by_size(walk_files(entries));
    let hashed = candidates.clone();
    delivery(&mut candidates);
    let mut outcomes = Vec::new();
    for path in candidates {
        let found = tree.iter().find(|f| f.path == path).unwrap();
        if found.readable {
            let mut digest = Digest::new();
            for chunk in found.content.chunks(3) {
                digest.update(chunk);
            }
            outcomes.push(HashOutcome::Hashed(HashResult { fingerprint: digest.finalize(), path }));
        } else {
            outcomes.push(HashOutcome::Unreadable(path));
        }
    }
    Scan { groups: duplicated_files(group_files_by_checksum(outcomes)), hashed }
}

fn as_delivered(_candidates: &mut Vec<String>) {}

fn reversed(candidates: &mut Vec<String>) {
    candidates.reverse();
}

fn rotated(candidates: &mut Vec<String>) {
    if !candidates.is_empty() {
        let by = candidates.len() / 3;
        candidates.rotate_left(by);
    }
}

fn scan(tree: &[TreeFile]) -> Scan {
    scan_in_order(tree, as_delivered)
}

/// The groups as sorted lists of sorted paths, so that two reports can be
/// compared whatever their order.
fn sets(groups: &[FingerprintGroup<String>]) -> Vec<Vec<String>> {
    let mut all: Vec<Vec<String>> = groups
        .iter()
        .map(|g| {
            let mut paths = g.paths.clone();
            paths.sort();
            paths
        })
        .collect();
    all.sort();
    all
}

fn paths(names: &[&str]) -> Vec<String> {
    names.iter().map(|n| n.to_string()).collect()
}

#[test]
fn two_equal_one_byte_files_and_a_third() {
    let tree = vec![file("a", b"X"), file("b", b"X"), file("c", b"Y")];
    let found = scan(&tree);
    assert_eq!(found.groups.len(), 1);
    assert_eq!(found.groups[0].paths, paths(&["a", "b"]));
    assert_eq!(found.groups[0].fingerprint, blake3_checksum(b"X"));
    assert!(found.groups.iter().all(|g| !g.paths.contains(&"c".to_string())));
}

#[test]
fn three_files_of_ten_bytes_two_alike() {
    let tree =
        vec![file("one", b"0123456789"), file("two", b"abcdefghij"), file("three", b"0123456789")];
    let found = scan(&tree);
    assert_eq!(found.groups.len(), 1);
    assert_eq!(found.groups[0].paths.len(), 2);
    assert_eq!(found.groups[0].paths, paths(&["one", "three"]));
    assert_eq!(found.hashed.len(), 3);
}

#[test]
fn only_unique_sizes_nothing_hashed() {
    let tree = vec![file("a", b"1"), file("b", b"22"), file("c", b"333"), file("d", b"4444")];
    let found = scan(&tree);
    assert!(found.groups.is_empty());
    assert!(found.hashed.is_empty());
}

#[test]
fn file_vanishes_before_hashing() {
    let tree = vec![vanished("gone", b"AAAA"), file("sibling", b"BBBB")];
    let found = scan(&tree);
    assert_eq!(found.hashed, paths(&["gone", "sibling"]));
    assert!(found.groups.is_empty());
}

#[test]
fn thousand_files_of_ten_contents() {
    let mut tree = Vec::new();
    for i in 0..1000 {
        let content = format!("content number {}", i % 10);
        tree.push(file(&format!("dir/{:04}", i), content.as_bytes()));
    }
    let found = scan(&tree);
    assert_eq!(found.hashed.len(), 1000);
    assert_eq!(found.groups.len(), 10);
    for (k, group) in found.groups.iter().enumerate() {
        assert_eq!(group.paths.len(), 100);
        assert_eq!(group.fingerprint, blake3_checksum(format!("content number {}", k).as_bytes()));
        for path in &group.paths {
            let number: usize = path[4..].parse().unwrap();
            assert_eq!(number % 10, k);
        }
    }
}

#[test]
fn scanning_twice_gives_the_same_groups() {
    let tree = vec![
        file("a", b"same"),
        file("b", b"else"),
        file("c", b"same"),
        file("d", b"longer"),
        file("e", b"else"),
        file("f", b"same"),
    ];
    let first = scan(&tree);
    let second = scan(&tree);
    assert_eq!(first.groups, second.groups);
    assert_eq!(sets(&first.groups), vec![paths(&["a", "c", "f"]), paths(&["b", "e"])]);
}

#[test]
fn delivery_order_does_not_change_the_groups() {
    let tree = vec![
        file("a", b"same"),
        file("b", b"else"),
        file("c", b"same"),
        vanished("v", b"same"),
        file("d", b"longer"),
        file("e", b"else"),
        file("f", b"same"),
        file("g", b"solo"),
    ];
    let straight = scan_in_order(&tree, as_delivered);
    let backward = scan_in_order(&tree, reversed);
    let turned = scan_in_order(&tree, rotated);
    assert_eq!(sets(&straight.groups), vec![paths(&["a", "c", "f"]), paths(&["b", "e"])]);
    assert_eq!(sets(&backward.groups), sets(&straight.groups));
    assert_eq!(sets(&turned.groups), sets(&straight.groups));
}

#[test]
fn walk_order_does_not_change_the_groups() {
    let names = ["a", "b", "c", "d", "e", "f", "g"];
    let contents: [&[u8]; 7] = [b"same", b"else", b"same", b"longer", b"else", b"same", b"solo"];
    let forward: Vec<TreeFile> = (0..7).map(|i| file(names[i], contents[i])).collect();
    let backward: Vec<TreeFile> = (0..7).rev().map(|i| file(names[i], contents[i])).collect();
    let shuffled: Vec<TreeFile> =
        [3, 0, 6, 2, 5, 1, 4].iter().map(|&i| file(names[i], contents[i])).collect();
    let expected = vec![paths(&["a", "c", "f"]), paths(&["b", "e"])];
    assert_eq!(sets(&scan(&forward).groups), expected);
    assert_eq!(sets(&scan(&backward).groups), expected);
    assert_eq!(sets(&scan_in_order(&shuffled, rotated).groups), expected);
}

#[test]
fn files_of_equal_size_and_content_share_a_group() {
    let tree = vec![
        file("p", b"alpha"),
        file("q", b"bravo"),
        file("r", b"alpha"),
        file("s", b"delta"),
        file("t", b"bravo"),
    ];
    let found = scan(&tree);
    for a in &tree {
        for b in &tree {
            if a.path != b.path && a.content == b.content {
                let together = found
                    .groups
                    .iter()
                    .filter(|g| g.paths.contains(&a.path) && g.paths.contains(&b.path))
                    .count();
                assert_eq!(together, 1);
            }
        }
    }
}

#[test]
fn no_group_mixes_contents() {
    let tree = vec![
        file("p", b"alpha"),
        file("q", b"bravo"),
        file("r", b"alpha"),
        file("s", b"delta"),
        file("t", b"bravo"),
        file("u", b"alpha"),
    ];
    let found = scan(&tree);
    assert_eq!(found.groups.len(), 2);
    for group in &found.groups {
        let contents: Vec<&Vec<u8>> = group
            .paths
            .iter()
            .map(|path| &tree.iter().find(|f| &f.path == path).unwrap().content)
            .collect();
        assert!(contents.iter().all(|c| *c == contents[0]));
    }
}

#[test]
fn files_of_unique_size_are_never_hashed() {
    let tree = vec![
        file("pair one", b"12345"),
        file("alone", b"1234567"),
        file("pair two", b"12345"),
        file("also alone", b"1"),
    ];
    let found = scan(&tree);
    assert_eq!(found.hashed, paths(&["pair one", "pair two"]));
    assert!(!found.hashed.contains(&"alone".to_string()));
    assert!(!found.hashed.contains(&"also alone".to_string()));
}

#[test]
fn an_unreadable_file_is_in_no_group_and_hides_no_other() {
    let tree = vec![
        file("a", b"twin"),
        vanished("b", b"twin"),
        file("c", b"twin"),
        file("d", b"four"),
        vanished("e", b"four"),
    ];
    let found = scan(&tree);
    assert_eq!(found.hashed.len(), 5);
    assert_eq!(found.groups.len(), 1);
    assert_eq!(found.groups[0].paths, paths(&["a", "c"]));
    for group in &found.groups {
        assert!(!group.paths.contains(&"b".to_string()));
        assert!(!group.paths.contains(&"e".to_string()));
    }
}

#[test]
fn empty_files_are_not_duplicates_of_each_other() {
    let entries = vec![
        WalkEntry::File { size: 0, path: "empty one" },
        WalkEntry::File { size: 0, path: "empty two" },
        WalkEntry::Failed,
        WalkEntry::Other,
    ];
    assert!(group_files_by_size(walk_files(entries)).is_empty());
}

#[test]
fn equal_size_alone_makes_no_duplicates() {
    let tree = vec![file("a", b"abc"), file("b", b"abd"), file("c", b"abe")];
    let found = scan(&tree);
    assert_eq!(found.hashed.len(), 3);
    assert!(found.groups.is_empty());
}

#[test]
fn an_empty_tree_reports_nothing() {
    let found = scan(&[]);
    assert!(found.groups.is_empty());
    assert!(found.hashed.is_empty());
}
