use rdups::size_filter::{advance, group_files_by_size, SizeFilter, SizeSlot};

#[test]
fn an_unseen_size_gets_a_pending_slot() {
    assert_eq!(advance(None, "a"), (SizeSlot::PendingOne("a"), vec![]));
}

#[test]
fn a_pending_slot_is_released_with_both_paths() {
    assert_eq!(
        advance(Some(SizeSlot::PendingOne("a")), "b"),
        (SizeSlot::Released, vec!["a", "b"])
    );
}

#[test]
fn a_released_slot_stays_released() {
    assert_eq!(advance(Some(SizeSlot::Released), "c"), (SizeSlot::Released, vec!["c"]));
}

#[test]
fn first_file_of_a_size_is_held_back() {
    let mut filter = SizeFilter::new();
    assert_eq!(filter.observe(10, "a"), Vec::<&str>::new());
    assert_eq!(filter.observe(11, "b"), Vec::<&str>::new());
    assert_eq!(filter.observe(12, "c"), Vec::<&str>::new());
}

#[test]
fn second_file_releases_the_pending_one_first() {
    let mut filter = SizeFilter::new();
    assert_eq!(filter.observe(10, "first"), Vec::<&str>::new());
    assert_eq!(filter.observe(10, "second"), vec!["first", "second"]);
}

#[test]
fn later_files_of_a_released_size_pass_at_once() {
    let mut filter = SizeFilter::new();
    filter.observe(10, "a");
    filter.observe(10, "b");
    assert_eq!(filter.observe(10, "c"), vec!["c"]);
    assert_eq!(filter.observe(10, "d"), vec!["d"]);
}

#[test]
fn sizes_do_not_disturb_each_other() {
    let mut filter = SizeFilter::new();
    assert_eq!(filter.observe(1, "a1"), Vec::<&str>::new());
    assert_eq!(filter.observe(2, "b1"), Vec::<&str>::new());
    assert_eq!(filter.observe(1, "a2"), vec!["a1", "a2"]);
    assert_eq!(filter.observe(3, "c1"), Vec::<&str>::new());
    assert_eq!(filter.observe(2, "b2"), vec!["b1", "b2"]);
    assert_eq!(filter.observe(1, "a3"), vec!["a3"]);
}

#[test]
fn largest_size_is_filtered_like_any_other() {
    let mut filter = SizeFilter::new();
    assert_eq!(filter.observe(u64::MAX, "x"), Vec::<&str>::new());
    assert_eq!(filter.observe(u64::MAX, "y"), vec!["x", "y"]);
}

#[test]
fn empty_listing_has_no_candidates() {
    let candidates = group_files_by_size(Vec::<(u64, &str)>::new());
    assert!(candidates.is_empty());
}

#[test]
fn candidates_come_in_release_order() {
    let listing = vec![(5, "a"), (7, "b"), (5, "c"), (9, "d"), (7, "e"), (5, "f")];
    assert_eq!(group_files_by_size(listing), vec!["a", "c", "b", "e", "f"]);
}

#[test]
fn unique_sizes_are_never_candidates() {
    let listing = vec![(1, "a"), (2, "b"), (3, "c"), (4, "d")];
    assert_eq!(group_files_by_size(listing), Vec::<&str>::new());
}

#[test]
fn every_file_of_a_shared_size_is_a_candidate_once() {
    let listing = vec![(4, "a"), (4, "b"), (8, "lonely"), (4, "c"), (6, "x"), (6, "y")];
    let mut candidates = group_files_by_size(listing);
    candidates.sort();
    assert_eq!(candidates, vec!["a", "b", "c", "x", "y"]);
}

#[test]
fn whole_listing_agrees_with_the_stream() {
    let listing = vec![(3, 0u32), (4, 1), (3, 2), (4, 3), (5, 4), (3, 5)];
    let mut filter = SizeFilter::new();
    let mut streamed = Vec::new();
    for (size, path) in listing.clone() {
        streamed.extend(filter.observe(size, path));
    }
    assert_eq!(group_files_by_size(listing), streamed);
}

#[test]
fn paths_may_be_owned_path_buffers() {
    let listing = vec![
        (2, std::path::PathBuf::from("dir/with space/a")),
        (2, std::path::PathBuf::from("dir/b")),
    ];
    let candidates = group_files_by_size(listing);
    assert_eq!(
        candidates,
        vec![std::path::PathBuf::from("dir/with space/a"), std::path::PathBuf::from("dir/b")]
    );
}
