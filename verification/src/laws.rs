//! What holds of a whole scan: the size filter, the digest, the aggregator
//! and the extractor taken together.
//!
//! A scan is described by the listing that the walk gave, by the content of
//! each file that could be read, and by the order in which the workers
//! delivered their results. The workers stand outside the library:
//! `results_of` says what they hand to the aggregator, one result for each
//! candidate that could be read, and `report` is what the stages then make
//! of it.

use crate::aggregate::{
    grouping, has_fingerprint, hashed, is_hashed, lemma_paths_of_members, path_of, paths_of,
    result_of, HashOutcome,
};
use crate::digest::blake3_hex;
use crate::duplicates::{duplicates, lemma_reported_group, lemma_shared_fingerprint_reported};
use crate::seq_facts::{
    entry_at, lemma_filter_keeps_distinct, lemma_filter_map_push, lemma_filter_to_multiset,
    lemma_filter_two, lemma_map_to_multiset, lemma_picks_to_multiset,
    lemma_same_multiset_same_values,
};
use crate::size_filter::{
    emitted, lemma_emitted_ignores_order, lemma_released_exact, lemma_released_in_bounds,
    lemma_two_of_size, of_size, released,
};
use vstd::prelude::*;

verus! {

/// The test for a path that could be read.
pub open spec fn readable<P>(content: Map<P, Seq<u8>>) -> spec_fn(P) -> bool {
    |path: P| content.contains_key(path)
}

/// The result for the file at a path.
pub open spec fn result_for<P>(content: Map<P, Seq<u8>>) -> spec_fn(P) -> (Seq<char>, P) {
    |path: P| (blake3_hex(content[path]), path)
}

/// The result that a worker produces for candidate `k`: the fingerprint of
/// the file's content, and its path.
pub open spec fn result_at<P>(candidates: Seq<P>, content: Map<P, Seq<u8>>) -> spec_fn(int) -> (
    Seq<char>,
    P,
) {
    |k: int| result_for(content)(candidates[k])
}

/// `delivery` names, in some order and each once, the candidates that could
/// be read: those whose path has a content.
pub open spec fn delivers<P>(
    candidates: Seq<P>,
    content: Map<P, Seq<u8>>,
    delivery: Seq<int>,
) -> bool {
    &&& delivery.no_duplicates()
    &&& forall|k: int| #[trigger]
        delivery.contains(k) <==> 0 <= k < candidates.len() && readable(content)(candidates[k])
}

/// The results that reach the aggregator, in the order of delivery.
pub open spec fn results_of<P>(
    candidates: Seq<P>,
    content: Map<P, Seq<u8>>,
    delivery: Seq<int>,
) -> Seq<(Seq<char>, P)> {
    delivery.map_values(result_at(candidates, content))
}

/// The duplicate groups that a scan reports.
pub open spec fn report<P>(
    listing: Seq<(u64, P)>,
    content: Map<P, Seq<u8>>,
    delivery: Seq<int>,
) -> Seq<(Seq<char>, Seq<P>)> {
    duplicates(grouping(results_of(emitted(listing), content, delivery)))
}

/// The groups of a report without their order: each fingerprint with the set
/// of its paths.
pub open spec fn group_sets<P>(groups: Seq<(Seq<char>, Seq<P>)>) -> Set<(Seq<char>, Set<P>)> {
    Set::new(
        |group: (Seq<char>, Set<P>)|
            exists|g: int|
                0 <= g < groups.len() && (#[trigger] groups[g]).0 == group.0 && groups[g].1.to_set()
                    == group.1,
    )
}

/// Whether `outcome` is what a worker makes of the file at `path`: its result
/// where the file could be read, and the path handed back where it could
/// not.
pub open spec fn answers<P>(content: Map<P, Seq<u8>>, path: P, outcome: HashOutcome<P>) -> bool {
    if content.contains_key(path) {
        outcome is Hashed && result_of()(outcome) == result_for(content)(path)
    } else {
        outcome == HashOutcome::Unreadable(path)
    }
}

/// Whether `outcomes` is what a pool of workers makes of the candidates:
/// `order` names every candidate once, in the order in which the workers
/// finished, and each outcome answers the candidate at its place.
pub open spec fn worked_off<P>(
    candidates: Seq<P>,
    content: Map<P, Seq<u8>>,
    order: Seq<int>,
    outcomes: Seq<HashOutcome<P>>,
) -> bool {
    &&& order.no_duplicates()
    &&& forall|k: int| #[trigger] order.contains(k) <==> 0 <= k < candidates.len()
    &&& outcomes.len() == order.len()
    &&& forall|m: int|
        0 <= m < order.len() ==> answers(content, candidates[order[m]], #[trigger] outcomes[m])
}

/// The test for the place of a candidate that could be read.
pub open spec fn readable_at<P>(candidates: Seq<P>, content: Map<P, Seq<u8>>) -> spec_fn(
    int,
) -> bool {
    |k: int| content.contains_key(candidates[k])
}

/// Whatever the order in which a pool works the candidates off, what it
/// hands to the aggregator is a delivery: the results of the candidates that
/// could be read, each once, in the order in which they were finished.
pub proof fn lemma_workers_deliver<P>(
    candidates: Seq<P>,
    content: Map<P, Seq<u8>>,
    order: Seq<int>,
    outcomes: Seq<HashOutcome<P>>,
)
    requires
        worked_off(candidates, content, order, outcomes),
    ensures
        delivers(candidates, content, order.filter(readable_at(candidates, content))),
        hashed(outcomes) == results_of(
            candidates,
            content,
            order.filter(readable_at(candidates, content)),
        ),
{
    let pick = readable_at(candidates, content);
    let delivery = order.filter(pick);
    lemma_filter_keeps_distinct(order, pick);
    assert forall|k: int| #[trigger]
        delivery.contains(k) <==> 0 <= k < candidates.len() && readable(content)(
            candidates[k],
        ) by {
        if delivery.contains(k) {
            let m = delivery.index_of(k);
            order.lemma_filter_pred(pick, m);
            order.lemma_filter_contains_rev(pick, k);
        }
        if 0 <= k < candidates.len() && content.contains_key(candidates[k]) {
            assert(order.contains(k));
            let m = order.index_of(k);
            order.lemma_filter_contains(pick, m);
        }
    }
    lemma_results_in_step(candidates, content, order, outcomes, order.len() as int);
    assert(order.take(order.len() as int) =~= order);
    assert(outcomes.take(order.len() as int) =~= outcomes);
}

/// The first `n` outcomes hold the results of the first `n` candidates
/// worked off, as far as these could be read.
proof fn lemma_results_in_step<P>(
    candidates: Seq<P>,
    content: Map<P, Seq<u8>>,
    order: Seq<int>,
    outcomes: Seq<HashOutcome<P>>,
    n: int,
)
    requires
        worked_off(candidates, content, order, outcomes),
        0 <= n <= order.len(),
    ensures
        hashed(outcomes.take(n)) == results_of(
            candidates,
            content,
            order.take(n).filter(readable_at(candidates, content)),
        ),
    decreases n,
{
    let pick = readable_at(candidates, content);
    if n == 0 {
        outcomes.take(0).lemma_filter_len(is_hashed());
        order.take(0).lemma_filter_len(pick);
        assert(hashed(outcomes.take(0)) =~= results_of(
            candidates,
            content,
            order.take(0).filter(pick),
        ));
    } else {
        lemma_results_in_step(candidates, content, order, outcomes, n - 1);
        assert(outcomes.take(n) =~= outcomes.take(n - 1).push(outcomes[n - 1]));
        assert(order.take(n) =~= order.take(n - 1).push(order[n - 1]));
        assert(order.contains(order[n - 1]));
        lemma_filter_map_push(outcomes.take(n - 1), outcomes[n - 1], is_hashed(), result_of());
        lemma_filter_map_push(
            order.take(n - 1),
            order[n - 1],
            pick,
            result_at(candidates, content),
        );
    }
}

/// The report is complete: two files of one size and one content, both
/// read, stand together in one reported group.
pub proof fn lemma_duplicates_are_reported<P>(
    listing: Seq<(u64, P)>,
    content: Map<P, Seq<u8>>,
    delivery: Seq<int>,
    a: int,
    b: int,
) -> (g: int)
    requires
        delivers(emitted(listing), content, delivery),
        0 <= a < listing.len(),
        0 <= b < listing.len(),
        a != b,
        listing[a].0 == listing[b].0,
        content.contains_key(listing[a].1),
        content.contains_key(listing[b].1),
        content[listing[a].1] == content[listing[b].1],
    ensures
        0 <= g < report(listing, content, delivery).len(),
        report(listing, content, delivery)[g].0 == blake3_hex(content[listing[a].1]),
        report(listing, content, delivery)[g].1.contains(listing[a].1),
        report(listing, content, delivery)[g].1.contains(listing[b].1),
{
    let candidates = emitted(listing);
    let results = results_of(candidates, content, delivery);
    let fingerprint = blake3_hex(content[listing[a].1]);
    if a < b {
        lemma_two_of_size(listing, a, b);
    } else {
        lemma_two_of_size(listing, b, a);
    }
    lemma_released_exact(listing);
    assert(released(listing).contains(a));
    assert(released(listing).contains(b));
    let ka = released(listing).index_of(a);
    let kb = released(listing).index_of(b);
    assert(candidates[ka] == listing[a].1);
    assert(candidates[kb] == listing[b].1);
    assert(delivery.contains(ka));
    assert(delivery.contains(kb));
    let ma = delivery.index_of(ka);
    let mb = delivery.index_of(kb);
    assert(results[ma] == (fingerprint, listing[a].1));
    assert(results[mb] == (fingerprint, listing[b].1));
    if ma < mb {
        lemma_filter_two(results, has_fingerprint(fingerprint), ma, mb);
    } else {
        lemma_filter_two(results, has_fingerprint(fingerprint), mb, ma);
    }
    lemma_paths_of_members(results, fingerprint);
    lemma_shared_fingerprint_reported(results, fingerprint)
}

/// Every member of a reported group is the path of a file that was listed
/// with a shared size and read, and whose content has the group's
/// fingerprint.
pub proof fn lemma_members_carry_the_fingerprint<P>(
    listing: Seq<(u64, P)>,
    content: Map<P, Seq<u8>>,
    delivery: Seq<int>,
    g: int,
    x: int,
) -> (j: int)
    requires
        delivers(emitted(listing), content, delivery),
        0 <= g < report(listing, content, delivery).len(),
        0 <= x < report(listing, content, delivery)[g].1.len(),
    ensures
        0 <= j < listing.len(),
        listing[j].1 == report(listing, content, delivery)[g].1[x],
        of_size(listing, listing[j].0).len() >= 2,
        content.contains_key(listing[j].1),
        blake3_hex(content[listing[j].1]) == report(listing, content, delivery)[g].0,
{
    let candidates = emitted(listing);
    let results = results_of(candidates, content, delivery);
    let group = report(listing, content, delivery)[g];
    lemma_reported_group(results, g);
    lemma_paths_of_members(results, group.0);
    assert(results.contains((group.0, group.1[x])));
    let m = results.index_of((group.0, group.1[x]));
    let k = delivery[m];
    assert(delivery.contains(k));
    lemma_released_exact(listing);
    lemma_released_in_bounds(listing);
    let j = released(listing)[k];
    assert(released(listing).contains(j));
    j
}

/// The report is sound: unless two different contents share a fingerprint,
/// any two members of a reported group have the same content.
pub proof fn lemma_groups_hold_one_content<P>(
    listing: Seq<(u64, P)>,
    content: Map<P, Seq<u8>>,
    delivery: Seq<int>,
    g: int,
    x: int,
    y: int,
)
    requires
        delivers(emitted(listing), content, delivery),
        0 <= g < report(listing, content, delivery).len(),
        0 <= x < report(listing, content, delivery)[g].1.len(),
        0 <= y < report(listing, content, delivery)[g].1.len(),
        forall|p: P, q: P|
            content.contains_key(p) && content.contains_key(q) && blake3_hex(content[p])
                == blake3_hex(content[q]) ==> content[p] == content[q],
    ensures
        content.contains_key(report(listing, content, delivery)[g].1[x]),
        content.contains_key(report(listing, content, delivery)[g].1[y]),
        content[report(listing, content, delivery)[g].1[x]] == content[report(
            listing,
            content,
            delivery,
        )[g].1[y]],
{
    lemma_members_carry_the_fingerprint(listing, content, delivery, g, x);
    lemma_members_carry_the_fingerprint(listing, content, delivery, g, y);
}

/// A path that could not be read stands in no reported group.
pub proof fn lemma_unreadable_is_not_reported<P>(
    listing: Seq<(u64, P)>,
    content: Map<P, Seq<u8>>,
    delivery: Seq<int>,
    path: P,
)
    requires
        delivers(emitted(listing), content, delivery),
        !content.contains_key(path),
    ensures
        forall|g: int|
            0 <= g < report(listing, content, delivery).len() ==> !(#[trigger] report(
                listing,
                content,
                delivery,
            )[g]).1.contains(path),
{
    assert forall|g: int| 0 <= g < report(listing, content, delivery).len() implies !(
    #[trigger] report(listing, content, delivery)[g]).1.contains(path) by {
        let members = report(listing, content, delivery)[g].1;
        if members.contains(path) {
            let x = members.index_of(path);
            lemma_members_carry_the_fingerprint(listing, content, delivery, g, x);
        }
    }
}

/// An outcome without a result, wherever it stands among the others, leaves
/// the results as they are, and with them the groups of the other files.
pub proof fn lemma_unreadable_changes_nothing<P>(
    before: Seq<HashOutcome<P>>,
    path: P,
    after: Seq<HashOutcome<P>>,
)
    ensures
        hashed(before.push(HashOutcome::Unreadable(path)) + after) == hashed(before + after),
{
    let failed = HashOutcome::Unreadable(path);
    Seq::lemma_filter_push(before, failed, is_hashed());
    Seq::filter_distributes_over_add(before.push(failed), after, is_hashed());
    Seq::filter_distributes_over_add(before, after, is_hashed());
}

/// The groups do not depend on the order in which the results arrive.
pub proof fn lemma_grouping_ignores_order<P>(
    first: Seq<(Seq<char>, P)>,
    second: Seq<(Seq<char>, P)>,
)
    requires
        first.to_multiset() == second.to_multiset(),
    ensures
        group_sets(duplicates(grouping(first))) == group_sets(duplicates(grouping(second))),
{
    lemma_groups_carry_over(first, second);
    lemma_groups_carry_over(second, first);
    assert(group_sets(duplicates(grouping(first))) =~= group_sets(duplicates(grouping(second))));
}

/// Every group of the first report is a group of the second.
proof fn lemma_groups_carry_over<P>(first: Seq<(Seq<char>, P)>, second: Seq<(Seq<char>, P)>)
    requires
        first.to_multiset() == second.to_multiset(),
    ensures
        group_sets(duplicates(grouping(first))).subset_of(
            group_sets(duplicates(grouping(second))),
        ),
{
    assert forall|group: (Seq<char>, Set<P>)|
        group_sets(duplicates(grouping(first))).contains(group) implies group_sets(
        duplicates(grouping(second)),
    ).contains(group) by {
        let reported = duplicates(grouping(first));
        let g = choose|g: int|
            0 <= g < reported.len() && (#[trigger] reported[g]).0 == group.0
                && reported[g].1.to_set() == group.1;
        lemma_reported_group(first, g);
        let kept_first = first.filter(has_fingerprint(group.0));
        let kept_second = second.filter(has_fingerprint(group.0));
        lemma_filter_to_multiset(first, has_fingerprint(group.0));
        lemma_filter_to_multiset(second, has_fingerprint(group.0));
        lemma_map_to_multiset(kept_first, kept_second, path_of());
        lemma_same_multiset_same_values(paths_of(first, group.0), paths_of(second, group.0));
        let h = lemma_shared_fingerprint_reported(second, group.0);
        assert(duplicates(grouping(second))[h].0 == group.0);
    }
}

/// What reaches the aggregator is, up to order, one result for each
/// candidate that could be read.
pub proof fn lemma_results_exact<P>(
    candidates: Seq<P>,
    content: Map<P, Seq<u8>>,
    delivery: Seq<int>,
)
    requires
        delivers(candidates, content, delivery),
    ensures
        results_of(candidates, content, delivery).to_multiset() == candidates.filter(
            readable(content),
        ).map_values(result_for(content)).to_multiset(),
{
    lemma_picks_to_multiset(candidates, readable(content), delivery);
    lemma_map_to_multiset(
        delivery.map_values(entry_at(candidates)),
        candidates.filter(readable(content)),
        result_for(content),
    );
    assert(delivery.map_values(entry_at(candidates)).map_values(result_for(content))
        =~= results_of(candidates, content, delivery));
}

/// Two scans of one tree report the same groups, whatever the order in
/// which the walk listed the files and the workers delivered in each.
pub proof fn lemma_report_is_repeatable<P>(
    first_listing: Seq<(u64, P)>,
    second_listing: Seq<(u64, P)>,
    content: Map<P, Seq<u8>>,
    first_delivery: Seq<int>,
    second_delivery: Seq<int>,
)
    requires
        first_listing.to_multiset() == second_listing.to_multiset(),
        delivers(emitted(first_listing), content, first_delivery),
        delivers(emitted(second_listing), content, second_delivery),
    ensures
        group_sets(report(first_listing, content, first_delivery)) == group_sets(
            report(second_listing, content, second_delivery),
        ),
{
    let first = emitted(first_listing);
    let second = emitted(second_listing);
    lemma_emitted_ignores_order(first_listing, second_listing);
    lemma_filter_to_multiset(first, readable(content));
    lemma_filter_to_multiset(second, readable(content));
    lemma_map_to_multiset(
        first.filter(readable(content)),
        second.filter(readable(content)),
        result_for(content),
    );
    lemma_results_exact(first, content, first_delivery);
    lemma_results_exact(second, content, second_delivery);
    lemma_grouping_ignores_order(
        results_of(first, content, first_delivery),
        results_of(second, content, second_delivery),
    );
}

} // verus!
