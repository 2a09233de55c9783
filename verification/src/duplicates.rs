//! The duplicate extractor: only groups of two or more paths are reported.

use crate::aggregate::{
    fingerprints, group_views, grouping, lemma_fingerprints_complete, paths_of, FingerprintGroup,
};
use vstd::prelude::*;

verus! {

/// The test for a group that holds duplicates: two paths or more.
pub open spec fn is_duplicate<P>() -> spec_fn((Seq<char>, Seq<P>)) -> bool {
    |group: (Seq<char>, Seq<P>)| group.1.len() >= 2
}

/// The groups among `groups` that hold duplicates, in their order.
pub open spec fn duplicates<P>(groups: Seq<(Seq<char>, Seq<P>)>) -> Seq<(Seq<char>, Seq<P>)> {
    groups.filter(is_duplicate())
}

/// Keeps the groups of two or more paths, each with its fingerprint, and
/// drops the others.
pub fn duplicated_files<P>(groups: Vec<FingerprintGroup<P>>) -> (dups: Vec<FingerprintGroup<P>>)
    ensures
        group_views(dups@) == duplicates(group_views(groups@)),
        forall|g: int| 0 <= g < dups.len() ==> (#[trigger] dups[g]).paths.len() >= 2,
{
    let mut dups: Vec<FingerprintGroup<P>> = Vec::new();
    let ghost all = groups@;
    proof {
        group_views(all.take(0)).lemma_filter_len(is_duplicate());
    }
    for group in it: groups.into_iter()
        invariant
            it.seq() == all,
            group_views(dups@) == duplicates(group_views(all.take(it.index() as int))),
    {
        proof {
            let earlier = all.take(it.index() as int);
            assert(group_views(all.take(it.index() + 1)) =~= group_views(earlier).push(group@));
            Seq::lemma_filter_push(group_views(earlier), group@, is_duplicate());
        }
        if group.paths.len() > 1 {
            let ghost kept = dups@;
            dups.push(group);
            proof {
                assert(group_views(dups@) =~= group_views(kept).push(group@));
            }
        }
    }
    proof {
        assert(all.take(all.len() as int) =~= all);
        assert forall|g: int| 0 <= g < dups.len() implies (#[trigger] dups[g]).paths.len() >= 2 by {
            group_views(all).lemma_filter_pred(is_duplicate(), g);
            assert(group_views(dups@)[g] == dups[g]@);
        }
    }
    dups
}

/// Every reported group is the group of a fingerprint that two or more
/// results carry, with all the paths of those results.
pub proof fn lemma_reported_group<P>(results: Seq<(Seq<char>, P)>, g: int)
    requires
        0 <= g < duplicates(grouping(results)).len(),
    ensures
        duplicates(grouping(results))[g].1 == paths_of(
            results,
            duplicates(grouping(results))[g].0,
        ),
        duplicates(grouping(results))[g].1.len() >= 2,
        fingerprints(results).contains(duplicates(grouping(results))[g].0),
{
    let groups = grouping(results);
    let group = duplicates(groups)[g];
    groups.lemma_filter_pred(is_duplicate(), g);
    assert(duplicates(groups).contains(group));
    groups.lemma_filter_contains_rev(is_duplicate(), group);
    let i = groups.index_of(group);
    assert(groups[i] == group);
    assert(fingerprints(results)[i] == group.0);
}

/// A fingerprint that two or more results carry has a reported group, which
/// holds all the paths of those results.
pub proof fn lemma_shared_fingerprint_reported<P>(
    results: Seq<(Seq<char>, P)>,
    fingerprint: Seq<char>,
) -> (g: int)
    requires
        paths_of(results, fingerprint).len() >= 2,
    ensures
        0 <= g < duplicates(grouping(results)).len(),
        duplicates(grouping(results))[g] == (fingerprint, paths_of(results, fingerprint)),
{
    let groups = grouping(results);
    lemma_fingerprints_complete(results, fingerprint);
    let i = fingerprints(results).index_of(fingerprint);
    assert(groups[i] == (fingerprint, paths_of(results, fingerprint)));
    groups.lemma_filter_contains(is_duplicate(), i);
    duplicates(groups).index_of(groups[i])
}

} // verus!
