//! The aggregator: hash results are merged into one group per fingerprint.

use crate::seq_facts::lemma_filter_map_push;
use vstd::hash_map::StringHashMap;
use vstd::prelude::*;

verus! {

/// One hashed file: its content fingerprint and its path.
#[derive(Debug, PartialEq, Eq)]
pub struct HashResult<P> {
    pub fingerprint: String,
    pub path: P,
}

impl<P> View for HashResult<P> {
    type V = (Seq<char>, P);

    open spec fn view(&self) -> (Seq<char>, P) {
        (self.fingerprint@, self.path)
    }
}

/// The paths that share one fingerprint, in the order in which they arrived.
#[derive(Debug, PartialEq, Eq)]
pub struct FingerprintGroup<P> {
    pub fingerprint: String,
    pub paths: Vec<P>,
}

impl<P> View for FingerprintGroup<P> {
    type V = (Seq<char>, Seq<P>);

    open spec fn view(&self) -> (Seq<char>, Seq<P>) {
        (self.fingerprint@, self.paths@)
    }
}

/// The views of a sequence of groups.
pub open spec fn group_views<P>(groups: Seq<FingerprintGroup<P>>) -> Seq<(Seq<char>, Seq<P>)> {
    groups.map_values(|group: FingerprintGroup<P>| group@)
}

/// What came of hashing one candidate.
#[derive(Debug, PartialEq, Eq)]
pub enum HashOutcome<P> {
    /// The file was read to its end and fingerprinted.
    Hashed(HashResult<P>),
    /// The file at this path could not be opened or fully read.
    Unreadable(P),
}

impl<P> HashOutcome<P> {
    /// What a worker makes of one candidate: its result where the file was
    /// read and fingerprinted, and the path alone where reading failed.
    pub fn from_read<E>(path: P, read: Result<String, E>) -> (outcome: HashOutcome<P>)
        ensures
            match read {
                Ok(fingerprint) => outcome is Hashed && result_of()(outcome) == (
                    fingerprint@,
                    path,
                ),
                Err(_) => outcome == HashOutcome::Unreadable(path),
            },
    {
        match read {
            Ok(fingerprint) => HashOutcome::Hashed(HashResult { fingerprint, path }),
            Err(_) => HashOutcome::Unreadable(path),
        }
    }
}

/// The test for an outcome that carries a result.
pub open spec fn is_hashed<P>() -> spec_fn(HashOutcome<P>) -> bool {
    |outcome: HashOutcome<P>| outcome is Hashed
}

/// The result that an outcome carries.
pub open spec fn result_of<P>() -> spec_fn(HashOutcome<P>) -> (Seq<char>, P) {
    |outcome: HashOutcome<P>| outcome->Hashed_0@
}

/// The results among `outcomes`, in order; unreadable paths are left out.
pub open spec fn hashed<P>(outcomes: Seq<HashOutcome<P>>) -> Seq<(Seq<char>, P)> {
    outcomes.filter(is_hashed()).map_values(result_of())
}

/// The test for a result with the given fingerprint.
pub open spec fn has_fingerprint<P>(fingerprint: Seq<char>) -> spec_fn((Seq<char>, P)) -> bool {
    |result: (Seq<char>, P)| result.0 == fingerprint
}

/// The path of a result.
pub open spec fn path_of<P>() -> spec_fn((Seq<char>, P)) -> P {
    |result: (Seq<char>, P)| result.1
}

/// The paths in `results` that carry the given fingerprint, in arrival order.
pub open spec fn paths_of<P>(results: Seq<(Seq<char>, P)>, fingerprint: Seq<char>) -> Seq<P> {
    results.filter(has_fingerprint(fingerprint)).map_values(path_of())
}

/// The distinct fingerprints of `results`, each at the place of its first
/// arrival.
pub open spec fn fingerprints<P>(results: Seq<(Seq<char>, P)>) -> Seq<Seq<char>>
    decreases results.len(),
{
    if results.len() == 0 {
        Seq::empty()
    } else {
        let earlier = fingerprints(results.drop_last());
        if earlier.contains(results.last().0) {
            earlier
        } else {
            earlier.push(results.last().0)
        }
    }
}

/// The groups that `results` fall into: one per distinct fingerprint, in
/// order of first arrival, each with all the paths that carry it.
pub open spec fn grouping<P>(results: Seq<(Seq<char>, P)>) -> Seq<(Seq<char>, Seq<P>)> {
    Seq::new(
        fingerprints(results).len(),
        |i: int| (fingerprints(results)[i], paths_of(results, fingerprints(results)[i])),
    )
}

/// The streaming aggregator. Its view is the results recorded so far.
pub struct Aggregator<P> {
    index: StringHashMap<usize>,
    groups: Vec<FingerprintGroup<P>>,
    seen: Ghost<Seq<(Seq<char>, P)>>,
}

impl<P> View for Aggregator<P> {
    type V = Seq<(Seq<char>, P)>;

    closed spec fn view(&self) -> Seq<(Seq<char>, P)> {
        self.seen@
    }
}

impl<P> Aggregator<P> {
    /// The groups are those of the results recorded so far, and the index
    /// finds each of them by its fingerprint.
    pub closed spec fn wf(&self) -> bool {
        &&& group_views(self.groups@) == grouping(self.seen@)
        &&& self.index@.dom() == fingerprints(self.seen@).to_set()
        &&& forall|i: int|
            0 <= i < fingerprints(self.seen@).len() ==> #[trigger] self.index@[fingerprints(
                self.seen@,
            )[i]] == i
    }

    /// An aggregator that has recorded nothing.
    pub fn new() -> (aggregator: Aggregator<P>)
        ensures
            aggregator.wf(),
            aggregator@ == Seq::<(Seq<char>, P)>::empty(),
    {
        let aggregator = Aggregator {
            index: StringHashMap::new(),
            groups: Vec::new(),
            seen: Ghost(Seq::empty()),
        };
        proof {
            assert(group_views(aggregator.groups@) =~= grouping(aggregator.seen@));
            assert(aggregator.index@.dom() =~= fingerprints(aggregator.seen@).to_set());
        }
        aggregator
    }

    /// Adds the path of one result to the group of its fingerprint, opening
    /// the group if the fingerprint is new.
    pub fn record(&mut self, result: HashResult<P>)
        requires
            old(self).wf(),
        ensures
            final(self).wf(),
            final(self)@ == old(self)@.push(result@),
    {
        let HashResult { fingerprint, path } = result;
        let ghost before = self.seen@;
        let ghost after = before.push((fingerprint@, path));
        let ghost listed = fingerprints(before);
        let ghost groups_before = self.groups@;
        proof {
            lemma_fingerprints_push(before, (fingerprint@, path));
            lemma_fingerprints_distinct(before);
            lemma_fingerprints_complete(before, fingerprint@);
            assert forall|other: Seq<char>|
                paths_of(after, other) == if other == fingerprint@ {
                    paths_of(before, other).push(path)
                } else {
                    paths_of(before, other)
                } by {
                lemma_paths_of_push(before, (fingerprint@, path), other);
            }
            assert(groups_before.len() == listed.len()) by {
                assert(group_views(groups_before).len() == grouping(before).len());
            }
            assert forall|k: int| 0 <= k < listed.len() implies (#[trigger] groups_before[k])@ == (
                listed[k],
                paths_of(before, listed[k]),
            ) by {
                assert(group_views(groups_before)[k] == grouping(before)[k]);
            }
        }
        let found = match self.index.get(fingerprint.as_str()) {
            Some(i) => Some(*i),
            None => None,
        };
        match found {
            Some(i) => {
                proof {
                    assert(listed.to_set().contains(fingerprint@));
                    let j = listed.index_of(fingerprint@);
                    assert(self.index@[listed[j]] == j);
                }
                self.groups[i].paths.push(path);
                proof {
                    assert(group_views(self.groups@) =~= grouping(after));
                }
            },
            None => {
                proof {
                    assert(!listed.to_set().contains(fingerprint@));
                    assert(!listed.contains(fingerprint@));
                    assert(paths_of(before, fingerprint@) =~= Seq::<P>::empty());
                }
                let i = self.groups.len();
                self.index.insert(fingerprint.clone(), i);
                let mut paths: Vec<P> = Vec::new();
                paths.push(path);
                self.groups.push(FingerprintGroup { fingerprint, paths });
                proof {
                    assert(group_views(self.groups@) =~= grouping(after));
                    assert(self.index@.dom() =~= fingerprints(after).to_set()) by {
                        listed.lemma_push_to_set_commute(fingerprint@);
                    }
                }
            },
        }
        self.seen = Ghost(after);
    }

    /// Takes what came of hashing one candidate: a result is recorded, and an
    /// unreadable path is handed back, for the caller to tell of it, and
    /// changes nothing.
    pub fn collect(&mut self, outcome: HashOutcome<P>) -> (failed: Option<P>)
        requires
            old(self).wf(),
        ensures
            final(self).wf(),
            match outcome {
                HashOutcome::Hashed(result) => final(self)@ == old(self)@.push(result@)
                    && failed is None,
                HashOutcome::Unreadable(path) => final(self)@ == old(self)@ && failed == Some(
                    path,
                ),
            },
    {
        match outcome {
            HashOutcome::Hashed(result) => {
                self.record(result);
                None
            },
            HashOutcome::Unreadable(path) => Some(path),
        }
    }

    /// Hands out the groups of everything recorded.
    pub fn finish(self) -> (groups: Vec<FingerprintGroup<P>>)
        requires
            self.wf(),
        ensures
            group_views(groups@) == grouping(self@),
    {
        self.groups
    }
}

/// Groups the hashed files by fingerprint. A path that could not be read
/// joins no group and leaves the grouping of the others as it is.
pub fn group_files_by_checksum<P>(outcomes: Vec<HashOutcome<P>>) -> (groups: Vec<
    FingerprintGroup<P>,
>)
    ensures
        group_views(groups@) == grouping(hashed(outcomes@)),
{
    let mut aggregator: Aggregator<P> = Aggregator::new();
    let ghost all = outcomes@;
    proof {
        all.take(0).lemma_filter_len(is_hashed());
    }
    for outcome in it: outcomes.into_iter()
        invariant
            it.seq() == all,
            aggregator.wf(),
            aggregator@ == hashed(all.take(it.index() as int)),
    {
        proof {
            assert(all.take(it.index() + 1) =~= all.take(it.index() as int).push(outcome));
            lemma_filter_map_push(all.take(it.index() as int), outcome, is_hashed(), result_of());
        }
        let _ = aggregator.collect(outcome);
    }
    proof {
        assert(all.take(all.len() as int) =~= all);
    }
    aggregator.finish()
}

/// One more result either joins the group of its fingerprint or opens a new
/// group behind the others.
pub proof fn lemma_fingerprints_push<P>(results: Seq<(Seq<char>, P)>, result: (Seq<char>, P))
    ensures
        fingerprints(results.push(result)) == if fingerprints(results).contains(result.0) {
            fingerprints(results)
        } else {
            fingerprints(results).push(result.0)
        },
{
    assert(results.push(result).drop_last() =~= results);
}

/// One more result adds its path to the paths of its own fingerprint and to
/// no others.
pub proof fn lemma_paths_of_push<P>(
    results: Seq<(Seq<char>, P)>,
    result: (Seq<char>, P),
    fingerprint: Seq<char>,
)
    ensures
        paths_of(results.push(result), fingerprint) == if result.0 == fingerprint {
            paths_of(results, fingerprint).push(result.1)
        } else {
            paths_of(results, fingerprint)
        },
{
    lemma_filter_map_push(results, result, has_fingerprint(fingerprint), path_of());
}

/// No fingerprint is listed twice.
pub proof fn lemma_fingerprints_distinct<P>(results: Seq<(Seq<char>, P)>)
    ensures
        fingerprints(results).no_duplicates(),
    decreases results.len(),
{
    if results.len() > 0 {
        lemma_fingerprints_distinct(results.drop_last());
    }
}

/// A fingerprint is listed exactly if some result carries it, which is
/// exactly if it has paths.
pub proof fn lemma_fingerprints_complete<P>(results: Seq<(Seq<char>, P)>, fingerprint: Seq<char>)
    ensures
        fingerprints(results).contains(fingerprint) <==> paths_of(results, fingerprint).len() > 0,
        fingerprints(results).contains(fingerprint) <==> exists|k: int|
            0 <= k < results.len() && (#[trigger] results[k]).0 == fingerprint,
    decreases results.len(),
{
    if results.len() == 0 {
        results.lemma_filter_len(has_fingerprint(fingerprint));
    } else {
        let earlier = results.drop_last();
        let last = results.last();
        assert(earlier.push(last) =~= results);
        lemma_fingerprints_complete(earlier, fingerprint);
        lemma_paths_of_push(earlier, last, fingerprint);
        lemma_fingerprints_push(earlier, last);
        if fingerprints(earlier).contains(fingerprint) {
            let k = choose|k: int|
                0 <= k < earlier.len() && (#[trigger] earlier[k]).0 == fingerprint;
            assert(results[k].0 == fingerprint);
            if !fingerprints(earlier).contains(last.0) {
                let j = fingerprints(earlier).index_of(fingerprint);
                assert(fingerprints(earlier).push(last.0)[j] == fingerprint);
            }
        } else if last.0 == fingerprint {
            assert(results[results.len() - 1].0 == fingerprint);
            assert(fingerprints(earlier).push(last.0)[fingerprints(earlier).len() as int]
                == fingerprint);
        } else {
            assert(forall|k: int|
                0 <= k < earlier.len() ==> (#[trigger] earlier[k]).0 != fingerprint);
            assert forall|k: int| 0 <= k < results.len() implies (#[trigger] results[k]).0
                != fingerprint by {
                if k < earlier.len() {
                    assert(earlier[k] == results[k]);
                }
            }
            if fingerprints(results).contains(fingerprint) {
                let j = fingerprints(results).index_of(fingerprint);
                if fingerprints(earlier).contains(last.0) {
                } else {
                    assert(j < fingerprints(earlier).len());
                    assert(fingerprints(earlier)[j] == fingerprint);
                }
            }
        }
    }
}

/// The paths of a fingerprint are the paths of the results that carry it.
pub proof fn lemma_paths_of_members<P>(results: Seq<(Seq<char>, P)>, fingerprint: Seq<char>)
    ensures
        forall|x: int|
            0 <= x < paths_of(results, fingerprint).len() ==> results.contains(
                (fingerprint, #[trigger] paths_of(results, fingerprint)[x]),
            ),
        forall|m: int|
            0 <= m < results.len() && (#[trigger] results[m]).0 == fingerprint ==> paths_of(
                results,
                fingerprint,
            ).contains(results[m].1),
{
    let kept = results.filter(has_fingerprint(fingerprint));
    assert forall|x: int| 0 <= x < paths_of(results, fingerprint).len() implies results.contains(
        (fingerprint, #[trigger] paths_of(results, fingerprint)[x]),
    ) by {
        results.lemma_filter_pred(has_fingerprint(fingerprint), x);
        assert(kept.contains(kept[x]));
        results.lemma_filter_contains_rev(has_fingerprint(fingerprint), kept[x]);
        assert(kept[x] == (fingerprint, paths_of(results, fingerprint)[x]));
    }
    assert forall|m: int|
        0 <= m < results.len() && (#[trigger] results[m]).0 == fingerprint implies paths_of(
        results,
        fingerprint,
    ).contains(results[m].1) by {
        results.lemma_filter_contains(has_fingerprint(fingerprint), m);
        let x = kept.index_of(results[m]);
        assert(paths_of(results, fingerprint)[x] == results[m].1);
    }
}

} // verus!
