//! The size candidate filter: a file is worth hashing only once a second
//! file of the same size has been seen.

use crate::seq_facts::{
    entry_at, lemma_filter_to_multiset, lemma_filter_two, lemma_map_to_multiset,
    lemma_picks_to_multiset,
};
use std::collections::HashMap;
use vstd::prelude::*;

verus! {

/// The test for an entry of the given size.
pub open spec fn has_size<P>(size: u64) -> spec_fn((u64, P)) -> bool {
    |entry: (u64, P)| entry.0 == size
}

/// The entries of `stream` that have the given size, in stream order.
pub open spec fn of_size<P>(stream: Seq<(u64, P)>, size: u64) -> Seq<(u64, P)> {
    stream.filter(has_size(size))
}

/// The index of the first entry of `stream` with the given size, or the
/// length of `stream` if there is none.
pub open spec fn first_of_size<P>(stream: Seq<(u64, P)>, size: u64) -> int
    decreases stream.len(),
{
    if stream.len() == 0 {
        0
    } else {
        let earlier = first_of_size(stream.drop_last(), size);
        if earlier < stream.len() - 1 {
            earlier
        } else if stream.last().0 == size {
            stream.len() - 1
        } else {
            stream.len() as int
        }
    }
}

/// The files that the filter releases when entry `i` of `stream` arrives,
/// having seen the entries before it, by their indices: none for the first
/// file of a size; for the second, the first file and then the second; for
/// any later one, that file alone.
pub open spec fn released_at<P>(stream: Seq<(u64, P)>, i: int) -> Seq<int>
    recommends
        0 <= i < stream.len(),
{
    let peers = of_size(stream.take(i), stream[i].0).len();
    if peers == 0 {
        Seq::empty()
    } else if peers == 1 {
        seq![first_of_size(stream.take(i), stream[i].0), i]
    } else {
        seq![i]
    }
}

/// The files that the filter releases over `stream`, by their indices, in
/// the order of release.
pub open spec fn released<P>(stream: Seq<(u64, P)>) -> Seq<int>
    decreases stream.len(),
{
    if stream.len() == 0 {
        Seq::empty()
    } else {
        released(stream.drop_last()) + released_at(stream, stream.len() - 1)
    }
}

/// The path of entry `j` of `stream`.
pub open spec fn path_at<P>(stream: Seq<(u64, P)>) -> spec_fn(int) -> P {
    |j: int| stream[j].1
}

/// The paths that the filter emits when entry `i` of `stream` arrives.
pub open spec fn emitted_at<P>(stream: Seq<(u64, P)>, i: int) -> Seq<P>
    recommends
        0 <= i < stream.len(),
{
    released_at(stream, i).map_values(path_at(stream))
}

/// The paths that the filter emits over `stream`, in emission order.
pub open spec fn emitted<P>(stream: Seq<(u64, P)>) -> Seq<P> {
    released(stream).map_values(path_at(stream))
}

/// The test for an entry whose size two or more entries of `stream` have.
pub open spec fn shares_size<P>(stream: Seq<(u64, P)>) -> spec_fn((u64, P)) -> bool {
    |entry: (u64, P)| of_size(stream, entry.0).len() >= 2
}

/// The path of an entry.
pub open spec fn path_of_entry<P>() -> spec_fn((u64, P)) -> P {
    |entry: (u64, P)| entry.1
}

/// What the filter remembers of one size.
#[derive(Debug, PartialEq, Eq)]
pub enum SizeSlot<P> {
    /// Exactly one file of this size has been seen; its path is held back.
    PendingOne(P),
    /// Two or more files of this size have been seen, and nothing is held.
    Released,
}

/// What becomes of the slot of a size when one more file of that size
/// arrives, and what is emitted on its arrival. `slot` is `None` while no
/// file of the size has been seen.
pub fn advance<P>(slot: Option<SizeSlot<P>>, path: P) -> (next: (SizeSlot<P>, Vec<P>))
    ensures
        match slot {
            None => next.0 == SizeSlot::PendingOne(path) && next.1@ == Seq::<P>::empty(),
            Some(SizeSlot::PendingOne(first)) => next.0 == SizeSlot::<P>::Released && next.1@
                == seq![first, path],
            Some(SizeSlot::Released) => next.0 == SizeSlot::<P>::Released && next.1@ == seq![path],
        },
{
    let mut out: Vec<P> = Vec::new();
    match slot {
        None => (SizeSlot::PendingOne(path), out),
        Some(SizeSlot::PendingOne(first)) => {
            out.push(first);
            out.push(path);
            (SizeSlot::Released, out)
        },
        Some(SizeSlot::Released) => {
            out.push(path);
            (SizeSlot::Released, out)
        },
    }
}

/// The table that the filter must hold after `stream`: no slot for a size
/// that did not occur, the one path for a size that occurred once, and
/// `Released` for a size that occurred more often.
pub open spec fn table_after<P>(stream: Seq<(u64, P)>) -> Map<u64, SizeSlot<P>> {
    Map::new(
        |size: u64| of_size(stream, size).len() > 0,
        |size: u64|
            if of_size(stream, size).len() == 1 {
                SizeSlot::PendingOne(stream[first_of_size(stream, size)].1)
            } else {
                SizeSlot::Released
            },
    )
}

/// The streaming size filter. Its view is the stream observed so far.
pub struct SizeFilter<P> {
    table: HashMap<u64, SizeSlot<P>>,
    seen: Ghost<Seq<(u64, P)>>,
}

impl<P> View for SizeFilter<P> {
    type V = Seq<(u64, P)>;

    closed spec fn view(&self) -> Seq<(u64, P)> {
        self.seen@
    }
}

impl<P> SizeFilter<P> {
    /// The slots held at present, by size.
    pub closed spec fn table(&self) -> Map<u64, SizeSlot<P>> {
        self.table@
    }

    /// The table agrees with the stream observed so far: a path is held back
    /// for a size exactly while one file of that size has been seen.
    pub open spec fn wf(&self) -> bool {
        self.table() == table_after(self@)
    }

    /// A filter that has seen nothing.
    pub fn new() -> (filter: SizeFilter<P>)
        ensures
            filter.wf(),
            filter@ == Seq::<(u64, P)>::empty(),
    {
        let filter = SizeFilter { table: HashMap::new(), seen: Ghost(Seq::empty()) };
        proof {
            assert forall|size: u64| of_size(Seq::<(u64, P)>::empty(), size).len() == 0 by {
                Seq::<(u64, P)>::empty().lemma_filter_len(has_size(size));
            }
            assert(filter.table@ =~= table_after(filter.seen@));
        }
        filter
    }

    /// Takes the next file of the stream and returns the paths that are now
    /// known to share their size with another file.
    pub fn observe(&mut self, size: u64, path: P) -> (out: Vec<P>)
        requires
            old(self).wf(),
        ensures
            final(self).wf(),
            final(self)@ == old(self)@.push((size, path)),
            out@ == emitted_at(final(self)@, old(self)@.len() as int),
    {
        let ghost before = self.seen@;
        let ghost after = before.push((size, path));
        proof {
            assert(after.take(before.len() as int) =~= before);
            assert(after.drop_last() =~= before);
            assert forall|s: u64|
                of_size(after, s) == if s == size {
                    of_size(before, s).push((size, path))
                } else {
                    of_size(before, s)
                } by {
                lemma_of_size_push(before, (size, path), s);
            }
            assert forall|s: u64| #[trigger]
                of_size(before, s).len() == 1 implies first_of_size(after, s) == first_of_size(
                before,
                s,
            ) && after[first_of_size(before, s)] == before[first_of_size(before, s)] by {
                lemma_first_of_size(before, s);
            }
            lemma_first_of_size(before, size);
        }
        let (slot, out) = advance(self.table.remove(&size), path);
        self.table.insert(size, slot);
        self.seen = Ghost(after);
        proof {
            assert(self.table@ =~= table_after(after));
            assert(out@ =~= emitted_at(after, before.len() as int));
        }
        out
    }
}

/// Runs the size filter over a whole listing and returns the paths worth
/// hashing: those of the files whose size two or more files have, each once,
/// in the order in which the filter releases them.
pub fn group_files_by_size<P>(files: Vec<(u64, P)>) -> (candidates: Vec<P>)
    ensures
        candidates@ == emitted(files@),
        candidates@.to_multiset() == files@.filter(shares_size(files@)).map_values(
            path_of_entry(),
        ).to_multiset(),
{
    let mut filter: SizeFilter<P> = SizeFilter::new();
    let mut candidates: Vec<P> = Vec::new();
    let ghost listing = files@;
    for entry in it: files.into_iter()
        invariant
            it.seq() == listing,
            filter.wf(),
            filter@ == listing.take(it.index() as int),
            candidates@ == emitted(filter@),
    {
        let ghost before = filter@;
        let (size, path) = entry;
        let mut out = filter.observe(size, path);
        proof {
            assert(filter@ =~= listing.take(it.index() + 1));
            lemma_emitted_push(before, (size, path));
        }
        candidates.append(&mut out);
    }
    proof {
        assert(listing.take(listing.len() as int) =~= listing);
        lemma_emitted_exact(listing);
    }
    candidates
}

/// The filter is exact: it releases each file whose size is shared by two or
/// more files of the stream, once, and no file whose size is its own alone.
pub proof fn lemma_released_exact<P>(stream: Seq<(u64, P)>)
    ensures
        released(stream).no_duplicates(),
        forall|j: int| #[trigger]
            released(stream).contains(j) <==> 0 <= j < stream.len() && of_size(
                stream,
                stream[j].0,
            ).len() >= 2,
    decreases stream.len(),
{
    if stream.len() == 0 {
        assert forall|j: int| !released(stream).contains(j) by {}
    } else {
        let earlier = stream.drop_last();
        let last = stream.last();
        let n = stream.len() - 1;
        let before = released(earlier);
        let now = released_at(stream, n);
        let first = first_of_size(earlier, last.0);
        let peers = of_size(earlier, last.0).len();
        assert(earlier.push(last) =~= stream);
        assert(stream.take(n) =~= earlier);
        lemma_released_exact(earlier);
        lemma_released_in_bounds(earlier);
        lemma_first_of_size(earlier, last.0);
        assert forall|size: u64|
            of_size(stream, size) == if last.0 == size {
                of_size(earlier, size).push(last)
            } else {
                of_size(earlier, size)
            } by {
            lemma_of_size_push(earlier, last, size);
        }
        assert forall|j: int| 0 <= j < n && earlier[j].0 == last.0 && peers == 1 implies j
            == first by {
            if j < first {
                lemma_two_of_size(earlier, j, first);
            } else if first < j {
                lemma_two_of_size(earlier, first, j);
            }
        }
        assert forall|j: int| 0 <= j < n && earlier[j].0 == last.0 implies peers >= 1 by {
            assert(first <= j);
        }
        assert forall|j: int| #[trigger]
            released(stream).contains(j) <==> 0 <= j < stream.len() && of_size(
                stream,
                stream[j].0,
            ).len() >= 2 by {
            if released(stream).contains(j) {
                let k = choose|k: int| 0 <= k < released(stream).len() && released(stream)[k] == j;
                if k < before.len() {
                    assert(before[k] == j);
                    assert(before.contains(j));
                } else {
                    assert(now[k - before.len()] == j);
                }
            }
            if 0 <= j < stream.len() && of_size(stream, stream[j].0).len() >= 2 {
                if j == n {
                    assert(peers >= 1);
                    assert(now.last() == n);
                    assert(released(stream)[before.len() + now.len() - 1] == n);
                } else if earlier[j].0 == last.0 && peers == 1 {
                    assert(j == first);
                    assert(now[0] == first);
                    assert(released(stream)[before.len() as int] == first);
                } else {
                    assert(before.contains(j));
                    let k = choose|k: int| 0 <= k < before.len() && before[k] == j;
                    assert(released(stream)[k] == j);
                }
            }
        }
        assert forall|x: int, y: int|
            0 <= x < released(stream).len() && 0 <= y < released(stream).len() && x
                != y implies released(stream)[x] != released(stream)[y] by {
            let m = before.len();
            if x < m && y < m {
                assert(before[x] != before[y]);
            } else if x < m {
                assert(before.contains(before[x]));
                assert(now[y - m] == released(stream)[y]);
            } else if y < m {
                assert(before.contains(before[y]));
                assert(now[x - m] == released(stream)[x]);
            } else {
                assert(now[x - m] == released(stream)[x]);
                assert(now[y - m] == released(stream)[y]);
            }
        }
    }
}

/// A file whose size no other file of the stream has is never released, so
/// it is never hashed; and where no other file is listed under its path, the
/// path is never emitted.
pub proof fn lemma_unique_size_never_released<P>(stream: Seq<(u64, P)>, j: int)
    requires
        0 <= j < stream.len(),
        of_size(stream, stream[j].0).len() == 1,
    ensures
        !released(stream).contains(j),
        (forall|i: int| 0 <= i < stream.len() && i != j ==> (#[trigger] stream[i]).1 != stream[j].1)
            ==> !emitted(stream).contains(stream[j].1),
{
    lemma_released_exact(stream);
    lemma_released_in_bounds(stream);
    if emitted(stream).contains(stream[j].1) {
        let k = emitted(stream).index_of(stream[j].1);
        let i = released(stream)[k];
        assert(released(stream).contains(i));
        assert(stream[i].1 == stream[j].1);
    }
}

/// What the filter emits is, up to order, the paths of the entries whose size
/// is shared: each as often as it is listed, and nothing else.
pub proof fn lemma_emitted_exact<P>(stream: Seq<(u64, P)>)
    ensures
        emitted(stream).to_multiset() == stream.filter(shares_size(stream)).map_values(
            path_of_entry(),
        ).to_multiset(),
{
    lemma_released_exact(stream);
    lemma_picks_to_multiset(stream, shares_size(stream), released(stream));
    lemma_map_to_multiset(
        released(stream).map_values(entry_at(stream)),
        stream.filter(shares_size(stream)),
        path_of_entry(),
    );
    assert(released(stream).map_values(entry_at(stream)).map_values(path_of_entry()) =~= emitted(
        stream,
    ));
}

/// The order in which the walk lists the files decides the order of the
/// candidates, not which files are candidates.
pub proof fn lemma_emitted_ignores_order<P>(first: Seq<(u64, P)>, second: Seq<(u64, P)>)
    requires
        first.to_multiset() == second.to_multiset(),
    ensures
        emitted(first).to_multiset() == emitted(second).to_multiset(),
{
    broadcast use vstd::multiset::group_multiset_axioms;

    lemma_emitted_exact(first);
    lemma_emitted_exact(second);
    assert forall|size: u64| of_size(first, size).len() == of_size(second, size).len() by {
        lemma_filter_to_multiset(first, has_size(size));
        lemma_filter_to_multiset(second, has_size(size));
        vstd::seq_lib::to_multiset_len(of_size(first, size));
        vstd::seq_lib::to_multiset_len(of_size(second, size));
    }
    lemma_filter_to_multiset(first, shares_size(first));
    lemma_filter_to_multiset(second, shares_size(second));
    assert(first.to_multiset().filter(shares_size(first)) =~= second.to_multiset().filter(
        shares_size(second),
    ));
    lemma_map_to_multiset(
        first.filter(shares_size(first)),
        second.filter(shares_size(second)),
        path_of_entry(),
    );
}

/// Where the first entry of a size stands: in bounds exactly if the size
/// occurs, at an entry of that size, and behind none of that size.
pub proof fn lemma_first_of_size<P>(stream: Seq<(u64, P)>, size: u64)
    ensures
        0 <= first_of_size(stream, size) <= stream.len(),
        first_of_size(stream, size) < stream.len() <==> of_size(stream, size).len() > 0,
        first_of_size(stream, size) < stream.len() ==> stream[first_of_size(stream, size)].0
            == size,
        forall|j: int| 0 <= j < first_of_size(stream, size) ==> (#[trigger] stream[j]).0 != size,
    decreases stream.len(),
{
    if stream.len() == 0 {
        stream.lemma_filter_len(has_size(size));
    } else {
        let earlier = stream.drop_last();
        assert(earlier.push(stream.last()) =~= stream);
        lemma_first_of_size(earlier, size);
        lemma_of_size_push(earlier, stream.last(), size);
    }
}

/// Two entries of one size make that size a shared one.
pub proof fn lemma_two_of_size<P>(stream: Seq<(u64, P)>, a: int, b: int)
    requires
        0 <= a < b < stream.len(),
        stream[a].0 == stream[b].0,
    ensures
        of_size(stream, stream[a].0).len() >= 2,
{
    lemma_filter_two(stream, has_size(stream[a].0), a, b);
}

/// Every released index is the index of an entry.
pub proof fn lemma_released_in_bounds<P>(stream: Seq<(u64, P)>)
    ensures
        forall|k: int|
            0 <= k < released(stream).len() ==> 0 <= #[trigger] released(stream)[k] < stream.len(),
    decreases stream.len(),
{
    if stream.len() > 0 {
        let earlier = stream.drop_last();
        let n = stream.len() - 1;
        lemma_released_in_bounds(earlier);
        assert(stream.take(n) =~= earlier);
        lemma_first_of_size(earlier, stream[n].0);
        assert forall|k: int| 0 <= k < released(stream).len() implies 0 <= #[trigger] released(
            stream,
        )[k] < stream.len() by {
            if k < released(earlier).len() {
                assert(released(stream)[k] == released(earlier)[k]);
            } else {
                assert(released(stream)[k] == released_at(stream, n)[k - released(earlier).len()]);
            }
        }
    }
}

/// One more entry leaves what was emitted before in place and adds what its
/// arrival releases.
pub proof fn lemma_emitted_push<P>(stream: Seq<(u64, P)>, entry: (u64, P))
    ensures
        emitted(stream.push(entry)) == emitted(stream) + emitted_at(
            stream.push(entry),
            stream.len() as int,
        ),
{
    let longer = stream.push(entry);
    assert(longer.drop_last() =~= stream);
    lemma_released_in_bounds(stream);
    assert(emitted(longer) =~= emitted(stream) + emitted_at(longer, stream.len() as int));
}

/// One more entry joins the entries of its own size and of no other.
proof fn lemma_of_size_push<P>(stream: Seq<(u64, P)>, entry: (u64, P), size: u64)
    ensures
        of_size(stream.push(entry), size) == if entry.0 == size {
            of_size(stream, size).push(entry)
        } else {
            of_size(stream, size)
        },
{
    Seq::lemma_filter_push(stream, entry, has_size(size));
}

} // verus!
