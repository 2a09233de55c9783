//! Facts about sequences, filters and multisets that the stages share.

use vstd::prelude::*;

verus! {

/// Filtering and then mapping a sequence that got one more entry: the entry
/// is mapped and added if it passes the test, and left out if it does not.
pub proof fn lemma_filter_map_push<A, B>(
    s: Seq<A>,
    entry: A,
    pred: spec_fn(A) -> bool,
    f: spec_fn(A) -> B,
)
    ensures
        s.push(entry).filter(pred).map_values(f) == if pred(entry) {
            s.filter(pred).map_values(f).push(f(entry))
        } else {
            s.filter(pred).map_values(f)
        },
{
    Seq::lemma_filter_push(s, entry, pred);
    if pred(entry) {
        assert(s.push(entry).filter(pred).map_values(f) =~= s.filter(pred).map_values(f).push(
            f(entry),
        ));
    }
}

/// Filtering a sequence without repetitions leaves one without repetitions.
pub proof fn lemma_filter_keeps_distinct<A>(s: Seq<A>, pred: spec_fn(A) -> bool)
    requires
        s.no_duplicates(),
    ensures
        s.filter(pred).no_duplicates(),
    decreases s.len(),
{
    if s.len() == 0 {
        s.lemma_filter_len(pred);
    } else {
        let earlier = s.drop_last();
        assert(earlier.push(s.last()) =~= s);
        Seq::lemma_filter_push(earlier, s.last(), pred);
        lemma_filter_keeps_distinct(earlier, pred);
        if earlier.filter(pred).contains(s.last()) {
            earlier.lemma_filter_contains_rev(pred, s.last());
            let i = earlier.index_of(s.last());
            assert(s[i] == s[s.len() - 1]);
        }
    }
}

/// Two entries that pass a test leave at least two entries in the filtered
/// sequence.
pub proof fn lemma_filter_two<A>(s: Seq<A>, pred: spec_fn(A) -> bool, a: int, b: int)
    requires
        0 <= a < b < s.len(),
        pred(s[a]),
        pred(s[b]),
    ensures
        s.filter(pred).len() >= 2,
    decreases s.len(),
{
    let earlier = s.drop_last();
    assert(earlier.push(s.last()) =~= s);
    Seq::lemma_filter_push(earlier, s.last(), pred);
    if b == s.len() - 1 {
        earlier.lemma_filter_contains(pred, a);
    } else {
        lemma_filter_two(earlier, pred, a, b);
    }
}

/// Filtering a sequence and filtering its multiset come to the same.
pub proof fn lemma_filter_to_multiset<A>(s: Seq<A>, pred: spec_fn(A) -> bool)
    ensures
        s.filter(pred).to_multiset() == s.to_multiset().filter(pred),
    decreases s.len(),
{
    broadcast use vstd::multiset::group_multiset_axioms;
    broadcast use vstd::seq_lib::group_to_multiset_ensures;

    if s.len() == 0 {
        s.lemma_filter_len(pred);
        assert(s.filter(pred) =~= Seq::<A>::empty());
        assert(s.filter(pred).to_multiset() =~= s.to_multiset().filter(pred));
    } else {
        let earlier = s.drop_last();
        let last = s.last();
        assert(earlier.push(last) =~= s);
        Seq::lemma_filter_push(earlier, last, pred);
        lemma_filter_to_multiset(earlier, pred);
        assert(s.to_multiset() =~= earlier.to_multiset().insert(last));
        assert(s.filter(pred).to_multiset() =~= s.to_multiset().filter(pred));
    }
}

/// Sequences with the same entries, in whatever order, still have the same
/// entries after each entry is mapped.
pub proof fn lemma_map_to_multiset<A, B>(s1: Seq<A>, s2: Seq<A>, f: spec_fn(A) -> B)
    requires
        s1.to_multiset() == s2.to_multiset(),
    ensures
        s1.map_values(f).to_multiset() == s2.map_values(f).to_multiset(),
    decreases s1.len(),
{
    broadcast use vstd::multiset::group_multiset_axioms;
    broadcast use vstd::seq_lib::group_to_multiset_ensures;

    vstd::seq_lib::to_multiset_len(s1);
    vstd::seq_lib::to_multiset_len(s2);
    if s1.len() == 0 {
        assert(s1.map_values(f) =~= s2.map_values(f));
    } else {
        let last = s1.last();
        assert(s1[s1.len() - 1] == last);
        vstd::seq_lib::to_multiset_contains(s1, last);
        vstd::seq_lib::to_multiset_contains(s2, last);
        let i = s2.index_of(last);
        let rest1 = s1.drop_last();
        let rest2 = s2.remove(i);
        assert(rest1 =~= s1.remove(s1.len() - 1));
        assert(rest1.to_multiset() =~= rest2.to_multiset());
        lemma_map_to_multiset(rest1, rest2, f);
        assert(s1.map_values(f) =~= rest1.map_values(f).push(f(last)));
        assert(s2.map_values(f) =~= rest2.map_values(f).insert(i, f(last)));
    }
}

/// The entry of `s` at a place.
pub open spec fn entry_at<A>(s: Seq<A>) -> spec_fn(int) -> A {
    |k: int| s[k]
}

/// Picking, in any order and each once, the places whose entries pass a
/// test gives the entries that filtering gives.
pub proof fn lemma_picks_to_multiset<A>(s: Seq<A>, pred: spec_fn(A) -> bool, picks: Seq<int>)
    requires
        picks.no_duplicates(),
        forall|k: int| #[trigger] picks.contains(k) <==> 0 <= k < s.len() && pred(s[k]),
    ensures
        picks.map_values(entry_at(s)).to_multiset() == s.filter(pred).to_multiset(),
    decreases s.len(),
{
    broadcast use vstd::multiset::group_multiset_axioms;
    broadcast use vstd::seq_lib::group_to_multiset_ensures;

    if s.len() == 0 {
        if picks.len() > 0 {
            assert(picks.contains(picks[0]));
        }
        s.lemma_filter_len(pred);
        assert(picks.map_values(entry_at(s)) =~= s.filter(pred));
    } else {
        let n = s.len() - 1;
        let earlier = s.drop_last();
        assert(earlier.push(s[n]) =~= s);
        Seq::lemma_filter_push(earlier, s[n], pred);
        if pred(s[n]) {
            assert(picks.contains(n));
            let i = picks.index_of(n);
            let rest = picks.remove(i);
            assert forall|k: int| #[trigger]
                rest.contains(k) <==> 0 <= k < earlier.len() && pred(earlier[k]) by {
                if rest.contains(k) {
                    let m = rest.index_of(k);
                    let from = if m < i {
                        m
                    } else {
                        m + 1
                    };
                    assert(picks[from] == k);
                    assert(picks.contains(k));
                }
                if 0 <= k < earlier.len() && pred(earlier[k]) {
                    assert(picks.contains(k));
                    let m = picks.index_of(k);
                    let to = if m < i {
                        m
                    } else {
                        m - 1
                    };
                    assert(rest[to] == k);
                }
            }
            assert forall|x: int, y: int|
                0 <= x < rest.len() && 0 <= y < rest.len() && x != y implies rest[x]
                != rest[y] by {
                let from_x = if x < i {
                    x
                } else {
                    x + 1
                };
                let from_y = if y < i {
                    y
                } else {
                    y + 1
                };
                assert(rest[x] == picks[from_x] && rest[y] == picks[from_y]);
            }
            lemma_picks_to_multiset(earlier, pred, rest);
            assert forall|m: int| 0 <= m < rest.len() implies rest.map_values(entry_at(s))[m]
                == rest.map_values(entry_at(earlier))[m] by {
                assert(rest.contains(rest[m]));
            }
            assert(rest.map_values(entry_at(s)) =~= rest.map_values(entry_at(earlier)));
            assert(picks.map_values(entry_at(s)) =~= rest.map_values(entry_at(s)).insert(i, s[n]));
        } else {
            assert forall|k: int| #[trigger]
                picks.contains(k) <==> 0 <= k < earlier.len() && pred(earlier[k]) by {}
            lemma_picks_to_multiset(earlier, pred, picks);
            assert forall|m: int| 0 <= m < picks.len() implies picks.map_values(entry_at(s))[m]
                == picks.map_values(entry_at(earlier))[m] by {
                assert(picks.contains(picks[m]));
            }
            assert(picks.map_values(entry_at(s)) =~= picks.map_values(entry_at(earlier)));
        }
    }
}

/// Sequences with the same entries, in whatever order, contain the same
/// values.
pub proof fn lemma_same_multiset_same_values<A>(s1: Seq<A>, s2: Seq<A>)
    requires
        s1.to_multiset() == s2.to_multiset(),
    ensures
        s1.len() == s2.len(),
        s1.to_set() == s2.to_set(),
{
    vstd::seq_lib::to_multiset_len(s1);
    vstd::seq_lib::to_multiset_len(s2);
    assert forall|x: A| s1.contains(x) <==> s2.contains(x) by {
        vstd::seq_lib::to_multiset_contains(s1, x);
        vstd::seq_lib::to_multiset_contains(s2, x);
    }
    assert(s1.to_set() =~= s2.to_set());
}

} // verus!
