use vstd::prelude::*;

use crate::lex::lex_lt;
use crate::trie::entry_views;
use crate::trie::lex_sorted;
use crate::trie::SpecEntry;

verus! {

/// `a` may not stand after `b` in a query result: the heavier entry
/// comes first; of equal weights, the lexicographically smaller word.
pub open spec fn entry_before(a: SpecEntry, b: SpecEntry) -> bool {
    a.1 > b.1 || (a.1 == b.1 && lex_lt(a.0, b.0))
}

/// The entries stand in query order: weights descending, ties in
/// ascending lexicographic order of the words.
pub open spec fn ranked(s: Seq<SpecEntry>) -> bool {
    forall|i: int, j: int| 0 <= i < j < s.len() ==> entry_before(#[trigger] s[i], #[trigger] s[j])
}

/// A sequence insert adds one occurrence to the multiset of the elements.
proof fn lemma_to_multiset_insert<T>(s: Seq<T>, p: int, x: T)
    requires
        0 <= p <= s.len(),
    ensures
        s.insert(p, x).to_multiset() == s.to_multiset().insert(x),
{
    broadcast use vstd::seq_lib::group_to_multiset_ensures;

    let t = s.insert(p, x);
    s.insert_ensures(p, x);
    assert(t =~= s.take(p).push(x) + s.skip(p));
    vstd::seq_lib::lemma_multiset_commutative(s.take(p).push(x), s.skip(p));
    assert(s =~= s.take(p) + s.skip(p));
    vstd::seq_lib::lemma_multiset_commutative(s.take(p), s.skip(p));
    assert(s.take(p).push(x).to_multiset() =~= s.take(p).to_multiset().insert(x));
    assert(t.to_multiset() =~= s.to_multiset().insert(x));
}

/// One insertion step keeps the prefix in query order: the moved entry
/// goes after every at-least-as-heavy entry, so that of equal weights the
/// earlier-collected, lexicographically smaller word stays first.
proof fn lemma_rank_step(a: Seq<SpecEntry>, p: int, x: SpecEntry, origv: Seq<SpecEntry>, idx: int)
    requires
        ranked(a),
        0 <= p <= a.len(),
        a.len() == idx,
        0 <= idx < origv.len(),
        lex_sorted(origv),
        x == origv[idx],
        a.to_multiset() == origv.take(idx).to_multiset(),
        forall|k: int| 0 <= k < p ==> (#[trigger] a[k]).1 >= x.1,
        p < a.len() ==> a[p].1 < x.1,
    ensures
        ranked(a.insert(p, x)),
{
    broadcast use vstd::seq_lib::group_to_multiset_ensures;

    a.insert_ensures(p, x);
    let b = a.insert(p, x);
    assert forall|k1: int, k2: int| 0 <= k1 < k2 < b.len() implies entry_before(
        #[trigger] b[k1],
        #[trigger] b[k2],
    ) by {
        if k1 < p && k2 == p {
            assert(b[k1] == a[k1]);
            assert(a[k1].1 >= x.1);
            if a[k1].1 == x.1 {
                assert(a.contains(a[k1]));
                assert(a.to_multiset().count(a[k1]) > 0);
                assert(origv.take(idx).contains(a[k1]));
                let m = choose|m: int|
                    0 <= m < origv.take(idx).len() && origv.take(idx)[m] == a[k1];
                assert(origv[m] == a[k1]);
                assert(lex_lt((origv[m]).0, (origv[idx]).0));
            }
        } else if k1 == p {
            assert(b[k2] == a[k2 - 1]);
            assert(p < a.len());
            if k2 - 1 > p {
                assert(entry_before(a[p], a[k2 - 1]));
            }
        } else if k1 < p && k2 > p {
            assert(b[k1] == a[k1]);
            assert(b[k2] == a[k2 - 1]);
        } else if k2 < p {
            assert(b[k1] == a[k1]);
            assert(b[k2] == a[k2]);
        } else {
            assert(b[k1] == a[k1 - 1]);
            assert(b[k2] == a[k2 - 1]);
        }
    }
}

/// Sorts the collected entries by weight, descending, with a stable
/// insertion step. The entries arrive in ascending lexicographic word
/// order, so entries of equal weight keep that order: this, not a second
/// sort key, is what breaks ties alphabetically.
#[verifier::rlimit(100)]
pub fn rank_entries(list: &mut Vec<(String, usize)>)
    requires
        lex_sorted(entry_views(old(list)@)),
    ensures
        final(list)@.len() == old(list)@.len(),
        entry_views(final(list)@).to_multiset() == entry_views(old(list)@).to_multiset(),
        ranked(entry_views(final(list)@)),
{
    broadcast use vstd::seq_lib::group_to_multiset_ensures;

    let ghost orig = list@;
    let ghost origv = entry_views(orig);
    let mut idx: usize = 0;
    while idx < list.len()
        invariant
            idx <= list@.len(),
            list@.len() == orig.len(),
            origv == entry_views(orig),
            lex_sorted(origv),
            list@.skip(idx as int) == orig.skip(idx as int),
            entry_views(list@.take(idx as int)).to_multiset() == entry_views(
                orig.take(idx as int),
            ).to_multiset(),
            ranked(entry_views(list@.take(idx as int))),
        decreases list@.len() - idx,
    {
        let ghost l0 = list@;
        let x = list.remove(idx);
        let ghost xv = (x.0@, x.1);
        proof {
            assert(l0.skip(idx as int)[0] == orig.skip(idx as int)[0]);
            assert(x == orig[idx as int]);
            l0.remove_ensures(idx as int);
        }
        let xw = x.1;
        let mut p: usize = 0;
        while p < idx && list[p].1 >= xw
            invariant
                p <= idx,
                idx <= list@.len(),
                forall|k: int| 0 <= k < p ==> (#[trigger] list@[k]).1 >= xw,
            decreases idx - p,
        {
            p += 1;
        }
        let ghost l1 = list@;
        list.insert(p, x);
        proof {
            let l2 = list@;
            l1.insert_ensures(p as int, x);
            assert(l1.take(idx as int) =~= l0.take(idx as int));
            let a = entry_views(l0.take(idx as int));
            // the moved entry is the next unsorted one, and the prefix is a
            // rearrangement of the entries that arrived before it
            assert forall|k: int| 0 <= k < p implies (#[trigger] a[k]).1 >= xv.1 by {
                assert(a[k] == (l1.take(idx as int)[k].0@, l1.take(idx as int)[k].1));
                assert(l1[k].1 >= xw);
            }
            assert(p < idx ==> a[p as int].1 < xv.1);
            assert(xv == origv[idx as int]);
            assert(entry_views(orig.take(idx as int)) =~= origv.take(idx as int));
            assert(a.to_multiset() == origv.take(idx as int).to_multiset());
            assert(ranked(a));
            lemma_rank_step(a, p as int, xv, origv, idx as int);
            // the new prefix is exactly that insertion, seen through views
            assert(l2.take(idx as int + 1) =~= l0.take(idx as int).insert(p as int, x));
            assert(entry_views(l2.take(idx as int + 1)) =~= a.insert(p as int, xv));
            lemma_to_multiset_insert(a, p as int, xv);
            assert(orig.take(idx as int + 1) =~= orig.take(idx as int).push(orig[idx as int]));
            assert(entry_views(orig.take(idx as int + 1)) =~= entry_views(
                orig.take(idx as int),
            ).push(xv));
            entry_views(orig.take(idx as int)).to_multiset_ensures();
            assert(entry_views(orig.take(idx as int)).push(xv).to_multiset() == entry_views(
                orig.take(idx as int),
            ).to_multiset().insert(xv));
            assert(entry_views(orig.take(idx as int + 1)).to_multiset() == entry_views(
                orig.take(idx as int),
            ).to_multiset().insert(xv));
            assert(entry_views(l2.take(idx as int + 1)).to_multiset() == entry_views(
                orig.take(idx as int + 1),
            ).to_multiset());
            // the untouched tail still holds the entries yet to be placed
            assert forall|k: int| 0 <= k < l2.skip(idx as int + 1).len() implies #[trigger] l2.skip(
                idx as int + 1,
            )[k] == orig.skip(idx as int + 1)[k] by {
                assert(l2[k + idx + 1] == l1[k + idx]);
                assert(l1[k + idx] == l0[k + idx + 1]);
                assert(l0.skip(idx as int)[k + 1] == orig.skip(idx as int)[k + 1]);
            }
            assert(l2.skip(idx as int + 1) =~= orig.skip(idx as int + 1));
        }
        idx += 1;
    }
    proof {
        assert(list@.take(list@.len() as int) =~= list@);
        assert(orig.take(orig.len() as int) =~= orig);
    }
}

} // verus!
