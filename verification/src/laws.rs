use vstd::prelude::*;

use crate::lex::lemma_lex_lt_irrefl;
use crate::lex::lex_lt;
use crate::trie::lemma_matches_below_all;
use crate::trie::lemma_matches_below_none;
use crate::trie::lemma_wf_entry_list;
use crate::trie::lex_sorted;
use crate::trie::matches_below;
use crate::trie::upsert;
use crate::trie::upsert_all;
use crate::trie::Dictionary;
use crate::trie::SpecEntry;

verus! {

/// The word-to-weight table that an entry list denotes; of a repeated
/// word the earliest entry wins, and the entry list of a well-formed
/// trie holds each word at most once.
pub open spec fn weight_map(s: Seq<SpecEntry>) -> Map<Seq<char>, usize>
    decreases s.len(),
{
    if s.len() == 0 {
        Map::empty()
    } else {
        weight_map(s.drop_first()).insert(s[0].0, s[0].1)
    }
}

/// Indexing a word rewrites exactly its own binding in the table: every
/// other word keeps its weight, so re-inserting an existing word with a
/// new weight changes only that entry in later queries.
pub proof fn lemma_upsert_weight_map(s: Seq<SpecEntry>, w: Seq<char>, wt: usize)
    ensures
        weight_map(upsert(s, w, wt)) == weight_map(s).insert(w, wt),
    decreases s.len(),
{
    if s.len() == 0 {
        let t = seq![(w, wt)];
        assert(t[0] == (w, wt));
        assert(t.drop_first() =~= Seq::<SpecEntry>::empty());
        assert(weight_map(t.drop_first()) =~= Map::<Seq<char>, usize>::empty());
        assert(weight_map(t) =~= weight_map(s).insert(w, wt));
    } else if s[0].0 == w {
        let t = seq![(w, wt)] + s.drop_first();
        assert(t[0] == (w, wt));
        assert(t.drop_first() =~= s.drop_first());
        assert(weight_map(t) == weight_map(s.drop_first()).insert(w, wt));
        assert(weight_map(s).insert(w, wt) =~= weight_map(s.drop_first()).insert(w, wt));
    } else if lex_lt(w, s[0].0) {
        let t = seq![(w, wt)] + s;
        assert(t[0] == (w, wt));
        assert(t.drop_first() =~= s);
        assert(weight_map(t) == weight_map(s).insert(w, wt));
    } else {
        let t = seq![s[0]] + upsert(s.drop_first(), w, wt);
        assert(t[0] == s[0]);
        assert(t.drop_first() =~= upsert(s.drop_first(), w, wt));
        lemma_upsert_weight_map(s.drop_first(), w, wt);
        assert(weight_map(t) == weight_map(s.drop_first()).insert(w, wt).insert(
            s[0].0,
            s[0].1,
        ));
        assert(weight_map(s.drop_first()).insert(w, wt).insert(s[0].0, s[0].1)
            =~= weight_map(s.drop_first()).insert(s[0].0, s[0].1).insert(w, wt));
    }
}

/// Inserting the same word and weight twice leaves exactly what one
/// insert leaves: queries after the second insert see the same entries.
pub proof fn lemma_upsert_idempotent(s: Seq<SpecEntry>, w: Seq<char>, wt: usize)
    ensures
        upsert(upsert(s, w, wt), w, wt) == upsert(s, w, wt),
    decreases s.len(),
{
    if s.len() == 0 {
        let t = seq![(w, wt)];
        assert(t[0] == (w, wt));
        assert(upsert(t, w, wt) == seq![(w, wt)] + t.drop_first());
        assert(seq![(w, wt)] + t.drop_first() =~= t);
    } else if s[0].0 == w {
        let t = seq![(w, wt)] + s.drop_first();
        assert(t[0] == (w, wt));
        assert(upsert(t, w, wt) == seq![(w, wt)] + t.drop_first());
        assert(seq![(w, wt)] + t.drop_first() =~= t);
    } else if lex_lt(w, s[0].0) {
        let t = seq![(w, wt)] + s;
        assert(t[0] == (w, wt));
        assert(upsert(t, w, wt) == seq![(w, wt)] + t.drop_first());
        assert(seq![(w, wt)] + t.drop_first() =~= t);
    } else {
        let t = seq![s[0]] + upsert(s.drop_first(), w, wt);
        assert(t[0] == s[0]);
        assert(t.drop_first() =~= upsert(s.drop_first(), w, wt));
        lemma_upsert_idempotent(s.drop_first(), w, wt);
        assert(upsert(t, w, wt) == seq![s[0]] + upsert(t.drop_first(), w, wt));
        assert(seq![s[0]] + upsert(t.drop_first(), w, wt) =~= t);
    }
}

/// The set of words that occur in a sequence of entries.
pub open spec fn words_of(s: Seq<SpecEntry>) -> Set<Seq<char>> {
    Set::new(|w: Seq<char>| exists|i: int| 0 <= i < s.len() && (#[trigger] s[i]).0 == w)
}

/// The table binds exactly the words that stand in the entry list.
pub proof fn lemma_table_words(s: Seq<SpecEntry>)
    ensures
        weight_map(s).dom() =~= words_of(s),
    decreases s.len(),
{
    if s.len() == 0 {
        assert(weight_map(s).dom() =~= words_of(s));
    } else {
        lemma_table_words(s.drop_first());
        assert forall|w: Seq<char>| #[trigger] weight_map(s).dom().contains(w) implies words_of(
            s,
        ).contains(w) by {
            if w == s[0].0 {
                assert(s[0].0 == w);
            } else {
                let i0 = choose|i: int|
                    0 <= i < s.drop_first().len() && (#[trigger] s.drop_first()[i]).0 == w;
                assert(s[i0 + 1].0 == w);
            }
        }
        assert forall|w: Seq<char>| #[trigger] words_of(s).contains(w) implies weight_map(
            s,
        ).dom().contains(w) by {
            let i0 = choose|i: int| 0 <= i < s.len() && (#[trigger] s[i]).0 == w;
            if i0 > 0 {
                assert(s.drop_first()[i0 - 1].0 == w);
            }
        }
    }
}

/// Of a strictly sorted entry list the table binds one word per entry:
/// its size is the list's length.
pub proof fn lemma_table_size(s: Seq<SpecEntry>)
    requires
        lex_sorted(s),
    ensures
        weight_map(s).dom().finite(),
        weight_map(s).dom().len() == s.len(),
    decreases s.len(),
{
    broadcast use vstd::set::axiom_set_insert_len;

    if s.len() > 0 {
        assert forall|k1: int, k2: int| 0 <= k1 < k2 < s.drop_first().len() implies lex_lt(
            (#[trigger] s.drop_first()[k1]).0,
            (#[trigger] s.drop_first()[k2]).0,
        ) by {
            assert(s.drop_first()[k1] == s[k1 + 1]);
            assert(s.drop_first()[k2] == s[k2 + 1]);
        }
        lemma_table_size(s.drop_first());
        lemma_table_words(s.drop_first());
        if weight_map(s.drop_first()).dom().contains(s[0].0) {
            let i0 = choose|i: int|
                0 <= i < s.drop_first().len() && (#[trigger] s.drop_first()[i]).0 == s[0].0;
            assert(s.drop_first()[i0] == s[i0 + 1]);
            assert(lex_lt(s[0].0, s[i0 + 1].0));
            lemma_lex_lt_irrefl(s[0].0);
        }
        assert(weight_map(s).dom() =~= weight_map(s.drop_first()).dom().insert(s[0].0));
    }
}

/// A query for the empty prefix matches every entry, and a well-formed
/// trie holds exactly one entry per distinct indexed word: such a query
/// returns as many entries as the table binds words.
pub proof fn lemma_one_entry_per_word(d: Dictionary)
    requires
        d.wf(),
    ensures
        matches_below(d.entry_list(), Seq::empty()) == d.entry_list(),
        weight_map(d.entry_list()).dom().finite(),
        weight_map(d.entry_list()).dom().len() == d.entry_list().len(),
{
    lemma_wf_entry_list(d, Seq::empty());
    assert forall|k: int| 0 <= k < d.entry_list().len() implies Seq::<char>::empty().is_prefix_of(
        (#[trigger] d.entry_list()[k]).0,
    ) by {
        assert(Seq::<char>::empty() =~= (d.entry_list()[k]).0.subrange(0, 0));
    }
    lemma_matches_below_all(d.entry_list(), Seq::empty());
    lemma_table_size(d.entry_list());
}

/// A prefix that no indexed word begins with matches no entry: the
/// query for such a prefix returns the empty sequence.
pub proof fn lemma_unmatched_prefix(s: Seq<SpecEntry>, q: Seq<char>)
    requires
        forall|k: int| 0 <= k < s.len() ==> !q.is_prefix_of((#[trigger] s[k]).0),
    ensures
        matches_below(s, q) == Seq::<SpecEntry>::empty(),
{
    lemma_matches_below_none(s, q);
}

/// The table that a run of inserts builds binds exactly the inserted
/// words: duplicates collapse, and the last inserted weight wins.
pub proof fn lemma_build_table(ps: Seq<SpecEntry>)
    ensures
        weight_map(upsert_all(Seq::empty(), ps)).dom() =~= words_of(ps),
    decreases ps.len(),
{
    if ps.len() == 0 {
        assert(weight_map(upsert_all(Seq::empty(), ps)).dom() =~= words_of(ps));
    } else {
        lemma_build_table(ps.drop_last());
        lemma_upsert_weight_map(
            upsert_all(Seq::empty(), ps.drop_last()),
            ps.last().0,
            ps.last().1,
        );
        assert forall|w: Seq<char>|
            #[trigger] weight_map(upsert_all(Seq::empty(), ps)).dom().contains(w) implies words_of(
            ps,
        ).contains(w) by {
            if w == ps.last().0 {
                assert(ps[ps.len() - 1].0 == w);
            } else {
                let i0 = choose|i: int|
                    0 <= i < ps.drop_last().len() && (#[trigger] ps.drop_last()[i]).0 == w;
                assert(ps[i0].0 == w);
            }
        }
        assert forall|w: Seq<char>| #[trigger] words_of(ps).contains(w) implies weight_map(
            upsert_all(Seq::empty(), ps),
        ).dom().contains(w) by {
            let i0 = choose|i: int| 0 <= i < ps.len() && (#[trigger] ps[i]).0 == w;
            if i0 < ps.len() - 1 {
                assert(ps.drop_last()[i0].0 == w);
            }
        }
    }
}

} // verus!
