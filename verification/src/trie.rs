use vstd::prelude::*;

use crate::lex::lemma_diverge_lt;
use crate::lex::lemma_lex_lt_asym;
use crate::lex::lemma_push_prefix_parts;
use crate::lex::lemma_strict_prefix_lt;
use crate::lex::lex_lt;

verus! {

/// One spec-level index entry: a word, as its character sequence, and its weight.
pub type SpecEntry = (Seq<char>, usize);

/// The payload marking that a complete word ends at a node: the full word
/// spelled by the path from the root to the node, and its weight.
pub struct Terminal {
    pub word: String,
    pub weight: usize,
}

/// A weighted prefix-search index: a trie node keyed by character.
///
/// `entries` maps one character to one owned child, held in strictly
/// ascending character order; `terminal` is present exactly when an
/// indexed word ends at this node.
pub struct Dictionary {
    pub entries: Vec<(char, Dictionary)>,
    pub terminal: Option<Terminal>,
}

/// Every word in `s` extends the path `q`.
pub open spec fn all_below(s: Seq<SpecEntry>, q: Seq<char>) -> bool {
    forall|k: int| 0 <= k < s.len() ==> q.is_prefix_of((#[trigger] s[k]).0)
}

/// Every word in `s` strictly extends the path `q`.
pub open spec fn all_strictly_below(s: Seq<SpecEntry>, q: Seq<char>) -> bool {
    forall|k: int|
        0 <= k < s.len() ==> q.is_prefix_of((#[trigger] s[k]).0) && q.len() < s[k].0.len()
}

/// The words of `s` stand in strictly ascending lexicographic order.
pub open spec fn lex_sorted(s: Seq<SpecEntry>) -> bool {
    forall|k1: int, k2: int|
        0 <= k1 < k2 < s.len() ==> lex_lt((#[trigger] s[k1]).0, (#[trigger] s[k2]).0)
}

/// The characters keying a run of children strictly ascend.
pub open spec fn keys_sorted(cs: Seq<(char, Dictionary)>) -> bool {
    forall|i: int, j: int|
        0 <= i < j < cs.len() ==> ((#[trigger] cs[i]).0 as u32) < ((#[trigger] cs[j]).0 as u32)
}

/// Each child in the run is well formed below the path extended by its key.
pub open spec fn kids_wf(cs: Seq<(char, Dictionary)>, path: Seq<char>) -> bool
    decreases cs,
{
    forall|i: int| 0 <= i < cs.len() ==> (#[trigger] cs[i]).1.wf_at(path.push(cs[i].0))
}

/// Each word in `s`, just past the path `q`, carries the key of some child
/// in the run `cs`.
pub open spec fn keys_cover(s: Seq<SpecEntry>, cs: Seq<(char, Dictionary)>, q: Seq<char>) -> bool {
    forall|k: int|
        0 <= k < s.len() ==> exists|i: int|
            0 <= i < cs.len() && (#[trigger] s[k]).0[q.len() as int] == cs[i].0
}

/// The entries of a run of child subtrees, each child's subtree fully
/// collected before the next sibling.
pub open spec fn entry_list_of(cs: Seq<(char, Dictionary)>) -> Seq<SpecEntry>
    decreases cs,
{
    if cs.len() == 0 {
        Seq::empty()
    } else {
        cs[0].1.entry_list() + entry_list_of(cs.drop_first())
    }
}

impl Dictionary {
    /// The entry contributed by this node's own terminal, if any.
    pub open spec fn own_entry(self) -> Seq<SpecEntry> {
        match self.terminal {
            Some(t) => seq![(t.word@, t.weight)],
            None => Seq::empty(),
        }
    }

    /// Every entry in the subtree rooted here, in traversal order: the
    /// node's own terminal first, then the children in ascending character
    /// order. Under `wf_at` this order is exactly the lexicographic order
    /// of the words.
    pub open spec fn entry_list(self) -> Seq<SpecEntry>
        decreases self,
    {
        self.own_entry() + entry_list_of(self.entries@)
    }

    /// Well-formedness of the subtree reached by consuming `path` from the
    /// root: a terminal stores exactly the word spelled by the path, and
    /// children are strictly sorted by character.
    pub open spec fn wf_at(self, path: Seq<char>) -> bool
        decreases self,
    {
        &&& (match self.terminal {
            Some(t) => t.word@ == path,
            None => true,
        })
        &&& keys_sorted(self.entries@)
        &&& kids_wf(self.entries@, path)
    }

    /// Well-formedness of a whole dictionary, whose root spells the empty path.
    pub open spec fn wf(self) -> bool {
        self.wf_at(Seq::empty())
    }

    /// An empty node: no children, no terminal.
    pub fn new() -> (d: Dictionary)
        ensures
            d.entry_list() == Seq::<SpecEntry>::empty(),
            forall|p: Seq<char>| d.wf_at(p),
    {
        let d = Dictionary { entries: Vec::new(), terminal: None };
        proof {
            assert(d.entry_list() =~= Seq::<SpecEntry>::empty());
        }
        d
    }
}

/// Setting the terminal of the node a word ends at rewrites exactly the
/// head of its entry list.
proof fn lemma_set_terminal(pre: Dictionary, post: Dictionary, w: Seq<char>, weight: usize)
    requires
        pre.wf_at(w),
        post.entries@ == pre.entries@,
        post.terminal matches Some(t) && t.word@ == w && t.weight == weight,
    ensures
        post.wf_at(w),
        post.entry_list() == upsert(pre.entry_list(), w, weight),
{
    lemma_wf_entry_list(pre, w);
    let kids = entry_list_of(pre.entries@);
    assert(post.own_entry() =~= seq![(w, weight)]);
    assert(post.entry_list() == seq![(w, weight)] + kids);
    match pre.terminal {
        Some(t0) => {
            assert(pre.entry_list()[0].0 == w);
            assert(pre.entry_list().drop_first() =~= kids);
            assert(upsert(pre.entry_list(), w, weight) == seq![(w, weight)] + kids);
        },
        None => {
            assert(pre.entry_list() =~= kids);
            if kids.len() == 0 {
                assert(upsert(pre.entry_list(), w, weight) == seq![(w, weight)]);
                assert(post.entry_list() =~= seq![(w, weight)]);
            } else {
                assert(w.is_prefix_of(kids[0].0) && w.len() < kids[0].0.len());
                lemma_strict_prefix_lt(w, kids[0].0);
                lemma_lex_lt_asym(w, kids[0].0);
                assert(upsert(pre.entry_list(), w, weight) == seq![(w, weight)]
                    + pre.entry_list());
                assert(seq![(w, weight)] + pre.entry_list() =~= seq![(w, weight)] + kids);
            }
        },
    }
}

/// Placing an empty child at its key's position keeps the node well
/// formed and adds no entry.
proof fn lemma_fresh_child(
    cs0: Seq<(char, Dictionary)>,
    cs1: Seq<(char, Dictionary)>,
    fresh: Dictionary,
    j: int,
    c: char,
    path: Seq<char>,
)
    requires
        keys_sorted(cs0),
        kids_wf(cs0, path),
        0 <= j <= cs0.len(),
        forall|k: int| 0 <= k < j ==> ((#[trigger] cs0[k]).0 as u32) < (c as u32),
        j < cs0.len() ==> (cs0[j].0 as u32) > (c as u32),
        forall|p: Seq<char>| fresh.wf_at(p),
        fresh.entry_list() == Seq::<SpecEntry>::empty(),
        cs1 == cs0.insert(j, (c, fresh)),
    ensures
        keys_sorted(cs1),
        kids_wf(cs1, path),
        forall|k: int| 0 <= k < j ==> ((#[trigger] cs1[k]).0 as u32) < (c as u32),
        cs1[j].0 == c,
        entry_list_of(cs1) == entry_list_of(cs0),
{
    cs0.insert_ensures(j, (c, fresh));
    assert forall|k1: int, k2: int| 0 <= k1 < k2 < cs1.len() implies ((#[trigger] cs1[k1]).0
        as u32) < ((#[trigger] cs1[k2]).0 as u32) by {
        if k1 > j {
            assert(cs1[k1] == cs0[k1 - 1]);
        }
        if k2 > j {
            assert(cs1[k2] == cs0[k2 - 1]);
        }
    }
    assert forall|k: int| 0 <= k < cs1.len() implies (#[trigger] cs1[k]).1.wf_at(
        path.push(cs1[k].0),
    ) by {
        if k > j {
            assert(cs1[k] == cs0[k - 1]);
        }
    }
    lemma_entry_list_of_split(cs1, j);
    assert(cs1.take(j) =~= cs0.take(j));
    assert(cs1.skip(j + 1) =~= cs0.skip(j));
    assert(cs0 =~= cs0.take(j) + cs0.skip(j));
    lemma_entry_list_of_add(cs0.take(j), cs0.skip(j));
    assert(entry_list_of(cs1) =~= entry_list_of(cs0));
}

/// Rewriting the one child whose key the word carries rewrites the whole
/// node's entry list by the same upsert.
#[verifier::rlimit(100)]
proof fn lemma_insert_step(
    mid: Dictionary,
    node: Dictionary,
    kid2: Dictionary,
    j: int,
    c: char,
    path: Seq<char>,
    w: Seq<char>,
    weight: usize,
)
    requires
        mid.wf_at(path),
        path.is_prefix_of(w),
        path.len() < w.len(),
        w[path.len() as int] == c,
        0 <= j < mid.entries@.len(),
        mid.entries@[j].0 == c,
        forall|k: int| 0 <= k < j ==> ((#[trigger] mid.entries@[k]).0 as u32) < (c as u32),
        node.terminal == mid.terminal,
        node.entries@ == mid.entries@.update(j, (c, kid2)),
        kid2.wf_at(path.push(c)),
        kid2.entry_list() == upsert(mid.entries@[j].1.entry_list(), w, weight),
    ensures
        node.wf_at(path),
        node.entry_list() == upsert(mid.entry_list(), w, weight),
{
    let csm = mid.entries@;
    let cs2 = node.entries@;
    assert forall|k1: int, k2: int| 0 <= k1 < k2 < cs2.len() implies ((#[trigger] cs2[k1]).0
        as u32) < ((#[trigger] cs2[k2]).0 as u32) by {
        assert(cs2[k1].0 == csm[k1].0);
        assert(cs2[k2].0 == csm[k2].0);
    }
    assert forall|k: int| 0 <= k < cs2.len() implies (#[trigger] cs2[k]).1.wf_at(
        path.push(cs2[k].0),
    ) by {
        if k != j {
            assert(cs2[k] == csm[k]);
        }
    }
    assert(node.wf_at(path));
    lemma_entry_list_of_split(cs2, j);
    lemma_entry_list_of_split(csm, j);
    assert(cs2.take(j) =~= csm.take(j));
    assert(cs2.skip(j + 1) =~= csm.skip(j + 1));
    let own = mid.own_entry();
    let blocka = entry_list_of(csm.take(j));
    let blockb = entry_list_of(csm.skip(j + 1));
    let middle = csm[j].1.entry_list();
    assert(mid.entry_list() == own + (blocka + middle + blockb));
    assert(node.entry_list() == own + (blocka + kid2.entry_list() + blockb));
    lemma_strict_prefix_lt(path, w);
    assert forall|k1: int, k2: int| 0 <= k1 < k2 < csm.take(j).len() implies ((#[trigger] csm.take(
        j,
    )[k1]).0 as u32) < ((#[trigger] csm.take(j)[k2]).0 as u32) by {}
    assert forall|k: int| 0 <= k < csm.take(j).len() implies (#[trigger] csm.take(j)[k]).1.wf_at(
        path.push(csm.take(j)[k].0),
    ) by {
        assert(csm.take(j)[k] == csm[k]);
    }
    lemma_wf_entry_list_of(csm.take(j), path);
    assert forall|k1: int, k2: int| 0 <= k1 < k2 < csm.skip(j + 1).len() implies ((
    #[trigger] csm.skip(j + 1)[k1]).0 as u32) < ((#[trigger] csm.skip(j + 1)[k2]).0 as u32) by {
        assert(csm.skip(j + 1)[k1] == csm[k1 + j + 1]);
        assert(csm.skip(j + 1)[k2] == csm[k2 + j + 1]);
    }
    assert forall|k: int| 0 <= k < csm.skip(j + 1).len() implies (#[trigger] csm.skip(
        j + 1,
    )[k]).1.wf_at(path.push(csm.skip(j + 1)[k].0)) by {
        assert(csm.skip(j + 1)[k] == csm[k + j + 1]);
    }
    lemma_wf_entry_list_of(csm.skip(j + 1), path);
    let head = own + blocka;
    assert forall|k: int| 0 <= k < head.len() implies lex_lt((#[trigger] head[k]).0, w) by {
        if k < own.len() {
            assert(head[k].0 == path);
        } else {
            let e = blocka[k - own.len()];
            assert(head[k] == e);
            let i0 = choose|i0: int|
                0 <= i0 < csm.take(j).len() && e.0[path.len() as int] == (#[trigger] csm.take(
                    j,
                )[i0]).0;
            assert(csm.take(j)[i0] == csm[i0]);
            assert((e.0[path.len() as int] as u32) < (c as u32));
            lemma_diverge_lt(path, e.0, w);
        }
    }
    assert forall|k: int| 0 <= k < blockb.len() implies lex_lt(w, (#[trigger] blockb[k]).0) by {
        let e = blockb[k];
        let i0 = choose|i0: int|
            0 <= i0 < csm.skip(j + 1).len() && e.0[path.len() as int] == (#[trigger] csm.skip(
                j + 1,
            )[i0]).0;
        assert(csm.skip(j + 1)[i0] == csm[i0 + j + 1]);
        assert((csm[j].0 as u32) < (csm[i0 + j + 1].0 as u32));
        assert((e.0[path.len() as int] as u32) > (c as u32));
        lemma_diverge_lt(path, w, e.0);
    }
    assert(own + (blocka + middle + blockb) =~= head + (middle + blockb));
    lemma_upsert_skips_smaller(head, middle + blockb, w, weight);
    lemma_upsert_stops_before_larger(middle, blockb, w, weight);
    assert(upsert(mid.entry_list(), w, weight) == head + (upsert(middle, w, weight) + blockb));
    assert(node.entry_list() =~= head + (upsert(middle, w, weight) + blockb));
}

impl Dictionary {
    /// Indexes `word` under the given weight, mutating the trie in place:
    /// descends character by character, creating missing children, and
    /// overwrites the terminal of the node the word ends at.
    pub fn insert(&mut self, word: String, weight: usize)
        requires
            old(self).wf(),
        ensures
            final(self).wf(),
            final(self).entry_list() == upsert(old(self).entry_list(), word@, weight),
    {
        proof {
            assert(word@.take(0) =~= Seq::<char>::empty());
        }
        self.insert_at(word, 0, weight);
    }

    /// Walks `word` from character `i` on, below the node that spells the
    /// first `i` characters, and places the entry at its position.
    fn insert_at(&mut self, word: String, i: usize, weight: usize)
        requires
            old(self).wf_at(word@.take(i as int)),
            i <= word@.len(),
        ensures
            final(self).wf_at(word@.take(i as int)),
            final(self).entry_list() == upsert(old(self).entry_list(), word@, weight),
        decreases word@.len() - i,
    {
        let ghost w = word@;
        let ghost path = w.take(i as int);
        proof {
            assert(path.len() == i);
            assert(path =~= w.subrange(0, path.len() as int));
        }
        let n = word.as_str().unicode_len();
        if i == n {
            proof {
                assert(path =~= w);
            }
            let ghost pre = *self;
            self.terminal = Some(Terminal { word, weight });
            proof {
                lemma_set_terminal(pre, *self, w, weight);
            }
        } else {
            let c = word.as_str().get_char(i);
            proof {
                assert(w[i as int] == c);
            }
            let j = Self::find_child(&self.entries, c);
            if j == self.entries.len() || self.entries[j].0 != c {
                let fresh = Dictionary::new();
                let ghost cs0 = self.entries@;
                proof {
                    if j < cs0.len() {
                        vstd::utf8::char_u32_cast(cs0[j as int].0, cs0[j as int].0 as u32);
                        vstd::utf8::char_u32_cast(c, c as u32);
                    }
                }
                self.entries.insert(j, (c, fresh));
                proof {
                    lemma_fresh_child(cs0, self.entries@, fresh, j as int, c, path);
                    assert(self.wf_at(path));
                    assert(entry_list_of(self.entries@) == entry_list_of(cs0));
                    assert(self.entry_list() == old(self).entry_list());
                }
            }
            proof {
                assert(self.wf_at(path));
                assert(self.entry_list() == old(self).entry_list());
                assert(j < self.entries@.len());
                assert(self.entries@[j as int].0 == c);
                assert(forall|k: int|
                    0 <= k < j ==> ((#[trigger] self.entries@[k]).0 as u32) < (c as u32));
            }
            let ghost mid = *self;
            let mut pair = self.entries.remove(j);
            proof {
                assert(pair == mid.entries@[j as int]);
                assert(path.push(c) =~= w.take(i as int + 1));
                assert(pair.1.wf_at(w.take((i + 1) as int)));
            }
            pair.1.insert_at(word, i + 1, weight);
            self.entries.insert(j, pair);
            proof {
                let cs2 = self.entries@;
                let csm = mid.entries@;
                csm.remove_ensures(j as int);
                csm.remove(j as int).insert_ensures(j as int, pair);
                assert forall|k: int| 0 <= k < cs2.len() implies cs2[k] == csm.update(
                    j as int,
                    pair,
                )[k] by {
                    if k < j {
                        assert(cs2[k] == csm.remove(j as int)[k]);
                    } else if k > j {
                        assert(cs2[k] == csm.remove(j as int)[k - 1]);
                    }
                }
                assert(cs2 =~= csm.update(j as int, pair));
                assert(pair.0 == c);
                assert(pair == (c, pair.1));
                assert(pair.1.wf_at(path.push(c)));
                lemma_insert_step(mid, *self, pair.1, j as int, c, path, w, weight);
            }
        }
    }
}

/// The spec view of an executable entry vector: each word as its
/// character sequence.
pub open spec fn entry_views(s: Seq<(String, usize)>) -> Seq<SpecEntry> {
    s.map_values(|p: (String, usize)| (p.0@, p.1))
}

proof fn lemma_entry_views_push(s: Seq<(String, usize)>, x: (String, usize))
    ensures
        entry_views(s.push(x)) == entry_views(s).push((x.0@, x.1)),
{
    assert(entry_views(s.push(x)) =~= entry_views(s).push((x.0@, x.1)));
}

impl Dictionary {
    /// Appends every entry of this subtree to `result`, the node's own
    /// terminal first, then the children in ascending character order.
    fn to_words(&self, result: &mut Vec<(String, usize)>)
        ensures
            entry_views(final(result)@) == entry_views(old(result)@) + self.entry_list(),
        decreases self,
    {
        match &self.terminal {
            Some(t) => {
                let ghost before = result@;
                result.push((t.word.clone(), t.weight));
                proof {
                    lemma_entry_views_push(before, (t.word, t.weight));
                    assert(entry_views(result@) =~= entry_views(old(result)@)
                        + self.own_entry());
                }
            },
            None => {
                proof {
                    assert(entry_views(result@) =~= entry_views(old(result)@)
                        + self.own_entry());
                }
            },
        }
        let mut k: usize = 0;
        while k < self.entries.len()
            invariant
                k <= self.entries@.len(),
                entry_views(result@) == entry_views(old(result)@) + self.own_entry()
                    + entry_list_of(self.entries@.take(k as int)),
            decreases self.entries@.len() - k,
        {
            let ghost mid = result@;
            self.entries[k].1.to_words(result);
            proof {
                let cs = self.entries@;
                assert(cs.take(k as int + 1) =~= cs.take(k as int) + seq![cs[k as int]]);
                lemma_entry_list_of_add(cs.take(k as int), seq![cs[k as int]]);
                lemma_entry_list_of_one(cs[k as int]);
                assert(entry_views(result@) =~= entry_views(old(result)@) + self.own_entry()
                    + entry_list_of(cs.take(k as int + 1)));
            }
            k += 1;
        }
        proof {
            assert(self.entries@.take(self.entries@.len() as int) =~= self.entries@);
        }
    }
}

impl Dictionary {
    /// The position of the first child whose key is not below `c`.
    fn find_child(cs: &Vec<(char, Dictionary)>, c: char) -> (j: usize)
        ensures
            j <= cs@.len(),
            forall|k: int| 0 <= k < j ==> ((#[trigger] cs@[k]).0 as u32) < (c as u32),
            j < cs@.len() ==> ((cs@[j as int].0 as u32) >= (c as u32)),
    {
        let mut j: usize = 0;
        while j < cs.len() && (cs[j].0 as u32) < (c as u32)
            invariant
                j <= cs@.len(),
                forall|k: int| 0 <= k < j ==> ((#[trigger] cs@[k]).0 as u32) < (c as u32),
            decreases cs@.len() - j,
        {
            j += 1;
        }
        j
    }

    /// Walks `prefix` from character `i` on; the node it lands on, if the
    /// walk does not fall off the tree, holds exactly the entries below
    /// the whole prefix.
    fn descend_from<'a>(&'a self, prefix: &str, i: usize) -> (r: Option<&'a Dictionary>)
        requires
            self.wf_at(prefix@.take(i as int)),
            i <= prefix@.len(),
        ensures
            match r {
                Some(d) => d.wf_at(prefix@) && matches_below(d.entry_list(), prefix@)
                    == matches_below(self.entry_list(), prefix@),
                None => matches_below(self.entry_list(), prefix@) == Seq::<SpecEntry>::empty(),
            },
        decreases prefix@.len() - i,
    {
        let ghost p = prefix@;
        let ghost path = p.take(i as int);
        let n = prefix.unicode_len();
        if i == n {
            proof {
                assert(path =~= p);
            }
            Some(self)
        } else {
            let c = prefix.get_char(i);
            proof {
                assert(p[i as int] == c);
                assert(path.len() == i);
            }
            let j = Self::find_child(&self.entries, c);
            if j < self.entries.len() && self.entries[j].0 == c {
                proof {
                    lemma_step_down(*self, path, p, j as int);
                    assert(path.push(c) =~= p.take(i as int + 1));
                    assert(self.entries@[j as int].1.wf_at(p.take(i as int + 1)));
                }
                self.entries[j].1.descend_from(prefix, i + 1)
            } else {
                proof {
                    assert forall|k: int| 0 <= k < self.entries@.len() implies (
                    #[trigger] self.entries@[k]).0 != c by {
                        if k > j {
                            assert((self.entries@[j as int].0 as u32)
                                < (self.entries@[k].0 as u32));
                        }
                    }
                    lemma_no_branch(*self, path, p);
                }
                None
            }
        }
    }

    /// Every indexed word beginning with `prefix`, with its weight: the
    /// heaviest first, entries of equal weight in ascending lexicographic
    /// order, one entry per indexed word. A prefix matching nothing
    /// yields the empty vector.
    pub fn words(&self, prefix: &str) -> (result: Vec<(String, usize)>)
        requires
            self.wf(),
        ensures
            entry_views(result@).to_multiset() == matches_below(
                self.entry_list(),
                prefix@,
            ).to_multiset(),
            result@.len() == matches_below(self.entry_list(), prefix@).len(),
            crate::ranking::ranked(entry_views(result@)),
    {
        proof {
            assert(prefix@.take(0) =~= Seq::<char>::empty());
        }
        match self.descend_from(prefix, 0) {
            None => {
                proof {
                    assert(entry_views(Seq::<(String, usize)>::empty()) =~= Seq::<
                        SpecEntry,
                    >::empty());
                }
                Vec::new()
            },
            Some(d) => {
                proof {
                    lemma_wf_entry_list(*d, prefix@);
                    lemma_matches_below_all(d.entry_list(), prefix@);
                }
                let mut result = Vec::new();
                d.to_words(&mut result);
                proof {
                    assert(entry_views(Seq::<(String, usize)>::empty()) =~= Seq::<
                        SpecEntry,
                    >::empty());
                    assert(entry_views(result@) =~= d.entry_list());
                }
                crate::ranking::rank_entries(&mut result);
                result
            },
        }
    }
}

/// The entry list after indexing every pair in order: of a repeated
/// word, a later occurrence overwrites an earlier one.
pub open spec fn upsert_all(s: Seq<SpecEntry>, pairs: Seq<SpecEntry>) -> Seq<SpecEntry>
    decreases pairs.len(),
{
    if pairs.len() == 0 {
        s
    } else {
        upsert(upsert_all(s, pairs.drop_last()), pairs.last().0, pairs.last().1)
    }
}

/// Each word paired with the zero weight.
pub open spec fn zero_weighted(ws: Seq<String>) -> Seq<SpecEntry> {
    ws.map_values(|s: String| (s@, 0usize))
}

impl Dictionary {
    /// Builds the index from the pairs, inserting in sequence order: of a
    /// repeated word, the last weight wins.
    pub fn build(words: Vec<(String, usize)>) -> (d: Dictionary)
        ensures
            d.wf(),
            d.entry_list() == upsert_all(Seq::empty(), entry_views(words@)),
    {
        let mut d = Dictionary::new();
        let ghost pairs = entry_views(words@);
        proof {
            assert(pairs.take(0) =~= Seq::<SpecEntry>::empty());
        }
        let mut k: usize = 0;
        while k < words.len()
            invariant
                k <= words@.len(),
                pairs == entry_views(words@),
                d.wf(),
                d.entry_list() == upsert_all(Seq::empty(), pairs.take(k as int)),
            decreases words@.len() - k,
        {
            let word = words[k].0.clone();
            let weight = words[k].1;
            let ghost wv = word@;
            proof {
                assert(wv == pairs[k as int].0);
                assert(weight == pairs[k as int].1);
            }
            d.insert(word, weight);
            proof {
                assert(pairs.take(k as int + 1).drop_last() =~= pairs.take(k as int));
                assert(pairs.take(k as int + 1).last() == pairs[k as int]);
            }
            k += 1;
        }
        proof {
            assert(pairs.take(pairs.len() as int) =~= pairs);
        }
        d
    }

    /// Builds the index from bare words, each carrying the zero weight.
    pub fn build_without_weights(words: Vec<String>) -> (d: Dictionary)
        ensures
            d.wf(),
            d.entry_list() == upsert_all(Seq::empty(), zero_weighted(words@)),
    {
        let mut weighted: Vec<(String, usize)> = Vec::new();
        let mut k: usize = 0;
        while k < words.len()
            invariant
                k <= words@.len(),
                entry_views(weighted@) == zero_weighted(words@.take(k as int)),
            decreases words@.len() - k,
        {
            let ghost before = weighted@;
            let word = words[k].clone();
            let ghost xg = (word, 0usize);
            weighted.push((word, 0));
            proof {
                lemma_entry_views_push(before, xg);
                assert(zero_weighted(words@.take(k as int + 1)) =~= zero_weighted(
                    words@.take(k as int),
                ).push((words@[k as int]@, 0usize)));
                assert(entry_views(weighted@) =~= zero_weighted(words@.take(k as int + 1)));
            }
            k += 1;
        }
        proof {
            assert(words@.take(words@.len() as int) =~= words@);
        }
        Self::build(weighted)
    }
}

pub proof fn lemma_entry_list_of_one(x: (char, Dictionary))
    ensures
        entry_list_of(seq![x]) == x.1.entry_list(),
{
    assert(seq![x].drop_first() =~= Seq::<(char, Dictionary)>::empty());
    assert(x.1.entry_list() + entry_list_of(Seq::<(char, Dictionary)>::empty())
        =~= x.1.entry_list());
}

pub proof fn lemma_entry_list_of_add(a: Seq<(char, Dictionary)>, b: Seq<(char, Dictionary)>)
    ensures
        entry_list_of(a + b) == entry_list_of(a) + entry_list_of(b),
    decreases a,
{
    if a.len() == 0 {
        assert(a + b =~= b);
        assert(entry_list_of(a) + entry_list_of(b) =~= entry_list_of(b));
    } else {
        assert((a + b)[0] == a[0]);
        assert((a + b).drop_first() =~= a.drop_first() + b);
        lemma_entry_list_of_add(a.drop_first(), b);
        assert(a[0].1.entry_list() + (entry_list_of(a.drop_first()) + entry_list_of(b)) =~= (a[0].1.entry_list()
            + entry_list_of(a.drop_first())) + entry_list_of(b));
    }
}

/// A run of children splits, entry-wise, around any one child.
pub proof fn lemma_entry_list_of_split(cs: Seq<(char, Dictionary)>, j: int)
    requires
        0 <= j < cs.len(),
    ensures
        entry_list_of(cs) == entry_list_of(cs.take(j)) + cs[j].1.entry_list() + entry_list_of(
            cs.skip(j + 1),
        ),
{
    assert(cs =~= (cs.take(j) + seq![cs[j]]) + cs.skip(j + 1));
    lemma_entry_list_of_add(cs.take(j) + seq![cs[j]], cs.skip(j + 1));
    lemma_entry_list_of_add(cs.take(j), seq![cs[j]]);
    lemma_entry_list_of_one(cs[j]);
}

/// The entry list after indexing the word `w` with weight `wt`: the entry
/// holding `w` is replaced, or a new one is placed at the word's
/// lexicographic position.
pub open spec fn upsert(s: Seq<SpecEntry>, w: Seq<char>, wt: usize) -> Seq<SpecEntry>
    decreases s.len(),
{
    if s.len() == 0 {
        seq![(w, wt)]
    } else if s[0].0 == w {
        seq![(w, wt)] + s.drop_first()
    } else if lex_lt(w, s[0].0) {
        seq![(w, wt)] + s
    } else {
        seq![s[0]] + upsert(s.drop_first(), w, wt)
    }
}

/// Entries lexicographically before the inserted word are passed over.
pub proof fn lemma_upsert_skips_smaller(
    a: Seq<SpecEntry>,
    b: Seq<SpecEntry>,
    w: Seq<char>,
    wt: usize,
)
    requires
        forall|k: int| 0 <= k < a.len() ==> lex_lt((#[trigger] a[k]).0, w),
    ensures
        upsert(a + b, w, wt) == a + upsert(b, w, wt),
    decreases a.len(),
{
    if a.len() == 0 {
        assert(a + b =~= b);
        assert(a + upsert(b, w, wt) =~= upsert(b, w, wt));
    } else {
        lemma_lex_lt_asym(a[0].0, w);
        assert((a + b)[0] == a[0]);
        assert((a + b).drop_first() =~= a.drop_first() + b);
        assert forall|k: int| 0 <= k < a.drop_first().len() implies lex_lt(
            (#[trigger] a.drop_first()[k]).0,
            w,
        ) by {
            assert(a.drop_first()[k] == a[k + 1]);
        }
        lemma_upsert_skips_smaller(a.drop_first(), b, w, wt);
        assert(seq![a[0]] + (a.drop_first() + upsert(b, w, wt)) =~= a + upsert(b, w, wt));
    }
}

/// Entries lexicographically past the inserted word are left in place.
pub proof fn lemma_upsert_stops_before_larger(
    a: Seq<SpecEntry>,
    b: Seq<SpecEntry>,
    w: Seq<char>,
    wt: usize,
)
    requires
        forall|k: int| 0 <= k < b.len() ==> lex_lt(w, (#[trigger] b[k]).0),
    ensures
        upsert(a + b, w, wt) == upsert(a, w, wt) + b,
    decreases a.len(),
{
    if a.len() == 0 {
        assert(a + b =~= b);
        if b.len() == 0 {
            assert(upsert(a, w, wt) + b =~= upsert(a, w, wt));
        } else {
            assert(lex_lt(w, b[0].0));
            crate::lex::lemma_lex_lt_irrefl(w);
            assert(b[0].0 != w);
            assert(upsert(b, w, wt) == seq![(w, wt)] + b);
            assert(seq![(w, wt)] + b =~= upsert(a, w, wt) + b);
        }
    } else {
        assert((a + b)[0] == a[0]);
        if a[0].0 == w {
            assert((a + b).drop_first() =~= a.drop_first() + b);
            assert(seq![(w, wt)] + (a.drop_first() + b) =~= (seq![(w, wt)] + a.drop_first()) + b);
        } else if lex_lt(w, a[0].0) {
            assert(seq![(w, wt)] + (a + b) =~= (seq![(w, wt)] + a) + b);
        } else {
            assert((a + b).drop_first() =~= a.drop_first() + b);
            lemma_upsert_stops_before_larger(a.drop_first(), b, w, wt);
            assert(seq![a[0]] + (upsert(a.drop_first(), w, wt) + b) =~= (seq![a[0]] + upsert(
                a.drop_first(),
                w,
                wt,
            )) + b);
        }
    }
}

/// The entries whose words begin with `q`, in their order in `s`.
pub open spec fn matches_below(s: Seq<SpecEntry>, q: Seq<char>) -> Seq<SpecEntry> {
    s.filter(|e: SpecEntry| q.is_prefix_of(e.0))
}

pub proof fn lemma_matches_below_none(s: Seq<SpecEntry>, q: Seq<char>)
    requires
        forall|k: int| 0 <= k < s.len() ==> !q.is_prefix_of((#[trigger] s[k]).0),
    ensures
        matches_below(s, q) == Seq::<SpecEntry>::empty(),
    decreases s.len(),
{
    reveal(Seq::filter);
    if s.len() > 0 {
        assert forall|k: int| 0 <= k < s.drop_last().len() implies !q.is_prefix_of((
        #[trigger] s.drop_last()[k]).0) by {
            assert(s.drop_last()[k] == s[k]);
        }
        lemma_matches_below_none(s.drop_last(), q);
        assert(!q.is_prefix_of(s.last().0));
        assert(matches_below(s, q) =~= Seq::<SpecEntry>::empty());
    }
}

pub proof fn lemma_matches_below_all(s: Seq<SpecEntry>, q: Seq<char>)
    requires
        forall|k: int| 0 <= k < s.len() ==> q.is_prefix_of((#[trigger] s[k]).0),
    ensures
        matches_below(s, q) == s,
    decreases s.len(),
{
    reveal(Seq::filter);
    if s.len() > 0 {
        assert forall|k: int| 0 <= k < s.drop_last().len() implies q.is_prefix_of((
        #[trigger] s.drop_last()[k]).0) by {
            assert(s.drop_last()[k] == s[k]);
        }
        lemma_matches_below_all(s.drop_last(), q);
        assert(q.is_prefix_of(s.last().0));
        assert(matches_below(s, q) =~= s);
    }
}

proof fn lemma_matches_below_add(a: Seq<SpecEntry>, b: Seq<SpecEntry>, q: Seq<char>)
    ensures
        matches_below(a + b, q) == matches_below(a, q) + matches_below(b, q),
{
    Seq::<SpecEntry>::filter_distributes_over_add(a, b, |e: SpecEntry| q.is_prefix_of(e.0));
}

/// A node that lacks the child keyed by the next character of `q` holds
/// no entry below `q`.
proof fn lemma_no_branch(node: Dictionary, path: Seq<char>, q: Seq<char>)
    requires
        node.wf_at(path),
        path == q.take(path.len() as int),
        path.len() < q.len(),
        forall|k: int|
            0 <= k < node.entries@.len() ==> (#[trigger] node.entries@[k]).0 != q[path.len() as int],
    ensures
        matches_below(node.entry_list(), q) == Seq::<SpecEntry>::empty(),
{
    let c = q[path.len() as int];
    let cs = node.entries@;
    lemma_wf_entry_list_of(cs, path);
    let s = node.entry_list();
    let own = node.own_entry();
    let kids = entry_list_of(cs);
    assert forall|k: int| 0 <= k < s.len() implies !q.is_prefix_of((#[trigger] s[k]).0) by {
        if k < own.len() {
            assert(s[k] == own[k]);
            assert(s[k].0 == path);
        } else {
            assert(s[k] == kids[k - own.len()]);
            let e = kids[k - own.len()];
            if q.is_prefix_of(e.0) {
                assert(e.0[path.len() as int] == q[path.len() as int]) by {
                    assert(q =~= e.0.subrange(0, q.len() as int));
                }
                let i0 = choose|i0: int|
                    0 <= i0 < cs.len() && e.0[path.len() as int] == (#[trigger] cs[i0]).0;
                assert(cs[i0].0 == c);
            }
        }
    }
    lemma_matches_below_none(s, q);
}

/// Descending along the child keyed by the next character of `q` keeps
/// exactly the entries below `q`.
proof fn lemma_step_down(node: Dictionary, path: Seq<char>, q: Seq<char>, j: int)
    requires
        node.wf_at(path),
        path == q.take(path.len() as int),
        path.len() < q.len(),
        0 <= j < node.entries@.len(),
        node.entries@[j].0 == q[path.len() as int],
    ensures
        matches_below(node.entry_list(), q) == matches_below(
            node.entries@[j].1.entry_list(),
            q,
        ),
{
    let c = q[path.len() as int];
    let cs = node.entries@;
    let own = node.own_entry();
    lemma_entry_list_of_split(cs, j);
    let blocka = entry_list_of(cs.take(j));
    let blockb = entry_list_of(cs.skip(j + 1));
    let middle = cs[j].1.entry_list();
    assert forall|k1: int, k2: int| 0 <= k1 < k2 < cs.take(j).len() implies ((#[trigger] cs.take(
        j,
    )[k1]).0 as u32) < ((#[trigger] cs.take(j)[k2]).0 as u32) by {}
    assert forall|k: int| 0 <= k < cs.take(j).len() implies (#[trigger] cs.take(j)[k]).1.wf_at(
        path.push(cs.take(j)[k].0),
    ) by {
        assert(cs.take(j)[k] == cs[k]);
    }
    lemma_wf_entry_list_of(cs.take(j), path);
    assert forall|k1: int, k2: int| 0 <= k1 < k2 < cs.skip(j + 1).len() implies ((
    #[trigger] cs.skip(j + 1)[k1]).0 as u32) < ((#[trigger] cs.skip(j + 1)[k2]).0 as u32) by {
        assert(cs.skip(j + 1)[k1] == cs[k1 + j + 1]);
        assert(cs.skip(j + 1)[k2] == cs[k2 + j + 1]);
    }
    assert forall|k: int| 0 <= k < cs.skip(j + 1).len() implies (#[trigger] cs.skip(
        j + 1,
    )[k]).1.wf_at(path.push(cs.skip(j + 1)[k].0)) by {
        assert(cs.skip(j + 1)[k] == cs[k + j + 1]);
    }
    lemma_wf_entry_list_of(cs.skip(j + 1), path);
    assert forall|k: int| 0 <= k < own.len() implies !q.is_prefix_of((#[trigger] own[k]).0) by {
        assert(own[k].0 == path);
    }
    lemma_matches_below_none(own, q);
    assert forall|k: int| 0 <= k < blocka.len() implies !q.is_prefix_of(
        (#[trigger] blocka[k]).0,
    ) by {
        let e = blocka[k];
        if q.is_prefix_of(e.0) {
            assert(e.0[path.len() as int] == q[path.len() as int]) by {
                assert(q =~= e.0.subrange(0, q.len() as int));
            }
            let i0 = choose|i0: int|
                0 <= i0 < cs.take(j).len() && e.0[path.len() as int] == (#[trigger] cs.take(
                    j,
                )[i0]).0;
            assert(cs.take(j)[i0] == cs[i0]);
            assert((cs[i0].0 as u32) < (cs[j].0 as u32));
        }
    }
    lemma_matches_below_none(blocka, q);
    assert forall|k: int| 0 <= k < blockb.len() implies !q.is_prefix_of(
        (#[trigger] blockb[k]).0,
    ) by {
        let e = blockb[k];
        if q.is_prefix_of(e.0) {
            assert(e.0[path.len() as int] == q[path.len() as int]) by {
                assert(q =~= e.0.subrange(0, q.len() as int));
            }
            let i0 = choose|i0: int|
                0 <= i0 < cs.skip(j + 1).len() && e.0[path.len() as int] == (#[trigger] cs.skip(
                    j + 1,
                )[i0]).0;
            assert(cs.skip(j + 1)[i0] == cs[i0 + j + 1]);
            assert((cs[j].0 as u32) < (cs[i0 + j + 1].0 as u32));
        }
    }
    lemma_matches_below_none(blockb, q);
    assert(node.entry_list() == own + ((blocka + middle) + blockb));
    lemma_matches_below_add(own, (blocka + middle) + blockb, q);
    lemma_matches_below_add(blocka + middle, blockb, q);
    lemma_matches_below_add(blocka, middle, q);
    assert(matches_below(node.entry_list(), q) =~= matches_below(middle, q));
}

/// In a well-formed subtree, every collected word extends the path, the
/// children's words strictly so, and the traversal order is strictly
/// ascending lexicographic order of the words.
pub proof fn lemma_wf_entry_list(d: Dictionary, path: Seq<char>)
    requires
        d.wf_at(path),
    ensures
        all_below(d.entry_list(), path),
        all_strictly_below(entry_list_of(d.entries@), path),
        lex_sorted(d.entry_list()),
    decreases d,
{
    let own = d.own_entry();
    let kids = entry_list_of(d.entries@);
    let whole = d.entry_list();
    lemma_wf_entry_list_of(d.entries@, path);
    assert forall|k: int| 0 <= k < whole.len() implies path.is_prefix_of((#[trigger] whole[k]).0) by {
        if k < own.len() {
            assert(whole[k] == own[k]);
            assert(own[k].0 == path);
            assert(path =~= path.subrange(0, path.len() as int));
        } else {
            assert(whole[k] == kids[k - own.len()]);
        }
    }
    assert forall|k1: int, k2: int| 0 <= k1 < k2 < whole.len() implies lex_lt(
        (#[trigger] whole[k1]).0,
        (#[trigger] whole[k2]).0,
    ) by {
        assert(whole[k2] == kids[k2 - own.len()]);
        if k1 < own.len() {
            assert(whole[k1] == own[k1]);
            assert(own[k1].0 == path);
            lemma_strict_prefix_lt(path, kids[k2 - own.len()].0);
        } else {
            assert(whole[k1] == kids[k1 - own.len()]);
        }
    }
}

/// The run-wide form of `lemma_wf_entry_list`, walking the siblings.
pub proof fn lemma_wf_entry_list_of(cs: Seq<(char, Dictionary)>, path: Seq<char>)
    requires
        keys_sorted(cs),
        kids_wf(cs, path),
    ensures
        all_strictly_below(entry_list_of(cs), path),
        lex_sorted(entry_list_of(cs)),
        keys_cover(entry_list_of(cs), cs, path),
    decreases cs,
{
    if cs.len() > 0 {
        let c0 = cs[0].0;
        let block = cs[0].1.entry_list();
        let rest = entry_list_of(cs.drop_first());
        let whole = entry_list_of(cs);
        assert(whole == block + rest);
        assert(cs[0].1.wf_at(path.push(c0)));
        lemma_wf_entry_list(cs[0].1, path.push(c0));
        assert forall|k: int| 0 <= k < block.len() implies path.is_prefix_of(
            (#[trigger] block[k]).0,
        ) && path.len() < block[k].0.len() && block[k].0[path.len() as int] == c0 by {
            assert(path.push(c0).is_prefix_of(block[k].0));
            lemma_push_prefix_parts(path, c0, block[k].0);
        }
        assert forall|i: int, j: int| 0 <= i < j < cs.drop_first().len() implies ((
        #[trigger] cs.drop_first()[i]).0 as u32) < ((#[trigger] cs.drop_first()[j]).0 as u32) by {
            assert(cs.drop_first()[i] == cs[i + 1]);
            assert(cs.drop_first()[j] == cs[j + 1]);
        }
        assert forall|i: int| 0 <= i < cs.drop_first().len() implies (#[trigger] cs.drop_first()[i]).1.wf_at(
            path.push(cs.drop_first()[i].0),
        ) by {
            assert(cs.drop_first()[i] == cs[i + 1]);
        }
        lemma_wf_entry_list_of(cs.drop_first(), path);
        assert forall|k: int| 0 <= k < whole.len() implies path.is_prefix_of(
            (#[trigger] whole[k]).0,
        ) && path.len() < whole[k].0.len() by {
            if k < block.len() {
                assert(whole[k] == block[k]);
            } else {
                assert(whole[k] == rest[k - block.len()]);
            }
        }
        assert forall|k: int| 0 <= k < whole.len() implies exists|i: int|
            0 <= i < cs.len() && (#[trigger] whole[k]).0[path.len() as int] == cs[i].0 by {
            if k < block.len() {
                assert(whole[k] == block[k]);
                assert(whole[k].0[path.len() as int] == cs[0].0);
            } else {
                assert(whole[k] == rest[k - block.len()]);
                let kk = k - block.len();
                let i0 = choose|i: int|
                    0 <= i < cs.drop_first().len() && (#[trigger] rest[kk]).0[path.len() as int]
                        == cs.drop_first()[i].0;
                assert(cs.drop_first()[i0] == cs[i0 + 1]);
                assert(whole[k].0[path.len() as int] == cs[i0 + 1].0);
            }
        }
        assert forall|k1: int, k2: int| 0 <= k1 < k2 < whole.len() implies lex_lt(
            (#[trigger] whole[k1]).0,
            (#[trigger] whole[k2]).0,
        ) by {
            if k2 < block.len() {
                assert(whole[k1] == block[k1]);
                assert(whole[k2] == block[k2]);
            } else if k1 >= block.len() {
                assert(whole[k1] == rest[k1 - block.len()]);
                assert(whole[k2] == rest[k2 - block.len()]);
            } else {
                assert(whole[k1] == block[k1]);
                assert(whole[k2] == rest[k2 - block.len()]);
                let w1 = block[k1].0;
                let w2 = rest[k2 - block.len()].0;
                let kk = k2 - block.len();
                let i0 = choose|i: int|
                    0 <= i < cs.drop_first().len() && (#[trigger] rest[kk]).0[path.len() as int]
                        == cs.drop_first()[i].0;
                assert(cs.drop_first()[i0] == cs[i0 + 1]);
                assert((cs[0].0 as u32) < (cs[i0 + 1].0 as u32));
                lemma_diverge_lt(path, w1, w2);
            }
        }
    }
}

} // verus!
