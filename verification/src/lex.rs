use vstd::prelude::*;

verus! {

/// Strict lexicographic order on character sequences, comparing code points
/// position by position; a proper prefix comes before every extension of it.
pub open spec fn lex_lt(a: Seq<char>, b: Seq<char>) -> bool
    decreases a.len(),
{
    if b.len() == 0 {
        false
    } else if a.len() == 0 {
        true
    } else if (a[0] as u32) < (b[0] as u32) {
        true
    } else if a[0] == b[0] {
        lex_lt(a.drop_first(), b.drop_first())
    } else {
        false
    }
}

pub proof fn lemma_lex_lt_irrefl(a: Seq<char>)
    ensures
        !lex_lt(a, a),
    decreases a.len(),
{
    if a.len() > 0 {
        lemma_lex_lt_irrefl(a.drop_first());
    }
}

pub proof fn lemma_lex_lt_asym(a: Seq<char>, b: Seq<char>)
    requires
        lex_lt(a, b),
    ensures
        !lex_lt(b, a),
        a != b,
    decreases a.len(),
{
    if a.len() > 0 && b.len() > 0 && a[0] == b[0] {
        lemma_lex_lt_asym(a.drop_first(), b.drop_first());
        if a == b {
            assert(a.drop_first() == b.drop_first());
        }
    }
}

/// A proper prefix is lexicographically smaller than any of its extensions.
pub proof fn lemma_strict_prefix_lt(a: Seq<char>, b: Seq<char>)
    requires
        a.is_prefix_of(b),
        a.len() < b.len(),
    ensures
        lex_lt(a, b),
    decreases a.len(),
{
    if a.len() > 0 {
        assert(a[0] == b[0]);
        assert(a.drop_first() =~= b.drop_first().subrange(0, a.len() - 1));
        lemma_strict_prefix_lt(a.drop_first(), b.drop_first());
    }
}

/// Extending a path by one character: every word below the extended path
/// lies below the path, is longer than it, and carries the character there.
pub proof fn lemma_push_prefix_parts(p: Seq<char>, c: char, w: Seq<char>)
    requires
        p.push(c).is_prefix_of(w),
    ensures
        p.is_prefix_of(w),
        w.len() > p.len(),
        w[p.len() as int] == c,
{
    assert(p.push(c)[p.len() as int] == c);
    assert(p =~= w.subrange(0, p.len() as int));
}

/// Two extensions of a common prefix compare by their first characters past it.
pub proof fn lemma_diverge_lt(p: Seq<char>, a: Seq<char>, b: Seq<char>)
    requires
        p.is_prefix_of(a),
        p.is_prefix_of(b),
        a.len() > p.len(),
        b.len() > p.len(),
        (a[p.len() as int] as u32) < (b[p.len() as int] as u32),
    ensures
        lex_lt(a, b),
    decreases p.len(),
{
    if p.len() == 0 {
        assert((a[0] as u32) < (b[0] as u32));
    } else {
        assert(a[0] == p[0]);
        assert(b[0] == p[0]);
        assert(p.drop_first() =~= a.drop_first().subrange(0, p.len() - 1));
        assert(p.drop_first() =~= b.drop_first().subrange(0, p.len() - 1));
        assert(a.drop_first()[p.len() - 1] == a[p.len() as int]);
        assert(b.drop_first()[p.len() - 1] == b[p.len() as int]);
        lemma_diverge_lt(p.drop_first(), a.drop_first(), b.drop_first());
    }
}

} // verus!
