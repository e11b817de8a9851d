//! Span sequences that tile a range, and the words they cut out of a text.
use vstd::prelude::*;

verus! {

/// `sp` covers `[lo, hi)` with non-empty spans, in order, without gaps or
/// overlaps.
pub open spec fn chain(sp: Seq<(int, int)>, lo: int, hi: int) -> bool {
    &&& (sp.len() == 0 ==> lo == hi)
    &&& (sp.len() > 0 ==> sp[0].0 == lo && sp.last().1 == hi)
    &&& forall|k: int| 0 <= k < sp.len() ==> (#[trigger] sp[k]).0 < sp[k].1
    &&& forall|k: int| 0 < k < sp.len() ==> sp[k - 1].1 == (#[trigger] sp[k]).0
}

/// Every span of `sp` is a non-empty part of `[lo, hi)`.
pub open spec fn within(sp: Seq<(int, int)>, lo: int, hi: int) -> bool {
    forall|k: int| 0 <= k < sp.len() ==> lo <= (#[trigger] sp[k]).0 < sp[k].1 <= hi
}

/// The words that the spans `sp` cut out of `s`.
pub open spec fn words(s: Seq<char>, sp: Seq<(int, int)>) -> Seq<Seq<char>> {
    sp.map_values(|p: (int, int)| s.subrange(p.0, p.1))
}

pub proof fn lemma_chain_concat(a: Seq<(int, int)>, b: Seq<(int, int)>, lo: int, mid: int, hi: int)
    requires
        chain(a, lo, mid),
        chain(b, mid, hi),
    ensures
        chain(a + b, lo, hi),
{
    let c = a + b;
    assert forall|k: int| 0 < k < c.len() implies c[k - 1].1 == (#[trigger] c[k]).0 by {
        if k == a.len() {
        } else if k < a.len() {
        } else {
            assert(c[k] == b[k - a.len()]);
        }
    }
    assert forall|k: int| 0 <= k < c.len() implies (#[trigger] c[k]).0 < c[k].1 by {
        if k >= a.len() {
            assert(c[k] == b[k - a.len()]);
        }
    }
}

pub proof fn lemma_chain_within(sp: Seq<(int, int)>, lo: int, hi: int)
    requires
        chain(sp, lo, hi),
    ensures
        within(sp, lo, hi),
        lo <= hi,
    decreases sp.len(),
{
    if sp.len() > 0 {
        let rest = sp.drop_first();
        assert(chain(rest, sp[0].1, hi)) by {
            assert forall|k: int| 0 < k < rest.len() implies rest[k - 1].1 == (#[trigger] rest[k]).0 by {
                assert(rest[k] == sp[k + 1]);
            }
            assert forall|k: int| 0 <= k < rest.len() implies (#[trigger] rest[k]).0 < rest[k].1 by {
                assert(rest[k] == sp[k + 1]);
            }
        }
        lemma_chain_within(rest, sp[0].1, hi);
        assert forall|k: int| 0 <= k < sp.len() implies lo <= (#[trigger] sp[k]).0 < sp[k].1 <= hi by {
            if k > 0 {
                assert(sp[k] == rest[k - 1]);
            }
        }
    }
}

/// The words of a tiling, joined, give back the tiled part of the text.
pub proof fn lemma_chain_flatten(s: Seq<char>, sp: Seq<(int, int)>, lo: int, hi: int)
    requires
        chain(sp, lo, hi),
        0 <= lo,
        hi <= s.len(),
    ensures
        words(s, sp).flatten() == s.subrange(lo, hi),
    decreases sp.len(),
{
    lemma_chain_within(sp, lo, hi);
    if sp.len() == 0 {
        assert(s.subrange(lo, hi) =~= Seq::<char>::empty());
    } else {
        let rest = sp.drop_first();
        assert(chain(rest, sp[0].1, hi)) by {
            assert forall|k: int| 0 < k < rest.len() implies rest[k - 1].1 == (#[trigger] rest[k]).0 by {
                assert(rest[k] == sp[k + 1]);
            }
            assert forall|k: int| 0 <= k < rest.len() implies (#[trigger] rest[k]).0 < rest[k].1 by {
                assert(rest[k] == sp[k + 1]);
            }
        }
        lemma_chain_flatten(s, rest, sp[0].1, hi);
        assert(words(s, sp).drop_first() =~= words(s, rest));
        assert(s.subrange(lo, hi) =~= s.subrange(lo, sp[0].1) + s.subrange(sp[0].1, hi));
    }
}

pub proof fn lemma_chain_one(i: int, j: int)
    requires
        i < j,
    ensures
        chain(seq![(i, j)], i, j),
{
}

pub proof fn lemma_within_concat(a: Seq<(int, int)>, b: Seq<(int, int)>, lo: int, hi: int)
    requires
        within(a, lo, hi),
        within(b, lo, hi),
    ensures
        within(a + b, lo, hi),
{
    assert forall|k: int| 0 <= k < (a + b).len() implies lo <= (#[trigger] (a + b)[k]).0 < (a
        + b)[k].1 <= hi by {
        if k >= a.len() {
            assert((a + b)[k] == b[k - a.len()]);
        }
    }
}

pub proof fn lemma_within_widen(a: Seq<(int, int)>, lo: int, hi: int, lo2: int, hi2: int)
    requires
        within(a, lo, hi),
        lo2 <= lo,
        hi <= hi2,
    ensures
        within(a, lo2, hi2),
{
}

pub proof fn lemma_chain_mono(sp: Seq<(int, int)>, lo: int, hi: int, k: int, q: int)
    requires
        chain(sp, lo, hi),
        0 <= k <= q < sp.len(),
    ensures
        sp[k].0 <= sp[q].0,
        sp[k].1 <= sp[q].1,
        k < q ==> sp[k].1 <= sp[q].0,
    decreases q - k,
{
    if k < q {
        lemma_chain_mono(sp, lo, hi, k, q - 1);
        assert(sp[q - 1].1 == sp[q].0);
    }
}

} // verus!
