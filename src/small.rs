//! The length-limited cut: each word of the accurate cut that is longer than
//! the limit is cut again, inside that word only, along its best route over
//! words of at most the limit; when that route holds no dictionary word of
//! two or more code points, the word is sliced into pieces of the limit.
use vstd::prelude::*;
use crate::dict::Dictionary;
use crate::route::{pairs, route, route_spans, lemma_route_chain};
use crate::tiling::{chain, lemma_chain_concat, lemma_chain_one};

verus! {

/// Consecutive slices of `g` code points over `[a, b)`, the last one shorter.
pub open spec fn slices(a: int, b: int, g: int) -> Seq<(int, int)>
    decreases b - a,
{
    if a >= b || g < 1 {
        Seq::empty()
    } else if b - a <= g {
        seq![(a, b)]
    } else {
        seq![(a, a + g)] + slices(a + g, b, g)
    }
}

/// Some span of `sp` covers two or more code points.
pub open spec fn has_word_piece(sp: Seq<(int, int)>) -> bool {
    exists|k: int| 0 <= k < sp.len() && (#[trigger] sp[k]).1 - sp[k].0 >= 2
}

/// Slice length for the limit `lim`: the limit, and at least one.
pub open spec fn chunk(lim: int) -> int {
    if lim < 1 {
        1
    } else {
        lim
    }
}

/// The pieces of the accurate word `s[a..b]` under the limit `lim`.
pub open spec fn split_long(d: Dictionary, s: Seq<char>, a: int, b: int, lim: int) -> Seq<(int, int)> {
    if b - a <= lim {
        seq![(a, b)]
    } else {
        let r = route_spans(d, s, b, lim, a);
        if has_word_piece(r) {
            r
        } else {
            slices(a, b, chunk(lim))
        }
    }
}

/// The length-limited spans over the accurate spans `sp`.
pub open spec fn small_spans(d: Dictionary, s: Seq<char>, sp: Seq<(int, int)>, lim: int) -> Seq<(int, int)>
    decreases sp.len(),
{
    if sp.len() == 0 {
        Seq::empty()
    } else {
        small_spans(d, s, sp.drop_last(), lim) + split_long(d, s, sp.last().0, sp.last().1, lim)
    }
}

pub proof fn lemma_slices_chain(a: int, b: int, g: int)
    requires
        a <= b,
        g >= 1,
    ensures
        chain(slices(a, b, g), a, b),
        forall|k: int| 0 <= k < slices(a, b, g).len() ==> (#[trigger] slices(a, b, g)[k]).1 - slices(a, b, g)[k].0 <= g,
    decreases b - a,
{
    if a < b {
        if b - a <= g {
            lemma_chain_one(a, b);
        } else {
            lemma_slices_chain(a + g, b, g);
            lemma_chain_one(a, a + g);
            lemma_chain_concat(seq![(a, a + g)], slices(a + g, b, g), a, a + g, b);
            let rest = slices(a + g, b, g);
            assert forall|k: int| 0 <= k < slices(a, b, g).len() implies (#[trigger] slices(a, b, g)[k]).1 - slices(
                a,
                b,
                g,
            )[k].0 <= g by {
                if k > 0 {
                    assert(slices(a, b, g)[k] == rest[k - 1]);
                }
            }
        }
    }
}

pub proof fn lemma_split_long_chain(d: Dictionary, s: Seq<char>, a: int, b: int, lim: int)
    requires
        d.wf(),
        0 <= a < b <= s.len(),
    ensures
        chain(split_long(d, s, a, b, lim), a, b),
{
    if b - a <= lim {
        lemma_chain_one(a, b);
    } else {
        lemma_route_chain(d, s, b, lim, a);
        lemma_slices_chain(a, b, chunk(lim));
    }
}

pub proof fn lemma_chain_drop_last(sp: Seq<(int, int)>, lo: int, hi: int)
    requires
        chain(sp, lo, hi),
        sp.len() > 0,
    ensures
        chain(sp.drop_last(), lo, sp.last().0),
{
    let p = sp.drop_last();
    assert forall|k: int| 0 < k < p.len() implies p[k - 1].1 == (#[trigger] p[k]).0 by {
        assert(p[k] == sp[k] && p[k - 1] == sp[k - 1]);
    }
    assert forall|k: int| 0 <= k < p.len() implies (#[trigger] p[k]).0 < p[k].1 by {
        assert(p[k] == sp[k]);
    }
    if p.len() > 0 {
        assert(sp[sp.len() - 2].1 == sp[sp.len() - 1].0);
    }
}

/// The length-limited spans tile what the accurate spans tile.
pub proof fn lemma_small_chain(d: Dictionary, s: Seq<char>, sp: Seq<(int, int)>, lo: int, hi: int, lim: int)
    requires
        d.wf(),
        chain(sp, lo, hi),
        0 <= lo,
        hi <= s.len(),
    ensures
        chain(small_spans(d, s, sp, lim), lo, hi),
    decreases sp.len(),
{
    if sp.len() > 0 {
        crate::tiling::lemma_chain_within(sp, lo, hi);
        lemma_chain_drop_last(sp, lo, hi);
        lemma_small_chain(d, s, sp.drop_last(), lo, sp.last().0, lim);
        assert(lo <= sp[sp.len() - 1].0 < sp[sp.len() - 1].1 <= hi);
        lemma_split_long_chain(d, s, sp.last().0, sp.last().1, lim);
        lemma_chain_concat(
            small_spans(d, s, sp.drop_last(), lim),
            split_long(d, s, sp.last().0, sp.last().1, lim),
            lo,
            sp.last().0,
            hi,
        );
    }
}

/// The pieces of the accurate word `s[a..b]` under the limit `lim`.
fn split_word(d: &Dictionary, s: &Vec<char>, a: usize, b: usize, lim: usize, out: &mut Vec<(usize, usize)>)
    requires
        d.wf(),
        a <= b <= s@.len(),
    ensures
        pairs(final(out)@) == pairs(old(out)@) + split_long(*d, s@, a as int, b as int, lim as int),
{
    let ghost before = out@;
    if b - a <= lim {
        out.push((a, b));
        assert(pairs(out@) =~= pairs(before) + seq![(a as int, b as int)]);
        return;
    }
    let r = route(d, s, a, b, lim);
    let ghost rv = pairs(r@);
    let mut found = false;
    let mut t: usize = 0;
    while t < r.len()
        invariant
            t <= r@.len(),
            rv == pairs(r@),
            found == exists|q: int| 0 <= q < t && (#[trigger] rv[q]).1 - rv[q].0 >= 2,
        decreases r@.len() - t,
    {
        let (x, y) = r[t];
        assert(rv[t as int] == (x as int, y as int));
        if y >= x && y - x >= 2 {
            found = true;
        }
        t = t + 1;
    }
    if found {
        crate::mixed::append_spans(out, &r);
        assert(pairs(out@) =~= pairs(before) + rv);
        return;
    }
    let g: usize = if lim < 1 { 1 } else { lim };
    let mut p = a;
    while b - p > g
        invariant
            a <= p <= b,
            g as int == chunk(lim as int),
            pairs(before) + slices(a as int, b as int, g as int) == pairs(out@) + slices(p as int, b as int, g as int),
        decreases b - p,
    {
        let ghost mid = out@;
        out.push((p, p + g));
        assert(pairs(out@) =~= pairs(mid) + seq![(p as int, (p + g) as int)]);
        p = p + g;
    }
    let ghost mid = out@;
    if p < b {
        out.push((p, b));
        assert(pairs(out@) =~= pairs(mid) + seq![(p as int, b as int)]);
    } else {
        assert(pairs(out@) + Seq::<(int, int)>::empty() =~= pairs(out@));
    }
}

/// The length-limited spans over the accurate spans `sp`.
pub fn small_cut(d: &Dictionary, s: &Vec<char>, sp: &Vec<(usize, usize)>, lim: usize) -> (r: Vec<(usize, usize)>)
    requires
        d.wf(),
        forall|k: int| 0 <= k < sp@.len() ==> (#[trigger] sp@[k]).0 <= sp@[k].1 <= s@.len(),
    ensures
        pairs(r@) == small_spans(*d, s@, pairs(sp@), lim as int),
{
    let mut out: Vec<(usize, usize)> = Vec::new();
    let mut k: usize = 0;
    while k < sp.len()
        invariant
            d.wf(),
            k <= sp@.len(),
            forall|q: int| 0 <= q < sp@.len() ==> (#[trigger] sp@[q]).0 <= sp@[q].1 <= s@.len(),
            pairs(out@) == small_spans(*d, s@, pairs(sp@).subrange(0, k as int), lim as int),
        decreases sp@.len() - k,
    {
        let (a, b) = sp[k];
        split_word(d, s, a, b, lim, &mut out);
        assert(pairs(sp@).subrange(0, k + 1).drop_last() =~= pairs(sp@).subrange(0, k as int));
        k = k + 1;
    }
    assert(pairs(sp@).subrange(0, sp@.len() as int) =~= pairs(sp@));
    out
}

} // verus!
