//! Full mode (every dictionary word of the range) and search mode (the short
//! dictionary words inside each long word, then the word).
use vstd::prelude::*;
use crate::dict::Dictionary;
use crate::route::{pairs, find_weight};
use crate::tiling::{within, lemma_within_concat};
verus! {

/// Whether a dictionary word of two or more code points starts at `i` and
/// ends at or before `j`.
pub open spec fn has_long(d: Dictionary, s: Seq<char>, i: int, j: int) -> bool
    decreases j - i,
{
    if j <= i + 1 {
        false
    } else {
        d.contains(s.subrange(i, j)) || has_long(d, s, i, j - 1)
    }
}

/// Full-mode spans from start `i` and end `j` on, where `me` is the furthest
/// end of a word seen so far. Every word of two or more code points is
/// given; a single code point only where no longer word starts there and no
/// earlier word covers it.
pub open spec fn full_spans(d: Dictionary, s: Seq<char>, hi: int, i: int, j: int, me: int) -> Seq<
    (int, int),
>
    decreases hi - i, hi + 1 - j,
{
    if i >= hi {
        Seq::empty()
    } else if j > hi || j <= i {
        full_spans(d, s, hi, i + 1, i + 2, me)
    } else if j == i + 1 || d.contains(s.subrange(i, j)) {
        let me2 = if j > me {
            j
        } else {
            me
        };
        if j - i >= 2 || (!has_long(d, s, i, hi) && me <= i) {
            seq![(i, j)] + full_spans(d, s, hi, i, j + 1, me2)
        } else {
            full_spans(d, s, hi, i, j + 1, me2)
        }
    } else {
        full_spans(d, s, hi, i, j + 1, me)
    }
}

pub proof fn lemma_full_reach(d: Dictionary, s: Seq<char>, hi: int, i: int, j: int, me: int)
    requires
        d.wf(),
        0 <= i < hi <= s.len(),
        i + 2 <= j,
        j - i > d.max_len,
    ensures
        full_spans(d, s, hi, i, j, me) == full_spans(d, s, hi, i + 1, i + 2, me),
    decreases hi + 1 - j,
{
    if j <= hi {
        d.lemma_lookup(s.subrange(i, j));
        lemma_full_reach(d, s, hi, i, j + 1, me);
    }
}

pub proof fn lemma_has_long_reach(d: Dictionary, s: Seq<char>, i: int, top: int, j: int)
    requires
        d.wf(),
        0 <= i < top <= j <= s.len(),
        top - i >= d.max_len,
    ensures
        has_long(d, s, i, j) == has_long(d, s, i, top),
    decreases j - top,
{
    if j > top {
        d.lemma_lookup(s.subrange(i, j));
        lemma_has_long_reach(d, s, i, top, j - 1);
    }
}

/// Full-mode spans of `s[lo..hi]`.
pub fn full_cut(d: &Dictionary, s: &Vec<char>, lo: usize, hi: usize) -> (r: Vec<(usize, usize)>)
    requires
        d.wf(),
        lo <= hi <= s@.len(),
    ensures
        pairs(r@) == full_spans(*d, s@, hi as int, lo as int, lo + 1, lo as int),
{
    let ghost g = s@;
    let mut out: Vec<(usize, usize)> = Vec::new();
    let mut me: usize = lo;
    let mut i: usize = lo;
    let reach: usize = if d.max_len < 1 { 1 } else { d.max_len };
    while i < hi
        invariant
            d.wf(),
            g == s@,
            lo <= i <= hi <= s@.len(),
            me <= hi,
            reach >= 1,
            reach >= d.max_len,
            full_spans(*d, g, hi as int, lo as int, lo + 1, lo as int) == pairs(out@) + full_spans(
                *d,
                g,
                hi as int,
                i as int,
                i + 1,
                me as int,
            ),
        decreases hi - i,
    {
        let top: usize = if hi - i <= reach { hi } else { i + reach };
        let mut long = false;
        let mut j: usize = i + 1;
        while j < top
            invariant
                d.wf(),
                g == s@,
                lo <= i < j <= top <= hi <= s@.len(),
                long == has_long(*d, g, i as int, j as int),
            decreases top - j,
        {
            j = j + 1;
            let (found, _) = find_weight(d, s, i, j);
            long = long || found;
        }
        proof {
            if top < hi {
                lemma_has_long_reach(*d, g, i as int, top as int, hi as int);
            }
        }
        let mut jj: usize = i;
        while jj < top
            invariant
                d.wf(),
                g == s@,
                lo <= i < hi <= s@.len(),
                i <= jj <= top,
                top <= hi,
                top == hi || top == i + reach,
                reach >= d.max_len,
                me <= hi,
                long == has_long(*d, g, i as int, hi as int),
                full_spans(*d, g, hi as int, lo as int, lo + 1, lo as int) == pairs(out@)
                    + full_spans(*d, g, hi as int, i as int, jj + 1, me as int),
            decreases top - jj,
        {
            let j = jj + 1;
            let ghost before = out@;
            let found = if j == i + 1 {
                true
            } else {
                let (f, _) = find_weight(d, s, i, j);
                f
            };
            if found {
                let emit = j - i >= 2 || (!long && me <= i);
                if emit {
                    out.push((i, j));
                    assert(pairs(out@) =~= pairs(before) + seq![(i as int, j as int)]);
                }
                if j > me {
                    me = j;
                }
            }
            jj = jj + 1;
        }
        let ghost j = jj + 1;
        proof {
            if top < hi {
                lemma_full_reach(*d, g, hi as int, i as int, j as int, me as int);
            }
        }
        i = i + 1;
    }
    assert(pairs(out@) + Seq::<(int, int)>::empty() =~= pairs(out@));
    out
}

/// The dictionary words of `g` code points that start at `k` or later and
/// end at or before `b`, in order.
pub open spec fn grams(d: Dictionary, s: Seq<char>, b: int, g: int, k: int) -> Seq<(int, int)>
    decreases b - k,
{
    if g < 1 || k + g > b {
        Seq::empty()
    } else if d.contains(s.subrange(k, k + g)) {
        seq![(k, k + g)] + grams(d, s, b, g, k + 1)
    } else {
        grams(d, s, b, g, k + 1)
    }
}

/// Search-mode spans for the word `s[a..b]`.
pub open spec fn search_of(d: Dictionary, s: Seq<char>, a: int, b: int) -> Seq<(int, int)> {
    (if b - a > 2 {
        grams(d, s, b, 2, a)
    } else {
        Seq::empty()
    }) + (if b - a > 3 {
        grams(d, s, b, 3, a)
    } else {
        Seq::empty()
    }) + seq![(a, b)]
}

pub open spec fn search_spans(d: Dictionary, s: Seq<char>, sp: Seq<(int, int)>) -> Seq<(int, int)>
    decreases sp.len(),
{
    if sp.len() == 0 {
        Seq::empty()
    } else {
        search_spans(d, s, sp.drop_last()) + search_of(d, s, sp.last().0, sp.last().1)
    }
}

fn push_grams(d: &Dictionary, s: &Vec<char>, a: usize, b: usize, g: usize, out: &mut Vec<(usize, usize)>)
    requires
        d.wf(),
        a <= b <= s@.len(),
        1 <= g <= 3,
    ensures
        pairs(final(out)@) == pairs(old(out)@) + grams(*d, s@, b as int, g as int, a as int),
{
    let mut k = a;
    assert(pairs(out@) =~= pairs(old(out)@));
    while g <= b - k
        invariant
            d.wf(),
            a <= k <= b <= s@.len(),
            1 <= g <= 3,
            pairs(old(out)@) + grams(*d, s@, b as int, g as int, a as int) == pairs(out@) + grams(
                *d,
                s@,
                b as int,
                g as int,
                k as int,
            ),
        decreases b - k,
    {
        let ghost before = out@;
        let (found, _) = find_weight(d, s, k, k + g);
        if found {
            out.push((k, k + g));
            assert(pairs(out@) =~= pairs(before) + seq![(k as int, (k + g) as int)]);
        }
        k = k + 1;
    }
    assert(pairs(out@) + Seq::<(int, int)>::empty() =~= pairs(out@));
}

/// Search-mode spans over the spans `sp`.
pub fn search_cut(d: &Dictionary, s: &Vec<char>, sp: &Vec<(usize, usize)>) -> (r: Vec<(usize, usize)>)
    requires
        d.wf(),
        forall|k: int| 0 <= k < sp@.len() ==> (#[trigger] sp@[k]).0 <= sp@[k].1 <= s@.len(),
    ensures
        pairs(r@) == search_spans(*d, s@, pairs(sp@)),
{
    let mut out: Vec<(usize, usize)> = Vec::new();
    let mut k: usize = 0;
    while k < sp.len()
        invariant
            d.wf(),
            k <= sp@.len(),
            forall|q: int| 0 <= q < sp@.len() ==> (#[trigger] sp@[q]).0 <= sp@[q].1 <= s@.len(),
            pairs(out@) == search_spans(*d, s@, pairs(sp@).subrange(0, k as int)),
        decreases sp@.len() - k,
    {
        let (a, b) = sp[k];
        let ghost before = out@;
        if b - a > 2 {
            push_grams(d, s, a, b, 2, &mut out);
        }
        let ghost mid = out@;
        if b - a > 3 {
            push_grams(d, s, a, b, 3, &mut out);
        }
        let ghost mid2 = out@;
        out.push((a, b));
        assert(pairs(out@) =~= pairs(mid2) + seq![(a as int, b as int)]);
        assert(pairs(sp@).subrange(0, k + 1).drop_last() =~= pairs(sp@).subrange(0, k as int));
        assert(pairs(out@) =~= pairs(before) + search_of(*d, s@, a as int, b as int));
        k = k + 1;
    }
    assert(pairs(sp@).subrange(0, sp@.len() as int) =~= pairs(sp@));
    out
}

pub proof fn lemma_full_within(d: Dictionary, s: Seq<char>, hi: int, i: int, j: int, me: int)
    ensures
        within(full_spans(d, s, hi, i, j, me), i, hi),
    decreases hi - i, hi + 1 - j,
{
    if i < hi {
        if j > hi || j <= i {
            lemma_full_within(d, s, hi, i + 1, i + 2, me);
        } else if j == i + 1 || d.contains(s.subrange(i, j)) {
            let me2 = if j > me {
                j
            } else {
                me
            };
            lemma_full_within(d, s, hi, i, j + 1, me2);
            lemma_within_concat(seq![(i, j)], full_spans(d, s, hi, i, j + 1, me2), i, hi);
        } else {
            lemma_full_within(d, s, hi, i, j + 1, me);
        }
    }
}

pub proof fn lemma_grams_within(d: Dictionary, s: Seq<char>, b: int, g: int, k: int)
    ensures
        within(grams(d, s, b, g, k), k, b),
    decreases b - k,
{
    if g >= 1 && k + g <= b {
        lemma_grams_within(d, s, b, g, k + 1);
        lemma_within_concat(seq![(k, k + g)], grams(d, s, b, g, k + 1), k, b);
    }
}

pub proof fn lemma_search_within(d: Dictionary, s: Seq<char>, sp: Seq<(int, int)>, lo: int, hi: int)
    requires
        within(sp, lo, hi),
    ensures
        within(search_spans(d, s, sp), lo, hi),
    decreases sp.len(),
{
    if sp.len() > 0 {
        let (a, b) = sp.last();
        assert(lo <= sp[sp.len() - 1].0 < sp[sp.len() - 1].1 <= hi);
        lemma_search_within(d, s, sp.drop_last(), lo, hi);
        lemma_grams_within(d, s, b, 2, a);
        lemma_grams_within(d, s, b, 3, a);
        let g2 = if b - a > 2 {
            grams(d, s, b, 2, a)
        } else {
            Seq::empty()
        };
        let g3 = if b - a > 3 {
            grams(d, s, b, 3, a)
        } else {
            Seq::empty()
        };
        lemma_within_concat(g2, g3, a, b);
        lemma_within_concat(g2 + g3, seq![(a, b)], a, b);
        lemma_within_concat(search_spans(d, s, sp.drop_last()), search_of(d, s, a, b), lo, hi);
    }
}

} // verus!
