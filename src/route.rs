//! Maximum-probability segmentation over the word graph of a text range.
//!
//! Position `i` of a range `[lo, hi)` has an edge to every `j` such that
//! `s[i..j]` is a dictionary word no longer than the length limit; the single
//! code point `s[i..i+1]` is always an edge. The best score from `i` is the
//! largest sum of edge weights along a path to `hi`; among equally good first
//! edges the shortest one wins.
use vstd::prelude::*;
use crate::dict::{Dictionary, WEIGHT_FLOOR};
use crate::tiling::{chain, lemma_chain_concat, lemma_chain_one};
verus! {

/// Spans as pairs of mathematical integers.
pub open spec fn pairs(v: Seq<(usize, usize)>) -> Seq<(int, int)> {
    v.map_values(|p: (usize, usize)| (p.0 as int, p.1 as int))
}

pub open spec fn is_edge(d: Dictionary, s: Seq<char>, lim: int, i: int, j: int) -> bool {
    i < j && (j == i + 1 || (j - i <= lim && d.contains(s.subrange(i, j))))
}

pub open spec fn edge_weight(d: Dictionary, s: Seq<char>, i: int, j: int) -> int {
    d.weight_of(s.subrange(i, j))
}

/// Score of the best path from `i` to `hi`.
pub open spec fn best(d: Dictionary, s: Seq<char>, hi: int, lim: int, i: int) -> int
    decreases hi - i, 1int, 0int,
{
    if i >= hi {
        0
    } else {
        scan(d, s, hi, lim, i, hi).0
    }
}

/// Best (score, end) among the first edges from `i` that end at or before `j`;
/// a later end replaces an earlier one only with a strictly higher score.
pub open spec fn scan(d: Dictionary, s: Seq<char>, hi: int, lim: int, i: int, j: int) -> (int, int)
    decreases hi - i, 0int, j - i,
{
    if i >= hi {
        (0, i)
    } else if j <= i + 1 {
        (edge_weight(d, s, i, i + 1) + best(d, s, hi, lim, i + 1), i + 1)
    } else {
        let prev = scan(d, s, hi, lim, i, j - 1);
        if j <= hi && is_edge(d, s, lim, i, j) && edge_weight(d, s, i, j) + best(
            d,
            s,
            hi,
            lim,
            j,
        ) > prev.0 {
            (edge_weight(d, s, i, j) + best(d, s, hi, lim, j), j)
        } else {
            prev
        }
    }
}

/// The end of the word that the best path from `i` takes first.
pub open spec fn choice(d: Dictionary, s: Seq<char>, hi: int, lim: int, i: int) -> int {
    scan(d, s, hi, lim, i, hi).1
}

/// The spans of the best path from `i` to `hi`.
pub open spec fn route_spans(d: Dictionary, s: Seq<char>, hi: int, lim: int, i: int) -> Seq<(int, int)>
    decreases hi - i,
{
    if i >= hi {
        Seq::empty()
    } else {
        let c = choice(d, s, hi, lim, i);
        if c <= i || c > hi {
            Seq::empty()
        } else {
            seq![(i, c)] + route_spans(d, s, hi, lim, c)
        }
    }
}

pub proof fn lemma_best(d: Dictionary, s: Seq<char>, hi: int, lim: int, i: int)
    requires
        d.wf(),
        0 <= i <= hi <= s.len(),
    ensures
        WEIGHT_FLOOR * (hi - i) <= best(d, s, hi, lim, i) <= 0,
    decreases hi - i, 1int, 0int,
{
    if i < hi {
        lemma_scan(d, s, hi, lim, i, hi);
    }
}

pub proof fn lemma_scan(d: Dictionary, s: Seq<char>, hi: int, lim: int, i: int, j: int)
    requires
        d.wf(),
        0 <= i < hi <= s.len(),
        i < j <= hi,
    ensures
        ({
            let r = scan(d, s, hi, lim, i, j);
            &&& i < r.1 <= j
            &&& is_edge(d, s, lim, i, r.1)
            &&& r.0 == edge_weight(d, s, i, r.1) + best(d, s, hi, lim, r.1)
            &&& WEIGHT_FLOOR * (hi - i) <= r.0 <= 0
        }),
    decreases hi - i, 0int, j - i,
{
    d.lemma_lookup(s.subrange(i, i + 1));
    lemma_best(d, s, hi, lim, i + 1);
    if j > i + 1 {
        lemma_scan(d, s, hi, lim, i, j - 1);
        d.lemma_lookup(s.subrange(i, j));
        lemma_best(d, s, hi, lim, j);
    }
}

/// Past the longest possible word no edge starts at `i`.
pub proof fn lemma_scan_reach(d: Dictionary, s: Seq<char>, hi: int, lim: int, i: int, top: int, j: int)
    requires
        d.wf(),
        0 <= i < hi <= s.len(),
        i < top <= j <= hi,
        top - i >= lim || top - i >= d.max_len,
    ensures
        scan(d, s, hi, lim, i, j) == scan(d, s, hi, lim, i, top),
    decreases j - top,
{
    if j > top {
        lemma_scan_reach(d, s, hi, lim, i, top, j - 1);
        d.lemma_lookup(s.subrange(i, j));
    }
}

/// Weight of the edge `s[i..j]`.
pub fn find_weight(d: &Dictionary, s: &Vec<char>, i: usize, j: usize) -> (r: (bool, i64))
    requires
        d.wf(),
        i <= j <= s@.len(),
    ensures
        r.0 == d.contains(s@.subrange(i as int, j as int)),
        r.1 == edge_weight(*d, s@, i as int, j as int),
{
    proof {
        d.lemma_lookup(s@.subrange(i as int, j as int));
    }
    match d.find(s, i, j) {
        Some(k) => (true, d.entries[k].weight),
        None => (false, d.min_weight),
    }
}

/// The best path's spans over `s[lo..hi]`, taking words of at most `lim` code
/// points besides single code points.
pub fn route(d: &Dictionary, s: &Vec<char>, lo: usize, hi: usize, lim: usize) -> (r: Vec<(usize, usize)>)
    requires
        d.wf(),
        lo <= hi <= s@.len(),
    ensures
        pairs(r@) == route_spans(*d, s@, hi as int, lim as int, lo as int),
{
    let ghost g = s@;
    let n = hi - lo;
    let mut scores: Vec<i128> = Vec::new();
    let mut ends: Vec<usize> = Vec::new();
    scores.push(0);
    ends.push(hi);
    let mut k: usize = 0;
    while k < n
        invariant
            scores@.len() == k + 1,
            ends@.len() == k + 1,
            k <= n,
            n == hi - lo,
            forall|q: int| 0 <= q <= k ==> #[trigger] scores@[q] == 0,
        decreases n - k,
    {
        scores.push(0);
        ends.push(hi);
        k = k + 1;
    }
    let reach: usize = if lim < d.max_len { lim } else { d.max_len };
    let mut i: usize = hi;
    while i > lo
        invariant
            d.wf(),
            g == s@,
            lo <= i <= hi <= s@.len(),
            n == hi - lo,
            scores@.len() == n + 1,
            ends@.len() == n + 1,
            reach == lim || reach == d.max_len,
            reach <= lim,
            reach <= d.max_len,
            forall|p: int|
                i <= p <= hi ==> #[trigger] scores@[p - lo] == best(*d, g, hi as int, lim as int, p),
            forall|p: int|
                i <= p < hi ==> #[trigger] ends@[p - lo] == choice(*d, g, hi as int, lim as int, p),
        decreases i - lo,
    {
        i = i - 1;
        proof {
            lemma_best(*d, g, hi as int, lim as int, i + 1);
            lemma_scan(*d, g, hi as int, lim as int, i as int, i + 1);
        }
        let (_, w1) = find_weight(d, s, i, i + 1);
        let mut bs: i128 = w1 as i128 + scores[i + 1 - lo];
        let mut be: usize = i + 1;
        let top: usize = if hi - i <= reach { hi } else if reach < 1 { i + 1 } else { i + reach };
        let mut j: usize = i + 1;
        while j < top
            invariant
                d.wf(),
                g == s@,
                lo <= i < j <= top <= hi <= s@.len(),
                n == hi - lo,
                scores@.len() == n + 1,
                forall|p: int|
                    i < p <= hi ==> #[trigger] scores@[p - lo] == best(*d, g, hi as int, lim as int, p),
                (bs as int, be as int) == scan(*d, g, hi as int, lim as int, i as int, j as int),
            decreases top - j,
        {
            j = j + 1;
            proof {
                lemma_scan(*d, g, hi as int, lim as int, i as int, j as int);
                lemma_scan(*d, g, hi as int, lim as int, i as int, (j - 1) as int);
                lemma_best(*d, g, hi as int, lim as int, j as int);
                d.lemma_lookup(g.subrange(i as int, j as int));
            }
            if j - i <= lim {
                let (found, w) = find_weight(d, s, i, j);
                if found {
                    let v: i128 = w as i128 + scores[j - lo];
                    if v > bs {
                        bs = v;
                        be = j;
                    }
                }
            }
        }
        proof {
            if top < hi {
                lemma_scan_reach(*d, g, hi as int, lim as int, i as int, top as int, hi as int);
            }
            lemma_scan(*d, g, hi as int, lim as int, i as int, hi as int);
        }
        scores.set(i - lo, bs);
        ends.set(i - lo, be);
    }
    let mut out: Vec<(usize, usize)> = Vec::new();
    let mut p: usize = lo;
    while p < hi
        invariant
            d.wf(),
            g == s@,
            lo <= p <= hi <= s@.len(),
            n == hi - lo,
            ends@.len() == n + 1,
            forall|q: int|
                lo <= q < hi ==> #[trigger] ends@[q - lo] == choice(*d, g, hi as int, lim as int, q),
            route_spans(*d, g, hi as int, lim as int, lo as int) == pairs(out@) + route_spans(
                *d,
                g,
                hi as int,
                lim as int,
                p as int,
            ),
        decreases hi - p,
    {
        let c = ends[p - lo];
        proof {
            lemma_scan(*d, g, hi as int, lim as int, p as int, hi as int);
        }
        let ghost before = out@;
        out.push((p, c));
        assert(pairs(out@) =~= pairs(before) + seq![(p as int, c as int)]);
        assert(route_spans(*d, g, hi as int, lim as int, p as int) == seq![(p as int, c as int)]
            + route_spans(*d, g, hi as int, lim as int, c as int));
        p = c;
    }
    assert(route_spans(*d, g, hi as int, lim as int, hi as int) =~= Seq::<(int, int)>::empty());
    assert(pairs(out@) + Seq::<(int, int)>::empty() =~= pairs(out@));
    out
}

/// The best path tiles `[i, hi)`.
pub proof fn lemma_route_chain(d: Dictionary, s: Seq<char>, hi: int, lim: int, i: int)
    requires
        d.wf(),
        0 <= i <= hi <= s.len(),
    ensures
        chain(route_spans(d, s, hi, lim, i), i, hi),
    decreases hi - i,
{
    if i < hi {
        lemma_scan(d, s, hi, lim, i, hi);
        let c = choice(d, s, hi, lim, i);
        lemma_route_chain(d, s, hi, lim, c);
        lemma_chain_one(i, c);
        lemma_chain_concat(seq![(i, c)], route_spans(d, s, hi, lim, c), i, c, hi);
    }
}

} // verus!
