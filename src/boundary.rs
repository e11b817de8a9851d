//! A best route that passes a position splits there: the part before it is
//! the best route to that position, the part after it the best route from it.
use vstd::prelude::*;
use crate::dict::Dictionary;
use crate::route::{best, scan, choice, route_spans, is_edge, edge_weight, lemma_scan};

verus! {

/// The best route to `hi` from `i` reaches `n`.
pub open spec fn passes(d: Dictionary, s: Seq<char>, hi: int, lim: int, i: int, n: int) -> bool
    decreases n - i,
{
    if i >= n {
        i == n
    } else {
        let c = choice(d, s, hi, lim, i);
        c > i && c <= n && passes(d, s, hi, lim, c, n)
    }
}

/// `scan` keeps the highest value among the edges it has seen, and the
/// earliest edge with that value.
pub proof fn lemma_scan_max(d: Dictionary, s: Seq<char>, hi: int, lim: int, i: int, j: int, k: int)
    requires
        d.wf(),
        0 <= i < hi <= s.len(),
        i < j <= hi,
        i < k <= j,
        is_edge(d, s, lim, i, k),
    ensures
        edge_weight(d, s, i, k) + best(d, s, hi, lim, k) <= scan(d, s, hi, lim, i, j).0,
        edge_weight(d, s, i, k) + best(d, s, hi, lim, k) == scan(d, s, hi, lim, i, j).0 ==> scan(
            d,
            s,
            hi,
            lim,
            i,
            j,
        ).1 <= k,
    decreases j,
{
    if j > i + 1 {
        lemma_scan(d, s, hi, lim, i, j - 1);
        if k < j {
            lemma_scan_max(d, s, hi, lim, i, j - 1, k);
        }
    }
}

/// From `j` up to `n`, the best route to `hi` is worth at least the best
/// route to `n` followed by the best route from `n`.
pub proof fn lemma_best_split_lower(d: Dictionary, s: Seq<char>, hi: int, lim: int, n: int, j: int)
    requires
        d.wf(),
        0 <= j <= n <= hi <= s.len(),
    ensures
        best(d, s, hi, lim, j) >= best(d, s, n, lim, j) + best(d, s, hi, lim, n),
    decreases n - j,
{
    if j < n {
        lemma_scan(d, s, n, lim, j, n);
        let c = scan(d, s, n, lim, j, n).1;
        lemma_best_split_lower(d, s, hi, lim, n, c);
        lemma_scan_max(d, s, hi, lim, j, hi, c);
    }
}

pub proof fn lemma_best_split(d: Dictionary, s: Seq<char>, hi: int, lim: int, n: int, i: int)
    requires
        d.wf(),
        0 <= i <= n <= hi <= s.len(),
        passes(d, s, hi, lim, i, n),
    ensures
        best(d, s, hi, lim, i) == best(d, s, n, lim, i) + best(d, s, hi, lim, n),
    decreases n - i,
{
    if i < n {
        lemma_scan(d, s, hi, lim, i, hi);
        let c = choice(d, s, hi, lim, i);
        lemma_best_split(d, s, hi, lim, n, c);
        lemma_scan_max(d, s, n, lim, i, n, c);
        lemma_best_split_lower(d, s, hi, lim, n, i);
    }
}

/// A best route that passes `n` is the best route to `n` followed by the
/// best route from `n`.
pub proof fn lemma_route_split(d: Dictionary, s: Seq<char>, hi: int, lim: int, n: int, i: int)
    requires
        d.wf(),
        0 <= i <= n <= hi <= s.len(),
        passes(d, s, hi, lim, i, n),
    ensures
        route_spans(d, s, hi, lim, i) == route_spans(d, s, n, lim, i) + route_spans(d, s, hi, lim, n),
    decreases n - i,
{
    if i == n {
        assert(route_spans(d, s, n, lim, n) =~= Seq::<(int, int)>::empty());
        assert(Seq::<(int, int)>::empty() + route_spans(d, s, hi, lim, n) =~= route_spans(d, s, hi, lim, n));
    } else {
        lemma_scan(d, s, hi, lim, i, hi);
        lemma_scan(d, s, n, lim, i, n);
        let c = choice(d, s, hi, lim, i);
        let c2 = choice(d, s, n, lim, i);
        lemma_best_split(d, s, hi, lim, n, i);
        lemma_best_split(d, s, hi, lim, n, c);
        lemma_scan_max(d, s, n, lim, i, n, c);
        lemma_best_split_lower(d, s, hi, lim, n, c2);
        lemma_scan_max(d, s, hi, lim, i, hi, c2);
        assert(c == c2);
        lemma_route_split(d, s, hi, lim, n, c);
        assert(route_spans(d, s, hi, lim, i) == seq![(i, c)] + route_spans(d, s, hi, lim, c));
        assert(route_spans(d, s, n, lim, i) == seq![(i, c)] + route_spans(d, s, n, lim, c));
        assert(seq![(i, c)] + (route_spans(d, s, n, lim, c) + route_spans(d, s, hi, lim, n)) =~= seq![(i, c)]
            + route_spans(d, s, n, lim, c) + route_spans(d, s, hi, lim, n));
    }
}

/// A position where a span of the best route ends is passed by the route.
pub proof fn lemma_end_passes(d: Dictionary, s: Seq<char>, hi: int, lim: int, i: int, k: int)
    requires
        d.wf(),
        0 <= i <= hi <= s.len(),
        0 <= k < route_spans(d, s, hi, lim, i).len(),
    ensures
        passes(d, s, hi, lim, i, route_spans(d, s, hi, lim, i)[k].1),
        i < route_spans(d, s, hi, lim, i)[k].1 <= hi,
    decreases hi - i,
{
    lemma_scan(d, s, hi, lim, i, hi);
    let c = choice(d, s, hi, lim, i);
    let rest = route_spans(d, s, hi, lim, c);
    assert(route_spans(d, s, hi, lim, i) == seq![(i, c)] + rest);
    if k > 0 {
        assert(route_spans(d, s, hi, lim, i)[k] == rest[k - 1]);
        lemma_end_passes(d, s, hi, lim, c, k - 1);
        assert(passes(d, s, hi, lim, c, rest[k - 1].1));
    } else {
        assert(passes(d, s, hi, lim, c, c));
    }
}

} // verus!
