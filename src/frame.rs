//! Cuts depend on the dictionary only through the words inside the text:
//! two dictionaries that agree on every piece of a text cut it alike.
use vstd::prelude::*;
use crate::dict::Dictionary;
use crate::route::{best, scan, route_spans, lemma_scan};
use crate::modes::{has_long, full_spans, grams, search_of, search_spans};
use crate::small::{split_long, small_spans};
use crate::mixed::mix_spans;
use crate::jieba::{Jieba, CutMode, NO_LIMIT, block_end, lemma_block_end};

verus! {

/// `d0` and `d1` hold the same words, with the same weights, among the
/// pieces of `s`, and give unknown code points the same weight.
pub open spec fn same_on(d0: Dictionary, d1: Dictionary, s: Seq<char>) -> bool {
    &&& d0.min_weight == d1.min_weight
    &&& forall|i: int, j: int|
        0 <= i <= j <= s.len() ==> d0.contains(#[trigger] s.subrange(i, j)) == d1.contains(s.subrange(i, j))
            && d0.weight_of(s.subrange(i, j)) == d1.weight_of(s.subrange(i, j))
}

pub proof fn lemma_best_frame(d0: Dictionary, d1: Dictionary, s: Seq<char>, hi: int, lim: int, i: int)
    requires
        same_on(d0, d1, s),
        0 <= i <= hi <= s.len(),
    ensures
        best(d0, s, hi, lim, i) == best(d1, s, hi, lim, i),
    decreases hi - i, 1int, 0int,
{
    if i < hi {
        lemma_scan_frame(d0, d1, s, hi, lim, i, hi);
    }
}

pub proof fn lemma_scan_frame(d0: Dictionary, d1: Dictionary, s: Seq<char>, hi: int, lim: int, i: int, j: int)
    requires
        same_on(d0, d1, s),
        0 <= i < hi <= s.len(),
        i < j <= hi,
    ensures
        scan(d0, s, hi, lim, i, j) == scan(d1, s, hi, lim, i, j),
    decreases hi - i, 0int, j - i,
{
    lemma_best_frame(d0, d1, s, hi, lim, i + 1);
    assert(s.subrange(i, i + 1) == s.subrange(i, i + 1));
    if j > i + 1 {
        lemma_scan_frame(d0, d1, s, hi, lim, i, j - 1);
        lemma_best_frame(d0, d1, s, hi, lim, j);
        assert(s.subrange(i, j) == s.subrange(i, j));
    }
}

pub proof fn lemma_route_frame(d0: Dictionary, d1: Dictionary, s: Seq<char>, hi: int, lim: int, i: int)
    requires
        d0.wf(),
        same_on(d0, d1, s),
        0 <= i <= hi <= s.len(),
    ensures
        route_spans(d0, s, hi, lim, i) == route_spans(d1, s, hi, lim, i),
    decreases hi - i,
{
    if i < hi {
        lemma_scan(d0, s, hi, lim, i, hi);
        lemma_scan_frame(d0, d1, s, hi, lim, i, hi);
        lemma_route_frame(d0, d1, s, hi, lim, scan(d0, s, hi, lim, i, hi).1);
    }
}

pub proof fn lemma_has_long_frame(d0: Dictionary, d1: Dictionary, s: Seq<char>, i: int, j: int)
    requires
        same_on(d0, d1, s),
        0 <= i,
        j <= s.len(),
    ensures
        has_long(d0, s, i, j) == has_long(d1, s, i, j),
    decreases j - i,
{
    if j > i + 1 {
        assert(s.subrange(i, j) == s.subrange(i, j));
        lemma_has_long_frame(d0, d1, s, i, j - 1);
    }
}

pub proof fn lemma_full_frame(d0: Dictionary, d1: Dictionary, s: Seq<char>, hi: int, i: int, j: int, me: int)
    requires
        same_on(d0, d1, s),
        0 <= i,
        hi <= s.len(),
    ensures
        full_spans(d0, s, hi, i, j, me) == full_spans(d1, s, hi, i, j, me),
    decreases hi - i, hi + 1 - j,
{
    if i < hi {
        if j > hi || j <= i {
            lemma_full_frame(d0, d1, s, hi, i + 1, i + 2, me);
        } else {
            assert(s.subrange(i, j) == s.subrange(i, j));
            lemma_has_long_frame(d0, d1, s, i, hi);
            let me2 = if j > me { j } else { me };
            lemma_full_frame(d0, d1, s, hi, i, j + 1, me2);
            lemma_full_frame(d0, d1, s, hi, i, j + 1, me);
        }
    }
}

pub proof fn lemma_grams_frame(d0: Dictionary, d1: Dictionary, s: Seq<char>, b: int, g: int, k: int)
    requires
        same_on(d0, d1, s),
        0 <= k,
        b <= s.len(),
    ensures
        grams(d0, s, b, g, k) == grams(d1, s, b, g, k),
    decreases b - k,
{
    if g >= 1 && k + g <= b {
        assert(s.subrange(k, k + g) == s.subrange(k, k + g));
        lemma_grams_frame(d0, d1, s, b, g, k + 1);
    }
}

pub open spec fn inside(sp: Seq<(int, int)>, n: int) -> bool {
    forall|k: int| 0 <= k < sp.len() ==> 0 <= (#[trigger] sp[k]).0 <= sp[k].1 <= n
}

pub proof fn lemma_search_frame(d0: Dictionary, d1: Dictionary, s: Seq<char>, sp: Seq<(int, int)>)
    requires
        same_on(d0, d1, s),
        inside(sp, s.len() as int),
    ensures
        search_spans(d0, s, sp) == search_spans(d1, s, sp),
    decreases sp.len(),
{
    if sp.len() > 0 {
        let (a, b) = sp.last();
        assert(0 <= sp[sp.len() - 1].0 <= sp[sp.len() - 1].1 <= s.len());
        assert forall|k: int| 0 <= k < sp.drop_last().len() implies 0 <= (#[trigger] sp.drop_last()[k]).0
            <= sp.drop_last()[k].1 <= s.len() by {
            assert(sp.drop_last()[k] == sp[k]);
        }
        lemma_search_frame(d0, d1, s, sp.drop_last());
        lemma_grams_frame(d0, d1, s, b, 2, a);
        lemma_grams_frame(d0, d1, s, b, 3, a);
    }
}

pub proof fn lemma_small_frame(d0: Dictionary, d1: Dictionary, s: Seq<char>, sp: Seq<(int, int)>, lim: int)
    requires
        d0.wf(),
        same_on(d0, d1, s),
        inside(sp, s.len() as int),
    ensures
        small_spans(d0, s, sp, lim) == small_spans(d1, s, sp, lim),
    decreases sp.len(),
{
    if sp.len() > 0 {
        let (a, b) = sp.last();
        assert(0 <= sp[sp.len() - 1].0 <= sp[sp.len() - 1].1 <= s.len());
        assert forall|k: int| 0 <= k < sp.drop_last().len() implies 0 <= (#[trigger] sp.drop_last()[k]).0
            <= sp.drop_last()[k].1 <= s.len() by {
            assert(sp.drop_last()[k] == sp[k]);
        }
        lemma_small_frame(d0, d1, s, sp.drop_last(), lim);
        lemma_route_frame(d0, d1, s, b, lim, a);
    }
}

pub proof fn lemma_block_frame(j0: Jieba, j1: Jieba, mode: CutMode, s: Seq<char>, lo: int, hi: int)
    requires
        j0.wf(),
        same_on(j0.dict, j1.dict, s),
        j0.model == j1.model,
        0 <= lo < hi <= s.len(),
    ensures
        j0.block_spans(mode, s, lo, hi) == j1.block_spans(mode, s, lo, hi),
{
    let lim = NO_LIMIT as int;
    lemma_route_frame(j0.dict, j1.dict, s, hi, lim, lo);
    let exact = route_spans(j0.dict, s, hi, lim, lo);
    j0.lemma_block(CutMode::Exact, s, lo, hi);
    j0.lemma_block(CutMode::Mixed, s, lo, hi);
    let mixed = mix_spans(j0.model, s, exact, 0);
    assert(inside(exact, s.len() as int));
    assert(inside(mixed, s.len() as int));
    match mode {
        CutMode::Full => {
            lemma_full_frame(j0.dict, j1.dict, s, hi, lo, lo + 1, lo);
        },
        CutMode::Search(h) => {
            lemma_search_frame(j0.dict, j1.dict, s, if h { mixed } else { exact });
        },
        CutMode::Small(k) => {
            lemma_small_frame(j0.dict, j1.dict, s, exact, k as int);
        },
        _ => {},
    }
}

/// Two engines with the same model and separators, whose dictionaries agree
/// on every piece of `s`, cut `s` alike in every mode.
pub proof fn lemma_cut_frame(j0: Jieba, j1: Jieba, mode: CutMode, s: Seq<char>, i: int)
    requires
        j0.wf(),
        same_on(j0.dict, j1.dict, s),
        j0.model == j1.model,
        j0.separators == j1.separators,
        0 <= i <= s.len(),
    ensures
        j0.spans_from(mode, s, i) == j1.spans_from(mode, s, i),
    decreases s.len() - i,
{
    if i < s.len() {
        lemma_block_end(j0.separators@, s, i);
        let e = block_end(j0.separators@, s, i);
        if e <= i {
            lemma_cut_frame(j0, j1, mode, s, i + 1);
        } else {
            lemma_block_frame(j0, j1, mode, s, i, e);
            lemma_cut_frame(j0, j1, mode, s, e);
        }
    }
}

} // verus!
