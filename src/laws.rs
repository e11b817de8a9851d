//! Properties that relate the cuts to the text and to one another.
use vstd::prelude::*;
use crate::dict::Dictionary;
use crate::jieba::{Jieba, CutMode, NO_LIMIT, block_end, lemma_block_end};
use crate::route::{route_spans, scan, best, choice, is_edge, edge_weight, lemma_scan, lemma_best};
use crate::tiling::{words, lemma_chain_flatten};
use crate::keywords::lemma_ranked_len;
use crate::locality::{agree, shift, lemma_route_shift};
use crate::mixed::{mix_spans, hmm_cut_spans, single_run_end, is_ascii_char, letters_end, number_end, wide_end};
use crate::hmm::{state_spans, STATE_E, STATE_S};
use crate::small::{small_spans, split_long, chunk, has_word_piece, lemma_slices_chain};
use crate::boundary::{lemma_end_passes, lemma_route_split};
use crate::tiling::within;

verus! {

/// Every span of `sp` is at most `lim` code points long.
pub open spec fn short(sp: Seq<(int, int)>, lim: int) -> bool {
    forall|k: int| 0 <= k < sp.len() ==> (#[trigger] sp[k]).1 - sp[k].0 <= lim
}

/// The words of the accurate cut, with or without the HMM, joined in order,
/// give back the text: nothing is lost, repeated or reordered.
pub proof fn lemma_accurate_reconstructs(j: Jieba, s: Seq<char>, hmm: bool)
    requires
        j.wf(),
    ensures
        j.cut_words(if hmm { CutMode::Mixed } else { CutMode::Exact }, s).flatten() == s,
{
    let mode = if hmm { CutMode::Mixed } else { CutMode::Exact };
    j.lemma_spans_from(mode, s, 0);
    lemma_chain_flatten(s, j.spans(mode, s), 0, s.len() as int);
    assert(s.subrange(0, s.len() as int) =~= s);
}

proof fn lemma_route_short(d: Dictionary, s: Seq<char>, hi: int, lim: int, i: int)
    requires
        d.wf(),
        lim >= 1,
        0 <= i <= hi <= s.len(),
    ensures
        short(route_spans(d, s, hi, lim, i), lim),
    decreases hi - i,
{
    if i < hi {
        lemma_scan(d, s, hi, lim, i, hi);
        let c = choice(d, s, hi, lim, i);
        lemma_route_short(d, s, hi, lim, c);
        let rest = route_spans(d, s, hi, lim, c);
        let all = seq![(i, c)] + rest;
        assert forall|k: int| 0 <= k < all.len() implies (#[trigger] all[k]).1 - all[k].0 <= lim by {
            if k > 0 {
                assert(all[k] == rest[k - 1]);
            }
        }
    }
}

proof fn lemma_small_short(d: Dictionary, s: Seq<char>, sp: Seq<(int, int)>, lim: int)
    requires
        d.wf(),
        lim >= 1,
        forall|k: int| 0 <= k < sp.len() ==> 0 <= (#[trigger] sp[k]).0 <= sp[k].1 <= s.len(),
    ensures
        short(small_spans(d, s, sp, lim), lim),
    decreases sp.len(),
{
    if sp.len() > 0 {
        let (a, b) = sp.last();
        assert(0 <= sp[sp.len() - 1].0 <= sp[sp.len() - 1].1 <= s.len());
        assert forall|k: int| 0 <= k < sp.drop_last().len() implies 0 <= (#[trigger] sp.drop_last()[k]).0
            <= sp.drop_last()[k].1 <= s.len() by {
            assert(sp.drop_last()[k] == sp[k]);
        }
        lemma_small_short(d, s, sp.drop_last(), lim);
        let x = small_spans(d, s, sp.drop_last(), lim);
        let y = split_long(d, s, a, b, lim);
        if b - a > lim {
            lemma_route_short(d, s, b, lim, a);
            lemma_slices_chain(a, b, chunk(lim));
        }
        assert(short(y, lim));
        assert forall|k: int| 0 <= k < (x + y).len() implies (#[trigger] (x + y)[k]).1 - (x + y)[k].0 <= lim by {
            if k >= x.len() {
                assert((x + y)[k] == y[k - x.len()]);
            } else {
                assert((x + y)[k] == x[k]);
            }
        }
    }
}

proof fn lemma_spans_short(j: Jieba, s: Seq<char>, lim: usize, i: int)
    requires
        j.wf(),
        lim >= 1,
        0 <= i <= s.len(),
    ensures
        short(j.spans_from(CutMode::Small(lim), s, i), lim as int),
    decreases s.len() - i,
{
    if i < s.len() {
        lemma_block_end(j.separators@, s, i);
        let e = block_end(j.separators@, s, i);
        let exact = route_spans(j.dict, s, e, NO_LIMIT as int, i);
        let a = if e <= i {
            seq![(i, i + 1)]
        } else {
            small_spans(j.dict, s, exact, lim as int)
        };
        let next = if e <= i {
            i + 1
        } else {
            e
        };
        if e > i {
            crate::route::lemma_route_chain(j.dict, s, e, NO_LIMIT as int, i);
            crate::tiling::lemma_chain_within(exact, i, e);
            lemma_small_short(j.dict, s, exact, lim as int);
        }
        lemma_spans_short(j, s, lim, next);
        let b = j.spans_from(CutMode::Small(lim), s, next);
        assert(j.spans_from(CutMode::Small(lim), s, i) == a + b);
        assert forall|k: int| 0 <= k < (a + b).len() implies (#[trigger] (a + b)[k]).1 - (a + b)[k].0 <= lim by {
            if k >= a.len() {
                assert((a + b)[k] == b[k - a.len()]);
            } else {
                assert((a + b)[k] == a[k]);
            }
        }
    }
}

/// No word of the length-limited cut is longer than the limit, for every
/// limit of at least one code point.
pub proof fn lemma_small_within_limit(j: Jieba, s: Seq<char>, limit: usize)
    requires
        j.wf(),
        limit >= 1,
    ensures
        forall|k: int|
            0 <= k < j.cut_words(CutMode::Small(limit), s).len() ==> (#[trigger] j.cut_words(
                CutMode::Small(limit),
                s,
            )[k]).len() <= limit,
{
    lemma_spans_short(j, s, limit, 0);
    j.lemma_spans_from(CutMode::Small(limit), s, 0);
    let sp = j.spans(CutMode::Small(limit), s);
    crate::tiling::lemma_chain_within(sp, 0, s.len() as int);
    assert forall|k: int| 0 <= k < j.cut_words(CutMode::Small(limit), s).len() implies (#[trigger] j.cut_words(
        CutMode::Small(limit),
        s,
    )[k]).len() <= limit by {
        assert(j.cut_words(CutMode::Small(limit), s)[k] == s.subrange(sp[k].0, sp[k].1));
    }
}

/// Keyword extraction gives at most `top_k` words for a positive `top_k`,
/// and never more than there are distinct candidate words.
pub proof fn lemma_keywords_bounded(j: Jieba, s: Seq<char>, top_k: int)
    requires
        top_k >= 0,
    ensures
        top_k > 0 ==> j.keywords(s, top_k).len() <= top_k,
        j.keywords(s, top_k).len() <= j.candidates(j.cut_words(CutMode::Mixed, s)).len(),
{
    let ws = j.cut_words(CutMode::Mixed, s);
    lemma_ranked_len(j.scored(ws));
}

/// A word that the dictionary holds with the user-word weight, cut on its own
/// along the most probable route, comes out whole, when that weight is below
/// zero and the word holds no separator.
pub proof fn lemma_user_word_whole(j: Jieba, w: Seq<char>)
    requires
        j.wf(),
        j.dict.contains(w),
        j.dict.weight_of(w) == j.user_weight,
        j.user_weight < 0,
        w.len() <= usize::MAX,
        forall|k: int| 0 <= k < w.len() ==> !j.separators@.contains(#[trigger] w[k]),
    ensures
        j.cut_words(CutMode::Exact, w) == seq![w],
        j.cut_words(CutMode::Mixed, w) == seq![w],
{
    let d = j.dict;
    let n = w.len() as int;
    let h = j.user_weight as int;
    let lim = NO_LIMIT as int;
    d.lemma_lookup(w);
    lemma_block_end(j.separators@, w, 0);
    assert(block_end(j.separators@, w, 0) == n) by {
        if block_end(j.separators@, w, 0) < n {
            let e = block_end(j.separators@, w, 0);
            assert(!j.separators@.contains(w[e]));
        }
    }
    assert(w.subrange(0, n) =~= w);
    // every edge weighs at most h
    assert forall|x: Seq<char>| #[trigger] d.weight_of(x) <= h by {
        d.lemma_lookup(x);
        if d.lookup(x) is Some {
            let k = d.lookup(x)->0;
            assert(d.entries@[k].weight <= j.user_weight);
        }
    }
    lemma_scan(d, w, n, lim, 0, n);
    if n > 1 {
        lemma_scan(d, w, n, lim, 0, n - 1);
        let prev = scan(d, w, n, lim, 0, n - 1);
        let c = prev.1;
        if c < n {
            lemma_scan(d, w, n, lim, c, n);
            lemma_best(d, w, n, lim, scan(d, w, n, lim, c, n).1);
        }
        assert(prev.0 <= 2 * h);
        assert(is_edge(d, w, lim, 0, n));
        assert(edge_weight(d, w, 0, n) == h);
        assert(best(d, w, n, lim, n) == 0);
    }
    assert(choice(d, w, n, lim, 0) == n);
    assert(route_spans(d, w, n, lim, n) =~= Seq::<(int, int)>::empty());
    assert(route_spans(d, w, n, lim, 0) =~= seq![(0, n)]);
    assert(j.spans_from(CutMode::Exact, w, n) =~= Seq::<(int, int)>::empty());
    assert(j.spans(CutMode::Exact, w) =~= seq![(0, n)]);
    assert(j.cut_words(CutMode::Exact, w) =~= seq![w]);
    // with the HMM: a single span of two or more code points stays, and a
    // single code point cut by the HMM stays a single word
    let one = seq![(0, n)];
    let m = j.model;
    assert(mix_spans(m, w, one, 1) =~= Seq::<(int, int)>::empty());
    if n == 1 {
        assert(single_run_end(one, 1) == 1);
        assert(single_run_end(one, 0) == 1);
        assert(hmm_cut_spans(m, w, 1, 1) =~= Seq::<(int, int)>::empty());
        if is_ascii_char(w[0]) {
            assert(letters_end(w, 1, 1) == 1);
            assert(number_end(w, 1, 1) == 1);
            assert(hmm_cut_spans(m, w, 1, 0) =~= seq![(0, 1)]);
        } else {
            assert(wide_end(w, 1, 1) == 1);
            assert(wide_end(w, 0, 1) == 1);
            let st = m.vstates(w, 0, 1);
            assert(st.len() == 1);
            assert(st[0] == m.vstate(w, 0, 1, 0));
            assert(st[0] == STATE_E as int || st[0] == STATE_S as int);
            assert(state_spans(st, 0, 1, 1) =~= Seq::<(int, int)>::empty());
            assert(state_spans(st, 0, 0, 0) =~= seq![(0, 1)]);
            assert(hmm_cut_spans(m, w, 1, 0) =~= seq![(0, 1)] + Seq::<(int, int)>::empty());
        }
        assert(mix_spans(m, w, one, 0) =~= seq![(0, 1)]);
    } else {
        assert(mix_spans(m, w, one, 0) =~= one);
    }
    assert(j.spans_from(CutMode::Mixed, w, n) =~= Seq::<(int, int)>::empty());
    assert(j.spans(CutMode::Mixed, w) =~= seq![(0, n)]);
    assert(j.cut_words(CutMode::Mixed, w) =~= seq![w]);
}

proof fn lemma_shift_zero(sp: Seq<(int, int)>)
    ensures
        shift(sp, 0) == sp,
{
    assert(shift(sp, 0) =~= sp);
}

proof fn lemma_block_end_suffix(seps: Seq<char>, a: Seq<char>, b: Seq<char>, i: int)
    requires
        0 <= i <= b.len(),
    ensures
        block_end(seps, a + b, a.len() + i) == block_end(seps, b, i) + a.len(),
    decreases b.len() - i,
{
    if i < b.len() {
        assert((a + b)[a.len() + i] == b[i]);
        lemma_block_end_suffix(seps, a, b, i + 1);
        assert(a.len() + i + 1 == a.len() + (i + 1));
    }
}

proof fn lemma_block_end_prefix(seps: Seq<char>, a: Seq<char>, b: Seq<char>, i: int)
    requires
        0 <= i < a.len(),
        seps.contains(a.last()),
    ensures
        block_end(seps, a + b, i) == block_end(seps, a, i),
        block_end(seps, a, i) < a.len(),
    decreases a.len() - i,
{
    assert((a + b)[i] == a[i]);
    if !seps.contains(a[i]) {
        assert(i != a.len() - 1);
        lemma_block_end_prefix(seps, a, b, i + 1);
    }
}

proof fn lemma_spans_suffix(j: Jieba, mode: CutMode, a: Seq<char>, b: Seq<char>, i: int)
    requires
        j.wf(),
        0 <= i <= b.len(),
    ensures
        j.spans_from(mode, a + b, a.len() + i) == shift(j.spans_from(mode, b, i), a.len() as int),
    decreases b.len() - i,
{
    let n = a.len() as int;
    let s = a + b;
    if i >= b.len() {
        assert(shift(Seq::<(int, int)>::empty(), n) =~= Seq::<(int, int)>::empty());
    } else {
        lemma_block_end(j.separators@, b, i);
        lemma_block_end_suffix(j.separators@, a, b, i);
        let e = block_end(j.separators@, b, i);
        if e <= i {
            lemma_spans_suffix(j, mode, a, b, i + 1);
            assert(n + i + 1 == n + (i + 1));
            crate::locality::lemma_shift_concat(seq![(i, i + 1)], j.spans_from(mode, b, i + 1), n);
            assert(shift(seq![(i, i + 1)], n) =~= seq![(n + i, n + i + 1)]);
        } else {
            lemma_spans_suffix(j, mode, a, b, e);
            assert forall|k: int| i <= k < e implies #[trigger] b[k] == s[k + n] by {
                assert(s[k + n] == b[k]);
            }
            assert(agree(b, s, n, i, e));
            j.lemma_block_shift(mode, b, s, n, i, e);
            assert(n + i == i + n && n + e == e + n);
            crate::locality::lemma_shift_concat(j.block_spans(mode, b, i, e), j.spans_from(mode, b, e), n);
        }
    }
}

proof fn lemma_spans_prefix(j: Jieba, mode: CutMode, a: Seq<char>, b: Seq<char>, i: int)
    requires
        j.wf(),
        0 <= i <= a.len(),
        a.len() > 0,
        j.separators@.contains(a.last()),
    ensures
        j.spans_from(mode, a + b, i) == j.spans_from(mode, a, i) + j.spans_from(mode, a + b, a.len() as int),
    decreases a.len() - i,
{
    let n = a.len() as int;
    let s = a + b;
    if i >= n {
        assert(Seq::<(int, int)>::empty() + j.spans_from(mode, s, n) =~= j.spans_from(mode, s, n));
    } else {
        lemma_block_end(j.separators@, a, i);
        lemma_block_end_prefix(j.separators@, a, b, i);
        let e = block_end(j.separators@, a, i);
        assert(s[i] == a[i]);
        if e <= i {
            lemma_spans_prefix(j, mode, a, b, i + 1);
            assert(seq![(i, i + 1)] + j.spans_from(mode, a, i + 1) + j.spans_from(mode, s, n) =~= seq![(i, i + 1)]
                + (j.spans_from(mode, a, i + 1) + j.spans_from(mode, s, n)));
        } else {
            lemma_spans_prefix(j, mode, a, b, e);
            assert forall|k: int| i <= k < e implies #[trigger] a[k] == s[k + 0] by {
                assert(s[k] == a[k]);
            }
            assert(agree(a, s, 0, i, e));
            j.lemma_block_shift(mode, a, s, 0, i, e);
            assert(i + 0 == i && e + 0 == e);
            lemma_shift_zero(j.block_spans(mode, a, i, e));
            assert(j.block_spans(mode, a, i, e) + j.spans_from(mode, a, e) + j.spans_from(mode, s, n) =~= j.block_spans(
                mode,
                a,
                i,
                e,
            ) + (j.spans_from(mode, a, e) + j.spans_from(mode, s, n)));
        }
    }
}

/// Cutting a text that runs on after a separator gives the cut of the part
/// up to and including the separator, followed by the cut of the rest, in
/// every mode.
pub proof fn lemma_cut_at_separator(j: Jieba, mode: CutMode, a: Seq<char>, b: Seq<char>)
    requires
        j.wf(),
        a.len() > 0,
        j.separators@.contains(a.last()),
    ensures
        j.cut_words(mode, a + b) == j.cut_words(mode, a) + j.cut_words(mode, b),
{
    let n = a.len() as int;
    let s = a + b;
    lemma_spans_prefix(j, mode, a, b, 0);
    lemma_spans_suffix(j, mode, a, b, 0);
    assert(n + 0 == n);
    assert(j.spans(mode, s) == j.spans(mode, a) + shift(j.spans(mode, b), n));
    lemma_words_join(j, mode, a, b);
}

proof fn lemma_words_join(j: Jieba, mode: CutMode, a: Seq<char>, b: Seq<char>)
    requires
        j.wf(),
        j.spans(mode, a + b) == j.spans(mode, a) + shift(j.spans(mode, b), a.len() as int),
    ensures
        j.cut_words(mode, a + b) == j.cut_words(mode, a) + j.cut_words(mode, b),
{
    let n = a.len() as int;
    let s = a + b;
    let sa = j.spans(mode, a);
    let sb = j.spans(mode, b);
    j.lemma_spans_from(mode, a, 0);
    j.lemma_spans_from(mode, b, 0);
    let left = words(s, sa + shift(sb, n));
    assert forall|k: int| 0 <= k < left.len() implies left[k] == (words(a, sa) + words(b, sb))[k] by {
        if k < sa.len() {
            assert((sa + shift(sb, n))[k] == sa[k]);
            assert(s.subrange(sa[k].0, sa[k].1) =~= a.subrange(sa[k].0, sa[k].1));
        } else {
            let q = k - sa.len();
            assert((sa + shift(sb, n))[k] == shift(sb, n)[q]);
            assert(s.subrange(sb[q].0 + n, sb[q].1 + n) =~= b.subrange(sb[q].0, sb[q].1));
        }
    }
    assert(left =~= words(a, sa) + words(b, sb));
}

proof fn lemma_block_end_min(seps: Seq<char>, a: Seq<char>, b: Seq<char>, i: int)
    requires
        0 <= i <= a.len(),
    ensures
        block_end(seps, a, i) == if block_end(seps, a + b, i) < a.len() { block_end(seps, a + b, i) } else { a.len() as int },
    decreases a.len() - i,
{
    lemma_block_end(seps, a + b, i);
    if i < a.len() {
        assert((a + b)[i] == a[i]);
        if !seps.contains(a[i]) {
            lemma_block_end_min(seps, a, b, i + 1);
        }
    }
}

proof fn lemma_block_end_inside(seps: Seq<char>, s: Seq<char>, i: int, q: int)
    requires
        0 <= i <= q <= block_end(seps, s, i),
        i <= s.len(),
    ensures
        block_end(seps, s, q) == block_end(seps, s, i),
    decreases q - i,
{
    lemma_block_end(seps, s, i);
    if i < q {
        assert(!seps.contains(s[i]));
        lemma_block_end_inside(seps, s, i + 1, q);
    }
}

pub open spec fn ends_at(sp: Seq<(int, int)>, k: int, n: int) -> bool {
    0 <= k < sp.len() && sp[k].1 == n
}

proof fn lemma_exact_prefix(j: Jieba, a: Seq<char>, b: Seq<char>, i: int, k: int)
    requires
        j.wf(),
        0 <= i <= a.len(),
        i < a.len() ==> ends_at(j.spans_from(CutMode::Exact, a + b, i), k, a.len() as int),
    ensures
        j.spans_from(CutMode::Exact, a + b, i) == j.spans_from(CutMode::Exact, a, i) + j.spans_from(
            CutMode::Exact,
            a + b,
            a.len() as int,
        ),
    decreases a.len() - i, 1int,
{
    let n = a.len() as int;
    let s = a + b;
    let mode = CutMode::Exact;
    if i >= n {
        assert(Seq::<(int, int)>::empty() + j.spans_from(mode, s, n) =~= j.spans_from(mode, s, n));
    } else {
        lemma_block_end(j.separators@, s, i);
        lemma_block_end_min(j.separators@, a, b, i);
        let e = block_end(j.separators@, s, i);
        if e <= i {
            lemma_exact_prefix_sep(j, a, b, i, k);
        } else if e <= n {
            lemma_exact_prefix_block(j, a, b, i, k);
        } else {
            lemma_exact_prefix_across(j, a, b, i, k);
        }
    }
}

proof fn lemma_exact_prefix_sep(j: Jieba, a: Seq<char>, b: Seq<char>, i: int, k: int)
    requires
        j.wf(),
        0 <= i < a.len(),
        ends_at(j.spans_from(CutMode::Exact, a + b, i), k, a.len() as int),
        block_end(j.separators@, a + b, i) <= i,
    ensures
        j.spans_from(CutMode::Exact, a + b, i) == j.spans_from(CutMode::Exact, a, i) + j.spans_from(
            CutMode::Exact,
            a + b,
            a.len() as int,
        ),
    decreases a.len() - i, 0int,
{
    let n = a.len() as int;
    let s = a + b;
    let mode = CutMode::Exact;
    lemma_block_end(j.separators@, s, i);
    lemma_block_end_min(j.separators@, a, b, i);
    let sp = j.spans_from(mode, s, i);
    let rest = j.spans_from(mode, s, i + 1);
    assert(sp == seq![(i, i + 1)] + rest);
    if k > 0 {
        assert(sp[k] == rest[k - 1]);
        lemma_exact_prefix(j, a, b, i + 1, k - 1);
    } else {
        lemma_exact_prefix(j, a, b, i + 1, 0);
    }
    assert(seq![(i, i + 1)] + j.spans_from(mode, a, i + 1) + j.spans_from(mode, s, n) =~= seq![(i, i + 1)]
        + (j.spans_from(mode, a, i + 1) + j.spans_from(mode, s, n)));
}

proof fn lemma_exact_prefix_block(j: Jieba, a: Seq<char>, b: Seq<char>, i: int, k: int)
    requires
        j.wf(),
        0 <= i < a.len(),
        ends_at(j.spans_from(CutMode::Exact, a + b, i), k, a.len() as int),
        i < block_end(j.separators@, a + b, i) <= a.len(),
    ensures
        j.spans_from(CutMode::Exact, a + b, i) == j.spans_from(CutMode::Exact, a, i) + j.spans_from(
            CutMode::Exact,
            a + b,
            a.len() as int,
        ),
    decreases a.len() - i, 0int,
{
    let n = a.len() as int;
    let s = a + b;
    let mode = CutMode::Exact;
    lemma_block_end(j.separators@, s, i);
    lemma_block_end_min(j.separators@, a, b, i);
    let e = block_end(j.separators@, s, i);
    let sp = j.spans_from(mode, s, i);
    let blk = j.block_spans(mode, s, i, e);
    let rest = j.spans_from(mode, s, e);
    assert(sp == blk + rest);
    j.lemma_block(mode, s, i, e);
    assert forall|q: int| i <= q < e implies #[trigger] a[q] == s[q + 0] by {
        assert(s[q] == a[q]);
    }
    j.lemma_block_shift(mode, a, s, 0, i, e);
    assert(i + 0 == i && e + 0 == e);
    lemma_shift_zero(j.block_spans(mode, a, i, e));
    if e < n {
        if k < blk.len() {
            assert(sp[k] == blk[k]);
        }
        assert(sp[k] == rest[k - blk.len()]);
        lemma_exact_prefix(j, a, b, e, k - blk.len());
    } else {
        lemma_exact_prefix(j, a, b, e, 0);
    }
    assert(blk + j.spans_from(mode, a, e) + j.spans_from(mode, s, n) =~= blk + (j.spans_from(mode, a, e) + j.spans_from(
        mode,
        s,
        n,
    )));
}

proof fn lemma_exact_prefix_across(j: Jieba, a: Seq<char>, b: Seq<char>, i: int, k: int)
    requires
        j.wf(),
        0 <= i < a.len(),
        ends_at(j.spans_from(CutMode::Exact, a + b, i), k, a.len() as int),
        block_end(j.separators@, a + b, i) > a.len(),
    ensures
        j.spans_from(CutMode::Exact, a + b, i) == j.spans_from(CutMode::Exact, a, i) + j.spans_from(
            CutMode::Exact,
            a + b,
            a.len() as int,
        ),
{
    let n = a.len() as int;
    let s = a + b;
    let mode = CutMode::Exact;
    let lim = NO_LIMIT as int;
    let d = j.dict;
    lemma_block_end(j.separators@, s, i);
    lemma_block_end_min(j.separators@, a, b, i);
    let e = block_end(j.separators@, s, i);
    let sp = j.spans_from(mode, s, i);
    let blk = route_spans(d, s, e, lim, i);
    let rest = j.spans_from(mode, s, e);
    assert(sp == blk + rest);
    j.lemma_spans_from(mode, s, e);
    if k >= blk.len() {
        assert(sp[k] == rest[k - blk.len()]);
        assert(e <= rest[k - blk.len()].0);
    }
    assert(sp[k] == blk[k]);
    lemma_end_passes(d, s, e, lim, i, k);
    lemma_route_split(d, s, e, lim, n, i);
    assert forall|q: int| i <= q < n implies #[trigger] a[q] == s[q + 0] by {
        assert(s[q] == a[q]);
    }
    lemma_route_shift(d, a, s, 0, i, n, lim, i);
    assert(i + 0 == i && n + 0 == n);
    lemma_shift_zero(route_spans(d, a, n, lim, i));
    assert(j.spans_from(mode, a, n) =~= Seq::<(int, int)>::empty());
    assert(j.spans_from(mode, a, i) == route_spans(d, a, n, lim, i) + Seq::<(int, int)>::empty());
    assert(route_spans(d, a, n, lim, i) + Seq::<(int, int)>::empty() =~= route_spans(d, a, n, lim, i));
    lemma_block_end_inside(j.separators@, s, i, n);
    assert(j.spans_from(mode, s, n) == route_spans(d, s, e, lim, n) + rest);
    assert(route_spans(d, s, n, lim, i) + route_spans(d, s, e, lim, n) + rest =~= route_spans(d, s, n, lim, i) + (
    route_spans(d, s, e, lim, n) + rest));
}

/// Cutting a text along its most probable route, without the HMM, at a
/// place where one of its words ends gives the cut of the part before that
/// place followed by the cut of the part after it.
pub proof fn lemma_exact_cut_at_word_end(j: Jieba, a: Seq<char>, b: Seq<char>, k: int)
    requires
        j.wf(),
        0 <= k < j.spans(CutMode::Exact, a + b).len(),
        j.spans(CutMode::Exact, a + b)[k].1 == a.len(),
    ensures
        j.cut_words(CutMode::Exact, a + b) == j.cut_words(CutMode::Exact, a) + j.cut_words(CutMode::Exact, b),
{
    let n = a.len() as int;
    lemma_exact_prefix(j, a, b, 0, k);
    lemma_spans_suffix(j, CutMode::Exact, a, b, 0);
    assert(n + 0 == n);
    lemma_words_join(j, CutMode::Exact, a, b);
}

proof fn lemma_small_concat(d: Dictionary, s: Seq<char>, x: Seq<(int, int)>, y: Seq<(int, int)>, lim: int)
    ensures
        small_spans(d, s, x + y, lim) == small_spans(d, s, x, lim) + small_spans(d, s, y, lim),
    decreases y.len(),
{
    if y.len() == 0 {
        assert(x + y =~= x);
        assert(small_spans(d, s, x, lim) + Seq::<(int, int)>::empty() =~= small_spans(d, s, x, lim));
    } else {
        assert((x + y).drop_last() =~= x + y.drop_last());
        assert((x + y).last() == y.last());
        lemma_small_concat(d, s, x, y.drop_last(), lim);
        assert(small_spans(d, s, x, lim) + small_spans(d, s, y.drop_last(), lim) + split_long(d, s, y.last().0, y.last().1, lim)
            =~= small_spans(d, s, x, lim) + (small_spans(d, s, y.drop_last(), lim) + split_long(d, s, y.last().0, y.last().1, lim)));
    }
}

proof fn lemma_small_spans_from(j: Jieba, s: Seq<char>, lim: usize, i: int)
    requires
        j.wf(),
        0 <= i <= s.len(),
    ensures
        j.spans_from(CutMode::Small(lim), s, i) == small_spans(j.dict, s, j.spans_from(CutMode::Exact, s, i), lim as int),
    decreases s.len() - i,
{
    if i < s.len() {
        lemma_block_end(j.separators@, s, i);
        let e = block_end(j.separators@, s, i);
        if e <= i {
            lemma_small_spans_from(j, s, lim, i + 1);
            lemma_small_concat(j.dict, s, seq![(i, i + 1)], j.spans_from(CutMode::Exact, s, i + 1), lim as int);
            assert(seq![(i, i + 1)].drop_last() =~= Seq::<(int, int)>::empty());
            if lim < 1 {
                let d = j.dict;
                let l = lim as int;
                lemma_scan(d, s, i + 1, l, i, i + 1);
                assert(route_spans(d, s, i + 1, l, i + 1) =~= Seq::<(int, int)>::empty());
                assert(route_spans(d, s, i + 1, l, i) =~= seq![(i, i + 1)]);
                assert(!has_word_piece(seq![(i, i + 1)]));
            }
            assert(split_long(j.dict, s, i, i + 1, lim as int) == seq![(i, i + 1)]);
            let one = seq![(i, i + 1)];
            assert(one.last() == (i, i + 1));
            assert(small_spans(j.dict, s, one.drop_last(), lim as int) =~= Seq::<(int, int)>::empty());
            assert(Seq::<(int, int)>::empty() + one =~= one);
            assert(small_spans(j.dict, s, one, lim as int) =~= one);
        } else {
            lemma_small_spans_from(j, s, lim, e);
            lemma_small_concat(
                j.dict,
                s,
                j.block_spans(CutMode::Exact, s, i, e),
                j.spans_from(CutMode::Exact, s, e),
                lim as int,
            );
        }
    } else {
        assert(j.spans_from(CutMode::Exact, s, i) =~= Seq::<(int, int)>::empty());
    }
}

/// The length-limited cut is the accurate cut without the HMM in which each
/// word is replaced by its pieces: itself when it fits the limit, else its
/// best route over words of at most the limit, or slices of the limit when
/// that route holds no dictionary word of two or more code points.
pub proof fn lemma_small_refines_accurate(j: Jieba, s: Seq<char>, limit: usize)
    requires
        j.wf(),
    ensures
        j.spans(CutMode::Small(limit), s) == small_spans(j.dict, s, j.spans(CutMode::Exact, s), limit as int),
{
    lemma_small_spans_from(j, s, limit, 0);
}

/// Adding the word `w` to an engine (as `add_user_word` does: one entry
/// appended, everything else kept) leaves the cut of every text that does
/// not contain `w` unchanged, in every mode.
pub proof fn lemma_added_word_keeps_other_cuts(j0: Jieba, j1: Jieba, w: Seq<char>, mode: CutMode, s: Seq<char>)
    requires
        j0.wf(),
        j1.model == j0.model,
        j1.separators == j0.separators,
        j1.dict.min_weight == j0.dict.min_weight,
        j1.dict.entries@.len() == j0.dict.entries@.len() + 1,
        j1.dict.entries@.drop_last() == j0.dict.entries@,
        j1.dict.entries@.last().word@ == w,
        forall|i: int, k: int| 0 <= i <= k <= s.len() ==> #[trigger] s.subrange(i, k) != w,
    ensures
        j1.cut_words(mode, s) == j0.cut_words(mode, s),
{
    let d0 = j0.dict;
    let d1 = j1.dict;
    assert forall|i: int, k: int| 0 <= i <= k <= s.len() implies d0.contains(#[trigger] s.subrange(i, k))
        == d1.contains(s.subrange(i, k)) && d0.weight_of(s.subrange(i, k)) == d1.weight_of(s.subrange(i, k)) by {
        let v = s.subrange(i, k);
        assert(d1.entries@.last().word@ != v);
        assert(d1.lookup(v) == d0.lookup(v));
        crate::dict::lemma_find_entry_bounds(d0.entries@, v);
        if d0.lookup(v) is Some {
            let q = d0.lookup(v)->0;
            assert(d1.entries@[q] == d0.entries@[q]);
        }
    }
    crate::frame::lemma_cut_frame(j0, j1, mode, s, 0);
}

} // verus!
