//! Locality: a range cut out of one text and the same code points placed
//! elsewhere in another text get the same spans, moved by the offset.
use vstd::prelude::*;
use crate::dict::Dictionary;
use crate::hmm::{HmmModel, state_spans, STATE_E, STATE_S};
use crate::route::{best, scan, choice, route_spans, lemma_scan, lemma_route_chain};
use crate::mixed::{
    letters_end, number_end, wide_end, ascii_end, is_ascii_char, hmm_cut_spans, mix_spans,
    single_run_end, lemma_letters_end, lemma_number_end, lemma_wide_end, lemma_single_run_end,
};
use crate::modes::{has_long, full_spans, grams, search_of, search_spans};
use crate::tiling::{chain, within, lemma_chain_within, lemma_chain_mono};
use crate::jieba::{Jieba, CutMode, NO_LIMIT};
use crate::small::{slices, split_long, small_spans, has_word_piece, chunk};

verus! {

/// `s[lo..hi]` sits in `t` at offset `o`.
pub open spec fn agree(s: Seq<char>, t: Seq<char>, o: int, lo: int, hi: int) -> bool {
    &&& 0 <= lo <= hi <= s.len()
    &&& 0 <= lo + o
    &&& hi + o <= t.len()
    &&& forall|k: int| lo <= k < hi ==> #[trigger] s[k] == t[k + o]
}

/// Spans moved by `o`.
pub open spec fn shift(sp: Seq<(int, int)>, o: int) -> Seq<(int, int)> {
    sp.map_values(|p: (int, int)| (p.0 + o, p.1 + o))
}

pub proof fn lemma_shift_concat(a: Seq<(int, int)>, b: Seq<(int, int)>, o: int)
    ensures
        shift(a + b, o) == shift(a, o) + shift(b, o),
{
    assert(shift(a + b, o) =~= shift(a, o) + shift(b, o));
}

pub proof fn lemma_agree_sub(s: Seq<char>, t: Seq<char>, o: int, lo: int, hi: int, i: int, j: int)
    requires
        agree(s, t, o, lo, hi),
        lo <= i <= j <= hi,
    ensures
        s.subrange(i, j) == t.subrange(i + o, j + o),
{
    assert forall|k: int| 0 <= k < j - i implies s.subrange(i, j)[k] == t.subrange(i + o, j + o)[k] by {
        assert(s[i + k] == t[i + k + o]);
    }
    assert(s.subrange(i, j) =~= t.subrange(i + o, j + o));
}

pub proof fn lemma_agree_narrow(s: Seq<char>, t: Seq<char>, o: int, lo: int, hi: int, lo2: int, hi2: int)
    requires
        agree(s, t, o, lo, hi),
        lo <= lo2 <= hi2 <= hi,
    ensures
        agree(s, t, o, lo2, hi2),
{
}

pub proof fn lemma_best_shift(d: Dictionary, s: Seq<char>, t: Seq<char>, o: int, lo: int, hi: int, lim: int, i: int)
    requires
        agree(s, t, o, lo, hi),
        lo <= i <= hi,
    ensures
        best(d, t, hi + o, lim, i + o) == best(d, s, hi, lim, i),
    decreases hi - i, 1int, 0int,
{
    if i < hi {
        lemma_scan_shift(d, s, t, o, lo, hi, lim, i, hi);
    }
}

pub proof fn lemma_scan_shift(d: Dictionary, s: Seq<char>, t: Seq<char>, o: int, lo: int, hi: int, lim: int, i: int, j: int)
    requires
        agree(s, t, o, lo, hi),
        lo <= i < hi,
        i < j <= hi,
    ensures
        scan(d, t, hi + o, lim, i + o, j + o) == (scan(d, s, hi, lim, i, j).0, scan(d, s, hi, lim, i, j).1 + o),
    decreases hi - i, 0int, j - i,
{
    lemma_best_shift(d, s, t, o, lo, hi, lim, i + 1);
    lemma_agree_sub(s, t, o, lo, hi, i, i + 1);
    assert(i + o + 1 == i + 1 + o);
    if j > i + 1 {
        lemma_scan_shift(d, s, t, o, lo, hi, lim, i, j - 1);
        lemma_agree_sub(s, t, o, lo, hi, i, j);
        lemma_best_shift(d, s, t, o, lo, hi, lim, j);
        assert(j + o - 1 == j - 1 + o);
    }
}

pub proof fn lemma_route_shift(d: Dictionary, s: Seq<char>, t: Seq<char>, o: int, lo: int, hi: int, lim: int, i: int)
    requires
        d.wf(),
        agree(s, t, o, lo, hi),
        lo <= i <= hi,
    ensures
        route_spans(d, t, hi + o, lim, i + o) == shift(route_spans(d, s, hi, lim, i), o),
    decreases hi - i,
{
    if i < hi {
        lemma_scan(d, s, hi, lim, i, hi);
        lemma_scan_shift(d, s, t, o, lo, hi, lim, i, hi);
        let c = choice(d, s, hi, lim, i);
        lemma_route_shift(d, s, t, o, lo, hi, lim, c);
        lemma_shift_concat(seq![(i, c)], route_spans(d, s, hi, lim, c), o);
        assert(shift(seq![(i, c)], o) =~= seq![(i + o, c + o)]);
    } else {
        assert(shift(Seq::<(int, int)>::empty(), o) =~= Seq::<(int, int)>::empty());
    }
}

pub proof fn lemma_vscore_shift(m: HmmModel, s: Seq<char>, t: Seq<char>, o: int, lo: int, hi: int, x: int, y: int)
    requires
        agree(s, t, o, lo, hi),
        lo <= x < hi,
    ensures
        m.vscore(t, lo + o, x + o, y) == m.vscore(s, lo, x, y),
    decreases x - lo, 1int, 0int,
{
    if x > lo {
        lemma_vpick_shift(m, s, t, o, lo, hi, x, y, 3);
    }
}

pub proof fn lemma_vpick_shift(m: HmmModel, s: Seq<char>, t: Seq<char>, o: int, lo: int, hi: int, x: int, y: int, p: int)
    requires
        agree(s, t, o, lo, hi),
        lo < x < hi,
        0 <= p,
    ensures
        m.vpick(t, lo + o, x + o, y, p) == m.vpick(s, lo, x, y, p),
    decreases x - lo, 0int, p,
{
    lemma_vscore_shift(m, s, t, o, lo, hi, x - 1, p);
    lemma_vscore_shift(m, s, t, o, lo, hi, x - 1, 0);
    assert(x + o - 1 == x - 1 + o);
    if p > 0 {
        lemma_vpick_shift(m, s, t, o, lo, hi, x, y, p - 1);
    }
}

pub proof fn lemma_vstate_shift(m: HmmModel, s: Seq<char>, t: Seq<char>, o: int, lo: int, hi: int, x: int)
    requires
        agree(s, t, o, lo, hi),
        lo <= x < hi,
    ensures
        m.vstate(t, lo + o, hi + o, x + o) == m.vstate(s, lo, hi, x),
    decreases hi - x,
{
    lemma_vscore_shift(m, s, t, o, lo, hi, hi - 1, STATE_E as int);
    lemma_vscore_shift(m, s, t, o, lo, hi, hi - 1, STATE_S as int);
    assert(hi + o - 1 == hi - 1 + o);
    if x < hi - 1 {
        lemma_vstate_shift(m, s, t, o, lo, hi, x + 1);
        lemma_vpick_shift(m, s, t, o, lo, hi, x + 1, m.vstate(s, lo, hi, x + 1), 3);
        assert(x + o + 1 == x + 1 + o);
    }
}

pub proof fn lemma_state_spans_shift(st: Seq<int>, base: int, o: int, start: int, k: int)
    ensures
        state_spans(st, base + o, start, k) == shift(state_spans(st, base, start, k), o),
    decreases st.len() - k,
{
    if k >= st.len() {
        if start < st.len() {
            assert(shift(seq![(base + start, base + st.len())], o) =~= seq![(base + o + start, base + o + st.len())]);
        } else {
            assert(shift(Seq::<(int, int)>::empty(), o) =~= Seq::<(int, int)>::empty());
        }
    } else if st[k] == STATE_E as int || st[k] == STATE_S as int {
        lemma_state_spans_shift(st, base, o, k + 1, k + 1);
        lemma_shift_concat(seq![(base + start, base + k + 1)], state_spans(st, base, k + 1, k + 1), o);
        assert(shift(seq![(base + start, base + k + 1)], o) =~= seq![(base + o + start, base + o + k + 1)]);
    } else {
        lemma_state_spans_shift(st, base, o, start, k + 1);
    }
}

pub proof fn lemma_viterbi_shift(m: HmmModel, s: Seq<char>, t: Seq<char>, o: int, lo: int, hi: int)
    requires
        agree(s, t, o, lo, hi),
        lo < hi,
    ensures
        m.viterbi_spans(t, lo + o, hi + o) == shift(m.viterbi_spans(s, lo, hi), o),
{
    let a = m.vstates(s, lo, hi);
    let b = m.vstates(t, lo + o, hi + o);
    assert forall|k: int| 0 <= k < a.len() implies a[k] == b[k] by {
        lemma_vstate_shift(m, s, t, o, lo, hi, lo + k);
        assert(lo + o + k == lo + k + o);
    }
    assert(a =~= b);
    lemma_state_spans_shift(a, lo, o, 0, 0);
}

pub proof fn lemma_ends_shift(s: Seq<char>, t: Seq<char>, o: int, lo: int, hi: int, i: int)
    requires
        agree(s, t, o, lo, hi),
        lo <= i <= hi,
    ensures
        letters_end(t, i + o, hi + o) == letters_end(s, i, hi) + o,
        number_end(t, i + o, hi + o) == number_end(s, i, hi) + o,
        wide_end(t, i + o, hi + o) == wide_end(s, i, hi) + o,
    decreases hi - i,
{
    if i < hi {
        assert(s[i] == t[i + o]);
        lemma_ends_shift(s, t, o, lo, hi, i + 1);
        assert(i + o + 1 == i + 1 + o);
    }
}

pub proof fn lemma_hmm_cut_shift(m: HmmModel, s: Seq<char>, t: Seq<char>, o: int, lo: int, hi: int, i: int)
    requires
        agree(s, t, o, lo, hi),
        lo <= i <= hi,
    ensures
        hmm_cut_spans(m, t, hi + o, i + o) == shift(hmm_cut_spans(m, s, hi, i), o),
    decreases hi - i,
{
    if i < hi {
        assert(s[i] == t[i + o]);
        lemma_letters_end(s, i + 1, hi);
        lemma_number_end(s, i + 1, hi);
        lemma_wide_end(s, i, hi);
        lemma_ends_shift(s, t, o, lo, hi, i + 1);
        lemma_ends_shift(s, t, o, lo, hi, i);
        assert(i + o + 1 == i + 1 + o);
        let e = if is_ascii_char(s[i]) {
            ascii_end(s, i, hi)
        } else {
            wide_end(s, i, hi)
        };
        lemma_hmm_cut_shift(m, s, t, o, lo, hi, e);
        if is_ascii_char(s[i]) {
            lemma_shift_concat(seq![(i, e)], hmm_cut_spans(m, s, hi, e), o);
            assert(shift(seq![(i, e)], o) =~= seq![(i + o, e + o)]);
        } else {
            lemma_agree_narrow(s, t, o, lo, hi, i, e);
            lemma_viterbi_shift(m, s, t, o, i, e);
            lemma_shift_concat(m.viterbi_spans(s, i, e), hmm_cut_spans(m, s, hi, e), o);
        }
    } else {
        assert(shift(Seq::<(int, int)>::empty(), o) =~= Seq::<(int, int)>::empty());
    }
}

pub proof fn lemma_single_run_shift(sp: Seq<(int, int)>, o: int, k: int)
    requires
        0 <= k,
    ensures
        single_run_end(shift(sp, o), k) == single_run_end(sp, k),
    decreases sp.len() - k,
{
    assert(shift(sp, o).len() == sp.len());
    if k < sp.len() {
        assert(shift(sp, o)[k] == (sp[k].0 + o, sp[k].1 + o));
        lemma_single_run_shift(sp, o, k + 1);
    }
}

pub proof fn lemma_mix_shift(m: HmmModel, s: Seq<char>, t: Seq<char>, o: int, lo: int, hi: int, sp: Seq<(int, int)>, k: int)
    requires
        agree(s, t, o, lo, hi),
        chain(sp, lo, hi),
        0 <= k <= sp.len(),
    ensures
        mix_spans(m, t, shift(sp, o), k) == shift(mix_spans(m, s, sp, k), o),
    decreases sp.len() - k,
{
    lemma_chain_within(sp, lo, hi);
    let sq = shift(sp, o);
    if k < sp.len() {
        if sp[k].1 - sp[k].0 != 1 {
            lemma_mix_shift(m, s, t, o, lo, hi, sp, k + 1);
            lemma_shift_concat(seq![sp[k]], mix_spans(m, s, sp, k + 1), o);
            assert(shift(seq![sp[k]], o) =~= seq![sq[k]]);
        } else {
            lemma_single_run_end(sp, k);
            lemma_single_run_end(sp, k + 1);
            lemma_single_run_shift(sp, o, k);
            let e = single_run_end(sp, k);
            assert(e == single_run_end(sp, k + 1));
            lemma_chain_mono(sp, lo, hi, k, e - 1);
            lemma_mix_shift(m, s, t, o, lo, hi, sp, e);
            lemma_agree_narrow(s, t, o, lo, hi, sp[k].0, sp[e - 1].1);
            lemma_hmm_cut_shift(m, s, t, o, sp[k].0, sp[e - 1].1, sp[k].0);
            lemma_shift_concat(hmm_cut_spans(m, s, sp[e - 1].1, sp[k].0), mix_spans(m, s, sp, e), o);
        }
    } else {
        assert(shift(Seq::<(int, int)>::empty(), o) =~= Seq::<(int, int)>::empty());
    }
}

pub proof fn lemma_has_long_shift(d: Dictionary, s: Seq<char>, t: Seq<char>, o: int, lo: int, hi: int, i: int, j: int)
    requires
        agree(s, t, o, lo, hi),
        lo <= i,
        j <= hi,
    ensures
        has_long(d, t, i + o, j + o) == has_long(d, s, i, j),
    decreases j - i,
{
    if j > i + 1 {
        lemma_agree_sub(s, t, o, lo, hi, i, j);
        lemma_has_long_shift(d, s, t, o, lo, hi, i, j - 1);
        assert(j + o - 1 == j - 1 + o);
    }
}

pub proof fn lemma_full_shift(d: Dictionary, s: Seq<char>, t: Seq<char>, o: int, lo: int, hi: int, i: int, j: int, me: int)
    requires
        agree(s, t, o, lo, hi),
        lo <= i,
    ensures
        full_spans(d, t, hi + o, i + o, j + o, me + o) == shift(full_spans(d, s, hi, i, j, me), o),
    decreases hi - i, hi + 1 - j,
{
    if i >= hi {
        assert(shift(Seq::<(int, int)>::empty(), o) =~= Seq::<(int, int)>::empty());
    } else if j > hi || j <= i {
        lemma_full_shift(d, s, t, o, lo, hi, i + 1, i + 2, me);
        assert(i + o + 1 == i + 1 + o && i + o + 2 == i + 2 + o);
    } else {
        lemma_agree_sub(s, t, o, lo, hi, i, j);
        lemma_has_long_shift(d, s, t, o, lo, hi, i, hi);
        let me2 = if j > me { j } else { me };
        lemma_full_shift(d, s, t, o, lo, hi, i, j + 1, me2);
        lemma_full_shift(d, s, t, o, lo, hi, i, j + 1, me);
        assert(j + o + 1 == j + 1 + o);
        lemma_shift_concat(seq![(i, j)], full_spans(d, s, hi, i, j + 1, me2), o);
        assert(shift(seq![(i, j)], o) =~= seq![(i + o, j + o)]);
    }
}

pub proof fn lemma_grams_shift(d: Dictionary, s: Seq<char>, t: Seq<char>, o: int, lo: int, hi: int, b: int, g: int, k: int)
    requires
        agree(s, t, o, lo, hi),
        lo <= k,
        b <= hi,
    ensures
        grams(d, t, b + o, g, k + o) == shift(grams(d, s, b, g, k), o),
    decreases b - k,
{
    if g < 1 || k + g > b {
        assert(shift(Seq::<(int, int)>::empty(), o) =~= Seq::<(int, int)>::empty());
    } else {
        lemma_agree_sub(s, t, o, lo, hi, k, k + g);
        lemma_grams_shift(d, s, t, o, lo, hi, b, g, k + 1);
        assert(k + o + 1 == k + 1 + o);
        assert(k + o + g == k + g + o);
        lemma_shift_concat(seq![(k, k + g)], grams(d, s, b, g, k + 1), o);
        assert(shift(seq![(k, k + g)], o) =~= seq![(k + o, k + g + o)]);
    }
}

pub proof fn lemma_search_shift(d: Dictionary, s: Seq<char>, t: Seq<char>, o: int, lo: int, hi: int, sp: Seq<(int, int)>)
    requires
        agree(s, t, o, lo, hi),
        within(sp, lo, hi),
    ensures
        search_spans(d, t, shift(sp, o)) == shift(search_spans(d, s, sp), o),
    decreases sp.len(),
{
    if sp.len() == 0 {
        assert(shift(sp, o) =~= Seq::<(int, int)>::empty());
        assert(shift(Seq::<(int, int)>::empty(), o) =~= Seq::<(int, int)>::empty());
    } else {
        let (a, b) = sp.last();
        assert(lo <= sp[sp.len() - 1].0 < sp[sp.len() - 1].1 <= hi);
        assert(shift(sp, o).drop_last() =~= shift(sp.drop_last(), o));
        lemma_search_shift(d, s, t, o, lo, hi, sp.drop_last());
        lemma_grams_shift(d, s, t, o, lo, hi, b, 2, a);
        lemma_grams_shift(d, s, t, o, lo, hi, b, 3, a);
        let g2 = if b - a > 2 { grams(d, s, b, 2, a) } else { Seq::empty() };
        let g3 = if b - a > 3 { grams(d, s, b, 3, a) } else { Seq::empty() };
        assert(shift(Seq::<(int, int)>::empty(), o) =~= Seq::<(int, int)>::empty());
        lemma_shift_concat(g2, g3, o);
        lemma_shift_concat(g2 + g3, seq![(a, b)], o);
        assert(shift(seq![(a, b)], o) =~= seq![(a + o, b + o)]);
        lemma_shift_concat(search_spans(d, s, sp.drop_last()), search_of(d, s, a, b), o);
    }
}

pub proof fn lemma_slices_shift(a: int, b: int, g: int, o: int)
    ensures
        slices(a + o, b + o, g) == shift(slices(a, b, g), o),
    decreases b - a,
{
    if a >= b || g < 1 {
        assert(shift(Seq::<(int, int)>::empty(), o) =~= Seq::<(int, int)>::empty());
    } else if b - a <= g {
        assert(shift(seq![(a, b)], o) =~= seq![(a + o, b + o)]);
    } else {
        lemma_slices_shift(a + g, b, g, o);
        assert(a + o + g == a + g + o);
        lemma_shift_concat(seq![(a, a + g)], slices(a + g, b, g), o);
        assert(shift(seq![(a, a + g)], o) =~= seq![(a + o, a + o + g)]);
    }
}

pub proof fn lemma_small_shift(d: Dictionary, s: Seq<char>, t: Seq<char>, o: int, lo: int, hi: int, sp: Seq<(int, int)>, lim: int)
    requires
        d.wf(),
        agree(s, t, o, lo, hi),
        within(sp, lo, hi),
    ensures
        small_spans(d, t, shift(sp, o), lim) == shift(small_spans(d, s, sp, lim), o),
    decreases sp.len(),
{
    if sp.len() == 0 {
        assert(shift(sp, o) =~= Seq::<(int, int)>::empty());
        assert(shift(Seq::<(int, int)>::empty(), o) =~= Seq::<(int, int)>::empty());
    } else {
        let (a, b) = sp.last();
        assert(lo <= sp[sp.len() - 1].0 < sp[sp.len() - 1].1 <= hi);
        assert(shift(sp, o).drop_last() =~= shift(sp.drop_last(), o));
        assert(shift(sp, o).last() == (a + o, b + o));
        lemma_small_shift(d, s, t, o, lo, hi, sp.drop_last(), lim);
        let x = split_long(d, s, a, b, lim);
        if b - a <= lim {
            assert(shift(seq![(a, b)], o) =~= seq![(a + o, b + o)]);
        } else {
            lemma_agree_narrow(s, t, o, lo, hi, a, b);
            lemma_route_shift(d, s, t, o, a, b, lim, a);
            lemma_slices_shift(a, b, chunk(lim), o);
            let r = route_spans(d, s, b, lim, a);
            let r2 = route_spans(d, t, b + o, lim, a + o);
            assert(r2 == shift(r, o));
            if has_word_piece(r) {
                let k = choose|k: int| 0 <= k < r.len() && (#[trigger] r[k]).1 - r[k].0 >= 2;
                assert(r2[k] == (r[k].0 + o, r[k].1 + o));
            }
            if has_word_piece(r2) {
                let k = choose|k: int| 0 <= k < r2.len() && (#[trigger] r2[k]).1 - r2[k].0 >= 2;
                assert(r2[k] == (r[k].0 + o, r[k].1 + o));
            }
        }
        lemma_shift_concat(small_spans(d, s, sp.drop_last(), lim), x, o);
    }
}

impl Jieba {
    pub proof fn lemma_block_shift(&self, mode: CutMode, s: Seq<char>, t: Seq<char>, o: int, lo: int, hi: int)
        requires
            self.wf(),
            agree(s, t, o, lo, hi),
            lo < hi,
        ensures
            self.block_spans(mode, t, lo + o, hi + o) == shift(self.block_spans(mode, s, lo, hi), o),
    {
        let lim = NO_LIMIT as int;
        let exact = route_spans(self.dict, s, hi, lim, lo);
        lemma_route_shift(self.dict, s, t, o, lo, hi, lim, lo);
        lemma_route_chain(self.dict, s, hi, lim, lo);
        lemma_chain_within(exact, lo, hi);
        lemma_mix_shift(self.model, s, t, o, lo, hi, exact, 0);
        let mixed = mix_spans(self.model, s, exact, 0);
        crate::mixed::lemma_mix_chain(self.model, s, exact, lo, hi, 0);
        lemma_chain_within(mixed, lo, hi);
        match mode {
            CutMode::Exact => {},
            CutMode::Mixed => {},
            CutMode::Full => {
                lemma_full_shift(self.dict, s, t, o, lo, hi, lo, lo + 1, lo);
                assert(lo + o + 1 == lo + 1 + o);
            },
            CutMode::Search(h) => {
                lemma_search_shift(self.dict, s, t, o, lo, hi, if h { mixed } else { exact });
            },
            CutMode::Hmm => {
                lemma_hmm_cut_shift(self.model, s, t, o, lo, hi, lo);
            },
            CutMode::Small(k) => {
                lemma_small_shift(self.dict, s, t, o, lo, hi, exact, k as int);
            },
        }
    }
}

} // verus!
