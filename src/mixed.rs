//! The HMM cut of a range (ASCII runs are taken whole, other runs go through
//! Viterbi) and the mixed cut, which hands each run of single code points of
//! the dictionary route to the HMM cut.
use vstd::prelude::*;
use crate::route::pairs;
use crate::hmm::HmmModel;
use crate::tiling::{chain, lemma_chain_concat, lemma_chain_within, lemma_chain_mono};
verus! {

pub open spec fn is_ascii_char(c: char) -> bool {
    (c as u32) < 128
}

pub open spec fn is_letter(c: char) -> bool {
    (65 <= (c as u32) <= 90) || (97 <= (c as u32) <= 122)
}

pub open spec fn is_digit(c: char) -> bool {
    48 <= (c as u32) <= 57
}

/// First position at or after `i` holding no letter or digit.
pub open spec fn letters_end(s: Seq<char>, i: int, hi: int) -> int
    decreases hi - i,
{
    if i >= hi || !(is_letter(s[i]) || is_digit(s[i])) {
        i
    } else {
        letters_end(s, i + 1, hi)
    }
}

/// First position at or after `i` holding neither a digit nor '.'.
pub open spec fn number_end(s: Seq<char>, i: int, hi: int) -> int
    decreases hi - i,
{
    if i >= hi || !(is_digit(s[i]) || s[i] == '.') {
        i
    } else {
        number_end(s, i + 1, hi)
    }
}

/// First position at or after `i` holding an ASCII code point.
pub open spec fn wide_end(s: Seq<char>, i: int, hi: int) -> int
    decreases hi - i,
{
    if i >= hi || is_ascii_char(s[i]) {
        i
    } else {
        wide_end(s, i + 1, hi)
    }
}

/// End of the ASCII word at `i`: a letter and the letters and digits after
/// it, a digit and the digits and dots after it, or one code point.
pub open spec fn ascii_end(s: Seq<char>, i: int, hi: int) -> int {
    if is_letter(s[i]) {
        letters_end(s, i + 1, hi)
    } else if is_digit(s[i]) {
        number_end(s, i + 1, hi)
    } else {
        i + 1
    }
}

/// Spans of the HMM cut of `s[i..hi]`.
pub open spec fn hmm_cut_spans(m: HmmModel, s: Seq<char>, hi: int, i: int) -> Seq<(int, int)>
    decreases hi - i,
{
    if i >= hi {
        Seq::empty()
    } else {
        let e = if is_ascii_char(s[i]) {
            ascii_end(s, i, hi)
        } else {
            wide_end(s, i, hi)
        };
        if e <= i || e > hi {
            Seq::empty()
        } else if is_ascii_char(s[i]) {
            seq![(i, e)] + hmm_cut_spans(m, s, hi, e)
        } else {
            m.viterbi_spans(s, i, e) + hmm_cut_spans(m, s, hi, e)
        }
    }
}

/// First index at or after `k` whose span is longer than one code point.
pub open spec fn single_run_end(sp: Seq<(int, int)>, k: int) -> int
    decreases sp.len() - k,
{
    if k >= sp.len() || sp[k].1 - sp[k].0 != 1 {
        k
    } else {
        single_run_end(sp, k + 1)
    }
}

/// Spans of the mixed cut, from the `k`-th span of the dictionary route `sp`.
pub open spec fn mix_spans(m: HmmModel, s: Seq<char>, sp: Seq<(int, int)>, k: int) -> Seq<(int, int)>
    decreases sp.len() - k,
{
    if k >= sp.len() {
        Seq::empty()
    } else if sp[k].1 - sp[k].0 != 1 {
        seq![sp[k]] + mix_spans(m, s, sp, k + 1)
    } else {
        let e = single_run_end(sp, k);
        if e <= k || e > sp.len() {
            Seq::empty()
        } else {
            hmm_cut_spans(m, s, sp[e - 1].1, sp[k].0) + mix_spans(m, s, sp, e)
        }
    }
}

pub proof fn lemma_letters_end(s: Seq<char>, i: int, hi: int)
    requires
        i <= hi,
    ensures
        i <= letters_end(s, i, hi) <= hi,
    decreases hi - i,
{
    if i < hi && (is_letter(s[i]) || is_digit(s[i])) {
        lemma_letters_end(s, i + 1, hi);
    }
}

pub proof fn lemma_number_end(s: Seq<char>, i: int, hi: int)
    requires
        i <= hi,
    ensures
        i <= number_end(s, i, hi) <= hi,
    decreases hi - i,
{
    if i < hi && (is_digit(s[i]) || s[i] == '.') {
        lemma_number_end(s, i + 1, hi);
    }
}

pub proof fn lemma_wide_end(s: Seq<char>, i: int, hi: int)
    requires
        i <= hi,
    ensures
        i <= wide_end(s, i, hi) <= hi,
        i < hi && !is_ascii_char(s[i]) ==> i < wide_end(s, i, hi),
    decreases hi - i,
{
    if i < hi && !is_ascii_char(s[i]) {
        lemma_wide_end(s, i + 1, hi);
    }
}

pub proof fn lemma_single_run_end(sp: Seq<(int, int)>, k: int)
    requires
        0 <= k,
    ensures
        k <= single_run_end(sp, k),
        k < sp.len() ==> single_run_end(sp, k) <= sp.len(),
        forall|q: int| k <= q < single_run_end(sp, k) ==> #[trigger] sp[q].1 - sp[q].0 == 1,
    decreases sp.len() - k,
{
    if k < sp.len() && sp[k].1 - sp[k].0 == 1 {
        lemma_single_run_end(sp, k + 1);
    }
}

fn is_letter_exec(c: char) -> (r: bool)
    ensures
        r == is_letter(c),
{
    let u = c as u32;
    (65 <= u && u <= 90) || (97 <= u && u <= 122)
}

fn is_digit_exec(c: char) -> (r: bool)
    ensures
        r == is_digit(c),
{
    let u = c as u32;
    48 <= u && u <= 57
}

fn letters_end_exec(s: &Vec<char>, i: usize, hi: usize) -> (r: usize)
    requires
        i <= hi <= s@.len(),
    ensures
        r as int == letters_end(s@, i as int, hi as int),
{
    let mut k = i;
    while k < hi && (is_letter_exec(s[k]) || is_digit_exec(s[k]))
        invariant
            i <= k <= hi <= s@.len(),
            letters_end(s@, i as int, hi as int) == letters_end(s@, k as int, hi as int),
        decreases hi - k,
    {
        k = k + 1;
    }
    k
}

fn number_end_exec(s: &Vec<char>, i: usize, hi: usize) -> (r: usize)
    requires
        i <= hi <= s@.len(),
    ensures
        r as int == number_end(s@, i as int, hi as int),
{
    let mut k = i;
    while k < hi && (is_digit_exec(s[k]) || s[k] == '.')
        invariant
            i <= k <= hi <= s@.len(),
            number_end(s@, i as int, hi as int) == number_end(s@, k as int, hi as int),
        decreases hi - k,
    {
        k = k + 1;
    }
    k
}

fn wide_end_exec(s: &Vec<char>, i: usize, hi: usize) -> (r: usize)
    requires
        i <= hi <= s@.len(),
    ensures
        r as int == wide_end(s@, i as int, hi as int),
{
    let mut k = i;
    while k < hi && (s[k] as u32) >= 128
        invariant
            i <= k <= hi <= s@.len(),
            wide_end(s@, i as int, hi as int) == wide_end(s@, k as int, hi as int),
        decreases hi - k,
    {
        k = k + 1;
    }
    k
}

/// Spans of the HMM cut of `s[lo..hi]`.
pub fn hmm_cut(m: &HmmModel, s: &Vec<char>, lo: usize, hi: usize) -> (r: Vec<(usize, usize)>)
    requires
        m.wf(),
        lo <= hi <= s@.len(),
    ensures
        pairs(r@) == hmm_cut_spans(*m, s@, hi as int, lo as int),
{
    let mut out: Vec<(usize, usize)> = Vec::new();
    let mut i = lo;
    while i < hi
        invariant
            m.wf(),
            lo <= i <= hi <= s@.len(),
            hmm_cut_spans(*m, s@, hi as int, lo as int) == pairs(out@) + hmm_cut_spans(
                *m,
                s@,
                hi as int,
                i as int,
            ),
        decreases hi - i,
    {
        let ghost before = out@;
        proof {
            lemma_letters_end(s@, i + 1, hi as int);
            lemma_number_end(s@, i + 1, hi as int);
            lemma_wide_end(s@, i as int, hi as int);
        }
        let c = s[i];
        if (c as u32) < 128 {
            let e = if is_letter_exec(c) {
                letters_end_exec(s, i + 1, hi)
            } else if is_digit_exec(c) {
                number_end_exec(s, i + 1, hi)
            } else {
                i + 1
            };
            out.push((i, e));
            assert(pairs(out@) =~= pairs(before) + seq![(i as int, e as int)]);
            i = e;
        } else {
            let e = wide_end_exec(s, i, hi);
            let v = m.viterbi(s, i, e);
            let ghost mid = out@;
            let mut q: usize = 0;
            while q < v.len()
                invariant
                    q <= v@.len(),
                    out@ == mid + v@.subrange(0, q as int),
                decreases v@.len() - q,
            {
                out.push(v[q]);
                assert(v@.subrange(0, q + 1) =~= v@.subrange(0, q as int).push(v@[q as int]));
                q = q + 1;
            }
            assert(v@.subrange(0, v@.len() as int) =~= v@);
            assert(pairs(out@) =~= pairs(before) + pairs(v@));
            i = e;
        }
    }
    assert(pairs(out@) + Seq::<(int, int)>::empty() =~= pairs(out@));
    out
}

/// Appends `v` to `out`.
pub fn append_spans(out: &mut Vec<(usize, usize)>, v: &Vec<(usize, usize)>)
    ensures
        final(out)@ == old(out)@ + v@,
{
    let mut q: usize = 0;
    while q < v.len()
        invariant
            q <= v@.len(),
            out@ == old(out)@ + v@.subrange(0, q as int),
        decreases v@.len() - q,
    {
        out.push(v[q]);
        assert(v@.subrange(0, q + 1) =~= v@.subrange(0, q as int).push(v@[q as int]));
        q = q + 1;
    }
    assert(v@.subrange(0, v@.len() as int) =~= v@);
}

/// Spans of the mixed cut over the dictionary route `sp`.
pub fn mix(m: &HmmModel, s: &Vec<char>, sp: &Vec<(usize, usize)>) -> (r: Vec<(usize, usize)>)
    requires
        m.wf(),
        forall|k: int| 0 <= k < sp@.len() ==> (#[trigger] sp@[k]).0 <= sp@[k].1 <= s@.len(),
        forall|k: int| 0 < k < sp@.len() ==> sp@[k - 1].1 == (#[trigger] sp@[k]).0,
    ensures
        pairs(r@) == mix_spans(*m, s@, pairs(sp@), 0),
{
    let ghost ps = pairs(sp@);
    let mut out: Vec<(usize, usize)> = Vec::new();
    let mut k: usize = 0;
    while k < sp.len()
        invariant
            m.wf(),
            ps == pairs(sp@),
            k <= sp@.len(),
            forall|q: int| 0 <= q < sp@.len() ==> (#[trigger] sp@[q]).0 <= sp@[q].1 <= s@.len(),
            forall|q: int| 0 < q < sp@.len() ==> sp@[q - 1].1 == (#[trigger] sp@[q]).0,
            mix_spans(*m, s@, ps, 0) == pairs(out@) + mix_spans(*m, s@, ps, k as int),
        decreases sp@.len() - k,
    {
        let ghost before = out@;
        let (a, b) = sp[k];
        if b - a != 1 {
            out.push((a, b));
            assert(pairs(out@) =~= pairs(before) + seq![(a as int, b as int)]);
            k = k + 1;
        } else {
            let mut e = k + 1;
            proof {
                lemma_single_run_end(ps, k as int);
            }
            while e < sp.len() && sp[e].1 - sp[e].0 == 1
                invariant
                    k < e <= sp@.len(),
                    ps == pairs(sp@),
                    forall|q: int| 0 <= q < sp@.len() ==> (#[trigger] sp@[q]).0 <= sp@[q].1,
                    forall|q: int| 0 < q < sp@.len() ==> sp@[q - 1].1 == (#[trigger] sp@[q]).0,
                    single_run_end(ps, k as int) == single_run_end(ps, e as int),
                    sp@[e - 1].1 == a + (e - k),
                decreases sp@.len() - e,
            {
                e = e + 1;
            }
            let hi = sp[e - 1].1;
            let v = hmm_cut(m, s, a, hi);
            append_spans(&mut out, &v);
            assert(pairs(out@) =~= pairs(before) + pairs(v@));
            k = e;
        }
    }
    assert(pairs(out@) + Seq::<(int, int)>::empty() =~= pairs(out@));
    out
}

/// The HMM cut tiles `[i, hi)`.
pub proof fn lemma_hmm_cut_chain(m: HmmModel, s: Seq<char>, hi: int, i: int)
    requires
        0 <= i <= hi <= s.len(),
    ensures
        chain(hmm_cut_spans(m, s, hi, i), i, hi),
    decreases hi - i,
{
    if i < hi {
        lemma_letters_end(s, i + 1, hi);
        lemma_number_end(s, i + 1, hi);
        lemma_wide_end(s, i, hi);
        let e = if is_ascii_char(s[i]) {
            ascii_end(s, i, hi)
        } else {
            wide_end(s, i, hi)
        };
        lemma_hmm_cut_chain(m, s, hi, e);
        if is_ascii_char(s[i]) {
            lemma_chain_concat(seq![(i, e)], hmm_cut_spans(m, s, hi, e), i, e, hi);
        } else {
            m.lemma_viterbi_chain(s, i, e);
            lemma_chain_concat(m.viterbi_spans(s, i, e), hmm_cut_spans(m, s, hi, e), i, e, hi);
        }
    }
}

/// The mixed cut over a tiling route tiles the same range.
pub proof fn lemma_mix_chain(m: HmmModel, s: Seq<char>, sp: Seq<(int, int)>, lo: int, hi: int, k: int)
    requires
        chain(sp, lo, hi),
        0 <= lo,
        hi <= s.len(),
        0 <= k <= sp.len(),
    ensures
        chain(mix_spans(m, s, sp, k), if k < sp.len() { sp[k].0 } else { hi }, hi),
    decreases sp.len() - k,
{
    lemma_chain_within(sp, lo, hi);
    if k < sp.len() {
        if sp[k].1 - sp[k].0 != 1 {
            lemma_mix_chain(m, s, sp, lo, hi, k + 1);
            lemma_chain_concat(seq![sp[k]], mix_spans(m, s, sp, k + 1), sp[k].0, sp[k].1, hi);
        } else {
            lemma_single_run_end(sp, k);
            lemma_single_run_end(sp, k + 1);
            let e = single_run_end(sp, k);
            assert(e == single_run_end(sp, k + 1));
            lemma_chain_mono(sp, lo, hi, k, e - 1);
            lemma_hmm_cut_chain(m, s, sp[e - 1].1, sp[k].0);
            lemma_mix_chain(m, s, sp, lo, hi, e);
            if e < sp.len() {
                assert(sp[e - 1].1 == sp[e].0);
            }
            lemma_chain_concat(
                hmm_cut_spans(m, s, sp[e - 1].1, sp[k].0),
                mix_spans(m, s, sp, e),
                sp[k].0,
                sp[e - 1].1,
                hi,
            );
        }
    }
}

} // verus!
