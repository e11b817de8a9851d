//! Viterbi decoding over the four-state model (Begin, End, Middle, Single)
//! and the conversion of a state sequence into word spans.
use vstd::prelude::*;
use crate::dict::{WEIGHT_FLOOR, weight_ok};
use crate::tiling::{chain, lemma_chain_concat};
verus! {

pub const STATE_B: usize = 0;
pub const STATE_E: usize = 1;
pub const STATE_M: usize = 2;
pub const STATE_S: usize = 3;

pub struct HmmModel {
    /// Log-probability of starting in each state.
    pub start: Vec<i64>,
    /// `trans[p][y]`: log-probability of moving from state `p` to state `y`.
    pub trans: Vec<Vec<i64>>,
    /// Per state, the emission log-probability of each listed code point.
    pub emit: Vec<Vec<(char, i64)>>,
    /// Emission log-probability of a code point that a state does not list.
    pub emit_floor: i64,
}

/// Emission weight of `c` in the list `es`: its last listing, else `floor`.
pub open spec fn find_emit(es: Seq<(char, i64)>, c: char, floor: int) -> int
    decreases es.len(),
{
    if es.len() == 0 {
        floor
    } else if es.last().0 == c {
        es.last().1 as int
    } else {
        find_emit(es.drop_last(), c, floor)
    }
}

impl HmmModel {
    pub open spec fn wf(&self) -> bool {
        &&& self.start@.len() == 4
        &&& self.trans@.len() == 4
        &&& self.emit@.len() == 4
        &&& weight_ok(self.emit_floor as int)
        &&& forall|y: int| 0 <= y < 4 ==> weight_ok(#[trigger] self.start@[y] as int)
        &&& forall|p: int| 0 <= p < 4 ==> (#[trigger] self.trans@[p])@.len() == 4
        &&& forall|p: int, y: int|
            0 <= p < 4 && 0 <= y < 4 ==> weight_ok(#[trigger] self.trans@[p]@[y] as int)
        &&& forall|y: int, k: int|
            0 <= y < 4 && 0 <= k < self.emit@[y]@.len() ==> weight_ok(
                #[trigger] self.emit@[y]@[k].1 as int,
            )
    }

    pub open spec fn emit_of(&self, y: int, c: char) -> int {
        find_emit(self.emit@[y]@, c, self.emit_floor as int)
    }

    pub open spec fn trans_of(&self, p: int, y: int) -> int {
        self.trans@[p]@[y] as int
    }

    /// Score of the best state path over `s[lo..=t]` that ends in state `y`.
    pub open spec fn vscore(&self, s: Seq<char>, lo: int, t: int, y: int) -> int
        decreases t - lo, 1int, 0int,
    {
        if t <= lo {
            self.start@[y] as int + self.emit_of(y, s[lo])
        } else {
            self.vpick(s, lo, t, y, 3).0 + self.emit_of(y, s[t])
        }
    }

    /// Best (score, previous state) into state `y` at `t`, over previous
    /// states `0..=p`; a later state replaces an earlier one only with a
    /// strictly higher score.
    pub open spec fn vpick(&self, s: Seq<char>, lo: int, t: int, y: int, p: int) -> (int, int)
        decreases t - lo, 0int, p,
    {
        if t <= lo {
            (0, 0)
        } else if p <= 0 {
            (self.vscore(s, lo, t - 1, 0) + self.trans_of(0, y), 0)
        } else {
            let q = self.vpick(s, lo, t, y, p - 1);
            let v = self.vscore(s, lo, t - 1, p) + self.trans_of(p, y);
            if v > q.0 {
                (v, p)
            } else {
                q
            }
        }
    }

    /// The state of the best path at `t`, for a text range `[lo, hi)`.
    pub open spec fn vstate(&self, s: Seq<char>, lo: int, hi: int, t: int) -> int
        decreases hi - t,
    {
        if t >= hi - 1 {
            if self.vscore(s, lo, hi - 1, STATE_E as int) >= self.vscore(s, lo, hi - 1, STATE_S as int) {
                STATE_E as int
            } else {
                STATE_S as int
            }
        } else {
            self.vpick(s, lo, t + 1, self.vstate(s, lo, hi, t + 1), 3).1
        }
    }

    pub open spec fn vstates(&self, s: Seq<char>, lo: int, hi: int) -> Seq<int> {
        Seq::new((hi - lo) as nat, |k: int| self.vstate(s, lo, hi, lo + k))
    }

    /// The word spans of the best state path over `s[lo..hi]`.
    pub open spec fn viterbi_spans(&self, s: Seq<char>, lo: int, hi: int) -> Seq<(int, int)> {
        state_spans(self.vstates(s, lo, hi), lo, 0, 0)
    }

    pub proof fn lemma_emit(&self, y: int, c: char)
        requires
            self.wf(),
            0 <= y < 4,
        ensures
            weight_ok(self.emit_of(y, c)),
    {
        lemma_find_emit(self.emit@[y]@, c, self.emit_floor as int);
    }

    pub proof fn lemma_vscore(&self, s: Seq<char>, lo: int, t: int, y: int)
        requires
            self.wf(),
            0 <= lo <= t < s.len(),
            0 <= y < 4,
        ensures
            3 * WEIGHT_FLOOR * (t - lo + 1) <= self.vscore(s, lo, t, y) <= 0,
        decreases t - lo, 1int, 0int,
    {
        self.lemma_emit(y, s[t]);
        if t > lo {
            self.lemma_vpick(s, lo, t, y, 3);
        }
    }

    pub proof fn lemma_vpick(&self, s: Seq<char>, lo: int, t: int, y: int, p: int)
        requires
            self.wf(),
            0 <= lo < t < s.len(),
            0 <= y < 4,
            0 <= p < 4,
        ensures
            ({
                let r = self.vpick(s, lo, t, y, p);
                &&& 0 <= r.1 <= p
                &&& r.0 == self.vscore(s, lo, t - 1, r.1) + self.trans_of(r.1, y)
                &&& 3 * WEIGHT_FLOOR * (t - lo) + WEIGHT_FLOOR <= r.0 <= 0
            }),
        decreases t - lo, 0int, p,
    {
        self.lemma_vscore(s, lo, t - 1, p);
        assert(weight_ok(self.trans@[p]@[y] as int));
        if p > 0 {
            self.lemma_vpick(s, lo, t, y, p - 1);
        }
    }

    pub proof fn lemma_vstate(&self, s: Seq<char>, lo: int, hi: int, t: int)
        requires
            self.wf(),
            0 <= lo <= t < hi <= s.len(),
        ensures
            0 <= self.vstate(s, lo, hi, t) < 4,
        decreases hi - t,
    {
        if t < hi - 1 {
            self.lemma_vstate(s, lo, hi, t + 1);
            self.lemma_vpick(s, lo, t + 1, self.vstate(s, lo, hi, t + 1), 3);
        }
    }
}

pub proof fn lemma_find_emit(es: Seq<(char, i64)>, c: char, floor: int)
    requires
        weight_ok(floor),
        forall|k: int| 0 <= k < es.len() ==> weight_ok(#[trigger] es[k].1 as int),
    ensures
        weight_ok(find_emit(es, c, floor)),
    decreases es.len(),
{
    if es.len() > 0 {
        assert(weight_ok(es[es.len() - 1].1 as int));
        lemma_find_emit(es.drop_last(), c, floor);
    }
}

/// Spans of a state sequence placed at `base`: a word ends after each End or
/// Single state; a word still open at the end runs to the end.
pub open spec fn state_spans(st: Seq<int>, base: int, start: int, k: int) -> Seq<(int, int)>
    decreases st.len() - k,
{
    if k >= st.len() {
        if start < st.len() {
            seq![(base + start, base + st.len())]
        } else {
            Seq::empty()
        }
    } else if st[k] == STATE_E as int || st[k] == STATE_S as int {
        seq![(base + start, base + k + 1)] + state_spans(st, base, k + 1, k + 1)
    } else {
        state_spans(st, base, start, k + 1)
    }
}

impl HmmModel {
    /// Emission weight of `c` in state `y`.
    pub fn emit_weight(&self, y: usize, c: char) -> (r: i64)
        requires
            self.wf(),
            y < 4,
        ensures
            r as int == self.emit_of(y as int, c),
    {
        let es = &self.emit[y];
        let mut k: usize = es.len();
        assert(es@.subrange(0, k as int) =~= es@);
        while k > 0
            invariant
                k <= es@.len(),
                es@ == self.emit@[y as int]@,
                find_emit(es@, c, self.emit_floor as int) == find_emit(
                    es@.subrange(0, k as int),
                    c,
                    self.emit_floor as int,
                ),
            decreases k,
        {
            assert(es@.subrange(0, k as int).drop_last() =~= es@.subrange(0, k - 1));
            if es[k - 1].0 == c {
                return es[k - 1].1;
            }
            k = k - 1;
        }
        assert(es@.subrange(0, 0) =~= Seq::<(char, i64)>::empty());
        self.emit_floor
    }

    /// The word spans of the most probable state path over `s[lo..hi]`.
    pub fn viterbi(&self, s: &Vec<char>, lo: usize, hi: usize) -> (r: Vec<(usize, usize)>)
        requires
            self.wf(),
            lo < hi <= s@.len(),
        ensures
            crate::route::pairs(r@) == self.viterbi_spans(s@, lo as int, hi as int),
    {
        let ghost g = s@;
        let mut rows: Vec<Vec<i128>> = Vec::new();
        let mut back: Vec<Vec<usize>> = Vec::new();
        let mut first: Vec<i128> = Vec::new();
        let mut y: usize = 0;
        while y < 4
            invariant
                self.wf(),
                g == s@,
                lo < hi <= s@.len(),
                y <= 4,
                first@.len() == y,
                forall|q: int| 0 <= q < y ==> #[trigger] first@[q] == self.vscore(g, lo as int, lo as int, q),
            decreases 4 - y,
        {
            proof {
                self.lemma_vscore(g, lo as int, lo as int, y as int);
            }
            let e = self.emit_weight(y, s[lo]);
            first.push(self.start[y] as i128 + e as i128);
            y = y + 1;
        }
        rows.push(first);
        back.push(vec![0usize, 0usize, 0usize, 0usize]);
        let mut t: usize = lo + 1;
        while t < hi
            invariant
                self.wf(),
                g == s@,
                lo < t <= hi <= s@.len(),
                rows@.len() == t - lo,
                back@.len() == t - lo,
                forall|r: int| 0 <= r < t - lo ==> (#[trigger] rows@[r])@.len() == 4,
                forall|r: int| 0 <= r < t - lo ==> (#[trigger] back@[r])@.len() == 4,
                forall|r: int, q: int|
                    0 <= r < t - lo && 0 <= q < 4 ==> #[trigger] rows@[r]@[q] == self.vscore(
                        g,
                        lo as int,
                        lo + r,
                        q,
                    ),
                forall|r: int, q: int|
                    1 <= r < t - lo && 0 <= q < 4 ==> #[trigger] back@[r]@[q] == self.vpick(
                        g,
                        lo as int,
                        lo + r,
                        q,
                        3,
                    ).1,
            decreases hi - t,
        {
            let mut row: Vec<i128> = Vec::new();
            let mut brow: Vec<usize> = Vec::new();
            let prev = &rows[t - 1 - lo];
            let mut y: usize = 0;
            while y < 4
                invariant
                    self.wf(),
                    g == s@,
                    lo < t < hi <= s@.len(),
                    y <= 4,
                    row@.len() == y,
                    brow@.len() == y,
                    prev@.len() == 4,
                    forall|q: int| 0 <= q < 4 ==> #[trigger] prev@[q] == self.vscore(g, lo as int, t - 1, q),
                    forall|q: int| 0 <= q < y ==> #[trigger] row@[q] == self.vscore(g, lo as int, t as int, q),
                    forall|q: int| 0 <= q < y ==> #[trigger] brow@[q] == self.vpick(g, lo as int, t as int, q, 3).1,
                decreases 4 - y,
            {
                proof {
                    self.lemma_vpick(g, lo as int, t as int, y as int, 0);
                }
                let mut bv: i128 = prev[0] + self.trans[0][y] as i128;
                let mut bp: usize = 0;
                let mut p: usize = 1;
                while p < 4
                    invariant
                        self.wf(),
                        g == s@,
                        lo < t < hi <= s@.len(),
                        y < 4,
                        1 <= p <= 4,
                        prev@.len() == 4,
                        forall|q: int| 0 <= q < 4 ==> #[trigger] prev@[q] == self.vscore(g, lo as int, t - 1, q),
                        (bv as int, bp as int) == self.vpick(g, lo as int, t as int, y as int, p - 1),
                    decreases 4 - p,
                {
                    proof {
                        self.lemma_vpick(g, lo as int, t as int, y as int, p as int);
                        self.lemma_vscore(g, lo as int, t - 1, p as int);
                        assert(weight_ok(self.trans@[p as int]@[y as int] as int));
                    }
                    let v: i128 = prev[p] + self.trans[p][y] as i128;
                    if v > bv {
                        bv = v;
                        bp = p;
                    }
                    p = p + 1;
                }
                proof {
                    self.lemma_vpick(g, lo as int, t as int, y as int, 3);
                    self.lemma_emit(y as int, g[t as int]);
                }
                let e = self.emit_weight(y, s[t]);
                row.push(bv + e as i128);
                brow.push(bp);
                y = y + 1;
            }
            rows.push(row);
            back.push(brow);
            t = t + 1;
        }
        let n = hi - lo;
        let last = &rows[n - 1];
        let mut st: Vec<usize> = Vec::new();
        let mut k: usize = 0;
        while k < n
            invariant
                st@.len() == k,
                k <= n,
            decreases n - k,
        {
            st.push(0);
            k = k + 1;
        }
        let mut cur: usize = if last[STATE_E] >= last[STATE_S] { STATE_E } else { STATE_S };
        let mut q: usize = n - 1;
        st.set(q, cur);
        proof {
            self.lemma_vstate(g, lo as int, hi as int, hi - 1);
        }
        while q > 0
            invariant
                self.wf(),
                g == s@,
                lo < hi <= s@.len(),
                n == hi - lo,
                q < n,
                st@.len() == n,
                back@.len() == n,
                forall|r: int| 0 <= r < n ==> (#[trigger] back@[r])@.len() == 4,
                forall|r: int, y: int|
                    1 <= r < n && 0 <= y < 4 ==> #[trigger] back@[r]@[y] == self.vpick(
                        g,
                        lo as int,
                        lo + r,
                        y,
                        3,
                    ).1,
                cur == st@[q as int],
                forall|r: int| q <= r < n ==> #[trigger] st@[r] as int == self.vstate(g, lo as int, hi as int, lo + r),
                forall|r: int| q <= r < n ==> #[trigger] st@[r] < 4,
            decreases q,
        {
            let nx = back[q][cur];
            proof {
                self.lemma_vpick(g, lo as int, lo + q, cur as int, 3);
            }
            q = q - 1;
            st.set(q, nx);
            cur = nx;
        }
        let ghost vs = self.vstates(g, lo as int, hi as int);
        assert(forall|r: int| 0 <= r < n ==> #[trigger] st@[r] as int == vs[r]);
        let mut out: Vec<(usize, usize)> = Vec::new();
        let mut start: usize = 0;
        let mut k: usize = 0;
        while k < n
            invariant
                n == hi - lo,
                lo < hi,
                vs.len() == n,
                st@.len() == n,
                forall|r: int| 0 <= r < n ==> #[trigger] st@[r] as int == vs[r],
                start <= k <= n,
                state_spans(vs, lo as int, 0, 0) == crate::route::pairs(out@) + state_spans(
                    vs,
                    lo as int,
                    start as int,
                    k as int,
                ),
            decreases n - k,
        {
            let ghost before = out@;
            if st[k] == STATE_E || st[k] == STATE_S {
                out.push((lo + start, lo + k + 1));
                assert(crate::route::pairs(out@) =~= crate::route::pairs(before) + seq![
                    ((lo + start) as int, (lo + k + 1) as int),
                ]);
                start = k + 1;
            }
            k = k + 1;
        }
        if start < n {
            let ghost before = out@;
            out.push((lo + start, hi));
            assert(crate::route::pairs(out@) =~= crate::route::pairs(before) + seq![
                ((lo + start) as int, hi as int),
            ]);
        } else {
            assert(crate::route::pairs(out@) + Seq::<(int, int)>::empty() =~= crate::route::pairs(out@));
        }
        out
    }
}

pub proof fn lemma_state_chain(st: Seq<int>, base: int, start: int, k: int)
    requires
        0 <= start <= k <= st.len(),
        start == st.len() ==> k == st.len(),
    ensures
        chain(state_spans(st, base, start, k), base + start, base + st.len()),
    decreases st.len() - k,
{
    if k < st.len() {
        if st[k] == STATE_E as int || st[k] == STATE_S as int {
            lemma_state_chain(st, base, k + 1, k + 1);
            lemma_chain_concat(
                seq![(base + start, base + k + 1)],
                state_spans(st, base, k + 1, k + 1),
                base + start,
                base + k + 1,
                base + st.len(),
            );
        } else {
            lemma_state_chain(st, base, start, k + 1);
        }
    }
}

impl HmmModel {
    pub proof fn lemma_viterbi_chain(&self, s: Seq<char>, lo: int, hi: int)
        requires
            lo < hi,
        ensures
            chain(self.viterbi_spans(s, lo, hi), lo, hi),
    {
        lemma_state_chain(self.vstates(s, lo, hi), lo, 0, 0);
    }
}

} // verus!
