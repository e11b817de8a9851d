//! Keyword ranking: term frequency times inverse document frequency over
//! the words of the mixed cut, leaving out stop words and single code points.
use vstd::prelude::*;
use crate::jieba::{Jieba, CutMode, IDF_CEIL};
use crate::route::pairs;
use crate::tiling::{within, words};
use crate::text::{chars_of, string_of};

verus! {

/// A keyword and its weight, in the fixed point of the IDF table.
#[derive(Debug, Clone, PartialEq)]
pub struct WordWeight {
    pub word: String,
    pub weight: i128,
}

/// IDF of `w` in `t`: its last listing, else `dflt`.
pub open spec fn find_idf(t: Seq<(Vec<char>, i64)>, w: Seq<char>, dflt: int) -> int
    decreases t.len(),
{
    if t.len() == 0 {
        dflt
    } else if t.last().0@ == w {
        t.last().1 as int
    } else {
        find_idf(t.drop_last(), w, dflt)
    }
}

/// Number of times `w` occurs in `ws`.
pub open spec fn count(ws: Seq<Seq<char>>, w: Seq<char>) -> int
    decreases ws.len(),
{
    if ws.len() == 0 {
        0
    } else {
        count(ws.drop_last(), w) + if ws.last() == w { 1int } else { 0int }
    }
}

/// Index of the first item of highest weight among `items[..k]`.
pub open spec fn top_index(items: Seq<(Seq<char>, int)>, k: int) -> int
    decreases k,
{
    if k <= 1 {
        0
    } else {
        let p = top_index(items, k - 1);
        if items[k - 1].1 > items[p].1 {
            k - 1
        } else {
            p
        }
    }
}

/// Items by descending weight; equal weights keep their order.
pub open spec fn ranked(items: Seq<(Seq<char>, int)>) -> Seq<(Seq<char>, int)>
    decreases items.len(),
{
    if items.len() == 0 {
        Seq::empty()
    } else {
        let p = top_index(items, items.len() as int);
        if 0 <= p < items.len() {
            seq![items[p]] + ranked(items.remove(p))
        } else {
            Seq::empty()
        }
    }
}

pub proof fn lemma_top_index(items: Seq<(Seq<char>, int)>, k: int)
    requires
        1 <= k <= items.len(),
    ensures
        0 <= top_index(items, k) < k,
    decreases k,
{
    if k > 1 {
        lemma_top_index(items, k - 1);
    }
}

pub open spec fn words_view(v: Seq<Vec<char>>) -> Seq<Seq<char>> {
    v.map_values(|x: Vec<char>| x@)
}

pub open spec fn items_view(v: Seq<(Vec<char>, i128)>) -> Seq<(Seq<char>, int)> {
    v.map_values(|x: (Vec<char>, i128)| (x.0@, x.1 as int))
}

impl Jieba {
    pub open spec fn is_stop(&self, w: Seq<char>) -> bool {
        words_view(self.stop_words@).contains(w)
    }

    pub open spec fn is_candidate(&self, w: Seq<char>) -> bool {
        w.len() >= 2 && !self.is_stop(w)
    }

    pub open spec fn idf_of(&self, w: Seq<char>) -> int {
        find_idf(self.idf@, w, self.idf_default as int)
    }

    /// The distinct candidate words of `ws`, in order of first occurrence.
    pub open spec fn candidates(&self, ws: Seq<Seq<char>>) -> Seq<Seq<char>>
        decreases ws.len(),
    {
        if ws.len() == 0 {
            Seq::empty()
        } else {
            let c = self.candidates(ws.drop_last());
            if self.is_candidate(ws.last()) && !c.contains(ws.last()) {
                c.push(ws.last())
            } else {
                c
            }
        }
    }

    /// Each candidate with its weight: occurrences times IDF.
    pub open spec fn scored(&self, ws: Seq<Seq<char>>) -> Seq<(Seq<char>, int)> {
        self.candidates(ws).map_values(|w: Seq<char>| (w, count(ws, w) * self.idf_of(w)))
    }

    /// The ranked keywords of `s`; a `top_k` of 0 keeps them all.
    pub open spec fn keywords(&self, s: Seq<char>, top_k: int) -> Seq<(Seq<char>, int)> {
        let r = ranked(self.scored(self.cut_words(CutMode::Mixed, s)));
        if top_k == 0 || top_k >= r.len() {
            r
        } else {
            r.take(top_k)
        }
    }

    pub proof fn lemma_candidates(&self, ws: Seq<Seq<char>>)
        ensures
            forall|i: int|
                0 <= i < self.candidates(ws).len() ==> self.is_candidate(#[trigger] self.candidates(ws)[i]),
            forall|i: int, j: int|
                0 <= i < j < self.candidates(ws).len() ==> #[trigger] self.candidates(ws)[i]
                    != #[trigger] self.candidates(ws)[j],
            self.candidates(ws).len() <= ws.len(),
        decreases ws.len(),
    {
        if ws.len() > 0 {
            self.lemma_candidates(ws.drop_last());
        }
    }

    pub proof fn lemma_idf(&self, t: Seq<(Vec<char>, i64)>, w: Seq<char>)
        requires
            0 <= self.idf_default <= IDF_CEIL,
            forall|k: int| 0 <= k < t.len() ==> 0 <= (#[trigger] t[k]).1 <= IDF_CEIL,
        ensures
            0 <= find_idf(t, w, self.idf_default as int) <= IDF_CEIL,
        decreases t.len(),
    {
        if t.len() > 0 {
            assert(0 <= t[t.len() - 1].1 <= IDF_CEIL);
            self.lemma_idf(t.drop_last(), w);
        }
    }

    fn same_word(a: &Vec<char>, b: &Vec<char>) -> (r: bool)
        ensures
            r == (a@ == b@),
    {
        if a.len() != b.len() {
            return false;
        }
        let mut k: usize = 0;
        while k < a.len()
            invariant
                a@.len() == b@.len(),
                k <= a@.len(),
                forall|q: int| 0 <= q < k ==> a@[q] == b@[q],
            decreases a@.len() - k,
        {
            if a[k] != b[k] {
                return false;
            }
            k = k + 1;
        }
        assert(a@ =~= b@);
        true
    }

    fn stop_word(&self, w: &Vec<char>) -> (r: bool)
        ensures
            r == self.is_stop(w@),
    {
        let mut k: usize = 0;
        while k < self.stop_words.len()
            invariant
                k <= self.stop_words@.len(),
                forall|q: int| 0 <= q < k ==> self.stop_words@[q]@ != w@,
            decreases self.stop_words@.len() - k,
        {
            if Jieba::same_word(&self.stop_words[k], w) {
                assert(words_view(self.stop_words@)[k as int] == w@);
                return true;
            }
            k = k + 1;
        }
        assert(!words_view(self.stop_words@).contains(w@)) by {
            if words_view(self.stop_words@).contains(w@) {
                let q = choose|q: int| 0 <= q < words_view(self.stop_words@).len() && words_view(self.stop_words@)[q] == w@;
                assert(self.stop_words@[q]@ == w@);
            }
        }
        false
    }

    fn idf_weight(&self, w: &Vec<char>) -> (r: i64)
        requires
            self.wf(),
        ensures
            r as int == self.idf_of(w@),
            0 <= r <= IDF_CEIL,
    {
        proof {
            self.lemma_idf(self.idf@, w@);
        }
        let mut k: usize = self.idf.len();
        assert(self.idf@.subrange(0, k as int) =~= self.idf@);
        while k > 0
            invariant
                self.wf(),
                k <= self.idf@.len(),
                self.idf_of(w@) == find_idf(self.idf@.subrange(0, k as int), w@, self.idf_default as int),
            decreases k,
        {
            assert(self.idf@.subrange(0, k as int).drop_last() =~= self.idf@.subrange(0, k - 1));
            if Jieba::same_word(&self.idf[k - 1].0, w) {
                assert(0 <= self.idf@[k - 1].1 <= IDF_CEIL);
                return self.idf[k - 1].1;
            }
            k = k - 1;
        }
        assert(self.idf@.subrange(0, 0) =~= Seq::<(Vec<char>, i64)>::empty());
        self.idf_default
    }

    /// The code points of `s[a..b]`.
    fn copy_range(s: &Vec<char>, a: usize, b: usize) -> (r: Vec<char>)
        requires
            a <= b <= s@.len(),
        ensures
            r@ == s@.subrange(a as int, b as int),
    {
        let mut w: Vec<char> = Vec::new();
        let mut t = a;
        while t < b
            invariant
                a <= t <= b <= s@.len(),
                w@ == s@.subrange(a as int, t as int),
            decreases b - t,
        {
            w.push(s[t]);
            assert(s@.subrange(a as int, t + 1) =~= s@.subrange(a as int, t as int).push(s@[t as int]));
            t = t + 1;
        }
        w
    }

    /// The candidates of `ws` with their numbers of occurrences.
    fn candidate_counts(&self, s: &Vec<char>, sp: &Vec<(usize, usize)>, Ghost(ws): Ghost<Seq<Seq<char>>>) -> (r: (
        Vec<Vec<char>>,
        Vec<usize>,
    ))
        requires
            ws == words(s@, pairs(sp@)),
            within(pairs(sp@), 0, s@.len() as int),
        ensures
            words_view(r.0@) == self.candidates(ws),
            r.1@.len() == r.0@.len(),
            forall|i: int| 0 <= i < r.1@.len() ==> #[trigger] r.1@[i] as int == count(ws, r.0@[i]@),
    {
        let mut cands: Vec<Vec<char>> = Vec::new();
        let mut counts: Vec<usize> = Vec::new();
        let mut q: usize = 0;
        while q < sp.len()
            invariant
                q <= sp@.len(),
                ws == words(s@, pairs(sp@)),
                within(pairs(sp@), 0, s@.len() as int),
                words_view(cands@) == self.candidates(ws.take(q as int)),
                counts@.len() == cands@.len(),
                forall|i: int| 0 <= i < counts@.len() ==> #[trigger] counts@[i] as int == count(ws.take(q as int), cands@[i]@),
                forall|i: int| 0 <= i < counts@.len() ==> #[trigger] counts@[i] <= q,
            decreases sp@.len() - q,
        {
            let (a, b) = sp[q];
            assert(pairs(sp@)[q as int] == (a as int, b as int));
            let w = Jieba::copy_range(s, a, b);
            let ghost pre = ws.take(q as int);
            assert(ws.take(q + 1) =~= pre.push(w@));
            assert(ws.take(q + 1).drop_last() =~= pre);
            proof {
                self.lemma_candidates(pre);
            }
            let ghost cv = words_view(cands@);
            if w.len() >= 2 && !self.stop_word(&w) {
                let mut i: usize = 0;
                let mut found = false;
                while i < cands.len() && !found
                    invariant
                        i <= cands@.len(),
                        found ==> i < cands@.len() && cands@[i as int]@ == w@,
                        !found ==> forall|j: int| 0 <= j < i ==> cands@[j]@ != w@,
                    decreases cands@.len() - i + (if found { 0int } else { 1int }),
                {
                    if Jieba::same_word(&cands[i], &w) {
                        found = true;
                    } else {
                        i = i + 1;
                    }
                }
                if found {
                    assert(cv[i as int] == w@);
                    assert(cv.contains(w@));
                    let c = counts[i];
                    counts.set(i, c + 1);
                    assert forall|j: int| 0 <= j < counts@.len() implies #[trigger] counts@[j] as int == count(
                        ws.take(q + 1),
                        cands@[j]@,
                    ) by {
                        assert(cv[j] == cands@[j]@);
                        if j != i {
                            assert(cv[j] != cv[i as int]);
                        }
                    }
                } else {
                    assert(!cv.contains(w@)) by {
                        if cv.contains(w@) {
                            let j = choose|j: int| 0 <= j < cv.len() && cv[j] == w@;
                            assert(cands@[j]@ == w@);
                        }
                    }
                    let ghost wv = w@;
                    cands.push(w);
                    counts.push(1);
                    assert(words_view(cands@) =~= cv.push(wv));
                    assert forall|j: int| 0 <= j < counts@.len() implies #[trigger] counts@[j] as int == count(
                        ws.take(q + 1),
                        cands@[j]@,
                    ) by {
                        if j < cv.len() {
                            assert(cv[j] == cands@[j]@);
                            assert(cands@[j]@ != wv);
                        } else {
                            lemma_count_absent(self, pre, wv);
                            lemma_count_zero(pre, wv);
                        }
                    }
                }
            } else {
                assert forall|j: int| 0 <= j < counts@.len() implies #[trigger] counts@[j] as int == count(
                    ws.take(q + 1),
                    cands@[j]@,
                ) by {
                    assert(cv[j] == cands@[j]@);
                    assert(self.is_candidate(cv[j]));
                }
            }
            q = q + 1;
        }
        assert(ws.take(sp@.len() as int) =~= ws);
        (cands, counts)
    }

    /// Each candidate with its weight.
    fn score(&self, cands: &Vec<Vec<char>>, counts: &Vec<usize>, Ghost(ws): Ghost<Seq<Seq<char>>>) -> (r: Vec<(Vec<char>, i128)>)
        requires
            self.wf(),
            words_view(cands@) == self.candidates(ws),
            counts@.len() == cands@.len(),
            forall|j: int| 0 <= j < counts@.len() ==> #[trigger] counts@[j] as int == count(ws, cands@[j]@),
        ensures
            items_view(r@) == self.scored(ws),
    {
        let ghost cw = self.candidates(ws);
        let mut items: Vec<(Vec<char>, i128)> = Vec::new();
        let mut i: usize = 0;
        while i < cands.len()
            invariant
                self.wf(),
                i <= cands@.len(),
                words_view(cands@) == cw,
                cw == self.candidates(ws),
                counts@.len() == cands@.len(),
                forall|j: int| 0 <= j < counts@.len() ==> #[trigger] counts@[j] as int == count(ws, cands@[j]@),
                items_view(items@) == self.scored(ws).take(i as int),
            decreases cands@.len() - i,
        {
            let idf = self.idf_weight(&cands[i]);
            let c = counts[i];
            assert((c as int) * (idf as int) <= 18446744073709551615 * 1099511627776) by (nonlinear_arith)
                requires
                    0 <= c <= 18446744073709551615,
                    0 <= idf <= 1099511627776,
            ;
            assert(0 <= (c as int) * (idf as int)) by (nonlinear_arith)
                requires
                    0 <= c,
                    0 <= idf,
            ;
            let v: i128 = (c as i128) * (idf as i128);
            assert(cw[i as int] == cands@[i as int]@);
            let ghost before = items@;
            let w = &cands[i];
            let wc = Jieba::copy_range(w, 0, w.len());
            assert(w@.subrange(0, w@.len() as int) =~= w@);
            items.push((wc, v));
            assert(self.scored(ws)[i as int] == (cw[i as int], count(ws, cw[i as int]) * self.idf_of(cw[i as int])));
            assert(items_view(items@) =~= items_view(before).push((cw[i as int], v as int)));
            assert(self.scored(ws).take(i + 1) =~= self.scored(ws).take(i as int).push(self.scored(ws)[i as int]));
            i = i + 1;
        }
        assert(self.scored(ws).take(cands@.len() as int) =~= self.scored(ws));
        items
    }

    /// The first `top_k` items of the ranking (all when `top_k` is 0).
    fn rank(items: Vec<(Vec<char>, i128)>, top_k: usize) -> (r: Vec<(Vec<char>, i128)>)
        ensures
            items_view(r@) == (if top_k == 0 || top_k >= ranked(items_view(items@)).len() {
                ranked(items_view(items@))
            } else {
                ranked(items_view(items@)).take(top_k as int)
            }),
    {
        let ghost all = items_view(items@);
        let mut items = items;
        let mut out: Vec<(Vec<char>, i128)> = Vec::new();
        proof {
            lemma_ranked_len(all);
        }
        while items.len() > 0 && (top_k == 0 || out.len() < top_k)
            invariant
                ranked(all) == items_view(out@) + ranked(items_view(items@)),
                ranked(all).len() == out@.len() + items@.len(),
                top_k > 0 ==> out@.len() <= top_k,
            decreases items@.len(),
        {
            let ghost iv = items_view(items@);
            proof {
                lemma_top_index(iv, iv.len() as int);
                lemma_ranked_len(iv);
                lemma_ranked_len(iv.remove(top_index(iv, iv.len() as int)));
            }
            let mut p: usize = 0;
            let mut k: usize = 1;
            while k < items.len()
                invariant
                    iv == items_view(items@),
                    1 <= k <= items@.len(),
                    p as int == top_index(iv, k as int),
                    p < k,
                decreases items@.len() - k,
            {
                if items[k].1 > items[p].1 {
                    p = k;
                }
                k = k + 1;
            }
            let ghost before = out@;
            let it = items.remove(p);
            assert(items_view(items@) =~= iv.remove(p as int));
            out.push(it);
            assert(items_view(out@) =~= items_view(before).push(iv[p as int]));
            assert(ranked(iv) == seq![iv[p as int]] + ranked(iv.remove(p as int)));
            assert(items_view(out@) + ranked(items_view(items@)) =~= items_view(before) + ranked(iv));
        }
        proof {
            let r = ranked(all);
            if items@.len() == 0 {
                assert(ranked(items_view(items@)) =~= Seq::<(Seq<char>, int)>::empty());
                assert(r =~= items_view(out@));
            } else {
                assert(r.take(top_k as int) =~= items_view(out@));
            }
        }
        out
    }

    /// The ranked keywords of `text` with their weights.
    fn ranked_keywords(&self, text: &str, top_k: usize) -> (r: Vec<(Vec<char>, i128)>)
        requires
            self.wf(),
        ensures
            items_view(r@) == self.keywords(text@, top_k as int),
    {
        let s = chars_of(text);
        let sp = self.cut_spans(&CutMode::Mixed, &s);
        proof {
            self.lemma_spans_from(CutMode::Mixed, s@, 0);
        }
        let ghost ws = words(s@, pairs(sp@));
        let (cands, counts) = self.candidate_counts(&s, &sp, Ghost(ws));
        let items = self.score(&cands, &counts, Ghost(ws));
        Jieba::rank(items, top_k)
    }
}

pub proof fn lemma_ranked_len(items: Seq<(Seq<char>, int)>)
    ensures
        ranked(items).len() == items.len(),
    decreases items.len(),
{
    if items.len() > 0 {
        let p = top_index(items, items.len() as int);
        lemma_top_index(items, items.len() as int);
        lemma_ranked_len(items.remove(p));
    }
}

pub proof fn lemma_count_zero(ws: Seq<Seq<char>>, w: Seq<char>)
    requires
        !ws.contains(w),
    ensures
        count(ws, w) == 0,
    decreases ws.len(),
{
    if ws.len() > 0 {
        assert(!ws.drop_last().contains(w)) by {
            if ws.drop_last().contains(w) {
                let q = choose|q: int| 0 <= q < ws.drop_last().len() && ws.drop_last()[q] == w;
                assert(ws[q] == w);
            }
        }
        assert(ws[ws.len() - 1] != w);
        lemma_count_zero(ws.drop_last(), w);
    }
}

/// A candidate word that is not among the candidates of `ws` does not occur in `ws`.
pub proof fn lemma_count_absent(j: &Jieba, ws: Seq<Seq<char>>, w: Seq<char>)
    requires
        j.is_candidate(w),
        !j.candidates(ws).contains(w),
    ensures
        !ws.contains(w),
    decreases ws.len(),
{
    if ws.len() > 0 {
        let c = j.candidates(ws.drop_last());
        if c.contains(w) {
            let q = choose|q: int| 0 <= q < c.len() && c[q] == w;
            assert(j.candidates(ws)[q] == w);
        }
        lemma_count_absent(j, ws.drop_last(), w);
        if ws.contains(w) {
            let q = choose|q: int| 0 <= q < ws.len() && ws[q] == w;
            if q < ws.len() - 1 {
                assert(ws.drop_last()[q] == w);
            } else {
                assert(j.candidates(ws) == c.push(w));
                assert(j.candidates(ws)[c.len() as int] == w);
            }
        }
    }
}

impl Jieba {
    /// The `top_k` words of highest weight in `text` (all of them when
    /// `top_k` is 0), heaviest first; equal weights keep the order in which
    /// the words first occur.
    pub fn extract(&self, text: &str, top_k: usize) -> (r: Vec<String>)
        requires
            self.wf(),
        ensures
            r@.len() == self.keywords(text@, top_k as int).len(),
            forall|k: int| 0 <= k < r@.len() ==> (#[trigger] r@[k])@ == self.keywords(text@, top_k as int)[k].0,
    {
        let items = self.ranked_keywords(text, top_k);
        let mut out: Vec<String> = Vec::new();
        let mut k: usize = 0;
        while k < items.len()
            invariant
                k <= items@.len(),
                out@.len() == k,
                items_view(items@) == self.keywords(text@, top_k as int),
                forall|q: int| 0 <= q < k ==> (#[trigger] out@[q])@ == items@[q].0@,
            decreases items@.len() - k,
        {
            let w = &items[k].0;
            out.push(string_of(w, 0, w.len()));
            assert(w@.subrange(0, w@.len() as int) =~= w@);
            k = k + 1;
        }
        assert forall|q: int| 0 <= q < out@.len() implies (#[trigger] out@[q])@ == self.keywords(text@, top_k as int)[q].0 by {
            assert(items_view(items@)[q] == (items@[q].0@, items@[q].1 as int));
        }
        out
    }

    /// As `extract`, with each word's weight.
    pub fn extract_with_weight(&self, text: &str, top_k: usize) -> (r: Vec<WordWeight>)
        requires
            self.wf(),
        ensures
            r@.len() == self.keywords(text@, top_k as int).len(),
            forall|k: int|
                0 <= k < r@.len() ==> (#[trigger] r@[k]).word@ == self.keywords(text@, top_k as int)[k].0
                    && r@[k].weight as int == self.keywords(text@, top_k as int)[k].1,
    {
        let items = self.ranked_keywords(text, top_k);
        let mut out: Vec<WordWeight> = Vec::new();
        let mut k: usize = 0;
        while k < items.len()
            invariant
                k <= items@.len(),
                out@.len() == k,
                items_view(items@) == self.keywords(text@, top_k as int),
                forall|q: int| 0 <= q < k ==> (#[trigger] out@[q]).word@ == items@[q].0@ && out@[q].weight == items@[q].1,
            decreases items@.len() - k,
        {
            let w = &items[k].0;
            out.push(WordWeight { word: string_of(w, 0, w.len()), weight: items[k].1 });
            assert(w@.subrange(0, w@.len() as int) =~= w@);
            k = k + 1;
        }
        assert forall|q: int| 0 <= q < out@.len() implies (#[trigger] out@[q]).word@ == self.keywords(text@, top_k as int)[q].0
            && out@[q].weight as int == self.keywords(text@, top_k as int)[q].1 by {
            assert(items_view(items@)[q] == (items@[q].0@, items@[q].1 as int));
        }
        out
    }
}

} // verus!
