//! The segmentation engine and its cut modes.
use vstd::prelude::*;
use crate::dict::{Dictionary, weight_ok};
use crate::hmm::HmmModel;
use crate::route::{pairs, route, route_spans, lemma_route_chain};
use crate::mixed::{hmm_cut, hmm_cut_spans, mix, mix_spans, lemma_hmm_cut_chain, lemma_mix_chain};
use crate::modes::{full_cut, full_spans, search_cut, search_spans, lemma_full_within, lemma_search_within};
use crate::tiling::{chain, within, words, lemma_chain_concat, lemma_chain_within, lemma_chain_one, lemma_within_concat, lemma_within_widen};
use crate::text::{chars_of, string_of};
use crate::small::{small_cut, small_spans, lemma_small_chain};

verus! {

/// Largest inverse document frequency the keyword table may hold.
pub const IDF_CEIL: i64 = 1099511627776;

/// Length limit that lets every dictionary word through.
pub const NO_LIMIT: usize = usize::MAX;

pub struct Jieba {
    pub dict: Dictionary,
    pub model: HmmModel,
    /// Inverse document frequency of known words, in fixed point.
    pub idf: Vec<(Vec<char>, i64)>,
    /// Inverse document frequency of words the table does not hold.
    pub idf_default: i64,
    pub stop_words: Vec<Vec<char>>,
    /// Code points that split a text into blocks before segmentation.
    pub separators: Vec<char>,
    /// Weight given to a word added with `add_user_word`.
    pub user_weight: i64,
}

/// How a block of text is segmented.
pub enum CutMode {
    /// Maximum-probability route over dictionary words.
    Exact,
    /// The route, with runs of single code points re-cut by the HMM.
    Mixed,
    /// Every dictionary word.
    Full,
    /// Short dictionary words inside each long word, then the word; over the
    /// mixed cut when the flag is set, else over the route.
    Search(bool),
    /// The HMM alone.
    Hmm,
    /// The route, with each word longer than the given length cut again
    /// inside itself: along its best route over words of at most that
    /// length, or into slices of that length when that route holds no
    /// dictionary word of two or more code points.
    Small(usize),
}

impl CutMode {
    /// Whether the mode's spans tile the text.
    pub open spec fn tiles(self) -> bool {
        match self {
            CutMode::Full => false,
            CutMode::Search(_) => false,
            _ => true,
        }
    }
}

/// First position at or after `i` holding a separator, or the end.
pub open spec fn block_end(seps: Seq<char>, s: Seq<char>, i: int) -> int
    decreases s.len() - i,
{
    if i >= s.len() || seps.contains(s[i]) {
        i
    } else {
        block_end(seps, s, i + 1)
    }
}

pub proof fn lemma_block_end(seps: Seq<char>, s: Seq<char>, i: int)
    requires
        0 <= i <= s.len(),
    ensures
        i <= block_end(seps, s, i) <= s.len(),
        block_end(seps, s, i) < s.len() ==> seps.contains(s[block_end(seps, s, i)]),
        forall|q: int| i <= q < block_end(seps, s, i) ==> !seps.contains(#[trigger] s[q]),
    decreases s.len() - i,
{
    if i < s.len() && !seps.contains(s[i]) {
        lemma_block_end(seps, s, i + 1);
    }
}

/// The words of `v`, as code-point sequences.
pub open spec fn strs(v: Seq<String>) -> Seq<Seq<char>> {
    v.map_values(|x: String| x@)
}

impl Jieba {
    pub open spec fn wf(&self) -> bool {
        &&& self.dict.wf()
        &&& self.model.wf()
        &&& weight_ok(self.user_weight as int)
        &&& self.dict.min_weight <= self.user_weight
        &&& forall|k: int| 0 <= k < self.dict.entries@.len() ==> (#[trigger] self.dict.entries@[k]).weight <= self.user_weight
        &&& 0 <= self.idf_default <= IDF_CEIL
        &&& forall|k: int| 0 <= k < self.idf@.len() ==> 0 <= (#[trigger] self.idf@[k]).1 <= IDF_CEIL
    }

    /// Spans of one block `s[lo..hi]`, which holds no separator.
    pub open spec fn block_spans(&self, mode: CutMode, s: Seq<char>, lo: int, hi: int) -> Seq<(int, int)> {
        let exact = route_spans(self.dict, s, hi, NO_LIMIT as int, lo);
        let mixed = mix_spans(self.model, s, exact, 0);
        match mode {
            CutMode::Exact => exact,
            CutMode::Mixed => mixed,
            CutMode::Full => full_spans(self.dict, s, hi, lo, lo + 1, lo),
            CutMode::Search(h) => search_spans(self.dict, s, if h { mixed } else { exact }),
            CutMode::Hmm => hmm_cut_spans(self.model, s, hi, lo),
            CutMode::Small(k) => small_spans(self.dict, s, exact, k as int),
        }
    }

    /// Spans of `s[i..]`: each separator is a word of its own, and each block
    /// between separators is cut in `mode`.
    pub open spec fn spans_from(&self, mode: CutMode, s: Seq<char>, i: int) -> Seq<(int, int)>
        decreases s.len() - i,
    {
        if i >= s.len() {
            Seq::empty()
        } else {
            let e = block_end(self.separators@, s, i);
            if e <= i {
                seq![(i, i + 1)] + self.spans_from(mode, s, i + 1)
            } else if e > s.len() {
                Seq::empty()
            } else {
                self.block_spans(mode, s, i, e) + self.spans_from(mode, s, e)
            }
        }
    }

    /// Spans of the whole text in `mode`.
    pub open spec fn spans(&self, mode: CutMode, s: Seq<char>) -> Seq<(int, int)> {
        self.spans_from(mode, s, 0)
    }

    /// The words of the whole text in `mode`.
    pub open spec fn cut_words(&self, mode: CutMode, s: Seq<char>) -> Seq<Seq<char>> {
        words(s, self.spans(mode, s))
    }

    pub proof fn lemma_block(&self, mode: CutMode, s: Seq<char>, lo: int, hi: int)
        requires
            self.wf(),
            0 <= lo < hi <= s.len(),
        ensures
            within(self.block_spans(mode, s, lo, hi), lo, hi),
            mode.tiles() ==> chain(self.block_spans(mode, s, lo, hi), lo, hi),
    {
        let exact = route_spans(self.dict, s, hi, NO_LIMIT as int, lo);
        lemma_route_chain(self.dict, s, hi, NO_LIMIT as int, lo);
        lemma_chain_within(exact, lo, hi);
        lemma_mix_chain(self.model, s, exact, lo, hi, 0);
        let mixed = mix_spans(self.model, s, exact, 0);
        lemma_chain_within(mixed, lo, hi);
        match mode {
            CutMode::Exact => {},
            CutMode::Mixed => {},
            CutMode::Full => {
                lemma_full_within(self.dict, s, hi, lo, lo + 1, lo);
            },
            CutMode::Search(h) => {
                lemma_search_within(self.dict, s, if h { mixed } else { exact }, lo, hi);
            },
            CutMode::Hmm => {
                lemma_hmm_cut_chain(self.model, s, hi, lo);
                lemma_chain_within(hmm_cut_spans(self.model, s, hi, lo), lo, hi);
            },
            CutMode::Small(k) => {
                lemma_small_chain(self.dict, s, exact, lo, hi, k as int);
                lemma_chain_within(small_spans(self.dict, s, exact, k as int), lo, hi);
            },
        }
    }

    pub proof fn lemma_spans_from(&self, mode: CutMode, s: Seq<char>, i: int)
        requires
            self.wf(),
            0 <= i <= s.len(),
        ensures
            within(self.spans_from(mode, s, i), i, s.len() as int),
            mode.tiles() ==> chain(self.spans_from(mode, s, i), i, s.len() as int),
        decreases s.len() - i,
    {
        if i < s.len() {
            lemma_block_end(self.separators@, s, i);
            let e = block_end(self.separators@, s, i);
            let n = s.len() as int;
            if e <= i {
                self.lemma_spans_from(mode, s, i + 1);
                lemma_chain_one(i, i + 1);
                lemma_within_widen(self.spans_from(mode, s, i + 1), i + 1, n, i, n);
                lemma_within_concat(seq![(i, i + 1)], self.spans_from(mode, s, i + 1), i, n);
                if mode.tiles() {
                    lemma_chain_concat(seq![(i, i + 1)], self.spans_from(mode, s, i + 1), i, i + 1, n);
                }
            } else {
                self.lemma_spans_from(mode, s, e);
                self.lemma_block(mode, s, i, e);
                lemma_within_widen(self.spans_from(mode, s, e), e, n, i, n);
                lemma_within_widen(self.block_spans(mode, s, i, e), i, e, i, n);
                lemma_within_concat(self.block_spans(mode, s, i, e), self.spans_from(mode, s, e), i, n);
                if mode.tiles() {
                    lemma_chain_concat(self.block_spans(mode, s, i, e), self.spans_from(mode, s, e), i, e, n);
                }
            }
        }
    }

    fn is_separator(&self, c: char) -> (r: bool)
        ensures
            r == self.separators@.contains(c),
    {
        let mut k: usize = 0;
        while k < self.separators.len()
            invariant
                k <= self.separators@.len(),
                forall|q: int| 0 <= q < k ==> self.separators@[q] != c,
            decreases self.separators@.len() - k,
        {
            if self.separators[k] == c {
                return true;
            }
            k = k + 1;
        }
        false
    }

    /// Spans of one block `s[lo..hi]`.
    fn cut_block(&self, mode: &CutMode, s: &Vec<char>, lo: usize, hi: usize) -> (r: Vec<(usize, usize)>)
        requires
            self.wf(),
            lo < hi <= s@.len(),
        ensures
            pairs(r@) == self.block_spans(*mode, s@, lo as int, hi as int),
    {
        match mode {
            CutMode::Exact => route(&self.dict, s, lo, hi, NO_LIMIT),
            CutMode::Small(k) => {
                let base = route(&self.dict, s, lo, hi, NO_LIMIT);
                proof {
                    self.lemma_block(CutMode::Exact, s@, lo as int, hi as int);
                    assert forall|q: int| 0 <= q < base@.len() implies (#[trigger] base@[q]).0 <= base@[q].1
                        <= s@.len() by {
                        assert(pairs(base@)[q] == (base@[q].0 as int, base@[q].1 as int));
                    }
                }
                small_cut(&self.dict, s, &base, *k)
            },
            CutMode::Full => full_cut(&self.dict, s, lo, hi),
            CutMode::Hmm => hmm_cut(&self.model, s, lo, hi),
            CutMode::Mixed => self.mixed_block(s, lo, hi),
            CutMode::Search(h) => {
                let base = if *h {
                    self.mixed_block(s, lo, hi)
                } else {
                    route(&self.dict, s, lo, hi, NO_LIMIT)
                };
                proof {
                    self.lemma_block(CutMode::Exact, s@, lo as int, hi as int);
                    self.lemma_block(CutMode::Mixed, s@, lo as int, hi as int);
                    assert forall|k: int| 0 <= k < base@.len() implies (#[trigger] base@[k]).0 <= base@[k].1
                        <= s@.len() by {
                        assert(pairs(base@)[k] == (base@[k].0 as int, base@[k].1 as int));
                    }
                }
                search_cut(&self.dict, s, &base)
            },
        }
    }

    fn mixed_block(&self, s: &Vec<char>, lo: usize, hi: usize) -> (r: Vec<(usize, usize)>)
        requires
            self.wf(),
            lo < hi <= s@.len(),
        ensures
            pairs(r@) == self.block_spans(CutMode::Mixed, s@, lo as int, hi as int),
    {
        let sp = route(&self.dict, s, lo, hi, NO_LIMIT);
        proof {
            self.lemma_block(CutMode::Exact, s@, lo as int, hi as int);
            let ps = pairs(sp@);
            assert forall|k: int| 0 <= k < sp@.len() implies (#[trigger] sp@[k]).0 <= sp@[k].1
                <= s@.len() by {
                assert(ps[k] == (sp@[k].0 as int, sp@[k].1 as int));
            }
            assert forall|k: int| 0 < k < sp@.len() implies sp@[k - 1].1 == (#[trigger] sp@[k]).0 by {
                assert(ps[k] == (sp@[k].0 as int, sp@[k].1 as int));
                assert(ps[k - 1] == (sp@[k - 1].0 as int, sp@[k - 1].1 as int));
            }
        }
        mix(&self.model, s, &sp)
    }

    /// Spans of the whole text `s` in `mode`.
    pub fn cut_spans(&self, mode: &CutMode, s: &Vec<char>) -> (r: Vec<(usize, usize)>)
        requires
            self.wf(),
        ensures
            pairs(r@) == self.spans(*mode, s@),
    {
        let n = s.len();
        let mut out: Vec<(usize, usize)> = Vec::new();
        let mut i: usize = 0;
        while i < n
            invariant
                self.wf(),
                n == s@.len(),
                i <= n,
                self.spans(*mode, s@) == pairs(out@) + self.spans_from(*mode, s@, i as int),
            decreases n - i,
        {
            let ghost before = out@;
            proof {
                lemma_block_end(self.separators@, s@, i as int);
            }
            let mut e = i;
            while e < n && !self.is_separator(s[e])
                invariant
                    i <= e <= n,
                    n == s@.len(),
                    block_end(self.separators@, s@, i as int) == block_end(self.separators@, s@, e as int),
                decreases n - e,
            {
                e = e + 1;
            }
            if e == i {
                out.push((i, i + 1));
                assert(pairs(out@) =~= pairs(before) + seq![(i as int, i + 1)]);
                i = i + 1;
            } else {
                let v = self.cut_block(mode, s, i, e);
                crate::mixed::append_spans(&mut out, &v);
                assert(pairs(out@) =~= pairs(before) + pairs(v@));
                i = e;
            }
        }
        assert(pairs(out@) + Seq::<(int, int)>::empty() =~= pairs(out@));
        out
    }

    /// The words that `sp` cuts out of `s`.
    pub fn span_strings(s: &Vec<char>, sp: &Vec<(usize, usize)>) -> (r: Vec<String>)
        requires
            within(pairs(sp@), 0, s@.len() as int),
        ensures
            strs(r@) == words(s@, pairs(sp@)),
    {
        let mut out: Vec<String> = Vec::new();
        let mut k: usize = 0;
        while k < sp.len()
            invariant
                k <= sp@.len(),
                within(pairs(sp@), 0, s@.len() as int),
                strs(out@) == words(s@, pairs(sp@).subrange(0, k as int)),
            decreases sp@.len() - k,
        {
            let (a, b) = sp[k];
            assert(pairs(sp@)[k as int] == (a as int, b as int));
            let w = string_of(s, a, b);
            let ghost before = out@;
            let ghost ws = w@;
            out.push(w);
            assert(strs(out@) =~= strs(before).push(ws));
            assert(words(s@, pairs(sp@).subrange(0, k + 1)) =~= words(s@, pairs(sp@).subrange(0, k as int)).push(
                s@.subrange(a as int, b as int),
            ));
            k = k + 1;
        }
        assert(pairs(sp@).subrange(0, sp@.len() as int) =~= pairs(sp@));
        out
    }

    /// The words of `text` in `mode`.
    pub fn cut_text(&self, mode: &CutMode, text: &str) -> (r: Vec<String>)
        requires
            self.wf(),
        ensures
            strs(r@) == self.cut_words(*mode, text@),
    {
        let s = chars_of(text);
        let sp = self.cut_spans(mode, &s);
        proof {
            self.lemma_spans_from(*mode, s@, 0);
        }
        Jieba::span_strings(&s, &sp)
    }

    /// Cuts `text` along its most probable route; with `hmm`, runs of single
    /// code points are re-cut by the HMM.
    pub fn cut(&self, text: &str, hmm: bool) -> (r: Vec<String>)
        requires
            self.wf(),
        ensures
            strs(r@) == self.cut_words(if hmm { CutMode::Mixed } else { CutMode::Exact }, text@),
    {
        if hmm {
            self.cut_text(&CutMode::Mixed, text)
        } else {
            self.cut_text(&CutMode::Exact, text)
        }
    }

    /// Every dictionary word of `text`.
    pub fn cut_all(&self, text: &str) -> (r: Vec<String>)
        requires
            self.wf(),
        ensures
            strs(r@) == self.cut_words(CutMode::Full, text@),
    {
        self.cut_text(&CutMode::Full, text)
    }

    /// Cuts `text` for a search index: the short dictionary words inside each
    /// word, then the word.
    pub fn cut_for_search(&self, text: &str, hmm: bool) -> (r: Vec<String>)
        requires
            self.wf(),
        ensures
            strs(r@) == self.cut_words(CutMode::Search(hmm), text@),
    {
        self.cut_text(&CutMode::Search(hmm), text)
    }

    /// Cuts `text` with the HMM alone.
    pub fn cut_hmm(&self, text: &str) -> (r: Vec<String>)
        requires
            self.wf(),
        ensures
            strs(r@) == self.cut_words(CutMode::Hmm, text@),
    {
        self.cut_text(&CutMode::Hmm, text)
    }

    /// Cuts `text` as `cut` does without the HMM, then cuts each word longer
    /// than `max_word_len` code points again inside itself: at dictionary
    /// words of at most that length, or into slices of that length when none
    /// fits.
    pub fn cut_small(&self, text: &str, max_word_len: usize) -> (r: Vec<String>)
        requires
            self.wf(),
        ensures
            strs(r@) == self.cut_words(CutMode::Small(max_word_len), text@),
    {
        self.cut_text(&CutMode::Small(max_word_len), text)
    }
}

} // verus!
