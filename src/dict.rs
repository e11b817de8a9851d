//! The word dictionary: words with a fixed-point log-probability and a
//! part-of-speech tag. A later entry for the same word shadows an earlier one,
//! so inserting a user word is a push.
use vstd::prelude::*;

verus! {

/// The lowest log-probability an entry or a model parameter may carry.
pub const WEIGHT_FLOOR: i64 = -1099511627776;

pub struct DictEntry {
    pub word: Vec<char>,
    /// Log-probability, in fixed point.
    pub weight: i64,
    pub tag: String,
}

/// Number of buckets of the first-code-point index.
pub const BUCKETS: usize = 4096;

pub struct Dictionary {
    pub entries: Vec<DictEntry>,
    /// Weight of a single code point that no entry holds.
    pub min_weight: i64,
    /// No entry is longer than this.
    pub max_len: usize,
    /// For each bucket, in ascending order, the entries whose word starts
    /// with a code point of that bucket.
    pub index: Vec<Vec<usize>>,
    /// Position of each entry in its bucket.
    pub slot: Vec<usize>,
}

/// Bucket of words that start with `c`.
pub open spec fn bucket_of(c: char) -> int {
    (c as u32) as int % (BUCKETS as int)
}

/// Index of the last entry whose word is `w`.
pub open spec fn find_entry(es: Seq<DictEntry>, w: Seq<char>) -> Option<int>
    decreases es.len(),
{
    if es.len() == 0 {
        None
    } else if es.last().word@ == w {
        Some(es.len() - 1)
    } else {
        find_entry(es.drop_last(), w)
    }
}

/// `index` and `slot` index the entries `es` by the bucket of their first
/// code point.
pub open spec fn indexed(es: Seq<DictEntry>, index: Seq<Vec<usize>>, slot: Seq<usize>) -> bool {
    &&& index.len() == BUCKETS
    &&& slot.len() == es.len()
    &&& forall|k: int|
        0 <= k < es.len() ==> {
            &&& 0 <= bucket_of(es[k].word@[0]) < BUCKETS
            &&& #[trigger] slot[k] < index[bucket_of(es[k].word@[0])]@.len()
            &&& index[bucket_of(es[k].word@[0])]@[slot[k] as int] == k
        }
    &&& forall|b: int, t: int|
        0 <= b < BUCKETS && 0 <= t < index[b]@.len() ==> {
            &&& (#[trigger] index[b]@[t]) < es.len()
            &&& es[index[b]@[t] as int].word@.len() >= 1
            &&& bucket_of(es[index[b]@[t] as int].word@[0]) == b
        }
    &&& forall|b: int, t1: int, t2: int|
        0 <= b < BUCKETS && 0 <= t1 < t2 < index[b]@.len() ==> #[trigger] index[b]@[t1] < #[trigger] index[b]@[t2]
}

/// The last entry for `w` is the entry for `w` after which no entry holds `w`.
pub proof fn lemma_find_entry_last(es: Seq<DictEntry>, w: Seq<char>)
    ensures
        find_entry(es, w) is Some ==> forall|k: int| find_entry(es, w)->0 < k < es.len() ==> #[trigger] es[k].word@ != w,
        find_entry(es, w) is None ==> forall|k: int| 0 <= k < es.len() ==> #[trigger] es[k].word@ != w,
    decreases es.len(),
{
    if es.len() > 0 {
        let pre = es.drop_last();
        lemma_find_entry_last(pre, w);
        lemma_find_entry_bounds(es, w);
        lemma_find_entry_bounds(pre, w);
        if es.last().word@ != w {
            if find_entry(es, w) is Some {
                assert forall|k: int| find_entry(es, w)->0 < k < es.len() implies #[trigger] es[k].word@ != w by {
                    if k < es.len() - 1 {
                        assert(es[k] == pre[k]);
                    }
                }
            } else {
                assert forall|k: int| 0 <= k < es.len() implies #[trigger] es[k].word@ != w by {
                    if k < es.len() - 1 {
                        assert(es[k] == pre[k]);
                    }
                }
            }
        }
    }
}

pub open spec fn weight_ok(w: int) -> bool {
    WEIGHT_FLOOR <= w <= 0
}

pub proof fn lemma_find_entry_bounds(es: Seq<DictEntry>, w: Seq<char>)
    ensures
        find_entry(es, w) is Some ==> 0 <= find_entry(es, w)->0 < es.len() && es[find_entry(
            es,
            w,
        )->0].word@ == w,
    decreases es.len(),
{
    if es.len() > 0 && es.last().word@ != w {
        lemma_find_entry_bounds(es.drop_last(), w);
    }
}

impl Dictionary {
    pub open spec fn wf(&self) -> bool {
        &&& weight_ok(self.min_weight as int)
        &&& forall|k: int|
            0 <= k < self.entries@.len() ==> {
                &&& 1 <= #[trigger] self.entries@[k].word@.len() <= self.max_len
                &&& weight_ok(self.entries@[k].weight as int)
            }
        &&& indexed(self.entries@, self.index@, self.slot@)
    }

    /// The entry for `w`, if any.
    pub open spec fn lookup(&self, w: Seq<char>) -> Option<int> {
        find_entry(self.entries@, w)
    }

    pub open spec fn contains(&self, w: Seq<char>) -> bool {
        self.lookup(w) is Some
    }

    /// Weight of the word `w`: its entry's, or the floor for unknown words.
    pub open spec fn weight_of(&self, w: Seq<char>) -> int {
        match self.lookup(w) {
            Some(k) => self.entries@[k].weight as int,
            None => self.min_weight as int,
        }
    }

    pub proof fn lemma_lookup(&self, w: Seq<char>)
        requires
            self.wf(),
        ensures
            self.lookup(w) is Some ==> {
                let k = self.lookup(w)->0;
                &&& 0 <= k < self.entries@.len()
                &&& self.entries@[k].word@ == w
                &&& 1 <= w.len() <= self.max_len
            },
            weight_ok(self.weight_of(w)),
    {
        lemma_find_entry_bounds(self.entries@, w);
        if self.lookup(w) is Some {
            let k = self.lookup(w)->0;
            assert(1 <= self.entries@[k].word@.len() <= self.max_len);
        }
    }

    /// A dictionary of `entries`, indexed.
    pub fn build(entries: Vec<DictEntry>, min_weight: i64, max_len: usize) -> (r: Dictionary)
        requires
            weight_ok(min_weight as int),
            forall|k: int|
                0 <= k < entries@.len() ==> {
                    &&& 1 <= #[trigger] entries@[k].word@.len() <= max_len
                    &&& weight_ok(entries@[k].weight as int)
                },
        ensures
            r.wf(),
            r.entries@ == entries@,
            r.min_weight == min_weight,
            r.max_len == max_len,
    {
        let mut index: Vec<Vec<usize>> = Vec::new();
        let mut b: usize = 0;
        while b < BUCKETS
            invariant
                b <= BUCKETS,
                index@.len() == b,
                forall|q: int| 0 <= q < b ==> (#[trigger] index@[q])@.len() == 0,
            decreases BUCKETS - b,
        {
            index.push(Vec::new());
            b = b + 1;
        }
        let mut slot: Vec<usize> = Vec::new();
        let mut k: usize = 0;
        let ghost es = entries@;
        while k < entries.len()
            invariant
                es == entries@,
                k <= es.len(),
                forall|q: int| 0 <= q < es.len() ==> 1 <= #[trigger] es[q].word@.len(),
                indexed(es.take(k as int), index@, slot@),
            decreases es.len() - k,
        {
            let ghost pre = es.take(k as int);
            let ghost post = es.take(k + 1);
            let ghost oi = index@;
            let ghost os = slot@;
            assert(1 <= es[k as int].word@.len());
            let bb = (entries[k].word[0] as u32 % 4096) as usize;
            let mut bk: Vec<usize> = Vec::new();
            index.set_and_swap(bb, &mut bk);
            let ghost old_bk = bk@;
            bk.push(k);
            let pos = bk.len() - 1;
            index.set_and_swap(bb, &mut bk);
            slot.push(pos);
            proof {
                assert forall|q: int| 0 <= q < post.len() implies {
                    &&& 0 <= bucket_of(post[q].word@[0]) < BUCKETS
                    &&& #[trigger] slot@[q] < index@[bucket_of(post[q].word@[0])]@.len()
                    &&& index@[bucket_of(post[q].word@[0])]@[slot@[q] as int] == q
                } by {
                    if q < pre.len() {
                        assert(post[q] == pre[q]);
                        assert(os[q] < oi[bucket_of(pre[q].word@[0])]@.len());
                    }
                }
                assert forall|c: int, t: int| 0 <= c < BUCKETS && 0 <= t < index@[c]@.len() implies {
                    &&& (#[trigger] index@[c]@[t]) < post.len()
                    &&& post[index@[c]@[t] as int].word@.len() >= 1
                    &&& bucket_of(post[index@[c]@[t] as int].word@[0]) == c
                } by {
                    if c != bb || t < old_bk.len() {
                        assert(index@[c]@[t] == oi[c]@[t]);
                        assert(oi[c]@[t] < pre.len());
                        assert(post[oi[c]@[t] as int] == pre[oi[c]@[t] as int]);
                    }
                }
                assert forall|c: int, t1: int, t2: int| 0 <= c < BUCKETS && 0 <= t1 < t2 < index@[c]@.len() implies #[trigger] index@[c]@[t1]
                    < #[trigger] index@[c]@[t2] by {
                    if c != bb || t2 < old_bk.len() {
                        assert(oi[c]@[t1] < oi[c]@[t2]);
                    } else {
                        assert(oi[c]@[t1] < pre.len());
                    }
                }
            }
            k = k + 1;
        }
        assert(es.take(es.len() as int) =~= es);
        Dictionary { entries, min_weight, max_len, index, slot }
    }

    /// Whether entry `k`'s word equals `s[lo..hi]`.
    fn entry_matches(&self, k: usize, s: &Vec<char>, lo: usize, hi: usize) -> (r: bool)
        requires
            k < self.entries@.len(),
            lo <= hi <= s@.len(),
        ensures
            r == (self.entries@[k as int].word@ == s@.subrange(lo as int, hi as int)),
    {
        let w = &self.entries[k].word;
        if w.len() != hi - lo {
            return false;
        }
        let mut t: usize = 0;
        while t < w.len()
            invariant
                w@ == self.entries@[k as int].word@,
                w@.len() == hi - lo,
                lo <= hi <= s@.len(),
                t <= w@.len(),
                forall|q: int| 0 <= q < t ==> w@[q] == s@[lo + q],
            decreases w@.len() - t,
        {
            if w[t] != s[lo + t] {
                assert(s@.subrange(lo as int, hi as int)[t as int] == s@[lo + t]);
                return false;
            }
            t = t + 1;
        }
        assert(w@ =~= s@.subrange(lo as int, hi as int));
        true
    }

    /// The entry for `s[lo..hi]`: the last one holding that word.
    pub fn find(&self, s: &Vec<char>, lo: usize, hi: usize) -> (r: Option<usize>)
        requires
            self.wf(),
            lo <= hi <= s@.len(),
        ensures
            match r {
                Some(k) => self.lookup(s@.subrange(lo as int, hi as int)) == Some(k as int),
                None => self.lookup(s@.subrange(lo as int, hi as int)) is None,
            },
    {
        let ghost w = s@.subrange(lo as int, hi as int);
        let ghost es = self.entries@;
        proof {
            lemma_find_entry_bounds(es, w);
            lemma_find_entry_last(es, w);
        }
        if lo == hi {
            proof {
                if find_entry(es, w) is Some {
                    let k = find_entry(es, w)->0;
                    assert(es[k].word@.len() >= 1);
                }
            }
            return None;
        }
        let b: usize = (s[lo] as u32 % 4096) as usize;
        assert(w[0] == s@[lo as int]);
        let bk = &self.index[b];
        let mut t: usize = bk.len();
        while t > 0
            invariant
                self.wf(),
                es == self.entries@,
                lo < hi <= s@.len(),
                w == s@.subrange(lo as int, hi as int),
                b as int == bucket_of(w[0]),
                b < BUCKETS,
                bk@ == self.index@[b as int]@,
                t <= bk@.len(),
                forall|q: int| t <= q < bk@.len() ==> es[#[trigger] bk@[q] as int].word@ != w,
            decreases t,
        {
            let k = bk[t - 1];
            assert(k < self.entries@.len());
            if self.entry_matches(k, s, lo, hi) {
                proof {
                    assert forall|k2: int| k < k2 < es.len() implies #[trigger] es[k2].word@ != w by {
                        if es[k2].word@ == w {
                            let t2 = self.slot@[k2] as int;
                            assert(bk@[t2] == k2);
                            if t2 < t - 1 {
                                assert(bk@[t2] < bk@[t - 1]);
                            }
                        }
                    }
                    assert(es[k as int].word@ == w);
                    lemma_find_entry_bounds(es, w);
                    lemma_find_entry_last(es, w);
                    let k1 = find_entry(es, w)->0;
                    assert(es[k1].word@ == w);
                    if k1 < k {
                        assert(es[k as int].word@ != w);
                    }
                    if k1 > k {
                        assert(es[k1].word@ != w);
                    }
                }
                return Some(k);
            }
            t = t - 1;
        }
        proof {
            lemma_find_entry_bounds(es, w);
            assert forall|k2: int| 0 <= k2 < es.len() implies #[trigger] es[k2].word@ != w by {
                if es[k2].word@ == w {
                    let t2 = self.slot@[k2] as int;
                    assert(bk@[t2] == k2);
                }
            }
        }
        None
    }

    /// Appends an entry; it shadows any earlier entry for the same word.
    pub fn insert(&mut self, word: Vec<char>, weight: i64, tag: String)
        requires
            old(self).wf(),
            word@.len() >= 1,
            weight_ok(weight as int),
        ensures
            final(self).wf(),
            final(self).min_weight == old(self).min_weight,
            final(self).entries@.len() == old(self).entries@.len() + 1,
            final(self).entries@.drop_last() == old(self).entries@,
            final(self).entries@.last().word@ == word@,
            final(self).entries@.last().weight == weight,
            final(self).entries@.last().tag@ == tag@,
    {
        if word.len() > self.max_len {
            self.max_len = word.len();
        }
        let k = self.entries.len();
        let b = (word[0] as u32 % 4096) as usize;
        let mut bk: Vec<usize> = Vec::new();
        self.index.set_and_swap(b, &mut bk);
        let ghost old_bk = bk@;
        bk.push(k);
        let pos = bk.len() - 1;
        self.index.set_and_swap(b, &mut bk);
        self.slot.push(pos);
        self.entries.push(DictEntry { word, weight, tag });
        assert(self.entries@.drop_last() =~= old(self).entries@);
        proof {
            let es = self.entries@;
            let oes = old(self).entries@;
            assert(old(self).wf());
            assert forall|q: int| 0 <= q < es.len() implies {
                &&& 0 <= bucket_of(es[q].word@[0]) < BUCKETS
                &&& #[trigger] self.slot@[q] < self.index@[bucket_of(es[q].word@[0])]@.len()
                &&& self.index@[bucket_of(es[q].word@[0])]@[self.slot@[q] as int] == q
            } by {
                if q < oes.len() {
                    assert(es[q] == oes[q]);
                    assert(old(self).slot@[q] < old(self).index@[bucket_of(oes[q].word@[0])]@.len());
                }
            }
            assert forall|bb: int, t: int| 0 <= bb < BUCKETS && 0 <= t < self.index@[bb]@.len() implies {
                &&& (#[trigger] self.index@[bb]@[t]) < es.len()
                &&& es[self.index@[bb]@[t] as int].word@.len() >= 1
                &&& bucket_of(es[self.index@[bb]@[t] as int].word@[0]) == bb
            } by {
                if bb != b || t < old_bk.len() {
                    assert(self.index@[bb]@[t] == old(self).index@[bb]@[t]);
                    assert(old(self).index@[bb]@[t] < oes.len());
                    assert(es[old(self).index@[bb]@[t] as int] == oes[old(self).index@[bb]@[t] as int]);
                }
            }
            assert forall|bb: int, t1: int, t2: int| 0 <= bb < BUCKETS && 0 <= t1 < t2 < self.index@[bb]@.len() implies #[trigger] self.index@[bb]@[t1]
                < #[trigger] self.index@[bb]@[t2] by {
                if bb != b || t2 < old_bk.len() {
                    assert(old(self).index@[bb]@[t1] < old(self).index@[bb]@[t2]);
                } else {
                    assert(old(self).index@[bb]@[t1] < oes.len());
                }
            }
        }
    }
}

} // verus!
