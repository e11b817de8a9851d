//! Part-of-speech tags and tokens with code-point offsets.
use vstd::prelude::*;
use vstd::string::StringExecFns;
use crate::jieba::{Jieba, CutMode, strs};
use crate::route::pairs;
use crate::tiling::{within, words};
use crate::mixed::{is_ascii_char, is_digit};
use crate::text::{chars_of, string_of};

verus! {

/// A word and its part-of-speech tag.
#[derive(Debug, Clone, PartialEq)]
pub struct Tag {
    pub word: String,
    pub flag: String,
}

/// Which cut `tokenize` gives.
#[derive(Debug, Clone, Copy, PartialEq, Eq)]
pub enum TokenizeMode {
    /// The words of the plain cut.
    Default,
    /// The words of the search cut.
    Search,
}

/// A word with its start and end, in code points, in the text.
#[derive(Debug, Clone, PartialEq)]
pub struct Token(pub String, pub usize, pub usize);

impl Token {
    /// The word.
    pub fn word(&self) -> (r: &str)
        ensures
            r@ == self.0@,
    {
        self.0.as_str()
    }

    /// Code-point offset where the word starts.
    pub fn start(&self) -> (r: usize)
        ensures
            r == self.1,
    {
        self.1
    }

    /// Code-point offset where the word ends.
    pub fn end(&self) -> (r: usize)
        ensures
            r == self.2,
    {
        self.2
    }
}

/// A token as spans into the UTF-8 text: bytes and code points.
#[allow(non_camel_case_types)]
#[derive(Debug, Clone, Copy, PartialEq, Eq)]
pub struct jieba_token_t {
    /// Byte offset of the word.
    pub offset: u32,
    /// Length of the word in bytes.
    pub length: usize,
    /// Code-point offset of the word.
    pub unicode_offset: u32,
    /// Length of the word in code points.
    pub unicode_length: u32,
}

/// Number of bytes that UTF-8 takes for `c`.
pub open spec fn utf8_len(c: char) -> int {
    if (c as u32) < 0x80 {
        1
    } else if (c as u32) < 0x800 {
        2
    } else if (c as u32) < 0x10000 {
        3
    } else {
        4
    }
}

/// Number of bytes that UTF-8 takes for `s[..k]`.
pub open spec fn utf8_prefix(s: Seq<char>, k: int) -> int
    decreases k,
{
    if k <= 0 {
        0
    } else {
        utf8_prefix(s, k - 1) + utf8_len(s[k - 1])
    }
}

pub proof fn lemma_utf8_prefix_mono(s: Seq<char>, i: int, j: int)
    requires
        0 <= i <= j,
    ensures
        utf8_prefix(s, i) <= utf8_prefix(s, j),
        j - i <= utf8_prefix(s, j) - utf8_prefix(s, i),
    decreases j - i,
{
    if i < j {
        lemma_utf8_prefix_mono(s, i, j - 1);
    }
}

fn utf8_len_exec(c: char) -> (r: usize)
    ensures
        r as int == utf8_len(c),
{
    let u = c as u32;
    if u < 0x80 {
        1
    } else if u < 0x800 {
        2
    } else if u < 0x10000 {
        3
    } else {
        4
    }
}

/// The non-empty words of `ws`, in order.
pub open spec fn nonempty_words(ws: Seq<Seq<char>>) -> Seq<Seq<char>>
    decreases ws.len(),
{
    if ws.len() == 0 {
        Seq::empty()
    } else if ws.last().len() > 0 {
        nonempty_words(ws.drop_last()).push(ws.last())
    } else {
        nonempty_words(ws.drop_last())
    }
}

/// Counts of ASCII code points and of ASCII digits in `w[i..]`, scanning
/// while fewer than half of `w` were found ASCII.
pub open spec fn ascii_counts(w: Seq<char>, i: int, eng: int, m: int) -> (int, int)
    decreases w.len() - i,
{
    if i >= w.len() || eng >= w.len() / 2 {
        (eng, m)
    } else if is_ascii_char(w[i]) {
        ascii_counts(w, i + 1, eng + 1, if is_digit(w[i]) { m + 1 } else { m })
    } else {
        ascii_counts(w, i + 1, eng, m)
    }
}

/// Tag of a word that the dictionary does not tag: "x" with no ASCII found,
/// "m" when all ASCII found is digits, else "eng".
pub open spec fn fallback_tag(w: Seq<char>) -> Seq<char> {
    let (eng, m) = ascii_counts(w, 0, 0, 0);
    if eng == 0 {
        "x"@
    } else if m == eng {
        "m"@
    } else {
        "eng"@
    }
}

impl Jieba {
    /// The tag of `w`: its dictionary tag, when it has a non-empty one.
    pub open spec fn tag_of(&self, w: Seq<char>) -> Seq<char> {
        match self.dict.lookup(w) {
            Some(k) => if self.dict.entries@[k].tag@.len() > 0 {
                self.dict.entries@[k].tag@
            } else {
                fallback_tag(w)
            },
            None => fallback_tag(w),
        }
    }

    fn tag_chars(&self, w: &Vec<char>) -> (r: String)
        requires
            self.wf(),
        ensures
            r@ == self.tag_of(w@),
    {
        proof {
            self.dict.lemma_lookup(w@);
            assert(w@.subrange(0, w@.len() as int) =~= w@);
        }
        match self.dict.find(w, 0, w.len()) {
            Some(k) => {
                if !self.dict.entries[k].tag.as_str().is_empty() {
                    return self.dict.entries[k].tag.clone();
                }
            },
            None => {},
        }
        let n = w.len();
        let mut i: usize = 0;
        let mut eng: usize = 0;
        let mut m: usize = 0;
        while i < n && eng < n / 2
            invariant
                n == w@.len(),
                i <= n,
                m <= eng <= i,
                ascii_counts(w@, 0, 0, 0) == ascii_counts(w@, i as int, eng as int, m as int),
            decreases n - i,
        {
            if (w[i] as u32) < 128 {
                eng = eng + 1;
                let u = w[i] as u32;
                if 48 <= u && u <= 57 {
                    m = m + 1;
                }
            }
            i = i + 1;
        }
        if eng == 0 {
            String::from_str("x")
        } else if m == eng {
            String::from_str("m")
        } else {
            String::from_str("eng")
        }
    }

    /// The tag of a single word.
    pub fn lookup_tag(&self, word: &str) -> (r: String)
        requires
            self.wf(),
        ensures
            r@ == self.tag_of(word@),
    {
        let w = chars_of(word);
        self.tag_chars(&w)
    }

    /// The words of the mixed cut of `text`, each with its tag.
    pub fn tag(&self, text: &str) -> (r: Vec<Tag>)
        requires
            self.wf(),
        ensures
            r@.len() == self.cut_words(CutMode::Mixed, text@).len(),
            forall|k: int|
                0 <= k < r@.len() ==> {
                    &&& (#[trigger] r@[k]).word@ == self.cut_words(CutMode::Mixed, text@)[k]
                    &&& r@[k].flag@ == self.tag_of(self.cut_words(CutMode::Mixed, text@)[k])
                },
    {
        let ws = self.cut(text, true);
        let mut out: Vec<Tag> = Vec::new();
        let mut k: usize = 0;
        while k < ws.len()
            invariant
                self.wf(),
                k <= ws@.len(),
                out@.len() == k,
                strs(ws@) == self.cut_words(CutMode::Mixed, text@),
                forall|q: int|
                    0 <= q < k ==> {
                        &&& (#[trigger] out@[q]).word@ == ws@[q]@
                        &&& out@[q].flag@ == self.tag_of(ws@[q]@)
                    },
            decreases ws@.len() - k,
        {
            let w = chars_of(ws[k].as_str());
            let flag = self.tag_chars(&w);
            out.push(Tag { word: ws[k].clone(), flag });
            k = k + 1;
        }
        assert forall|q: int| 0 <= q < out@.len() implies (#[trigger] out@[q]).word@ == self.cut_words(
            CutMode::Mixed,
            text@,
        )[q] by {
            assert(strs(ws@)[q] == ws@[q]@);
        }
        out
    }

    /// The words of `text` with their code-point spans: the plain cut, or the
    /// search cut; `hmm` as for `cut`.
    pub fn tokenize(&self, text: &str, mode: TokenizeMode, hmm: bool) -> (r: Vec<Token>)
        requires
            self.wf(),
        ensures
            ({
                let cm = match mode {
                    TokenizeMode::Default => if hmm { CutMode::Mixed } else { CutMode::Exact },
                    TokenizeMode::Search => CutMode::Search(hmm),
                };
                let sp = self.spans(cm, text@);
                &&& r@.len() == sp.len()
                &&& forall|k: int|
                    0 <= k < r@.len() ==> {
                        &&& (#[trigger] r@[k]).0@ == text@.subrange(sp[k].0, sp[k].1)
                        &&& r@[k].1 == sp[k].0
                        &&& r@[k].2 == sp[k].1
                    }
            }),
    {
        let cm = match mode {
            TokenizeMode::Default => if hmm {
                CutMode::Mixed
            } else {
                CutMode::Exact
            },
            TokenizeMode::Search => CutMode::Search(hmm),
        };
        let s = chars_of(text);
        let sp = self.cut_spans(&cm, &s);
        proof {
            self.lemma_spans_from(cm, s@, 0);
        }
        let mut out: Vec<Token> = Vec::new();
        let mut k: usize = 0;
        while k < sp.len()
            invariant
                k <= sp@.len(),
                out@.len() == k,
                s@ == text@,
                within(pairs(sp@), 0, s@.len() as int),
                forall|q: int|
                    0 <= q < k ==> {
                        &&& (#[trigger] out@[q]).0@ == s@.subrange(sp@[q].0 as int, sp@[q].1 as int)
                        &&& out@[q].1 == sp@[q].0
                        &&& out@[q].2 == sp@[q].1
                    },
            decreases sp@.len() - k,
        {
            let (a, b) = sp[k];
            assert(pairs(sp@)[k as int] == (a as int, b as int));
            out.push(Token(string_of(&s, a, b), a, b));
            k = k + 1;
        }
        assert forall|q: int| 0 <= q < out@.len() implies pairs(sp@)[q] == (sp@[q].0 as int, sp@[q].1 as int) by {}
        out
    }

    /// Adds `word` to the dictionary with the user-word weight and no tag;
    /// later cuts see it. An empty word changes nothing.
    pub fn add_user_word(&mut self, word: &str)
        requires
            old(self).wf(),
        ensures
            final(self).wf(),
            final(self).model == old(self).model,
            final(self).separators == old(self).separators,
            final(self).user_weight == old(self).user_weight,
            final(self).idf == old(self).idf,
            final(self).idf_default == old(self).idf_default,
            final(self).stop_words == old(self).stop_words,
            final(self).dict.min_weight == old(self).dict.min_weight,
            forall|v: Seq<char>| v != word@ ==> #[trigger] final(self).dict.lookup(v) == old(self).dict.lookup(v),
            word@.len() == 0 ==> final(self).dict.entries@ == old(self).dict.entries@,
            word@.len() > 0 ==> {
                &&& final(self).dict.entries@.drop_last() == old(self).dict.entries@
                &&& final(self).dict.entries@.last().word@ == word@
                &&& final(self).dict.entries@.last().weight == old(self).user_weight
                &&& final(self).dict.entries@.last().tag@.len() == 0
                &&& final(self).dict.lookup(word@) == Some(old(self).dict.entries@.len() as int)
            },
    {
        let w = chars_of(word);
        if w.len() > 0 {
            let uw = self.user_weight;
            self.dict.insert(w, uw, String::new());
            assert forall|v: Seq<char>| v != word@ implies #[trigger] self.dict.lookup(v) == old(self).dict.lookup(v) by {
                assert(self.dict.entries@.last().word@ != v);
            }
            assert forall|k: int| 0 <= k < self.dict.entries@.len() implies (#[trigger] self.dict.entries@[k]).weight
                <= self.user_weight by {
                if k < self.dict.entries@.len() - 1 {
                    assert(self.dict.entries@[k] == self.dict.entries@.drop_last()[k]);
                }
            }
        }
    }

    /// As `add_user_word`, with the part-of-speech tag `tag`.
    pub fn add_user_word_tagged(&mut self, word: &str, tag: &str)
        requires
            old(self).wf(),
        ensures
            final(self).wf(),
            final(self).model == old(self).model,
            final(self).separators == old(self).separators,
            final(self).user_weight == old(self).user_weight,
            final(self).idf == old(self).idf,
            final(self).idf_default == old(self).idf_default,
            final(self).stop_words == old(self).stop_words,
            final(self).dict.min_weight == old(self).dict.min_weight,
            forall|v: Seq<char>| v != word@ ==> #[trigger] final(self).dict.lookup(v) == old(self).dict.lookup(v),
            word@.len() == 0 ==> final(self).dict.entries@ == old(self).dict.entries@,
            word@.len() > 0 ==> {
                &&& final(self).dict.entries@.drop_last() == old(self).dict.entries@
                &&& final(self).dict.entries@.last().word@ == word@
                &&& final(self).dict.entries@.last().weight == old(self).user_weight
                &&& final(self).dict.entries@.last().tag@ == tag@
                &&& final(self).dict.lookup(word@) == Some(old(self).dict.entries@.len() as int)
            },
    {
        let w = chars_of(word);
        if w.len() > 0 {
            let uw = self.user_weight;
            self.dict.insert(w, uw, String::from_str(tag));
            assert forall|v: Seq<char>| v != word@ implies #[trigger] self.dict.lookup(v) == old(self).dict.lookup(v) by {
                assert(self.dict.entries@.last().word@ != v);
            }
            assert forall|k: int| 0 <= k < self.dict.entries@.len() implies (#[trigger] self.dict.entries@[k]).weight
                <= self.user_weight by {
                if k < self.dict.entries@.len() - 1 {
                    assert(self.dict.entries@[k] == self.dict.entries@.drop_last()[k]);
                }
            }
        }
    }

    /// Adds each non-empty word of `words`, in order, as `add_user_word` does.
    pub fn add_user_words(&mut self, words: &Vec<String>)
        requires
            old(self).wf(),
        ensures
            final(self).wf(),
            final(self).model == old(self).model,
            final(self).separators == old(self).separators,
            final(self).user_weight == old(self).user_weight,
            final(self).idf == old(self).idf,
            final(self).idf_default == old(self).idf_default,
            final(self).stop_words == old(self).stop_words,
            final(self).dict.min_weight == old(self).dict.min_weight,
            final(self).dict.entries@.take(old(self).dict.entries@.len() as int) == old(self).dict.entries@,
            final(self).dict.entries@.len() == old(self).dict.entries@.len() + nonempty_words(strs(words@)).len(),
            forall|k: int|
                0 <= k < nonempty_words(strs(words@)).len() ==> {
                    let e = #[trigger] final(self).dict.entries@[old(self).dict.entries@.len() + k];
                    &&& e.word@ == nonempty_words(strs(words@))[k]
                    &&& e.weight == old(self).user_weight
                    &&& e.tag@.len() == 0
                },
    {
        let ghost base = self.dict.entries@;
        let ghost ws = strs(words@);
        let mut k: usize = 0;
        assert(self.dict.entries@.take(base.len() as int) =~= base);
        while k < words.len()
            invariant
                self.wf(),
                k <= words@.len(),
                ws == strs(words@),
                self.model == old(self).model,
                self.separators == old(self).separators,
                self.user_weight == old(self).user_weight,
                self.idf == old(self).idf,
                self.idf_default == old(self).idf_default,
                self.stop_words == old(self).stop_words,
                self.dict.min_weight == old(self).dict.min_weight,
                base == old(self).dict.entries@,
                self.dict.entries@.take(base.len() as int) == base,
                self.dict.entries@.len() == base.len() + nonempty_words(ws.take(k as int)).len(),
                forall|q: int|
                    0 <= q < nonempty_words(ws.take(k as int)).len() ==> {
                        let e = #[trigger] self.dict.entries@[base.len() + q];
                        &&& e.word@ == nonempty_words(ws.take(k as int))[q]
                        &&& e.weight == self.user_weight
                        &&& e.tag@.len() == 0
                    },
            decreases words@.len() - k,
        {
            let ghost before = self.dict.entries@;
            let ghost w = words@[k as int]@;
            assert(ws.take(k + 1) =~= ws.take(k as int).push(w));
            assert(ws.take(k + 1).drop_last() =~= ws.take(k as int));
            self.add_user_word(words[k].as_str());
            if words[k].as_str().is_empty() {
                assert(nonempty_words(ws.take(k + 1)) == nonempty_words(ws.take(k as int)));
            } else {
                assert(nonempty_words(ws.take(k + 1)) == nonempty_words(ws.take(k as int)).push(w));
                assert(self.dict.entries@.take(base.len() as int) =~= base) by {
                    assert(before.take(base.len() as int) =~= base);
                    assert forall|q: int| 0 <= q < base.len() implies self.dict.entries@[q] == before[q] by {
                        assert(self.dict.entries@.drop_last()[q] == self.dict.entries@[q]);
                    }
                }
                assert forall|q: int| 0 <= q < nonempty_words(ws.take(k + 1)).len() implies {
                    let e = #[trigger] self.dict.entries@[base.len() + q];
                    &&& e.word@ == nonempty_words(ws.take(k + 1))[q]
                    &&& e.weight == self.user_weight
                    &&& e.tag@.len() == 0
                } by {
                    if q < nonempty_words(ws.take(k as int)).len() {
                        assert(self.dict.entries@.drop_last()[base.len() + q] == self.dict.entries@[base.len() + q]);
                    }
                }
            }
            k = k + 1;
        }
        assert(ws.take(words@.len() as int) =~= ws);
    }

    /// Replaces the separators with the code points of `seps`.
    pub fn reset_separators(&mut self, seps: &str)
        requires
            old(self).wf(),
        ensures
            final(self).wf(),
            final(self).separators@ == seps@,
            final(self).dict == old(self).dict,
            final(self).model == old(self).model,
            final(self).user_weight == old(self).user_weight,
            final(self).idf == old(self).idf,
            final(self).idf_default == old(self).idf_default,
            final(self).stop_words == old(self).stop_words,
    {
        self.separators = chars_of(seps);
    }
}

impl Jieba {
    /// As `tokenize`, with each word's span in bytes of UTF-8 as well as in
    /// code points; the text must take at most `u32::MAX` bytes.
    pub fn tokenize_offsets(&self, text: &str, mode: TokenizeMode, hmm: bool) -> (r: Vec<jieba_token_t>)
        requires
            self.wf(),
            utf8_prefix(text@, text@.len() as int) <= u32::MAX,
        ensures
            ({
                let cm = match mode {
                    TokenizeMode::Default => if hmm { CutMode::Mixed } else { CutMode::Exact },
                    TokenizeMode::Search => CutMode::Search(hmm),
                };
                let sp = self.spans(cm, text@);
                &&& r@.len() == sp.len()
                &&& forall|k: int|
                    0 <= k < r@.len() ==> {
                        &&& (#[trigger] r@[k]).offset as int == utf8_prefix(text@, sp[k].0)
                        &&& r@[k].length as int == utf8_prefix(text@, sp[k].1) - utf8_prefix(text@, sp[k].0)
                        &&& r@[k].unicode_offset as int == sp[k].0
                        &&& r@[k].unicode_length as int == sp[k].1 - sp[k].0
                    }
            }),
    {
        let cm = match mode {
            TokenizeMode::Default => if hmm {
                CutMode::Mixed
            } else {
                CutMode::Exact
            },
            TokenizeMode::Search => CutMode::Search(hmm),
        };
        let s = chars_of(text);
        let n = s.len();
        let sp = self.cut_spans(&cm, &s);
        proof {
            self.lemma_spans_from(cm, s@, 0);
        }
        let mut pre: Vec<usize> = Vec::new();
        pre.push(0);
        let mut k: usize = 0;
        let mut acc: usize = 0;
        while k < n
            invariant
                n == s@.len(),
                s@ == text@,
                k <= n,
                pre@.len() == k + 1,
                acc == pre@[k as int],
                utf8_prefix(s@, n as int) <= u32::MAX,
                forall|q: int| 0 <= q <= k ==> #[trigger] pre@[q] as int == utf8_prefix(s@, q),
            decreases n - k,
        {
            proof {
                lemma_utf8_prefix_mono(s@, k + 1, n as int);
            }
            acc = acc + utf8_len_exec(s[k]);
            pre.push(acc);
            k = k + 1;
        }
        let mut out: Vec<jieba_token_t> = Vec::new();
        let mut q: usize = 0;
        while q < sp.len()
            invariant
                n == s@.len(),
                s@ == text@,
                pre@.len() == n + 1,
                utf8_prefix(s@, n as int) <= u32::MAX,
                forall|p: int| 0 <= p <= n ==> #[trigger] pre@[p] as int == utf8_prefix(s@, p),
                q <= sp@.len(),
                out@.len() == q,
                within(pairs(sp@), 0, n as int),
                forall|p: int|
                    0 <= p < q ==> {
                        &&& (#[trigger] out@[p]).offset as int == utf8_prefix(s@, sp@[p].0 as int)
                        &&& out@[p].length as int == utf8_prefix(s@, sp@[p].1 as int) - utf8_prefix(s@, sp@[p].0 as int)
                        &&& out@[p].unicode_offset == sp@[p].0
                        &&& out@[p].unicode_length == sp@[p].1 - sp@[p].0
                    },
            decreases sp@.len() - q,
        {
            let (a, b) = sp[q];
            assert(pairs(sp@)[q as int] == (a as int, b as int));
            proof {
                lemma_utf8_prefix_mono(s@, a as int, b as int);
                lemma_utf8_prefix_mono(s@, b as int, n as int);
                lemma_utf8_prefix_mono(s@, 0, n as int);
            }
            out.push(jieba_token_t {
                offset: pre[a] as u32,
                length: pre[b] - pre[a],
                unicode_offset: a as u32,
                unicode_length: (b - a) as u32,
            });
            q = q + 1;
        }
        assert forall|p: int| 0 <= p < out@.len() implies pairs(sp@)[p] == (sp@[p].0 as int, sp@[p].1 as int) by {}
        out
    }
}

} // verus!
