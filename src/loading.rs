//! Building an engine from loaded tables, and the names of the data files.
use vstd::prelude::*;
use vstd::string::StringExecFns;
use crate::dict::{Dictionary, DictEntry, WEIGHT_FLOOR, weight_ok};
use crate::hmm::HmmModel;
use crate::jieba::{Jieba, IDF_CEIL};

verus! {

/// Why an engine could not be built.
#[derive(Debug, Clone, PartialEq)]
pub enum LoadError {
    /// A data file could not be read; the path.
    NotFound(String),
    /// Entry `k` of the dictionary has an empty word or a weight out of range.
    MalformedLine(usize),
    /// The HMM tables are not four states, or hold a weight out of range.
    MalformedModel,
    /// Entry `k` of the IDF table has a weight out of range.
    MalformedIdf(usize),
}

pub open spec fn entry_ok(e: DictEntry) -> bool {
    e.word@.len() >= 1 && weight_ok(e.weight as int)
}

/// Index of the first bad dictionary entry.
pub open spec fn first_bad_entry(es: Seq<DictEntry>) -> Option<int> {
    if exists|k: int| 0 <= k < es.len() && !entry_ok(#[trigger] es[k]) {
        Some(choose|k: int| 0 <= k < es.len() && !entry_ok(#[trigger] es[k]) && forall|q: int| 0 <= q < k ==> entry_ok(#[trigger] es[q]))
    } else {
        None
    }
}

pub open spec fn idf_ok(e: (Vec<char>, i64)) -> bool {
    0 <= e.1 <= IDF_CEIL
}

/// The lowest weight of `es`; the floor for no entries.
pub open spec fn lowest_weight(es: Seq<DictEntry>) -> int
    decreases es.len(),
{
    if es.len() == 0 {
        WEIGHT_FLOOR as int
    } else if es.len() == 1 {
        es[0].weight as int
    } else {
        let m = lowest_weight(es.drop_last());
        if (es.last().weight as int) < m { es.last().weight as int } else { m }
    }
}

/// The highest weight of `es`; 0 for no entries.
pub open spec fn highest_weight(es: Seq<DictEntry>) -> int
    decreases es.len(),
{
    if es.len() == 0 {
        0
    } else if es.len() == 1 {
        es[0].weight as int
    } else {
        let m = highest_weight(es.drop_last());
        if (es.last().weight as int) > m { es.last().weight as int } else { m }
    }
}

pub open spec fn longest_word(es: Seq<DictEntry>) -> int
    decreases es.len(),
{
    if es.len() == 0 {
        1
    } else {
        let m = longest_word(es.drop_last());
        if es.last().word@.len() > m { es.last().word@.len() as int } else { m }
    }
}

pub open spec fn idf_sum(t: Seq<(Vec<char>, i64)>) -> int
    decreases t.len(),
{
    if t.len() == 0 {
        0
    } else {
        idf_sum(t.drop_last()) + t.last().1 as int
    }
}

/// The mean IDF of `t`, rounded down; 0 for an empty table. Words that the
/// table does not hold take this weight: it is computed in one pass over
/// the table, where a median would need the table's weights ordered, and it
/// lies between the table's lowest and highest weight as a median does.
pub open spec fn idf_mean(t: Seq<(Vec<char>, i64)>) -> int {
    if t.len() == 0 {
        0
    } else {
        idf_sum(t) / (t.len() as int)
    }
}

/// The separators a new engine splits on: space, tab, newline and the
/// full-width comma and full stop.
pub open spec fn default_separators() -> Seq<char> {
    seq![' ', '\t', '\n', '\u{ff0c}', '\u{3002}']
}

/// The engine built from well-formed tables.
pub open spec fn built(j: Jieba, entries: Seq<DictEntry>, model: HmmModel, idf: Seq<(Vec<char>, i64)>, stop_words: Seq<Vec<char>>) -> bool {
    &&& j.wf()
    &&& j.dict.entries@ == entries
    &&& j.dict.min_weight as int == lowest_weight(entries)
    &&& j.dict.max_len as int == longest_word(entries)
    &&& j.user_weight as int == highest_weight(entries)
    &&& j.model == model
    &&& j.idf@ == idf
    &&& j.idf_default as int == idf_mean(idf)
    &&& j.stop_words@ == stop_words
    &&& j.separators@ == default_separators()
}

fn entries_check(es: &Vec<DictEntry>) -> (r: Option<usize>)
    ensures
        match r {
            Some(k) => k < es@.len() && !entry_ok(es@[k as int]) && forall|q: int| 0 <= q < k ==> entry_ok(#[trigger] es@[q]),
            None => forall|q: int| 0 <= q < es@.len() ==> entry_ok(#[trigger] es@[q]),
        },
{
    let mut k: usize = 0;
    while k < es.len()
        invariant
            k <= es@.len(),
            forall|q: int| 0 <= q < k ==> entry_ok(#[trigger] es@[q]),
        decreases es@.len() - k,
    {
        let e = &es[k];
        if e.word.len() < 1 || e.weight < WEIGHT_FLOOR || e.weight > 0 {
            return Some(k);
        }
        k = k + 1;
    }
    None
}

fn model_check(m: &HmmModel) -> (r: bool)
    ensures
        r == m.wf(),
{
    if m.start.len() != 4 || m.trans.len() != 4 || m.emit.len() != 4 {
        return false;
    }
    if m.emit_floor < WEIGHT_FLOOR || m.emit_floor > 0 {
        return false;
    }
    let mut y: usize = 0;
    while y < 4
        invariant
            m.start@.len() == 4,
            m.trans@.len() == 4,
            m.emit@.len() == 4,
            weight_ok(m.emit_floor as int),
            y <= 4,
            forall|q: int| 0 <= q < y ==> weight_ok(#[trigger] m.start@[q] as int),
            forall|p: int| 0 <= p < y ==> (#[trigger] m.trans@[p])@.len() == 4,
            forall|p: int, q: int| 0 <= p < y && 0 <= q < 4 ==> weight_ok(#[trigger] m.trans@[p]@[q] as int),
            forall|p: int, k: int| 0 <= p < y && 0 <= k < m.emit@[p]@.len() ==> weight_ok(#[trigger] m.emit@[p]@[k].1 as int),
        decreases 4 - y,
    {
        if m.start[y] < WEIGHT_FLOOR || m.start[y] > 0 || m.trans[y].len() != 4 {
            return false;
        }
        let mut q: usize = 0;
        while q < 4
            invariant
                y < 4,
                m.trans@.len() == 4,
                m.trans@[y as int]@.len() == 4,
                q <= 4,
                forall|p: int| 0 <= p < q ==> weight_ok(#[trigger] m.trans@[y as int]@[p] as int),
            decreases 4 - q,
        {
            if m.trans[y][q] < WEIGHT_FLOOR || m.trans[y][q] > 0 {
                return false;
            }
            q = q + 1;
        }
        let es = &m.emit[y];
        let mut k: usize = 0;
        while k < es.len()
            invariant
                y < 4,
                m.emit@.len() == 4,
                es@ == m.emit@[y as int]@,
                k <= es@.len(),
                forall|p: int| 0 <= p < k ==> weight_ok(#[trigger] es@[p].1 as int),
            decreases es@.len() - k,
        {
            if es[k].1 < WEIGHT_FLOOR || es[k].1 > 0 {
                return false;
            }
            k = k + 1;
        }
        y = y + 1;
    }
    true
}

fn idf_check(t: &Vec<(Vec<char>, i64)>) -> (r: Option<usize>)
    ensures
        match r {
            Some(k) => k < t@.len() && !idf_ok(t@[k as int]) && forall|q: int| 0 <= q < k ==> idf_ok(#[trigger] t@[q]),
            None => forall|q: int| 0 <= q < t@.len() ==> idf_ok(#[trigger] t@[q]),
        },
{
    let mut k: usize = 0;
    while k < t.len()
        invariant
            k <= t@.len(),
            forall|q: int| 0 <= q < k ==> idf_ok(#[trigger] t@[q]),
        decreases t@.len() - k,
    {
        if t[k].1 < 0 || t[k].1 > IDF_CEIL {
            return Some(k);
        }
        k = k + 1;
    }
    None
}

pub proof fn lemma_idf_sum(t: Seq<(Vec<char>, i64)>)
    requires
        forall|q: int| 0 <= q < t.len() ==> idf_ok(#[trigger] t[q]),
    ensures
        0 <= idf_sum(t) <= t.len() * IDF_CEIL,
    decreases t.len(),
{
    if t.len() > 0 {
        assert(idf_ok(t[t.len() - 1]));
        lemma_idf_sum(t.drop_last());
    }
}

fn weight_stats(entries: &Vec<DictEntry>) -> (r: (i64, i64, usize))
    requires
        forall|q: int| 0 <= q < entries@.len() ==> entry_ok(#[trigger] entries@[q]),
    ensures
        r.0 as int == lowest_weight(entries@),
        r.1 as int == highest_weight(entries@),
        r.2 as int == longest_word(entries@),
        weight_ok(r.0 as int),
        weight_ok(r.1 as int),
        forall|q: int| 0 <= q < entries@.len() ==> (#[trigger] entries@[q]).word@.len() <= r.2,
        forall|q: int| 0 <= q < entries@.len() ==> (#[trigger] entries@[q]).weight <= r.1,
        r.0 <= r.1,
{
        let n = entries.len();
        let mut lowest: i64 = WEIGHT_FLOOR;
        let mut highest: i64 = 0;
        let mut longest: usize = 1;
        let mut k: usize = 0;
        while k < n
            invariant
                n == entries@.len(),
                k <= n,
                forall|q: int| 0 <= q < n ==> entry_ok(#[trigger] entries@[q]),
                k == 0 ==> lowest == WEIGHT_FLOOR && highest == 0,
                k > 0 ==> lowest as int == lowest_weight(entries@.take(k as int)),
                k > 0 ==> highest as int == highest_weight(entries@.take(k as int)),
                longest as int == longest_word(entries@.take(k as int)),
                weight_ok(lowest as int),
                weight_ok(highest as int),
                forall|q: int| 0 <= q < k ==> (#[trigger] entries@[q]).word@.len() <= longest,
                forall|q: int| 0 <= q < k ==> (#[trigger] entries@[q]).weight <= highest,
                lowest <= highest,
            decreases n - k,
        {
            let e = &entries[k];
            assert(entry_ok(entries@[k as int]));
            assert(entries@.take(k + 1).drop_last() =~= entries@.take(k as int));
            if k == 0 || e.weight < lowest {
                lowest = e.weight;
            }
            if k == 0 || e.weight > highest {
                highest = e.weight;
            }
            if e.word.len() > longest {
                longest = e.word.len();
            }
            k = k + 1;
        }
        assert(entries@.take(n as int) =~= entries@);
        if n == 0 {
            assert(entries@ =~= Seq::<DictEntry>::empty());
        }
        (lowest, highest, longest)
}

fn mean_idf(idf: &Vec<(Vec<char>, i64)>) -> (r: i64)
    requires
        forall|q: int| 0 <= q < idf@.len() ==> idf_ok(#[trigger] idf@[q]),
    ensures
        r as int == idf_mean(idf@),
        0 <= r <= IDF_CEIL,
{
        let ghost t = idf@;
        proof {
            lemma_idf_sum(t);
        }
        let mut sum: i128 = 0;
        let mut q: usize = 0;
        while q < idf.len()
            invariant
                t == idf@,
                q <= t.len(),
                forall|p: int| 0 <= p < t.len() ==> idf_ok(#[trigger] t[p]),
                sum as int == idf_sum(t.take(q as int)),
                0 <= sum <= q * IDF_CEIL,
            decreases t.len() - q,
        {
            assert(idf_ok(t[q as int]));
            assert(t.take(q + 1).drop_last() =~= t.take(q as int));
            sum = sum + idf[q].1 as i128;
            q = q + 1;
        }
        assert(t.take(t.len() as int) =~= t);
        let mean: i64 = if idf.len() == 0 {
            0
        } else {
            let ln = idf.len() as i128;
            proof {
                vstd::arithmetic::div_mod::lemma_div_is_ordered(sum as int, ln * IDF_CEIL, ln as int);
                vstd::arithmetic::div_mod::lemma_div_multiples_vanish(IDF_CEIL as int, ln as int);
                vstd::arithmetic::div_mod::lemma_div_pos_is_pos(sum as int, ln as int);
            }
            (sum / ln) as i64
        };
        mean
}

impl Jieba {
    /// Builds an engine from a dictionary, an HMM, an IDF table and stop
    /// words. Fails on the first dictionary entry with an empty word or a
    /// weight out of range, then on a malformed model, then on the first IDF
    /// weight out of range.
    pub fn new(entries: Vec<DictEntry>, model: HmmModel, idf: Vec<(Vec<char>, i64)>, stop_words: Vec<Vec<char>>) -> (r: Result<Jieba, LoadError>)
        ensures
            (exists|k: int| 0 <= k < entries@.len() && !entry_ok(#[trigger] entries@[k])) ==> ({
                &&& r is Err
                &&& r->Err_0 matches LoadError::MalformedLine(k) && k < entries@.len() && !entry_ok(entries@[k as int])
                    && forall|q: int| 0 <= q < k ==> entry_ok(#[trigger] entries@[q])
            }),
            (forall|k: int| 0 <= k < entries@.len() ==> entry_ok(#[trigger] entries@[k])) && !model.wf() ==> r == Err::<Jieba, LoadError>(LoadError::MalformedModel),
            (forall|k: int| 0 <= k < entries@.len() ==> entry_ok(#[trigger] entries@[k])) && model.wf() && (exists|k: int| 0 <= k < idf@.len() && !idf_ok(#[trigger] idf@[k])) ==> ({
                &&& r is Err
                &&& r->Err_0 matches LoadError::MalformedIdf(k) && k < idf@.len() && !idf_ok(idf@[k as int])
                    && forall|q: int| 0 <= q < k ==> idf_ok(#[trigger] idf@[q])
            }),
            (forall|k: int| 0 <= k < entries@.len() ==> entry_ok(#[trigger] entries@[k])) && model.wf() && (forall|k: int| 0 <= k < idf@.len() ==> idf_ok(#[trigger] idf@[k])) ==> ({
                &&& r is Ok
                &&& built(r->Ok_0, entries@, model, idf@, stop_words@)
            }),
    {
        match entries_check(&entries) {
            Some(k) => {
                return Err(LoadError::MalformedLine(k));
            },
            None => {},
        }
        if !model_check(&model) {
            return Err(LoadError::MalformedModel);
        }
        match idf_check(&idf) {
            Some(k) => {
                return Err(LoadError::MalformedIdf(k));
            },
            None => {},
        }
        let (lowest, highest, longest) = weight_stats(&entries);
        let mean = mean_idf(&idf);
        let dict = Dictionary::build(entries, lowest, longest);
        let separators: Vec<char> = vec![' ', '\t', '\n', '\u{ff0c}', '\u{3002}'];
        let j = Jieba { dict, model, idf, idf_default: mean, stop_words, separators, user_weight: highest };
        assert(j.separators@ =~= default_separators());
        Ok(j)
    }
}

/// The files of a data directory.
pub struct DataPaths {
    pub dict: String,
    pub hmm: String,
    pub user_dict: String,
    pub idf: String,
    pub stop_words: String,
}

/// `name` placed inside the directory `dir`.
pub open spec fn join_path(dir: Seq<char>, name: Seq<char>) -> Seq<char> {
    if dir.len() == 0 {
        name
    } else if dir.last() == '/' {
        dir + name
    } else {
        dir + seq!['/'] + name
    }
}

fn join(dir: &str, name: &str) -> (r: String)
    ensures
        r@ == join_path(dir@, name@),
{
    let mut p = String::from_str(dir);
    if dir.is_empty() {
        return String::from_str(name);
    }
    let d = crate::text::chars_of(dir);
    if d[d.len() - 1] != '/' {
        p.append("/");
        proof {
            reveal_strlit("/");
        }
        assert(seq!['/'] =~= "/"@);
    }
    p.append(name);
    p
}

impl Jieba {
    /// The data files of the directory `data_dir`: `jieba.dict.utf8`,
    /// `hmm_model.utf8`, `user.dict.utf8`, `idf.utf8` and `stop_words.utf8`.
    pub fn from_dir(data_dir: &str) -> (r: DataPaths)
        ensures
            r.dict@ == join_path(data_dir@, "jieba.dict.utf8"@),
            r.hmm@ == join_path(data_dir@, "hmm_model.utf8"@),
            r.user_dict@ == join_path(data_dir@, "user.dict.utf8"@),
            r.idf@ == join_path(data_dir@, "idf.utf8"@),
            r.stop_words@ == join_path(data_dir@, "stop_words.utf8"@),
    {
        DataPaths {
            dict: join(data_dir, "jieba.dict.utf8"),
            hmm: join(data_dir, "hmm_model.utf8"),
            user_dict: join(data_dir, "user.dict.utf8"),
            idf: join(data_dir, "idf.utf8"),
            stop_words: join(data_dir, "stop_words.utf8"),
        }
    }
}

} // verus!
