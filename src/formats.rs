//! The line formats of the data files that hold no fractions: dictionary
//! lines `word freq [tag]`, and word lists with one word per line.
use vstd::prelude::*;
use crate::loading::LoadError;

verus! {

pub open spec fn is_blank(c: char) -> bool {
    c == ' ' || c == '\t' || c == '\r'
}

/// First position at or after `i` that is a line break, or the end.
pub open spec fn line_end(s: Seq<char>, i: int) -> int
    decreases s.len() - i,
{
    if i >= s.len() || s[i] == '\n' {
        i
    } else {
        line_end(s, i + 1)
    }
}

/// The lines of `s[i..]`, without their line breaks.
pub open spec fn lines_from(s: Seq<char>, i: int) -> Seq<Seq<char>>
    decreases s.len() - i,
{
    if i >= s.len() {
        Seq::empty()
    } else {
        let e = line_end(s, i);
        if e < i || e >= s.len() {
            seq![s.subrange(i, s.len() as int)]
        } else {
            seq![s.subrange(i, e)] + lines_from(s, e + 1)
        }
    }
}

/// First position at or after `i` whose code point satisfies `blank == is_blank`.
pub open spec fn run_end(s: Seq<char>, i: int, blank: bool) -> int
    decreases s.len() - i,
{
    if i >= s.len() || is_blank(s[i]) != blank {
        i
    } else {
        run_end(s, i + 1, blank)
    }
}

/// The fields of `s[i..]`: its maximal runs of non-blank code points.
pub open spec fn fields_from(s: Seq<char>, i: int) -> Seq<Seq<char>>
    decreases s.len() - i,
{
    if i >= s.len() {
        Seq::empty()
    } else {
        let a = run_end(s, i, true);
        let b = run_end(s, a, false);
        if a < i || a >= s.len() || b <= a || b > s.len() {
            Seq::empty()
        } else {
            seq![s.subrange(a, b)] + fields_from(s, b)
        }
    }
}

pub open spec fn is_digit_char(c: char) -> bool {
    '0' <= c && c <= '9'
}

/// The number that the decimal digits `w` write.
pub open spec fn decimal(w: Seq<char>) -> int
    decreases w.len(),
{
    if w.len() == 0 {
        0
    } else {
        10 * decimal(w.drop_last()) + (w.last() as int - '0' as int)
    }
}

/// `w` writes a number of `u64` in decimal digits.
pub open spec fn is_count(w: Seq<char>) -> bool {
    &&& w.len() > 0
    &&& forall|k: int| 0 <= k < w.len() ==> is_digit_char(#[trigger] w[k])
    &&& decimal(w) <= u64::MAX
}

/// One parsed dictionary line.
pub struct DictLine {
    pub word: Vec<char>,
    pub freq: u64,
    pub tag: Vec<char>,
}

pub open spec fn line_ok(l: Seq<char>) -> bool {
    let f = fields_from(l, 0);
    f.len() >= 2 && is_count(f[1])
}

/// `p` is the parse of the dictionary line `l`.
pub open spec fn parsed(p: DictLine, l: Seq<char>) -> bool {
    let f = fields_from(l, 0);
    &&& p.word@ == f[0]
    &&& p.freq as int == decimal(f[1])
    &&& p.tag@ == (if f.len() >= 3 { f[2] } else { Seq::<char>::empty() })
}

/// Lines that hold at least one field.
pub open spec fn nonblank(ls: Seq<Seq<char>>) -> Seq<Seq<char>> {
    ls.filter(|l: Seq<char>| fields_from(l, 0).len() > 0)
}

pub proof fn lemma_line_end(s: Seq<char>, i: int)
    requires
        0 <= i <= s.len(),
    ensures
        i <= line_end(s, i) <= s.len(),
    decreases s.len() - i,
{
    if i < s.len() && s[i] != '\n' {
        lemma_line_end(s, i + 1);
    }
}

pub proof fn lemma_run_end(s: Seq<char>, i: int, blank: bool)
    requires
        0 <= i <= s.len(),
    ensures
        i <= run_end(s, i, blank) <= s.len(),
        forall|k: int| i <= k < run_end(s, i, blank) ==> is_blank(#[trigger] s[k]) == blank,
        run_end(s, i, blank) < s.len() ==> is_blank(s[run_end(s, i, blank)]) != blank,
    decreases s.len() - i,
{
    if i < s.len() && is_blank(s[i]) == blank {
        lemma_run_end(s, i + 1, blank);
    }
}

fn blank(c: char) -> (r: bool)
    ensures
        r == is_blank(c),
{
    c == ' ' || c == '\t' || c == '\r'
}

fn run_end_exec(s: &Vec<char>, i: usize, want: bool) -> (r: usize)
    requires
        i <= s@.len(),
    ensures
        r as int == run_end(s@, i as int, want),
{
    let mut k = i;
    while k < s.len() && blank(s[k]) == want
        invariant
            i <= k <= s@.len(),
            run_end(s@, i as int, want) == run_end(s@, k as int, want),
        decreases s@.len() - k,
    {
        k = k + 1;
    }
    k
}

/// The fields of `s`.
pub fn fields(s: &Vec<char>) -> (r: Vec<Vec<char>>)
    ensures
        r@.map_values(|v: Vec<char>| v@) == fields_from(s@, 0),
{
    let mut out: Vec<Vec<char>> = Vec::new();
    let mut i: usize = 0;
    while i < s.len()
        invariant
            i <= s@.len(),
            fields_from(s@, 0) == out@.map_values(|v: Vec<char>| v@) + fields_from(s@, i as int),
        decreases s@.len() - i,
    {
        proof {
            lemma_run_end(s@, i as int, true);
        }
        let a = run_end_exec(s, i, true);
        proof {
            lemma_run_end(s@, a as int, false);
        }
        let b = run_end_exec(s, a, false);
        if a >= s.len() || b <= a {
            assert(fields_from(s@, i as int) =~= Seq::<Seq<char>>::empty());
            assert(out@.map_values(|v: Vec<char>| v@) + Seq::<Seq<char>>::empty() =~= out@.map_values(|v: Vec<char>| v@));
            return out;
        }
        let mut w: Vec<char> = Vec::new();
        let mut k = a;
        while k < b
            invariant
                a <= k <= b <= s@.len(),
                w@ == s@.subrange(a as int, k as int),
            decreases b - k,
        {
            w.push(s[k]);
            assert(s@.subrange(a as int, k + 1) =~= s@.subrange(a as int, k as int).push(s@[k as int]));
            k = k + 1;
        }
        let ghost before = out@;
        let ghost wv = w@;
        out.push(w);
        assert(out@.map_values(|v: Vec<char>| v@) =~= before.map_values(|v: Vec<char>| v@).push(wv));
        assert(out@.map_values(|v: Vec<char>| v@) + fields_from(s@, b as int) =~= before.map_values(
            |v: Vec<char>| v@,
        ) + fields_from(s@, i as int));
        i = b;
    }
    assert(fields_from(s@, i as int) =~= Seq::<Seq<char>>::empty());
    assert(out@.map_values(|v: Vec<char>| v@) + Seq::<Seq<char>>::empty() =~= out@.map_values(|v: Vec<char>| v@));
    out
}

/// The number written by the digits `w`, when it is one of `u64`.
pub fn parse_count(w: &Vec<char>) -> (r: Option<u64>)
    ensures
        match r {
            Some(n) => is_count(w@) && n as int == decimal(w@),
            None => !is_count(w@),
        },
{
    if w.len() == 0 {
        return None;
    }
    let mut v: u64 = 0;
    let mut k: usize = 0;
    while k < w.len()
        invariant
            k <= w@.len(),
            forall|q: int| 0 <= q < k ==> is_digit_char(#[trigger] w@[q]),
            v as int == decimal(w@.take(k as int)),
        decreases w@.len() - k,
    {
        let c = w[k];
        assert(w@.take(k + 1).drop_last() =~= w@.take(k as int));
        if !('0' <= c && c <= '9') {
            return None;
        }
        let dgt = (c as u32 - '0' as u32) as u64;
        if v > (u64::MAX - dgt) / 10 {
            proof {
                assert(10 * (v as int) + (dgt as int) > u64::MAX) by (nonlinear_arith)
                    requires
                        (v as int) > (u64::MAX - dgt as int) / 10,
                        0 <= dgt <= 9,
                ;
                assert(decimal(w@.take(k + 1)) == 10 * decimal(w@.take(k as int)) + (c as int - '0' as int));
                if forall|q: int| 0 <= q < w@.len() ==> is_digit_char(#[trigger] w@[q]) {
                    lemma_decimal_grows(w@, k as int + 1);
                }
            }
            return None;
        }
        assert(decimal(w@.take(k + 1)) == 10 * decimal(w@.take(k as int)) + (c as int - '0' as int));
        assert(10 * (v as int) + (dgt as int) <= u64::MAX) by (nonlinear_arith)
            requires
                (v as int) <= (u64::MAX - dgt as int) / 10,
                0 <= dgt <= 9,
        ;
        v = v * 10 + dgt;
        k = k + 1;
    }
    assert(w@.take(w@.len() as int) =~= w@);
    Some(v)
}

/// Decimal values never shrink as digits are added.
pub proof fn lemma_decimal_grows(w: Seq<char>, k: int)
    requires
        0 <= k <= w.len(),
        forall|q: int| 0 <= q < w.len() ==> is_digit_char(#[trigger] w[q]),
    ensures
        decimal(w.take(k)) <= decimal(w),
        0 <= decimal(w.take(k)),
    decreases w.len() - k,
{
    lemma_decimal_nonneg(w.take(k));
    if k < w.len() {
        lemma_decimal_grows(w, k + 1);
        assert(w.take(k + 1).drop_last() =~= w.take(k));
    } else {
        assert(w.take(k) =~= w);
    }
}

pub proof fn lemma_decimal_nonneg(w: Seq<char>)
    requires
        forall|q: int| 0 <= q < w.len() ==> is_digit_char(#[trigger] w[q]),
    ensures
        0 <= decimal(w),
    decreases w.len(),
{
    if w.len() > 0 {
        lemma_decimal_nonneg(w.drop_last());
        assert(is_digit_char(w[w.len() - 1]));
    }
}

/// The lines of `ls` that hold at least one field.
pub open spec fn nonblank_lines(ls: Seq<Seq<char>>) -> Seq<Seq<char>>
    decreases ls.len(),
{
    if ls.len() == 0 {
        Seq::empty()
    } else {
        let r = nonblank_lines(ls.drop_last());
        if fields_from(ls.last(), 0).len() > 0 {
            r.push(ls.last())
        } else {
            r
        }
    }
}

/// The lines of a data file that hold at least one field.
pub open spec fn data_lines(text: Seq<char>) -> Seq<Seq<char>> {
    nonblank_lines(lines_from(text, 0))
}

/// The line of `s` that starts at `i`, and where it ends.
fn next_line(s: &Vec<char>, i: usize) -> (r: (Vec<char>, usize))
    requires
        i < s@.len(),
    ensures
        i <= r.1 <= s@.len(),
        lines_from(s@, i as int) == seq![r.0@] + (if r.1 < s@.len() { lines_from(s@, r.1 + 1) } else { Seq::empty() }),
{
    proof {
        lemma_line_end(s@, i as int);
    }
    let mut e = i;
    let mut w: Vec<char> = Vec::new();
    while e < s.len() && s[e] != '\n'
        invariant
            i <= e <= s@.len(),
            line_end(s@, i as int) == line_end(s@, e as int),
            w@ == s@.subrange(i as int, e as int),
        decreases s@.len() - e,
    {
        w.push(s[e]);
        assert(s@.subrange(i as int, e + 1) =~= s@.subrange(i as int, e as int).push(s@[e as int]));
        e = e + 1;
    }
    if e >= s.len() {
        assert(lines_from(s@, i as int) =~= seq![w@]);
        assert(seq![w@] + Seq::<Seq<char>>::empty() =~= seq![w@]);
    }
    (w, e)
}

pub proof fn lemma_nonblank_concat(a: Seq<Seq<char>>, b: Seq<Seq<char>>)
    ensures
        nonblank_lines(a + b) == nonblank_lines(a) + nonblank_lines(b),
    decreases b.len(),
{
    if b.len() == 0 {
        assert(a + b =~= a);
        assert(nonblank_lines(a) + Seq::<Seq<char>>::empty() =~= nonblank_lines(a));
    } else {
        lemma_nonblank_concat(a, b.drop_last());
        assert((a + b).drop_last() =~= a + b.drop_last());
        assert((a + b).last() == b.last());
        if fields_from(b.last(), 0).len() > 0 {
            assert(nonblank_lines(a) + nonblank_lines(b.drop_last()).push(b.last()) =~= (nonblank_lines(a)
                + nonblank_lines(b.drop_last())).push(b.last()));
        }
    }
}

/// The dictionary lines of `text`; blank lines are skipped.
pub fn parse_dict(text: &str) -> (r: Result<Vec<DictLine>, LoadError>)
    ensures
        ({
            let ls = data_lines(text@);
            match r {
                Ok(v) => (forall|k: int| 0 <= k < ls.len() ==> line_ok(#[trigger] ls[k]))
                    && v@.len() == ls.len()
                    && forall|k: int| 0 <= k < ls.len() ==> parsed(#[trigger] v@[k], ls[k]),
                Err(e) => e matches LoadError::MalformedLine(k) && k < ls.len() && !line_ok(ls[k as int])
                    && forall|q: int| 0 <= q < k ==> line_ok(#[trigger] ls[q]),
            }
        }),
{
    let s = crate::text::chars_of(text);
    let ghost all = lines_from(s@, 0);
    let mut seen: Ghost<Seq<Seq<char>>> = Ghost(Seq::empty());
    let mut out: Vec<DictLine> = Vec::new();
    let mut i: usize = 0;
    let mut more = s.len() > 0;
    assert(!more ==> all =~= Seq::<Seq<char>>::empty());
    assert(all =~= seen@ + all);
    while more
        invariant
            s@ == text@,
            more ==> i < s@.len(),
            all == lines_from(s@, 0),
            all == seen@ + (if more { lines_from(s@, i as int) } else { Seq::empty() }),
            out@.len() == nonblank_lines(seen@).len(),
            forall|k: int| 0 <= k < out@.len() ==> line_ok(#[trigger] nonblank_lines(seen@)[k]),
            forall|k: int| 0 <= k < out@.len() ==> parsed(#[trigger] out@[k], nonblank_lines(seen@)[k]),
        decreases (if more { s@.len() + 1 - i } else { 0 }),
    {
        let (line, e) = next_line(&s, i);
        let ghost before = seen@;
        let ghost rest = if e < s@.len() { lines_from(s@, e + 1) } else { Seq::<Seq<char>>::empty() };
        proof {
            seen@ = seen@.push(line@);
            assert(seen@.drop_last() =~= before);
            assert(all =~= seen@ + rest);
            lemma_nonblank_concat(seen@, rest);
        }
        let f = fields(&line);
        if f.len() > 0 {
            if f.len() < 2 {
                proof {
                    assert(nonblank_lines(seen@) == nonblank_lines(before).push(line@));
                }
                return Err(LoadError::MalformedLine(out.len()));
            }
            let fv = Ghost(f@.map_values(|v: Vec<char>| v@));
            assert(fv@[1] == f@[1]@);
            match parse_count(&f[1]) {
                None => {
                    proof {
                        assert(nonblank_lines(seen@) == nonblank_lines(before).push(line@));
                    }
                    return Err(LoadError::MalformedLine(out.len()));
                },
                Some(n) => {
                    let word = copy_chars(&f[0]);
                    let tag = if f.len() >= 3 {
                        copy_chars(&f[2])
                    } else {
                        Vec::new()
                    };
                    assert(fv@[0] == f@[0]@);
                    if f.len() >= 3 {
                        assert(fv@[2] == f@[2]@);
                    }
                    out.push(DictLine { word, freq: n, tag });
                    proof {
                        assert(nonblank_lines(seen@) == nonblank_lines(before).push(line@));
                    }
                },
            }
        } else {
            proof {
                assert(nonblank_lines(seen@) == nonblank_lines(before));
            }
        }
        if e < s.len() && e + 1 < s.len() {
            i = e + 1;
        } else {
            assert(rest =~= Seq::<Seq<char>>::empty());
            more = false;
        }
    }
    assert(seen@ + Seq::<Seq<char>>::empty() =~= seen@);
    Ok(out)
}

fn copy_chars(w: &Vec<char>) -> (r: Vec<char>)
    ensures
        r@ == w@,
{
    let mut out: Vec<char> = Vec::new();
    let mut k: usize = 0;
    while k < w.len()
        invariant
            k <= w@.len(),
            out@ == w@.take(k as int),
        decreases w@.len() - k,
    {
        out.push(w[k]);
        assert(w@.take(k + 1) =~= w@.take(k as int).push(w@[k as int]));
        k = k + 1;
    }
    assert(w@.take(w@.len() as int) =~= w@);
    out
}

/// The first field of each non-blank line of `text`: a stop-word list, or
/// the words of a user dictionary.
pub fn parse_word_list(text: &str) -> (r: Vec<Vec<char>>)
    ensures
        r@.len() == data_lines(text@).len(),
        forall|k: int| 0 <= k < r@.len() ==> (#[trigger] r@[k])@ == fields_from(data_lines(text@)[k], 0)[0],
{
    let s = crate::text::chars_of(text);
    let ghost all = lines_from(s@, 0);
    let mut seen: Ghost<Seq<Seq<char>>> = Ghost(Seq::empty());
    let mut out: Vec<Vec<char>> = Vec::new();
    let mut i: usize = 0;
    let mut more = s.len() > 0;
    assert(!more ==> all =~= Seq::<Seq<char>>::empty());
    assert(all =~= seen@ + all);
    while more
        invariant
            s@ == text@,
            more ==> i < s@.len(),
            all == lines_from(s@, 0),
            all == seen@ + (if more { lines_from(s@, i as int) } else { Seq::empty() }),
            out@.len() == nonblank_lines(seen@).len(),
            forall|k: int| 0 <= k < out@.len() ==> (#[trigger] out@[k])@ == fields_from(nonblank_lines(seen@)[k], 0)[0],
        decreases (if more { s@.len() + 1 - i } else { 0 }),
    {
        let (line, e) = next_line(&s, i);
        let ghost before = seen@;
        let ghost rest = if e < s@.len() { lines_from(s@, e + 1) } else { Seq::<Seq<char>>::empty() };
        proof {
            seen@ = seen@.push(line@);
            assert(seen@.drop_last() =~= before);
            assert(all =~= seen@ + rest);
            lemma_nonblank_concat(seen@, rest);
        }
        let f = fields(&line);
        if f.len() > 0 {
            let fv = Ghost(f@.map_values(|v: Vec<char>| v@));
            assert(fv@[0] == f@[0]@);
            out.push(copy_chars(&f[0]));
            proof {
                assert(nonblank_lines(seen@) == nonblank_lines(before).push(line@));
            }
        } else {
            proof {
                assert(nonblank_lines(seen@) == nonblank_lines(before));
            }
        }
        if e < s.len() && e + 1 < s.len() {
            i = e + 1;
        } else {
            assert(rest =~= Seq::<Seq<char>>::empty());
            more = false;
        }
    }
    assert(seen@ + Seq::<Seq<char>>::empty() =~= seen@);
    out
}

/// The field lists of the lines of `ls` that hold a field and whose first
/// field does not start with '#'.
pub open spec fn rows_of(ls: Seq<Seq<char>>) -> Seq<Seq<Seq<char>>>
    decreases ls.len(),
{
    if ls.len() == 0 {
        Seq::empty()
    } else {
        let r = rows_of(ls.drop_last());
        let f = fields_from(ls.last(), 0);
        if f.len() > 0 && f[0][0] != '#' {
            r.push(f)
        } else {
            r
        }
    }
}

pub proof fn lemma_rows_concat(a: Seq<Seq<char>>, b: Seq<Seq<char>>)
    ensures
        rows_of(a + b) == rows_of(a) + rows_of(b),
    decreases b.len(),
{
    if b.len() == 0 {
        assert(a + b =~= a);
        assert(rows_of(a) + Seq::<Seq<Seq<char>>>::empty() =~= rows_of(a));
    } else {
        lemma_rows_concat(a, b.drop_last());
        assert((a + b).drop_last() =~= a + b.drop_last());
        assert((a + b).last() == b.last());
        assert(rows_of(a) + rows_of(b.drop_last()).push(fields_from(b.last(), 0)) =~= (rows_of(a) + rows_of(
            b.drop_last(),
        )).push(fields_from(b.last(), 0)));
    }
}

pub open spec fn fields_view(v: Seq<Vec<char>>) -> Seq<Seq<char>> {
    v.map_values(|x: Vec<char>| x@)
}

/// The fields of each line of a table file (the HMM model, the IDF table),
/// leaving out blank lines and lines that start with '#'.
pub fn parse_rows(text: &str) -> (r: Vec<Vec<Vec<char>>>)
    ensures
        r@.len() == rows_of(lines_from(text@, 0)).len(),
        forall|k: int| 0 <= k < r@.len() ==> fields_view((#[trigger] r@[k])@) == rows_of(lines_from(text@, 0))[k],
{
    let s = crate::text::chars_of(text);
    let ghost all = lines_from(s@, 0);
    let mut seen: Ghost<Seq<Seq<char>>> = Ghost(Seq::empty());
    let mut out: Vec<Vec<Vec<char>>> = Vec::new();
    let mut i: usize = 0;
    let mut more = s.len() > 0;
    assert(!more ==> all =~= Seq::<Seq<char>>::empty());
    assert(all =~= seen@ + all);
    while more
        invariant
            s@ == text@,
            more ==> i < s@.len(),
            all == lines_from(s@, 0),
            all == seen@ + (if more { lines_from(s@, i as int) } else { Seq::empty() }),
            out@.len() == rows_of(seen@).len(),
            forall|k: int| 0 <= k < out@.len() ==> fields_view((#[trigger] out@[k])@) == rows_of(seen@)[k],
        decreases (if more { s@.len() + 1 - i } else { 0 }),
    {
        let (line, e) = next_line(&s, i);
        let ghost before = seen@;
        let ghost rest = if e < s@.len() { lines_from(s@, e + 1) } else { Seq::<Seq<char>>::empty() };
        proof {
            seen@ = seen@.push(line@);
            assert(seen@.drop_last() =~= before);
            assert(all =~= seen@ + rest);
        }
        let f = fields(&line);
        if f.len() > 0 && f[0].len() > 0 && f[0][0] != '#' {
            assert(fields_view(f@)[0] == f@[0]@);
            assert(fields_view(f@) == fields_from(line@, 0));
            out.push(f);
            proof {
                assert(rows_of(seen@) == rows_of(before).push(fields_from(line@, 0)));
            }
        } else {
            proof {
                if f@.len() > 0 {
                    assert(fields_view(f@)[0] == f@[0]@);
                    lemma_fields_nonempty(line@, 0);
                }
                assert(rows_of(seen@) == rows_of(before));
            }
        }
        if e < s.len() && e + 1 < s.len() {
            i = e + 1;
        } else {
            assert(rest =~= Seq::<Seq<char>>::empty());
            more = false;
        }
    }
    proof {
        lemma_rows_concat(seen@, Seq::empty());
        assert(seen@ + Seq::<Seq<char>>::empty() =~= seen@);
    }
    out
}

/// Every field is non-empty.
pub proof fn lemma_fields_nonempty(s: Seq<char>, i: int)
    requires
        0 <= i,
    ensures
        forall|k: int| 0 <= k < fields_from(s, i).len() ==> (#[trigger] fields_from(s, i)[k]).len() > 0,
    decreases s.len() - i,
{
    if i < s.len() {
        let a = run_end(s, i, true);
        let b = run_end(s, a, false);
        if !(a < i || a >= s.len() || b <= a || b > s.len()) {
            lemma_fields_nonempty(s, b);
            let r = fields_from(s, b);
            assert forall|k: int| 0 <= k < fields_from(s, i).len() implies (#[trigger] fields_from(s, i)[k]).len() > 0 by {
                if k > 0 {
                    assert(fields_from(s, i)[k] == r[k - 1]);
                }
            }
        }
    }
}

/// First position at or after `i` that holds ',', or the end.
pub open spec fn comma_end(s: Seq<char>, i: int) -> int
    decreases s.len() - i,
{
    if i >= s.len() || s[i] == ',' {
        i
    } else {
        comma_end(s, i + 1)
    }
}

/// The comma-separated items of `s[i..]`.
pub open spec fn items_from(s: Seq<char>, i: int) -> Seq<Seq<char>>
    decreases s.len() - i,
{
    if i >= s.len() {
        Seq::empty()
    } else {
        let e = comma_end(s, i);
        if e < i || e >= s.len() {
            seq![s.subrange(i, s.len() as int)]
        } else {
            seq![s.subrange(i, e)] + items_from(s, e + 1)
        }
    }
}

/// An emission item: a code point, ':', then its value.
pub open spec fn emission_ok(it: Seq<char>) -> bool {
    it.len() >= 2 && it[1] == ':'
}

pub proof fn lemma_comma_end(s: Seq<char>, i: int)
    requires
        0 <= i <= s.len(),
    ensures
        i <= comma_end(s, i) <= s.len(),
    decreases s.len() - i,
{
    if i < s.len() && s[i] != ',' {
        lemma_comma_end(s, i + 1);
    }
}

/// The items of an emission list `c:value,c:value,...`, each as its code
/// point and the text of its value; `None` when an item is not of that form.
pub fn parse_emissions(field: &Vec<char>) -> (r: Option<Vec<(char, Vec<char>)>>)
    ensures
        ({
            let its = items_from(field@, 0);
            match r {
                Some(v) => (forall|k: int| 0 <= k < its.len() ==> emission_ok(#[trigger] its[k]))
                    && v@.len() == its.len()
                    && forall|k: int| 0 <= k < its.len() ==> (#[trigger] v@[k]).0 == its[k][0] && v@[k].1@ == its[k].subrange(2, its[k].len() as int),
                None => exists|k: int| 0 <= k < its.len() && !emission_ok(#[trigger] its[k]),
            }
        }),
{
    let ghost all = items_from(field@, 0);
    let mut seen: Ghost<Seq<Seq<char>>> = Ghost(Seq::empty());
    let mut out: Vec<(char, Vec<char>)> = Vec::new();
    let n = field.len();
    let mut i: usize = 0;
    let mut more = n > 0;
    assert(!more ==> all =~= Seq::<Seq<char>>::empty());
    assert(all =~= seen@ + all);
    while more
        invariant
            n == field@.len(),
            more ==> i < n,
            all == items_from(field@, 0),
            all == seen@ + (if more { items_from(field@, i as int) } else { Seq::empty() }),
            out@.len() == seen@.len(),
            forall|k: int| 0 <= k < seen@.len() ==> emission_ok(#[trigger] seen@[k]),
            forall|k: int| 0 <= k < seen@.len() ==> (#[trigger] out@[k]).0 == seen@[k][0] && out@[k].1@ == seen@[k].subrange(2, seen@[k].len() as int),
        decreases (if more { n + 1 - i } else { 0 }),
    {
        proof {
            lemma_comma_end(field@, i as int);
        }
        let mut e = i;
        while e < n && field[e] != ','
            invariant
                i <= e <= n,
                n == field@.len(),
                comma_end(field@, i as int) == comma_end(field@, e as int),
            decreases n - e,
        {
            e = e + 1;
        }
        let ghost item = field@.subrange(i as int, e as int);
        let ghost rest = if e < n { items_from(field@, e + 1) } else { Seq::<Seq<char>>::empty() };
        proof {
            if e >= n {
                assert(items_from(field@, i as int) =~= seq![item]);
                assert(seq![item] + Seq::<Seq<char>>::empty() =~= seq![item]);
            }
            assert(all =~= seen@.push(item) + rest);
        }
        if e - i < 2 || field[i + 1] != ':' {
            proof {
                assert(all[seen@.len() as int] == item);
                assert(!emission_ok(all[seen@.len() as int]));
            }
            return None;
        }
        let mut v: Vec<char> = Vec::new();
        let mut q = i + 2;
        while q < e
            invariant
                i + 2 <= q <= e <= n,
                n == field@.len(),
                v@ == field@.subrange(i + 2, q as int),
            decreases e - q,
        {
            v.push(field[q]);
            assert(field@.subrange(i + 2, q + 1) =~= field@.subrange(i + 2, q as int).push(field@[q as int]));
            q = q + 1;
        }
        assert(item.subrange(2, item.len() as int) =~= field@.subrange(i + 2, e as int));
        out.push((field[i], v));
        proof {
            seen@ = seen@.push(item);
        }
        if e < n && e + 1 < n {
            i = e + 1;
        } else {
            assert(rest =~= Seq::<Seq<char>>::empty());
            more = false;
        }
    }
    assert(seen@ + Seq::<Seq<char>>::empty() =~= seen@);
    Some(out)
}

/// The tag of a user-dictionary line with fields `f`: `word freq tag`,
/// `word tag` or `word`; a frequency is not a tag.
pub open spec fn user_tag(f: Seq<Seq<char>>) -> Seq<char> {
    if f.len() >= 3 {
        f[2]
    } else if f.len() == 2 && !is_count(f[1]) {
        f[1]
    } else {
        Seq::empty()
    }
}

/// The word and tag of each non-blank line of a user dictionary.
pub fn parse_user_dict(text: &str) -> (r: Vec<(Vec<char>, Vec<char>)>)
    ensures
        r@.len() == data_lines(text@).len(),
        forall|k: int|
            0 <= k < r@.len() ==> (#[trigger] r@[k]).0@ == fields_from(data_lines(text@)[k], 0)[0] && r@[k].1@
                == user_tag(fields_from(data_lines(text@)[k], 0)),
{
    let s = crate::text::chars_of(text);
    let ghost all = lines_from(s@, 0);
    let mut seen: Ghost<Seq<Seq<char>>> = Ghost(Seq::empty());
    let mut out: Vec<(Vec<char>, Vec<char>)> = Vec::new();
    let mut i: usize = 0;
    let mut more = s.len() > 0;
    assert(!more ==> all =~= Seq::<Seq<char>>::empty());
    assert(all =~= seen@ + all);
    while more
        invariant
            s@ == text@,
            more ==> i < s@.len(),
            all == lines_from(s@, 0),
            all == seen@ + (if more { lines_from(s@, i as int) } else { Seq::empty() }),
            out@.len() == nonblank_lines(seen@).len(),
            forall|k: int|
                0 <= k < out@.len() ==> (#[trigger] out@[k]).0@ == fields_from(nonblank_lines(seen@)[k], 0)[0]
                    && out@[k].1@ == user_tag(fields_from(nonblank_lines(seen@)[k], 0)),
        decreases (if more { s@.len() + 1 - i } else { 0 }),
    {
        let (line, e) = next_line(&s, i);
        let ghost before = seen@;
        let ghost rest = if e < s@.len() { lines_from(s@, e + 1) } else { Seq::<Seq<char>>::empty() };
        proof {
            seen@ = seen@.push(line@);
            assert(seen@.drop_last() =~= before);
            assert(all =~= seen@ + rest);
            lemma_nonblank_concat(seen@, rest);
        }
        let f = fields(&line);
        if f.len() > 0 {
            let fv = Ghost(f@.map_values(|v: Vec<char>| v@));
            assert(fv@[0] == f@[0]@);
            let tag = if f.len() >= 3 {
                assert(fv@[2] == f@[2]@);
                copy_chars(&f[2])
            } else if f.len() == 2 {
                assert(fv@[1] == f@[1]@);
                match parse_count(&f[1]) {
                    Some(_) => Vec::new(),
                    None => copy_chars(&f[1]),
                }
            } else {
                Vec::new()
            };
            out.push((copy_chars(&f[0]), tag));
            proof {
                assert(nonblank_lines(seen@) == nonblank_lines(before).push(line@));
            }
        } else {
            proof {
                assert(nonblank_lines(seen@) == nonblank_lines(before));
            }
        }
        if e < s.len() && e + 1 < s.len() {
            i = e + 1;
        } else {
            assert(rest =~= Seq::<Seq<char>>::empty());
            more = false;
        }
    }
    assert(seen@ + Seq::<Seq<char>>::empty() =~= seen@);
    out
}

} // verus!
