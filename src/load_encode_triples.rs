use vstd::prelude::*;

use crate::triple_set::Triple;

verus! {

/// Why an encoded triple file could not be read.
#[derive(Debug, Clone, Copy, PartialEq, Eq)]
pub enum LoadError {
    /// The line with this index (counted from 0) is neither blank nor three
    /// decimal identifiers that fit in 32 bits.
    MalformedLine(usize),
}

/// Blanks that separate the fields of a line: space, tab, vertical tab,
/// form feed and carriage return.
pub open spec fn is_blank(c: u8) -> bool {
    c == 32 || c == 9 || c == 11 || c == 12 || c == 13
}

/// A decimal digit.
pub open spec fn is_digit(c: u8) -> bool {
    48 <= c <= 57
}

/// The first index at or after `i` that is not a blank (or the end).
pub open spec fn skip_blanks(l: Seq<u8>, i: int) -> int
    decreases l.len() - i,
{
    if 0 <= i < l.len() && is_blank(l[i]) {
        skip_blanks(l, i + 1)
    } else {
        i
    }
}

/// The first index at or after `i` that is a blank (or the end).
pub open spec fn field_end(l: Seq<u8>, i: int) -> int
    decreases l.len() - i,
{
    if 0 <= i < l.len() && !is_blank(l[i]) {
        field_end(l, i + 1)
    } else {
        i
    }
}

/// The first index at or after `i` that holds a line feed (or the end).
pub open spec fn line_end(b: Seq<u8>, i: int) -> int
    decreases b.len() - i,
{
    if 0 <= i < b.len() && b[i] != 10 {
        line_end(b, i + 1)
    } else {
        i
    }
}

/// The number that the digits `f` spell in base ten.
pub open spec fn decimal(f: Seq<u8>) -> nat
    decreases f.len(),
{
    if f.len() == 0 {
        0
    } else {
        decimal(f.drop_last()) * 10 + (f.last() - 48) as nat
    }
}

/// `f` is a decimal identifier that fits in 32 bits.
pub open spec fn is_identifier(f: Seq<u8>) -> bool {
    &&& f.len() > 0
    &&& forall|k: int| 0 <= k < f.len() ==> is_digit(#[trigger] f[k])
    &&& decimal(f) <= u32::MAX
}

/// The field of `l` that starts at or after `i`, as `(start, end)`.
pub open spec fn field_after(l: Seq<u8>, i: int) -> (int, int) {
    (skip_blanks(l, i), field_end(l, skip_blanks(l, i)))
}

/// What the line `l` holds: `None` if it is malformed, `Some(None)` if it is
/// blank, `Some(Some(t))` if its first three fields are the identifiers of
/// `t`. Fields after the third are not read.
pub open spec fn line_triple(l: Seq<u8>) -> Option<Option<Triple>> {
    let f0 = field_after(l, 0);
    let f1 = field_after(l, f0.1);
    let f2 = field_after(l, f1.1);
    let s = l.subrange(f0.0, f0.1);
    let p = l.subrange(f1.0, f1.1);
    let o = l.subrange(f2.0, f2.1);
    if f0.0 == l.len() {
        Some(None)
    } else if is_identifier(s) && is_identifier(p) && is_identifier(o) {
        Some(Some((decimal(s) as u32, decimal(p) as u32, decimal(o) as u32)))
    } else {
        None
    }
}

/// The triples of the lines of `b` from index `i` on, where the line at `i`
/// has index `line`; or the index of the first malformed line.
pub open spec fn triples_from(b: Seq<u8>, i: int, line: int) -> Result<Seq<Triple>, int>
    decreases b.len() + 1 - i via triples_from_decreases
{
    if i < 0 || i >= b.len() {
        Ok(Seq::empty())
    } else {
        let j = line_end(b, i);
        match line_triple(b.subrange(i, j)) {
            None => Err(line),
            Some(None) => triples_from(b, j + 1, line + 1),
            Some(Some(t)) => match triples_from(b, j + 1, line + 1) {
                Ok(rest) => Ok(seq![t].add(rest)),
                Err(e) => Err(e),
            },
        }
    }
}

#[via_fn]
proof fn triples_from_decreases(b: Seq<u8>, i: int, line: int) {
    if 0 <= i < b.len() {
        lemma_line_end_bounds(b, i);
    }
}

proof fn lemma_line_end_bounds(b: Seq<u8>, i: int)
    requires
        0 <= i <= b.len(),
    ensures
        i <= line_end(b, i) <= b.len(),
        line_end(b, i) < b.len() ==> b[line_end(b, i)] == 10,
    decreases b.len() - i,
{
    if i < b.len() && b[i] != 10 {
        lemma_line_end_bounds(b, i + 1);
    }
}

proof fn lemma_skip_bounds(l: Seq<u8>, i: int)
    requires
        0 <= i <= l.len(),
    ensures
        i <= skip_blanks(l, i) <= l.len(),
        i <= field_end(l, i) <= l.len(),
        skip_blanks(l, i) < l.len() ==> !is_blank(l[skip_blanks(l, i)]),
    decreases l.len() - i,
{
    if i < l.len() {
        lemma_skip_bounds(l, i + 1);
    }
}

/// Each digit added at the end makes a number at least as large.
proof fn lemma_decimal_prefix(f: Seq<u8>, k: int)
    requires
        0 <= k <= f.len(),
        forall|m: int| 0 <= m < f.len() ==> is_digit(#[trigger] f[m]),
    ensures
        decimal(f.subrange(0, k)) <= decimal(f),
    decreases f.len() - k,
{
    if k < f.len() {
        lemma_decimal_prefix(f, k + 1);
        assert(f.subrange(0, k + 1).drop_last() == f.subrange(0, k));
    } else {
        assert(f.subrange(0, k) == f);
    }
}

/// The first index at or after `i` in `l[..end]` that is not a blank.
fn skip_blanks_exec(l: &[u8], i: usize, end: usize) -> (r: usize)
    requires
        i <= end <= l@.len(),
    ensures
        r as int == skip_blanks(l@.subrange(0, end as int), i as int),
{
    let ghost s = l@.subrange(0, end as int);
    let mut k = i;
    while k < end && (l[k] == 32 || l[k] == 9 || l[k] == 11 || l[k] == 12 || l[k] == 13)
        invariant
            i <= k <= end,
            end <= l@.len(),
            s == l@.subrange(0, end as int),
            skip_blanks(s, i as int) == skip_blanks(s, k as int),
        decreases end - k,
    {
        assert(s[k as int] == l@[k as int]);
        k = k + 1;
    }
    if k < end {
        assert(s[k as int] == l@[k as int]);
    }
    k
}

/// The first index at or after `i` in `l[..end]` that is a blank.
fn field_end_exec(l: &[u8], i: usize, end: usize) -> (r: usize)
    requires
        i <= end <= l@.len(),
    ensures
        r as int == field_end(l@.subrange(0, end as int), i as int),
{
    let ghost s = l@.subrange(0, end as int);
    let mut k = i;
    while k < end && !(l[k] == 32 || l[k] == 9 || l[k] == 11 || l[k] == 12 || l[k] == 13)
        invariant
            i <= k <= end,
            end <= l@.len(),
            s == l@.subrange(0, end as int),
            field_end(s, i as int) == field_end(s, k as int),
        decreases end - k,
    {
        assert(s[k as int] == l@[k as int]);
        k = k + 1;
    }
    if k < end {
        assert(s[k as int] == l@[k as int]);
    }
    k
}

/// The identifier spelled by `b[from..to]`, if it is one.
fn identifier(b: &[u8], from: usize, to: usize) -> (r: Option<u32>)
    requires
        from <= to <= b@.len(),
    ensures
        r == (if is_identifier(b@.subrange(from as int, to as int)) {
            Some(decimal(b@.subrange(from as int, to as int)) as u32)
        } else {
            None
        }),
{
    let ghost f = b@.subrange(from as int, to as int);
    if from == to {
        return None;
    }
    let mut k = from;
    let mut v: u64 = 0;
    while k < to
        invariant
            from <= k <= to,
            to <= b@.len(),
            f == b@.subrange(from as int, to as int),
            forall|m: int| 0 <= m < k - from ==> is_digit(#[trigger] f[m]),
            v == decimal(f.subrange(0, k - from)),
            v <= u32::MAX,
        decreases to - k,
    {
        let c = b[k];
        assert(f[k - from] == c);
        if c < 48 || c > 57 {
            return None;
        }
        assert(f.subrange(0, k - from + 1).drop_last() == f.subrange(0, k - from));
        let next = v * 10 + (c - 48) as u64;
        if next > 4294967295 {
            proof {
                let pre = f.subrange(0, k - from + 1);
                if forall|m: int| 0 <= m < f.len() ==> is_digit(#[trigger] f[m]) {
                    lemma_decimal_prefix(f, k - from + 1);
                }
            }
            return None;
        }
        v = next;
        k = k + 1;
    }
    assert(f.subrange(0, to - from) == f);
    Some(v as u32)
}

/// The triple on the line `b[from..to]`: `None` if it is malformed,
/// `Some(None)` if it is blank.
fn parse_line(b: &[u8], from: usize, to: usize) -> (r: Option<Option<Triple>>)
    requires
        from <= to <= b@.len(),
    ensures
        r == line_triple(b@.subrange(from as int, to as int)),
{
    let ghost l = b@.subrange(from as int, to as int);
    let ghost s = b@.subrange(0, to as int);
    proof {
        assert forall|i: int| from <= i <= to implies skip_blanks(s, i) == skip_blanks(l, i - from) + from
            && field_end(s, i) == field_end(l, i - from) + from by {
            lemma_shift(b@, from as int, to as int, i);
        }
        lemma_skip_bounds(s, from as int);
    }
    let a0 = skip_blanks_exec(b, from, to);
    if a0 == to {
        return Some(None);
    }
    proof {
        lemma_skip_bounds(s, a0 as int);
    }
    let e0 = field_end_exec(b, a0, to);
    proof {
        lemma_skip_bounds(s, e0 as int);
    }
    let a1 = skip_blanks_exec(b, e0, to);
    proof {
        lemma_skip_bounds(s, a1 as int);
    }
    let e1 = field_end_exec(b, a1, to);
    proof {
        lemma_skip_bounds(s, e1 as int);
    }
    let a2 = skip_blanks_exec(b, e1, to);
    proof {
        lemma_skip_bounds(s, a2 as int);
    }
    let e2 = field_end_exec(b, a2, to);
    assert(l.subrange(a0 - from, e0 - from) == b@.subrange(a0 as int, e0 as int));
    assert(l.subrange(a1 - from, e1 - from) == b@.subrange(a1 as int, e1 as int));
    assert(l.subrange(a2 - from, e2 - from) == b@.subrange(a2 as int, e2 as int));
    let s0 = identifier(b, a0, e0);
    let p0 = identifier(b, a1, e1);
    let o0 = identifier(b, a2, e2);
    match (s0, p0, o0) {
        (Some(x), Some(y), Some(z)) => Some(Some((x, y, z))),
        _ => None,
    }
}

/// Scanning a line of `b` from `i` sees what scanning the line alone sees,
/// shifted by where the line starts.
proof fn lemma_shift(b: Seq<u8>, from: int, to: int, i: int)
    requires
        0 <= from <= i <= to <= b.len(),
    ensures
        skip_blanks(b.subrange(0, to), i) == skip_blanks(b.subrange(from, to), i - from) + from,
        field_end(b.subrange(0, to), i) == field_end(b.subrange(from, to), i - from) + from,
    decreases to - i,
{
    if i < to {
        lemma_shift(b, from, to, i + 1);
    }
}

/// Reads encoded triples: one `<s> <p> <o>` line of decimal identifiers per
/// triple, blank lines skipped, repeated lines kept.
pub fn load3enc(bytes: &[u8]) -> (r: Result<Vec<Triple>, LoadError>)
    ensures
        match triples_from(bytes@, 0, 0) {
            Ok(ts) => r == Ok::<Vec<Triple>, LoadError>(r.unwrap()) && r.unwrap()@ == ts,
            Err(line) => r == Err::<Vec<Triple>, LoadError>(LoadError::MalformedLine(line as usize)),
        },
{
    let mut out: Vec<Triple> = Vec::new();
    let mut i: usize = 0;
    let mut line: usize = 0;
    proof {
        match triples_from(bytes@, 0, 0) {
            Ok(rest) => {
                assert(out@.add(rest) =~= rest);
            },
            Err(e) => {},
        }
    }
    while i < bytes.len()
        invariant
            i <= bytes@.len(),
            line <= i,
            triples_from(bytes@, 0, 0) == match triples_from(bytes@, i as int, line as int) {
                Ok(rest) => Ok(out@.add(rest)),
                Err(e) => Err::<Seq<Triple>, int>(e),
            },
        decreases bytes@.len() - i,
    {
        let mut j = i;
        while j < bytes.len() && bytes[j] != 10
            invariant
                i <= j <= bytes@.len(),
                line_end(bytes@, i as int) == line_end(bytes@, j as int),
            decreases bytes@.len() - j,
        {
            j = j + 1;
        }
        proof {
            lemma_line_end_bounds(bytes@, j as int);
        }
        match parse_line(bytes, i, j) {
            None => {
                return Err(LoadError::MalformedLine(line));
            },
            Some(None) => {},
            Some(Some(t)) => {
                proof {
                    match triples_from(bytes@, j + 1, line + 1) {
                        Ok(rest) => {
                            assert(out@.push(t).add(rest) =~= out@.add(seq![t].add(rest)));
                        },
                        Err(e) => {},
                    }
                }
                out.push(t);
            },
        }
        if j == bytes.len() {
            i = j;
        } else {
            i = j + 1;
        }
        line = line + 1;
    }
    assert(out@.add(Seq::empty()) =~= out@);
    Ok(out)
}

/// The three terms of an N-Triples statement, as bytes.
pub type TermTriple = (Vec<u8>, Vec<u8>, Vec<u8>);

/// What the N-Triples line `l` holds: `None` if it has fewer than three
/// fields, `Some(None)` if it is blank, `Some(Some(..))` with its first three
/// fields otherwise. The closing `.` and anything after the third field are
/// not read.
pub open spec fn line_terms(l: Seq<u8>) -> Option<Option<(Seq<u8>, Seq<u8>, Seq<u8>)>> {
    let f0 = field_after(l, 0);
    let f1 = field_after(l, f0.1);
    let f2 = field_after(l, f1.1);
    if f0.0 == l.len() {
        Some(None)
    } else if f1.0 < l.len() && f2.0 < l.len() {
        Some(Some((l.subrange(f0.0, f0.1), l.subrange(f1.0, f1.1), l.subrange(f2.0, f2.1))))
    } else {
        None
    }
}

/// The statements of the lines of `b` from index `i` on, where the line at
/// `i` has index `line`; or the index of the first malformed line.
pub open spec fn terms_from(b: Seq<u8>, i: int, line: int) -> Result<Seq<(Seq<u8>, Seq<u8>, Seq<u8>)>, int>
    decreases b.len() + 1 - i via terms_from_decreases
{
    if i < 0 || i >= b.len() {
        Ok(Seq::empty())
    } else {
        let j = line_end(b, i);
        match line_terms(b.subrange(i, j)) {
            None => Err(line),
            Some(None) => terms_from(b, j + 1, line + 1),
            Some(Some(t)) => match terms_from(b, j + 1, line + 1) {
                Ok(rest) => Ok(seq![t].add(rest)),
                Err(e) => Err(e),
            },
        }
    }
}

#[via_fn]
proof fn terms_from_decreases(b: Seq<u8>, i: int, line: int) {
    if 0 <= i < b.len() {
        lemma_line_end_bounds(b, i);
    }
}

/// The bytes `b[from..to]`.
fn copy_range(b: &[u8], from: usize, to: usize) -> (r: Vec<u8>)
    requires
        from <= to <= b@.len(),
    ensures
        r@ == b@.subrange(from as int, to as int),
{
    let mut r: Vec<u8> = Vec::new();
    let mut k = from;
    while k < to
        invariant
            from <= k <= to,
            to <= b@.len(),
            r@ == b@.subrange(from as int, k as int),
        decreases to - k,
    {
        r.push(b[k]);
        assert(b@.subrange(from as int, k as int + 1) == b@.subrange(from as int, k as int).push(b@[k as int]));
        k = k + 1;
    }
    r
}

/// The terms on the line `b[from..to]`: `None` if it is malformed,
/// `Some(None)` if it is blank.
fn parse_terms(b: &[u8], from: usize, to: usize) -> (r: Option<Option<TermTriple>>)
    requires
        from <= to <= b@.len(),
    ensures
        match line_terms(b@.subrange(from as int, to as int)) {
            None => r.is_none(),
            Some(None) => r == Some(None::<TermTriple>),
            Some(Some(t)) => r.is_some() && r.unwrap().is_some() && r.unwrap().unwrap().0@ == t.0
                && r.unwrap().unwrap().1@ == t.1 && r.unwrap().unwrap().2@ == t.2,
        },
{
    let ghost l = b@.subrange(from as int, to as int);
    let ghost s = b@.subrange(0, to as int);
    proof {
        assert forall|i: int| from <= i <= to implies skip_blanks(s, i) == skip_blanks(l, i - from) + from
            && field_end(s, i) == field_end(l, i - from) + from by {
            lemma_shift(b@, from as int, to as int, i);
        }
        lemma_skip_bounds(s, from as int);
    }
    let a0 = skip_blanks_exec(b, from, to);
    if a0 == to {
        return Some(None);
    }
    proof {
        lemma_skip_bounds(s, a0 as int);
    }
    let e0 = field_end_exec(b, a0, to);
    proof {
        lemma_skip_bounds(s, e0 as int);
    }
    let a1 = skip_blanks_exec(b, e0, to);
    proof {
        lemma_skip_bounds(s, a1 as int);
    }
    let e1 = field_end_exec(b, a1, to);
    proof {
        lemma_skip_bounds(s, e1 as int);
    }
    let a2 = skip_blanks_exec(b, e1, to);
    proof {
        lemma_skip_bounds(s, a2 as int);
    }
    let e2 = field_end_exec(b, a2, to);
    if a1 == to || a2 == to {
        return None;
    }
    assert(l.subrange(a0 - from, e0 - from) == b@.subrange(a0 as int, e0 as int));
    assert(l.subrange(a1 - from, e1 - from) == b@.subrange(a1 as int, e1 as int));
    assert(l.subrange(a2 - from, e2 - from) == b@.subrange(a2 as int, e2 as int));
    Some(Some((copy_range(b, a0, e0), copy_range(b, a1, e1), copy_range(b, a2, e2))))
}

/// `r` holds the statements `ts`, term by term.
pub open spec fn holds_terms(r: Seq<TermTriple>, ts: Seq<(Seq<u8>, Seq<u8>, Seq<u8>)>) -> bool {
    &&& r.len() == ts.len()
    &&& forall|k: int| 0 <= k < r.len() ==> (#[trigger] r[k]).0@ == ts[k].0 && r[k].1@ == ts[k].1 && r[k].2@ == ts[k].2
}

/// Reads N-Triples statements: the first three fields of each line, blank
/// lines skipped, repeated lines kept.
pub fn load3nt(bytes: &[u8]) -> (r: Result<Vec<TermTriple>, LoadError>)
    ensures
        match terms_from(bytes@, 0, 0) {
            Ok(ts) => r.is_ok() && holds_terms(r.unwrap()@, ts),
            Err(line) => r == Err::<Vec<TermTriple>, LoadError>(LoadError::MalformedLine(line as usize)),
        },
{
    let mut out: Vec<TermTriple> = Vec::new();
    let ghost mut done: Seq<(Seq<u8>, Seq<u8>, Seq<u8>)> = Seq::empty();
    let mut i: usize = 0;
    let mut line: usize = 0;
    proof {
        match terms_from(bytes@, 0, 0) {
            Ok(rest) => {
                assert(done.add(rest) =~= rest);
            },
            Err(e) => {},
        }
    }
    while i < bytes.len()
        invariant
            i <= bytes@.len(),
            line <= i,
            holds_terms(out@, done),
            terms_from(bytes@, 0, 0) == match terms_from(bytes@, i as int, line as int) {
                Ok(rest) => Ok(done.add(rest)),
                Err(e) => Err::<Seq<(Seq<u8>, Seq<u8>, Seq<u8>)>, int>(e),
            },
        decreases bytes@.len() - i,
    {
        let mut j = i;
        while j < bytes.len() && bytes[j] != 10
            invariant
                i <= j <= bytes@.len(),
                line_end(bytes@, i as int) == line_end(bytes@, j as int),
            decreases bytes@.len() - j,
        {
            j = j + 1;
        }
        proof {
            lemma_line_end_bounds(bytes@, j as int);
        }
        match parse_terms(bytes, i, j) {
            None => {
                return Err(LoadError::MalformedLine(line));
            },
            Some(None) => {},
            Some(Some(t)) => {
                let ghost tv = (t.0@, t.1@, t.2@);
                proof {
                    match terms_from(bytes@, j + 1, line + 1) {
                        Ok(rest) => {
                            assert(done.push(tv).add(rest) =~= done.add(seq![tv].add(rest)));
                        },
                        Err(e) => {},
                    }
                }
                out.push(t);
                proof {
                    done = done.push(tv);
                    assert(holds_terms(out@, done)) by {
                        assert forall|k: int| 0 <= k < out@.len() implies (#[trigger] out@[k]).0@ == done[k].0
                            && out@[k].1@ == done[k].1 && out@[k].2@ == done[k].2 by {
                            if k < out@.len() - 1 {
                            }
                        }
                    }
                }
            },
        }
        if j == bytes.len() {
            i = j;
        } else {
            i = j + 1;
        }
        line = line + 1;
    }
    assert(done.add(Seq::empty()) =~= done);
    Ok(out)
}

} // verus!
