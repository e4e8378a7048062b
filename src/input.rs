//! The textual query format: one query per line, `access i`, `rank b i` or
//! `select b k`, with `b` either `0` or `1` and decimal numbers, surrounded
//! by optional blanks; and the line of `'0'`/`'1'` characters that spells
//! the bits.
use vstd::prelude::*;

use crate::query::Query;

verus! {

/// Space, tab, line feed or carriage return.
pub open spec fn is_blank(b: u8) -> bool {
    b == 32 || b == 9 || b == 10 || b == 13
}

pub open spec fn is_digit(b: u8) -> bool {
    48 <= b <= 57
}

/// `s` without its leading blanks.
pub open spec fn trim_start(s: Seq<u8>) -> Seq<u8>
    decreases s.len(),
{
    if s.len() > 0 && is_blank(s[0]) {
        trim_start(s.drop_first())
    } else {
        s
    }
}

/// `s` without its trailing blanks.
pub open spec fn trim_end(s: Seq<u8>) -> Seq<u8>
    decreases s.len(),
{
    if s.len() > 0 && is_blank(s.last()) {
        trim_end(s.drop_last())
    } else {
        s
    }
}

/// `s` without leading and trailing blanks.
pub open spec fn trimmed(s: Seq<u8>) -> Seq<u8> {
    trim_end(trim_start(s))
}

/// The value of a string of decimal digits.
pub open spec fn decimal(t: Seq<u8>) -> nat
    decreases t.len(),
{
    if t.len() == 0 {
        0
    } else {
        decimal(t.drop_last()) * 10 + (t.last() - 48) as nat
    }
}

/// `t` is a non-empty string of decimal digits whose value fits a `usize`.
pub open spec fn numeral(t: Seq<u8>) -> bool {
    &&& t.len() > 0
    &&& forall|i: int| 0 <= i < t.len() ==> is_digit(#[trigger] t[i])
    &&& decimal(t) <= usize::MAX
}

/// `access `
pub open spec fn kw_access() -> Seq<u8> {
    seq![97u8, 99, 99, 101, 115, 115, 32]
}

/// `rank 0 `
pub open spec fn kw_rank0() -> Seq<u8> {
    seq![114u8, 97, 110, 107, 32, 48, 32]
}

/// `rank 1 `
pub open spec fn kw_rank1() -> Seq<u8> {
    seq![114u8, 97, 110, 107, 32, 49, 32]
}

/// `select 0 `
pub open spec fn kw_select0() -> Seq<u8> {
    seq![115u8, 101, 108, 101, 99, 116, 32, 48, 32]
}

/// `select 1 `
pub open spec fn kw_select1() -> Seq<u8> {
    seq![115u8, 101, 108, 101, 99, 116, 32, 49, 32]
}

/// `line` is `kw` followed by a numeral.
pub open spec fn keyword_then_number(line: Seq<u8>, kw: Seq<u8>) -> bool {
    &&& kw.len() <= line.len()
    &&& line.subrange(0, kw.len() as int) == kw
    &&& numeral(line.subrange(kw.len() as int, line.len() as int))
}

/// The number after `kw` in `line`.
pub open spec fn number_after(line: Seq<u8>, kw: Seq<u8>) -> usize {
    decimal(line.subrange(kw.len() as int, line.len() as int)) as usize
}

/// The query a line spells once its blanks are trimmed, if any.
pub open spec fn query_of_line(line: Seq<u8>) -> Option<Query> {
    let t = trimmed(line);
    if keyword_then_number(t, kw_access()) {
        Some(Query::Access(number_after(t, kw_access())))
    } else if keyword_then_number(t, kw_rank0()) {
        Some(Query::Rank0(number_after(t, kw_rank0())))
    } else if keyword_then_number(t, kw_rank1()) {
        Some(Query::Rank1(number_after(t, kw_rank1())))
    } else if keyword_then_number(t, kw_select0()) {
        Some(Query::Select0(number_after(t, kw_select0())))
    } else if keyword_then_number(t, kw_select1()) {
        Some(Query::Select1(number_after(t, kw_select1())))
    } else {
        None
    }
}

/// Bounds `[from, to)` of `line` without its leading and trailing blanks.
pub fn trim_bounds(line: &[u8]) -> (r: (usize, usize))
    ensures
        r.0 <= r.1 <= line@.len(),
        line@.subrange(r.0 as int, r.1 as int) == trimmed(line@),
{
    let n = line.len();
    let mut from: usize = 0;
    proof {
        assert(line@.subrange(0, n as int) =~= line@);
    }
    while from < n && (line[from] == 32 || line[from] == 9 || line[from] == 10 || line[from] == 13)
        invariant
            from <= n == line@.len(),
            trim_start(line@) == trim_start(line@.subrange(from as int, n as int)),
        decreases n - from,
    {
        proof {
            let s = line@.subrange(from as int, n as int);
            assert(s.drop_first() =~= line@.subrange(from + 1, n as int));
        }
        from = from + 1;
    }
    let ghost start = line@.subrange(from as int, n as int);
    proof {
        assert(trim_start(line@) == start);
    }
    let mut to: usize = n;
    while to > from && (line[to - 1] == 32 || line[to - 1] == 9 || line[to - 1] == 10 || line[to
        - 1] == 13)
        invariant
            from <= to <= n == line@.len(),
            start == line@.subrange(from as int, n as int),
            trim_end(start) == trim_end(line@.subrange(from as int, to as int)),
        decreases to - from,
    {
        proof {
            let s = line@.subrange(from as int, to as int);
            assert(s.drop_last() =~= line@.subrange(from as int, to - 1));
        }
        to = to - 1;
    }
    (from, to)
}

proof fn lemma_decimal_grows(t: Seq<u8>, i: int)
    requires
        0 <= i <= t.len(),
        forall|j: int| 0 <= j < t.len() ==> is_digit(#[trigger] t[j]),
    ensures
        decimal(t.subrange(0, i)) <= decimal(t),
    decreases t.len() - i,
{
    if i < t.len() {
        lemma_decimal_grows(t, i + 1);
        let a = t.subrange(0, i + 1);
        assert(a.drop_last() =~= t.subrange(0, i));
    } else {
        assert(t.subrange(0, i) =~= t);
    }
}

/// The number spelled by `line[from..to]`, if it is a numeral.
pub fn parse_number(line: &[u8], from: usize, to: usize) -> (r: Option<usize>)
    requires
        from <= to <= line@.len(),
    ensures
        r == (if numeral(line@.subrange(from as int, to as int)) {
            Some(decimal(line@.subrange(from as int, to as int)) as usize)
        } else {
            None::<usize>
        }),
{
    let ghost t = line@.subrange(from as int, to as int);
    if from == to {
        return None;
    }
    let mut value: usize = 0;
    let mut i = from;
    while i < to
        invariant
            from <= i <= to <= line@.len(),
            t == line@.subrange(from as int, to as int),
            forall|j: int| 0 <= j < i - from ==> is_digit(#[trigger] t[j]),
            value == decimal(t.subrange(0, i - from)),
        decreases to - i,
    {
        let c = line[i];
        if c < 48 || c > 57 {
            proof {
                assert(!is_digit(t[i - from]));
            }
            return None;
        }
        let d = (c - 48) as usize;
        proof {
            let a = t.subrange(0, i - from + 1);
            assert(a.drop_last() =~= t.subrange(0, i - from));
        }
        if value > (usize::MAX - d) / 10 {
            proof {
                if forall|j: int| 0 <= j < t.len() ==> is_digit(#[trigger] t[j]) {
                    lemma_decimal_grows(t, i - from + 1);
                }
            }
            return None;
        }
        value = value * 10 + d;
        i = i + 1;
    }
    proof {
        assert(t.subrange(0, to - from) =~= t);
    }
    Some(value)
}

/// Whether `line[from..to]` starts with `kw`.
fn has_keyword(line: &[u8], from: usize, to: usize, kw: &Vec<u8>) -> (r: bool)
    requires
        from <= to <= line@.len(),
    ensures
        r == (kw@.len() <= to - from && line@.subrange(from as int, to as int).subrange(
            0,
            kw@.len() as int,
        ) == kw@),
{
    if kw.len() > to - from {
        return false;
    }
    let mut j: usize = 0;
    while j < kw.len()
        invariant
            kw@.len() <= to - from,
            from <= to <= line@.len(),
            j <= kw@.len(),
            forall|t: int| 0 <= t < j ==> line@[from + t] == kw@[t],
        decreases kw@.len() - j,
    {
        if line[from + j] != kw[j] {
            proof {
                let s = line@.subrange(from as int, to as int).subrange(0, kw@.len() as int);
                assert(s[j as int] != kw@[j as int]);
            }
            return false;
        }
        j = j + 1;
    }
    proof {
        assert(line@.subrange(from as int, to as int).subrange(0, kw@.len() as int) =~= kw@);
    }
    true
}

/// The number after `kw` at the start of `line[from..to]`, if `kw` is
/// there and a numeral follows it.
fn keyword_number(line: &[u8], from: usize, to: usize, kw: &Vec<u8>) -> (r: Option<usize>)
    requires
        from <= to <= line@.len(),
    ensures
        ({
            let t = line@.subrange(from as int, to as int);
            r == if keyword_then_number(t, kw@) {
                Some(number_after(t, kw@))
            } else {
                None::<usize>
            }
        }),
{
    let ghost t = line@.subrange(from as int, to as int);
    if !has_keyword(line, from, to, kw) {
        return None;
    }
    proof {
        assert(t.subrange(kw@.len() as int, t.len() as int) =~= line@.subrange(
            from + kw@.len(),
            to as int,
        ));
    }
    parse_number(line, from + kw.len(), to)
}

/// Reads one query line.
pub fn parse_query_line(line: &[u8]) -> (r: Option<Query>)
    ensures
        r == query_of_line(line@),
{
    let (from, to) = trim_bounds(line);
    let access: Vec<u8> = vec![97u8, 99, 99, 101, 115, 115, 32];
    let rank0: Vec<u8> = vec![114u8, 97, 110, 107, 32, 48, 32];
    let rank1: Vec<u8> = vec![114u8, 97, 110, 107, 32, 49, 32];
    let select0: Vec<u8> = vec![115u8, 101, 108, 101, 99, 116, 32, 48, 32];
    let select1: Vec<u8> = vec![115u8, 101, 108, 101, 99, 116, 32, 49, 32];
    proof {
        assert(access@ =~= kw_access());
        assert(rank0@ =~= kw_rank0());
        assert(rank1@ =~= kw_rank1());
        assert(select0@ =~= kw_select0());
        assert(select1@ =~= kw_select1());
    }
    if let Some(i) = keyword_number(line, from, to, &access) {
        return Some(Query::Access(i));
    }
    if let Some(i) = keyword_number(line, from, to, &rank0) {
        return Some(Query::Rank0(i));
    }
    if let Some(i) = keyword_number(line, from, to, &rank1) {
        return Some(Query::Rank1(i));
    }
    if let Some(k) = keyword_number(line, from, to, &select0) {
        return Some(Query::Select0(k));
    }
    if let Some(k) = keyword_number(line, from, to, &select1) {
        return Some(Query::Select1(k));
    }
    None
}

/// `text` is a non-empty string of `'0'` and `'1'` characters.
pub open spec fn bit_text(text: Seq<u8>) -> bool {
    &&& text.len() > 0
    &&& forall|i: int| 0 <= i < text.len() ==> #[trigger] text[i] == 48 || text[i] == 49
}

/// Whether `text` is a non-empty string of `'0'` and `'1'` characters.
pub fn is_bit_text(text: &[u8]) -> (r: bool)
    ensures
        r == bit_text(text@),
{
    if text.len() == 0 {
        return false;
    }
    let mut i: usize = 0;
    while i < text.len()
        invariant
            i <= text@.len(),
            forall|j: int| 0 <= j < i ==> #[trigger] text@[j] == 48 || text@[j] == 49,
        decreases text@.len() - i,
    {
        if text[i] != 48 && text[i] != 49 {
            return false;
        }
        i = i + 1;
    }
    true
}

} // verus!
