//! Camp cleanup: pairs of section ranges of which one contains the other,
//! or which overlap.

use crate::text::{chars_of, lines, parse_i64, signed_of, split_at_first, split_lines, split_once, views};
use vstd::prelude::*;

verus! {

/// Why a list of assignments has no answer.
#[derive(Clone, Copy, Debug, PartialEq, Eq)]
pub enum Error {
    /// A line holds no comma.
    InvalidLine,
    /// A range holds no hyphen.
    InvalidRange,
    /// A bound of a range is not a number.
    InvalidNumber,
}

/// The sections from `start` to `end`, both included; none if `end < start`.
#[derive(Clone, Copy, Debug, PartialEq, Eq)]
pub struct Sections {
    pub start: i64,
    pub end: i64,
}

/// What to count the pairs by.
#[derive(Clone, Copy, Debug, PartialEq, Eq)]
pub enum Rule {
    FullyContained,
    Overlap,
}

/// One range starts no later and ends no earlier than the other.
pub open spec fn contained(r: (Sections, Sections)) -> bool {
    r.0.start <= r.1.start && r.0.end >= r.1.end || r.1.start <= r.0.start && r.1.end >= r.0.end
}

/// The later start is no later than the earlier end.
pub open spec fn overlapping(r: (Sections, Sections)) -> bool {
    let start = if r.0.start >= r.1.start { r.0.start } else { r.1.start };
    let end = if r.0.end <= r.1.end { r.0.end } else { r.1.end };
    start <= end
}

/// Whether `rule` holds of the pair `r`.
pub open spec fn holds(rule: Rule, r: (Sections, Sections)) -> bool {
    match rule {
        Rule::FullyContained => contained(r),
        Rule::Overlap => overlapping(r),
    }
}

/// The number that `s` denotes as an `i64`.
pub open spec fn number_of(s: Seq<char>) -> Result<i64, Error> {
    match signed_of(s, i64::MIN as int, i64::MAX as int) {
        Some(v) => Ok(v as i64),
        None => Err(Error::InvalidNumber),
    }
}

/// The range that `s` denotes: two numbers with a hyphen between them.
pub open spec fn range_of(s: Seq<char>) -> Result<Sections, Error> {
    match split_once(s, '-') {
        None => Err(Error::InvalidRange),
        Some((a, b)) => match number_of(a) {
            Err(e) => Err(e),
            Ok(start) => match number_of(b) {
                Err(e) => Err(e),
                Ok(end) => Ok(Sections { start, end }),
            },
        },
    }
}

/// The pair of ranges that `s` denotes: two ranges with a comma between them.
pub open spec fn pair_of(s: Seq<char>) -> Result<(Sections, Sections), Error> {
    match split_once(s, ',') {
        None => Err(Error::InvalidLine),
        Some((a, b)) => match range_of(a) {
            Err(e) => Err(e),
            Ok(x) => match range_of(b) {
                Err(e) => Err(e),
                Ok(y) => Ok((x, y)),
            },
        },
    }
}

/// The number of pairs among the first `n` lines of which `rule` holds, or
/// the error of the first line that denotes no pair.
pub open spec fn count_of(all: Seq<Seq<char>>, rule: Rule, n: nat) -> Result<nat, Error>
    decreases n,
{
    if n == 0 {
        Ok(0)
    } else {
        match count_of(all, rule, (n - 1) as nat) {
            Err(e) => Err(e),
            Ok(k) => match pair_of(all[n - 1]) {
                Err(e) => Err(e),
                Ok(r) => Ok(
                    if holds(rule, r) {
                        k + 1
                    } else {
                        k
                    },
                ),
            },
        }
    }
}

/// An error among the first lines is the error of all lines.
pub proof fn lemma_count_error(all: Seq<Seq<char>>, rule: Rule, k: nat, n: nat)
    requires
        k <= n,
        count_of(all, rule, k) is Err,
    ensures
        count_of(all, rule, n) == count_of(all, rule, k),
    decreases n,
{
    if k < n {
        lemma_count_error(all, rule, k, (n - 1) as nat);
    }
}

/// Whether one range of the pair contains the other.
pub fn fully_contained(r: &(Sections, Sections)) -> (b: bool)
    ensures
        b == contained(*r),
{
    r.0.start <= r.1.start && r.0.end >= r.1.end || r.1.start <= r.0.start && r.1.end >= r.0.end
}

/// Whether the ranges of the pair have a section in common.
pub fn overlap(r: &(Sections, Sections)) -> (b: bool)
    ensures
        b == overlapping(*r),
{
    let start = if r.0.start >= r.1.start { r.0.start } else { r.1.start };
    let end = if r.0.end <= r.1.end { r.0.end } else { r.1.end };
    start <= end
}

/// Reads a range.
pub fn decode_range(s: &Vec<char>) -> (r: Result<Sections, Error>)
    ensures
        r == range_of(s@),
{
    match split_at_first(s, '-') {
        None => Err(Error::InvalidRange),
        Some((a, b)) => {
            let start = match parse_i64(&a) {
                Some(v) => v,
                None => {
                    return Err(Error::InvalidNumber);
                },
            };
            let end = match parse_i64(&b) {
                Some(v) => v,
                None => {
                    return Err(Error::InvalidNumber);
                },
            };
            Ok(Sections { start, end })
        },
    }
}

/// Reads a pair of ranges.
pub fn decode(s: &Vec<char>) -> (r: Result<(Sections, Sections), Error>)
    ensures
        r == pair_of(s@),
{
    match split_at_first(s, ',') {
        None => Err(Error::InvalidLine),
        Some((a, b)) => {
            let x = match decode_range(&a) {
                Ok(x) => x,
                Err(e) => {
                    return Err(e);
                },
            };
            let y = match decode_range(&b) {
                Ok(y) => y,
                Err(e) => {
                    return Err(e);
                },
            };
            Ok((x, y))
        },
    }
}

/// The number of lines of `input` whose pair of ranges `rule` holds of.
pub fn compute(input: &str, rule: Rule) -> (r: Result<usize, Error>)
    ensures
        match count_of(lines(input@), rule, lines(input@).len()) {
            Ok(k) => r == Ok::<usize, Error>(k as usize) && k <= usize::MAX,
            Err(e) => r == Err::<usize, Error>(e),
        },
{
    let text = chars_of(input);
    let rows = split_lines(&text);
    let ghost all = lines(input@);
    let mut count: usize = 0;
    let mut i: usize = 0;
    while i < rows.len()
        invariant
            i <= rows.len(),
            views(rows@) == all,
            all == lines(input@),
            count_of(all, rule, i as nat) == Ok::<nat, Error>(count as nat),
            count <= i,
        decreases rows.len() - i,
    {
        assert(rows[i as int]@ == all[i as int]);
        match decode(&rows[i]) {
            Err(e) => {
                proof {
                    assert(count_of(all, rule, (i + 1) as nat) == Err::<nat, Error>(e));
                    lemma_count_error(all, rule, (i + 1) as nat, all.len());
                }
                return Err(e);
            },
            Ok(pair) => {
                let hit = match rule {
                    Rule::FullyContained => fully_contained(&pair),
                    Rule::Overlap => overlap(&pair),
                };
                if hit {
                    count += 1;
                }
            },
        }
        i += 1;
    }
    Ok(count)
}

} // verus!
