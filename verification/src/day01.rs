//! Calorie counting: the sum of the largest totals among groups of numbers.

use crate::text::{chars_of, lines, parse_i64, signed_of, split_lines, views};
use vstd::prelude::*;

verus! {

/// Why a list of calories has no answer.
#[derive(Clone, Copy, Debug, PartialEq, Eq)]
pub enum Error {
    /// A line is neither empty nor a number.
    InvalidNumber,
    /// A sum does not fit the result type.
    Overflow,
}

/// The sum of the numbers of `s`.
pub open spec fn total(s: Seq<i64>) -> int
    decreases s.len(),
{
    if s.len() == 0 {
        0
    } else {
        total(s.drop_last()) + s.last()
    }
}

/// Adding up the numbers of `s` from the first on never leaves the range of
/// `i64`.
pub open spec fn sum_fits(s: Seq<i64>) -> bool {
    forall|k: int| 0 <= k <= s.len() ==> i64::MIN <= #[trigger] total(s.take(k)) <= i64::MAX
}

/// Place `m` holds the least number of `s`, and no earlier place does.
pub open spec fn is_first_min(s: Seq<i64>, m: int) -> bool {
    &&& 0 <= m < s.len()
    &&& forall|j: int| 0 <= j < s.len() ==> s[m] <= #[trigger] s[j]
    &&& forall|j: int| 0 <= j < m ==> s[m] < #[trigger] s[j]
}

/// The place of the first least number of a non-empty `s`.
pub open spec fn first_min(s: Seq<i64>) -> int {
    choose|m: int| is_first_min(s, m)
}

/// The numbers `s` after `v` was offered: `v` takes the place of the first
/// least number if it is greater.
pub open spec fn offered(s: Seq<i64>, v: i64) -> Seq<i64> {
    if s.len() > 0 && v > s[first_min(s)] {
        s.update(first_min(s), v)
    } else {
        s
    }
}

/// The largest numbers seen so far, in no particular order.
pub struct Max {
    max: Vec<i64>,
}

impl View for Max {
    type V = Seq<i64>;

    closed spec fn view(&self) -> Seq<i64> {
        self.max@
    }
}

/// What reading the first `n` lines leaves: the largest totals of the groups
/// that have ended, and the total of the group that has not.
pub open spec fn after_lines(all: Seq<Seq<char>>, size: nat, n: nat) -> Result<(Seq<i64>, i64), Error>
    decreases n,
{
    if n == 0 {
        Ok((Seq::new(size, |i: int| 0i64), 0i64))
    } else {
        match after_lines(all, size, (n - 1) as nat) {
            Err(e) => Err(e),
            Ok((largest, sum)) => {
                let line = all[n - 1];
                if line.len() == 0 {
                    Ok((offered(largest, sum), 0i64))
                } else {
                    match signed_of(line, i64::MIN as int, i64::MAX as int) {
                        None => Err(Error::InvalidNumber),
                        Some(v) => if i64::MIN <= sum + v <= i64::MAX {
                            Ok((largest, (sum + v) as i64))
                        } else {
                            Err(Error::Overflow)
                        },
                    }
                }
            },
        }
    }
}

/// The sum of the `size` largest group totals of `all`, where groups are
/// runs of numbers between empty lines, and totals below zero count as zero.
pub open spec fn answer(all: Seq<Seq<char>>, size: nat) -> Result<i64, Error> {
    match after_lines(all, size, all.len()) {
        Err(e) => Err(e),
        Ok((largest, sum)) => if sum_fits(offered(largest, sum)) {
            Ok(total(offered(largest, sum)) as i64)
        } else {
            Err(Error::Overflow)
        },
    }
}

/// The first least number of a sequence is at one place only.
pub proof fn lemma_first_min(s: Seq<i64>, m: int)
    requires
        is_first_min(s, m),
    ensures
        first_min(s) == m,
{
    let c = first_min(s);
    assert(is_first_min(s, c));
    if c < m {
        assert(s[m] < s[c]);
        assert(s[c] <= s[m]);
    }
    if m < c {
        assert(s[c] < s[m]);
        assert(s[m] <= s[c]);
    }
}

/// An error among the first lines is the error of all lines.
pub proof fn lemma_error_stays(all: Seq<Seq<char>>, size: nat, k: nat, n: nat)
    requires
        k <= n,
        after_lines(all, size, k) is Err,
    ensures
        after_lines(all, size, n) == after_lines(all, size, k),
    decreases n,
{
    if k < n {
        lemma_error_stays(all, size, k, (n - 1) as nat);
    }
}

impl Max {
    /// `len` numbers, all zero.
    pub fn new(len: usize) -> (r: Self)
        ensures
            r@ == Seq::new(len as nat, |i: int| 0i64),
    {
        let max = vec![0i64; len];
        assert(max@ =~= Seq::new(len as nat, |i: int| 0i64));
        Max { max }
    }

    /// Offers `v`: it takes the place of the first least number if it is
    /// greater than that.
    pub fn update(&mut self, v: i64)
        ensures
            final(self)@ == offered(old(self)@, v),
    {
        let n = self.max.len();
        if n == 0 {
            return ;
        }
        let mut m: usize = 0;
        let mut i: usize = 1;
        while i < n
            invariant
                n == self.max.len(),
                m < i <= n,
                *self == *old(self),
                forall|j: int| 0 <= j < i ==> self.max[m as int] <= #[trigger] self.max[j],
                forall|j: int| 0 <= j < m ==> self.max[m as int] < #[trigger] self.max[j],
            decreases n - i,
        {
            if self.max[i] < self.max[m] {
                m = i;
            }
            i += 1;
        }
        proof {
            lemma_first_min(self.max@, m as int);
        }
        if v > self.max[m] {
            self.max[m] = v;
        }
    }

    /// The sum of the numbers.
    pub fn sum(&self) -> (r: i64)
        requires
            sum_fits(self@),
        ensures
            r == total(self@),
    {
        match self.checked_sum() {
            Some(v) => v,
            None => 0,
        }
    }

    /// The sum of the numbers, or `None` if adding them up one by one leaves
    /// the range of `i64`.
    pub fn checked_sum(&self) -> (r: Option<i64>)
        ensures
            match r {
                Some(v) => sum_fits(self@) && v == total(self@),
                None => !sum_fits(self@),
            },
    {
        let n = self.max.len();
        let mut sum: i64 = 0;
        let mut i: usize = 0;
        assert(self.max@.take(0) =~= Seq::<i64>::empty());
        while i < n
            invariant
                i <= n == self.max.len(),
                sum == total(self.max@.take(i as int)),
                forall|k: int| 0 <= k <= i ==> i64::MIN <= #[trigger] total(self.max@.take(k)) <= i64::MAX,
            decreases n - i,
        {
            assert(self.max@.take(i + 1).drop_last() =~= self.max@.take(i as int));
            match sum.checked_add(self.max[i]) {
                Some(s) => {
                    sum = s;
                },
                None => {
                    assert(!(i64::MIN <= total(self.max@.take(i + 1)) <= i64::MAX));
                    return None;
                },
            }
            i += 1;
        }
        assert(self.max@.take(n as int) =~= self.max@);
        Some(sum)
    }
}

/// The sum of the `n` largest totals of the groups of numbers in `input`.
pub fn compute(input: &str, n: usize) -> (r: Result<i64, Error>)
    ensures
        r == answer(lines(input@), n as nat),
{
    let text = chars_of(input);
    let rows = split_lines(&text);
    let ghost all = lines(input@);
    let mut max = Max::new(n);
    let mut sum: i64 = 0;
    let mut i: usize = 0;
    while i < rows.len()
        invariant
            i <= rows.len(),
            views(rows@) == all,
            all == lines(input@),
            after_lines(all, n as nat, i as nat) == Ok::<(Seq<i64>, i64), Error>((max@, sum)),
        decreases rows.len() - i,
    {
        let row = &rows[i];
        assert(row@ == all[i as int]);
        if row.len() == 0 {
            max.update(sum);
            sum = 0;
        } else {
            match parse_i64(row) {
                None => {
                    proof {
                        lemma_error_stays(all, n as nat, (i + 1) as nat, all.len());
                    }
                    return Err(Error::InvalidNumber);
                },
                Some(v) => match sum.checked_add(v) {
                    Some(s) => {
                        sum = s;
                    },
                    None => {
                        proof {
                            lemma_error_stays(all, n as nat, (i + 1) as nat, all.len());
                        }
                        return Err(Error::Overflow);
                    },
                },
            }
        }
        i += 1;
    }
    max.update(sum);
    match max.checked_sum() {
        Some(v) => Ok(v),
        None => Err(Error::Overflow),
    }
}

} // verus!
