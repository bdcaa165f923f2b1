//! Rock paper scissors: the score of a strategy guide.

use crate::text::{chars_of, lines, split_at_first, split_lines, split_once, views};
use vstd::prelude::*;

verus! {

/// Why a strategy guide has no answer.
#[derive(Clone, Copy, Debug, PartialEq, Eq)]
pub enum Error {
    /// A line holds no space.
    InvalidLine,
    /// A word names no move.
    InvalidMove,
    /// A word names no outcome.
    InvalidOutcome,
    /// The sum of the scores does not fit the result type.
    Overflow,
}

/// How to read the second word of a line.
#[derive(Clone, Copy, Debug, PartialEq, Eq)]
pub enum Reading {
    /// As the move to play.
    Move,
    /// As the outcome to bring about.
    Outcome,
}

/// What a player shows in a round.
#[derive(Clone, Copy, Debug, PartialEq, Eq)]
pub enum Move {
    Rock,
    Paper,
    Scissors,
}

/// How a round ends for the player who follows the guide.
#[derive(Clone, Copy, Debug, PartialEq, Eq)]
pub enum Outcome {
    Lose,
    Draw,
    Win,
}

impl Move {
    /// The rank of a move: each move defeats the one ranked just below it,
    /// and the lowest defeats the highest.
    pub open spec fn rank(self) -> int {
        match self {
            Move::Rock => 0,
            Move::Paper => 1,
            Move::Scissors => 2,
        }
    }

    /// The move of rank `i`.
    pub open spec fn of_rank(i: int) -> Move {
        if i == 0 {
            Move::Rock
        } else if i == 1 {
            Move::Paper
        } else {
            Move::Scissors
        }
    }

    /// The move that `s` names.
    pub open spec fn named(s: Seq<char>) -> Result<Move, Error> {
        if s == seq!['A'] || s == seq!['X'] {
            Ok(Move::Rock)
        } else if s == seq!['B'] || s == seq!['Y'] {
            Ok(Move::Paper)
        } else if s == seq!['C'] || s == seq!['Z'] {
            Ok(Move::Scissors)
        } else {
            Err(Error::InvalidMove)
        }
    }

    /// The score of a round: 0, 3 or 6 for a loss, a draw or a win, and 1,
    /// 2 or 3 for the move played.
    pub open spec fn round_score(mine: Move, theirs: Move) -> int {
        3 * ((mine.rank() - theirs.rank() + 4) % 3) + mine.rank() + 1
    }

    fn number(self) -> (r: i64)
        ensures
            r == self.rank(),
    {
        match self {
            Move::Rock => 0,
            Move::Paper => 1,
            Move::Scissors => 2,
        }
    }

    /// The score of a round.
    pub fn compute_score(mine: Move, theirs: Move) -> (r: i64)
        ensures
            r == Move::round_score(mine, theirs),
            1 <= r <= 9,
    {
        let m = mine.number();
        let t = theirs.number();
        3 * ((m - t + 4) % 3) + m + 1
    }

    /// The move of rank `i`.
    pub fn from_i64(i: i64) -> (r: Move)
        requires
            0 <= i <= 2,
        ensures
            r == Move::of_rank(i as int),
    {
        if i == 0 {
            Move::Rock
        } else if i == 1 {
            Move::Paper
        } else {
            Move::Scissors
        }
    }

    /// The move that the word `s` names.
    pub fn from_chars(s: &Vec<char>) -> (r: Result<Move, Error>)
        ensures
            r == Move::named(s@),
    {
        if s.len() != 1 {
            assert(seq!['A'].len() == 1);
            return Err(Error::InvalidMove);
        }
        let c = s[0];
        assert(s@ =~= seq![c]);
        assert(forall|d: char| seq![c] == seq![d] ==> seq![c][0] == seq![d][0]);
        if c == 'A' || c == 'X' {
            Ok(Move::Rock)
        } else if c == 'B' || c == 'Y' {
            Ok(Move::Paper)
        } else if c == 'C' || c == 'Z' {
            Ok(Move::Scissors)
        } else {
            Err(Error::InvalidMove)
        }
    }

    /// The move that `s` names.
    pub fn from_str(s: &str) -> (r: Result<Move, Error>)
        ensures
            r == Move::named(s@),
    {
        Move::from_chars(&chars_of(s))
    }
}

impl Outcome {
    /// How far the move that brings the outcome about is ranked above the
    /// other player's move, less one.
    pub open spec fn rank(self) -> int {
        match self {
            Outcome::Lose => 0,
            Outcome::Draw => 1,
            Outcome::Win => 2,
        }
    }

    /// The outcome that `s` names.
    pub open spec fn named(s: Seq<char>) -> Result<Outcome, Error> {
        if s == seq!['X'] {
            Ok(Outcome::Lose)
        } else if s == seq!['Y'] {
            Ok(Outcome::Draw)
        } else if s == seq!['Z'] {
            Ok(Outcome::Win)
        } else {
            Err(Error::InvalidOutcome)
        }
    }

    fn number(self) -> (r: i64)
        ensures
            r == self.rank(),
    {
        match self {
            Outcome::Lose => 0,
            Outcome::Draw => 1,
            Outcome::Win => 2,
        }
    }

    /// The outcome that the word `s` names.
    pub fn from_chars(s: &Vec<char>) -> (r: Result<Outcome, Error>)
        ensures
            r == Outcome::named(s@),
    {
        if s.len() != 1 {
            assert(seq!['X'].len() == 1);
            return Err(Error::InvalidOutcome);
        }
        let c = s[0];
        assert(s@ =~= seq![c]);
        assert(forall|d: char| seq![c] == seq![d] ==> seq![c][0] == seq![d][0]);
        if c == 'X' {
            Ok(Outcome::Lose)
        } else if c == 'Y' {
            Ok(Outcome::Draw)
        } else if c == 'Z' {
            Ok(Outcome::Win)
        } else {
            Err(Error::InvalidOutcome)
        }
    }

    /// The outcome that `s` names.
    pub fn from_str(s: &str) -> (r: Result<Outcome, Error>)
        ensures
            r == Outcome::named(s@),
    {
        Outcome::from_chars(&chars_of(s))
    }
}

/// The score of a round in which the first word names the other player's
/// move and the second the move to play.
pub open spec fn score_by_move(s1: Seq<char>, s2: Seq<char>) -> Result<i64, Error> {
    match Move::named(s2) {
        Err(e) => Err(e),
        Ok(mine) => match Move::named(s1) {
            Err(e) => Err(e),
            Ok(theirs) => Ok(Move::round_score(mine, theirs) as i64),
        },
    }
}

/// The score of a round in which the first word names the other player's
/// move and the second the outcome to bring about.
pub open spec fn score_by_outcome(s1: Seq<char>, s2: Seq<char>) -> Result<i64, Error> {
    match Move::named(s1) {
        Err(e) => Err(e),
        Ok(theirs) => match Outcome::named(s2) {
            Err(e) => Err(e),
            Ok(outcome) => Ok(
                Move::round_score(
                    Move::of_rank((theirs.rank() + outcome.rank() + 2) % 3),
                    theirs,
                ) as i64,
            ),
        },
    }
}

/// The score of the round that a line describes.
pub open spec fn line_score(line: Seq<char>, reading: Reading) -> Result<i64, Error> {
    match split_once(line, ' ') {
        None => Err(Error::InvalidLine),
        Some((a, b)) => match reading {
            Reading::Move => score_by_move(a, b),
            Reading::Outcome => score_by_outcome(a, b),
        },
    }
}

/// The sum of the scores of the first `n` lines, or the error of the first
/// line that describes no round, or `Overflow` once the sum exceeds the
/// range of `i64`.
pub open spec fn guide_score(all: Seq<Seq<char>>, reading: Reading, n: nat) -> Result<i64, Error>
    decreases n,
{
    if n == 0 {
        Ok(0i64)
    } else {
        match guide_score(all, reading, (n - 1) as nat) {
            Err(e) => Err(e),
            Ok(sum) => match line_score(all[n - 1], reading) {
                Err(e) => Err(e),
                Ok(v) => if sum + v <= i64::MAX {
                    Ok((sum + v) as i64)
                } else {
                    Err(Error::Overflow)
                },
            },
        }
    }
}

/// An error among the first lines is the error of all lines.
pub proof fn lemma_error_stays(all: Seq<Seq<char>>, reading: Reading, k: nat, n: nat)
    requires
        k <= n,
        guide_score(all, reading, k) is Err,
    ensures
        guide_score(all, reading, n) == guide_score(all, reading, k),
    decreases n,
{
    if k < n {
        lemma_error_stays(all, reading, k, (n - 1) as nat);
    }
}

fn decode_moves(s1: &Vec<char>, s2: &Vec<char>) -> (r: Result<i64, Error>)
    ensures
        r == score_by_move(s1@, s2@),
        r matches Ok(v) ==> 1 <= v <= 9,
{
    let mine = match Move::from_chars(s2) {
        Ok(m) => m,
        Err(e) => {
            return Err(e);
        },
    };
    let theirs = match Move::from_chars(s1) {
        Ok(m) => m,
        Err(e) => {
            return Err(e);
        },
    };
    Ok(Move::compute_score(mine, theirs))
}

fn decode_outcome(s1: &Vec<char>, s2: &Vec<char>) -> (r: Result<i64, Error>)
    ensures
        r == score_by_outcome(s1@, s2@),
        r matches Ok(v) ==> 1 <= v <= 9,
{
    let theirs = match Move::from_chars(s1) {
        Ok(m) => m,
        Err(e) => {
            return Err(e);
        },
    };
    let outcome = match Outcome::from_chars(s2) {
        Ok(o) => o,
        Err(e) => {
            return Err(e);
        },
    };
    let mine = Move::from_i64((theirs.number() + outcome.number() + 2) % 3);
    Ok(Move::compute_score(mine, theirs))
}

/// The score of a round of which `s1` names the other player's move and
/// `s2` the move to play.
pub fn decode1(s1: &str, s2: &str) -> (r: Result<i64, Error>)
    ensures
        r == score_by_move(s1@, s2@),
{
    decode_moves(&chars_of(s1), &chars_of(s2))
}

/// The score of a round of which `s1` names the other player's move and
/// `s2` the outcome to bring about.
pub fn decode2(s1: &str, s2: &str) -> (r: Result<i64, Error>)
    ensures
        r == score_by_outcome(s1@, s2@),
{
    decode_outcome(&chars_of(s1), &chars_of(s2))
}

/// The sum of the scores of the rounds that the lines of `input` describe.
pub fn compute(input: &str, reading: Reading) -> (r: Result<i64, Error>)
    ensures
        r == guide_score(lines(input@), reading, lines(input@).len()),
{
    let text = chars_of(input);
    let rows = split_lines(&text);
    let ghost all = lines(input@);
    let mut sum: i64 = 0;
    let mut i: usize = 0;
    while i < rows.len()
        invariant
            i <= rows.len(),
            views(rows@) == all,
            all == lines(input@),
            guide_score(all, reading, i as nat) == Ok::<i64, Error>(sum),
            sum >= 0,
        decreases rows.len() - i,
    {
        assert(rows[i as int]@ == all[i as int]);
        let scored = match split_at_first(&rows[i], ' ') {
            None => Err(Error::InvalidLine),
            Some((a, b)) => match reading {
                Reading::Move => decode_moves(&a, &b),
                Reading::Outcome => decode_outcome(&a, &b),
            },
        };
        match scored {
            Err(e) => {
                proof {
                    lemma_error_stays(all, reading, (i + 1) as nat, all.len());
                }
                return Err(e);
            },
            Ok(v) => {
                if v > i64::MAX - sum {
                    proof {
                        lemma_error_stays(all, reading, (i + 1) as nat, all.len());
                    }
                    return Err(Error::Overflow);
                }
                sum = sum + v;
            },
        }
        i += 1;
    }
    Ok(sum)
}

} // verus!
