//! Rope bridge: the places that the tail of a rope visits while its head is
//! moved about.

use crate::text::{chars_of, lines, parse_usize, spells, split_lines, split_words, unsigned_of, views, words};
use vstd::prelude::*;

verus! {

/// Why a list of motions has no answer.
#[derive(Clone, Copy, Debug, PartialEq, Eq)]
pub enum Error {
    /// A line is not a direction and a number of steps.
    InvalidMove,
    /// The rope has no knots.
    NoKnots,
    /// The head would leave the range of the coordinates.
    Overflow,
}

/// A step of the head.
#[derive(Clone, Copy, Debug, PartialEq, Eq, Structural)]
pub enum Move {
    Up,
    Down,
    Left,
    Right,
}

/// The place of a knot.
#[derive(Clone, Copy, Debug, PartialEq, Eq, Structural)]
pub struct Point(pub isize, pub isize);

/// The sign of `d`: -1, 0 or 1.
pub open spec fn signum(d: int) -> int {
    if d > 0 {
        1
    } else if d < 0 {
        -1
    } else {
        0
    }
}

impl Point {
    /// Whether a knot at this place can make the step `mv` without leaving
    /// the range of the coordinates.
    pub open spec fn can_move(self, mv: Move) -> bool {
        match mv {
            Move::Left => self.0 > isize::MIN,
            Move::Right => self.0 < isize::MAX,
            Move::Up => self.1 < isize::MAX,
            Move::Down => self.1 > isize::MIN,
        }
    }

    /// The place one step from here.
    pub open spec fn moved(self, mv: Move) -> Point {
        match mv {
            Move::Left => Point((self.0 - 1) as isize, self.1),
            Move::Right => Point((self.0 + 1) as isize, self.1),
            Move::Up => Point(self.0, (self.1 + 1) as isize),
            Move::Down => Point(self.0, (self.1 - 1) as isize),
        }
    }

    /// The place to which the knot before it, at `prev`, pulls a knot at
    /// this place: one step along each axis towards `prev` if the two do not
    /// touch, and this place if they do.
    pub open spec fn pulled(self, prev: Point) -> Point {
        let dx = prev.0 - self.0;
        let dy = prev.1 - self.1;
        if dx * dx + dy * dy > 2 {
            Point((self.0 + signum(dx)) as isize, (self.1 + signum(dy)) as isize)
        } else {
            self
        }
    }

    /// Makes the step `mv`.
    pub fn apply(&mut self, mv: Move)
        requires
            old(self).can_move(mv),
        ensures
            *final(self) == old(self).moved(mv),
    {
        match mv {
            Move::Left => {
                self.0 = self.0 - 1;
            },
            Move::Right => {
                self.0 = self.0 + 1;
            },
            Move::Up => {
                self.1 = self.1 + 1;
            },
            Move::Down => {
                self.1 = self.1 - 1;
            },
        }
    }

    /// Follows the knot before this one, which is at `prev`.
    pub fn pull(&mut self, prev: Point)
        ensures
            *final(self) == old(self).pulled(prev),
    {
        let dx = prev.0 as i128 - self.0 as i128;
        let dy = prev.1 as i128 - self.1 as i128;
        proof {
            let a = dx as int;
            let b = dy as int;
            assert((a * a + b * b > 2) <==> (a >= 2 || a <= -2 || b >= 2 || b <= -2))
                by (nonlinear_arith);
        }
        if dx >= 2 || dx <= -2 || dy >= 2 || dy <= -2 {
            if dx > 0 {
                self.0 = self.0 + 1;
            } else if dx < 0 {
                self.0 = self.0 - 1;
            }
            if dy > 0 {
                self.1 = self.1 + 1;
            } else if dy < 0 {
                self.1 = self.1 - 1;
            }
        }
    }
}

/// The first `k` knots of `rope` after its head has made the step `mv` and
/// every other knot has followed the one before it.
pub open spec fn stepped(rope: Seq<Point>, mv: Move, k: nat) -> Seq<Point>
    decreases k,
{
    if k == 0 {
        Seq::empty()
    } else if k == 1 {
        seq![rope[0].moved(mv)]
    } else {
        let before = stepped(rope, mv, (k - 1) as nat);
        before.push(rope[k - 1].pulled(before.last()))
    }
}

/// A rope, from its head to its tail.
#[derive(Debug, PartialEq, Eq)]
pub struct Pos {
    pub rope: Vec<Point>,
}

impl Pos {
    /// Moves the head one step and lets the other knots follow.
    pub fn apply(&mut self, mv: Move)
        requires
            old(self).rope.len() > 0,
            old(self).rope[0].can_move(mv),
        ensures
            final(self).rope@ == stepped(old(self).rope@, mv, old(self).rope@.len()),
    {
        let n = self.rope.len();
        let mut head = self.rope[0];
        head.apply(mv);
        self.rope[0] = head;
        let mut i: usize = 1;
        while i < n
            invariant
                1 <= i <= n == self.rope.len(),
                old(self).rope.len() == n,
                head == self.rope[i - 1],
                self.rope@.take(i as int) == stepped(old(self).rope@, mv, i as nat),
                forall|k: int| i <= k < n ==> self.rope[k] == old(self).rope[k],
            decreases n - i,
        {
            let ghost before = self.rope@;
            let mut knot = self.rope[i];
            knot.pull(head);
            self.rope[i] = knot;
            head = knot;
            proof {
                assert(before.take(i as int).last() == before[i - 1]);
                assert(self.rope@.take(i + 1) =~= before.take(i as int).push(knot));
            }
            i += 1;
        }
        assert(self.rope@.take(n as int) =~= self.rope@);
    }
}

/// What a line describes: a direction, which its first word names, and a
/// number of steps, which its second word gives.
pub open spec fn run_of(line: Seq<char>) -> Result<(Move, usize), Error> {
    let w = words(line);
    if w.len() == 2 {
        let mv = if w[0] == "R"@ {
            Some(Move::Right)
        } else if w[0] == "L"@ {
            Some(Move::Left)
        } else if w[0] == "U"@ {
            Some(Move::Up)
        } else if w[0] == "D"@ {
            Some(Move::Down)
        } else {
            None
        };
        match (mv, unsigned_of(w[1], usize::MAX as nat)) {
            (Some(mv), Some(times)) => Ok((mv, times as usize)),
            _ => Err(Error::InvalidMove),
        }
    } else {
        Err(Error::InvalidMove)
    }
}

/// What the first `n` of `rows` describe, or the error of the first line
/// that describes nothing.
pub open spec fn runs_of(rows: Seq<Seq<char>>, n: nat) -> Result<Seq<(Move, usize)>, Error>
    decreases n,
{
    if n == 0 {
        Ok(Seq::empty())
    } else {
        match runs_of(rows, (n - 1) as nat) {
            Err(e) => Err(e),
            Ok(rs) => match run_of(rows[n - 1]) {
                Err(e) => Err(e),
                Ok(r) => Ok(rs.push(r)),
            },
        }
    }
}

/// The steps of the first `n` of `runs`, one after the other.
pub open spec fn steps(runs: Seq<(Move, usize)>, n: nat) -> Seq<Move>
    decreases n,
{
    if n == 0 {
        Seq::empty()
    } else {
        steps(runs, (n - 1) as nat) + Seq::new(runs[n - 1].1 as nat, |i: int| runs[n - 1].0)
    }
}

/// The rope after the steps `ms`, or `None` if one of them would take the
/// head out of the range of the coordinates.
pub open spec fn rope_after(rope: Seq<Point>, ms: Seq<Move>) -> Option<Seq<Point>>
    decreases ms.len(),
{
    if ms.len() == 0 {
        Some(rope)
    } else {
        match rope_after(rope, ms.drop_last()) {
            None => None,
            Some(r) => if r[0].can_move(ms.last()) {
                Some(stepped(r, ms.last(), r.len()))
            } else {
                None
            },
        }
    }
}

/// The places of the tail after each of the steps `ms`.
pub open spec fn tails(rope: Seq<Point>, ms: Seq<Move>) -> Seq<Point>
    decreases ms.len(),
{
    if ms.len() == 0 {
        Seq::empty()
    } else {
        match rope_after(rope, ms) {
            None => tails(rope, ms.drop_last()),
            Some(r) => tails(rope, ms.drop_last()).push(r.last()),
        }
    }
}

/// What `compute` returns for the lines `rows` and a rope of `l` knots.
pub open spec fn answer(rows: Seq<Seq<char>>, l: nat) -> Result<usize, Error> {
    match runs_of(rows, rows.len()) {
        Err(e) => Err(e),
        Ok(runs) => {
            let ms = steps(runs, runs.len());
            let rope = Seq::new(l, |i: int| Point(0, 0));
            if l == 0 {
                Err(Error::NoKnots)
            } else if rope_after(rope, ms) is None {
                Err(Error::Overflow)
            } else {
                Ok(tails(rope, ms).to_set().len() as usize)
            }
        },
    }
}

/// An error among the first lines is the error of all lines.
pub proof fn lemma_runs_error(rows: Seq<Seq<char>>, k: nat, n: nat)
    requires
        k <= n,
        runs_of(rows, k) is Err,
    ensures
        runs_of(rows, n) == runs_of(rows, k),
    decreases n,
{
    if k < n {
        lemma_runs_error(rows, k, (n - 1) as nat);
    }
}

/// The steps of the first runs are the first of the steps of all runs.
pub proof fn lemma_steps_prefix(runs: Seq<(Move, usize)>, k: nat, n: nat)
    requires
        k <= n,
    ensures
        steps(runs, k).is_prefix_of(steps(runs, n)),
    decreases n,
{
    if k < n {
        lemma_steps_prefix(runs, k, (n - 1) as nat);
    }
}

/// A step that cannot be made fails all the steps.
pub proof fn lemma_rope_stuck(rope: Seq<Point>, some: Seq<Move>, all: Seq<Move>)
    requires
        some.is_prefix_of(all),
        rope_after(rope, some) is None,
    ensures
        rope_after(rope, all) is None,
    decreases all.len(),
{
    if some.len() < all.len() {
        assert(some.is_prefix_of(all.drop_last()));
        lemma_rope_stuck(rope, some, all.drop_last());
    } else {
        assert(some =~= all);
    }
}

/// A step leaves the rope as long as it was.
pub proof fn lemma_stepped_len(rope: Seq<Point>, mv: Move, k: nat)
    ensures
        stepped(rope, mv, k).len() == k,
    decreases k,
{
    if k > 1 {
        lemma_stepped_len(rope, mv, (k - 1) as nat);
    }
}

/// Reads what a line describes.
pub fn parse(line: &Vec<char>) -> (r: Result<(Move, usize), Error>)
    ensures
        r == run_of(line@),
{
    let w = split_words(line);
    assert(w@.len() == words(line@).len());
    if w.len() != 2 {
        return Err(Error::InvalidMove);
    }
    assert(forall|k: int| 0 <= k < 2 ==> (#[trigger] w[k])@ == words(line@)[k]);
    let mv = if spells(&w[0], "R") {
        Move::Right
    } else if spells(&w[0], "L") {
        Move::Left
    } else if spells(&w[0], "U") {
        Move::Up
    } else if spells(&w[0], "D") {
        Move::Down
    } else {
        return Err(Error::InvalidMove);
    };
    match parse_usize(&w[1]) {
        Some(times) => Ok((mv, times)),
        None => Err(Error::InvalidMove),
    }
}

/// Notes the place `tail` among the places `visited`, unless it is there.
fn visit(visited: &mut Vec<Point>, tail: Point)
    requires
        old(visited)@.no_duplicates(),
    ensures
        final(visited)@.no_duplicates(),
        final(visited)@.to_set() == old(visited)@.to_set().insert(tail),
{
    let mut j: usize = 0;
    while j < visited.len()
        invariant
            j <= visited.len(),
            *visited == *old(visited),
            visited@.no_duplicates(),
            forall|m: int| 0 <= m < j ==> visited[m] != tail,
        decreases visited.len() - j,
    {
        if visited[j] == tail {
            assert(visited@.to_set() =~= visited@.to_set().insert(tail));
            return ;
        }
        j += 1;
    }
    let ghost before = visited@;
    visited.push(tail);
    proof {
        assert forall|p: Point| visited@.to_set().contains(p) <==> before.to_set().insert(
            tail,
        ).contains(p) by {
            if visited@.contains(p) {
                let m = choose|m: int| 0 <= m < visited@.len() && visited@[m] == p;
                if m < before.len() {
                    assert(before[m] == p);
                }
            }
            if before.contains(p) {
                let m = choose|m: int| 0 <= m < before.len() && before[m] == p;
                assert(visited@[m] == p);
            }
            assert(visited@[before.len() as int] == tail);
        }
        assert(visited@.to_set() =~= before.to_set().insert(tail));
    }
}

/// The places of the tail are those after the steps before the last, and
/// the one after the last.
pub proof fn lemma_tails_push(rope: Seq<Point>, ms: Seq<Move>, mv: Move)
    requires
        rope_after(rope, ms.push(mv)) is Some,
    ensures
        tails(rope, ms.push(mv)).to_set() == tails(rope, ms).to_set().insert(
            rope_after(rope, ms.push(mv))->0.last(),
        ),
{
    let trail = tails(rope, ms);
    let tail = rope_after(rope, ms.push(mv))->0.last();
    assert(ms.push(mv).drop_last() =~= ms);
    assert(tails(rope, ms.push(mv)) == trail.push(tail));
    assert forall|p: Point| trail.push(tail).to_set().contains(p) <==> trail.to_set().insert(
        tail,
    ).contains(p) by {
        if trail.push(tail).contains(p) {
            let m = choose|m: int| 0 <= m < trail.push(tail).len() && trail.push(tail)[m] == p;
            if m < trail.len() {
                assert(trail[m] == p);
            }
        }
        if trail.contains(p) {
            let m = choose|m: int| 0 <= m < trail.len() && trail[m] == p;
            assert(trail.push(tail)[m] == p);
        }
        assert(trail.push(tail)[trail.len() as int] == tail);
    }
    assert(trail.push(tail).to_set() =~= trail.to_set().insert(tail));
}

/// The number of different places that the tail of a rope of `l` knots
/// visits while its head makes the steps that `input` describes.
pub fn compute(input: &str, l: usize) -> (r: Result<usize, Error>)
    ensures
        r == answer(lines(input@), l as nat),
{
    let text = chars_of(input);
    let rows = split_lines(&text);
    let ghost all = lines(input@);
    let mut runs: Vec<(Move, usize)> = Vec::new();
    let mut i: usize = 0;
    while i < rows.len()
        invariant
            i <= rows.len(),
            views(rows@) == all,
            all == lines(input@),
            runs_of(all, i as nat) == Ok::<Seq<(Move, usize)>, Error>(runs@),
        decreases rows.len() - i,
    {
        assert(rows[i as int]@ == all[i as int]);
        match parse(&rows[i]) {
            Err(e) => {
                proof {
                    lemma_runs_error(all, (i + 1) as nat, all.len());
                }
                return Err(e);
            },
            Ok(run) => {
                runs.push(run);
            },
        }
        i += 1;
    }
    if l == 0 {
        return Err(Error::NoKnots);
    }
    let mut pos = Pos { rope: vec![Point(0, 0); l] };
    let ghost start = pos.rope@;
    let ghost every = steps(runs@, runs@.len());
    assert(start =~= Seq::new(l as nat, |i: int| Point(0, 0)));
    let mut visited: Vec<Point> = Vec::new();
    let mut k: usize = 0;
    assert(visited@.to_set() =~= tails(start, steps(runs@, 0)).to_set());
    while k < runs.len()
        invariant
            k <= runs.len(),
            l > 0,
            pos.rope.len() == l,
            start == Seq::new(l as nat, |i: int| Point(0, 0)),
            every == steps(runs@, runs@.len()),
            runs_of(lines(input@), lines(input@).len()) == Ok::<Seq<(Move, usize)>, Error>(runs@),
            rope_after(start, steps(runs@, k as nat)) == Some(pos.rope@),
            visited@.no_duplicates(),
            visited@.to_set() == tails(start, steps(runs@, k as nat)).to_set(),
        decreases runs.len() - k,
    {
        let (mv, times) = runs[k];
        let ghost before = steps(runs@, k as nat);
        let ghost after = steps(runs@, (k + 1) as nat);
        let mut n: usize = 0;
        proof {
            assert(before + Seq::new(0, |i: int| mv) =~= before);
            lemma_steps_prefix(runs@, (k + 1) as nat, runs@.len());
        }
        while n < times
            invariant
                n <= times,
                k < runs.len(),
                l > 0,
                pos.rope.len() == l,
                start == Seq::new(l as nat, |i: int| Point(0, 0)),
                every == steps(runs@, runs@.len()),
                runs_of(lines(input@), lines(input@).len()) == Ok::<Seq<(Move, usize)>, Error>(
                    runs@,
                ),
                after == before + Seq::new(times as nat, |i: int| mv),
                after.is_prefix_of(every),
                rope_after(start, before + Seq::new(n as nat, |i: int| mv)) == Some(pos.rope@),
                visited@.no_duplicates(),
                visited@.to_set() == tails(start, before + Seq::new(n as nat, |i: int| mv)).to_set(),
            decreases times - n,
        {
            let ghost done = before + Seq::new(n as nat, |i: int| mv);
            let ghost next = before + Seq::new((n + 1) as nat, |i: int| mv);
            proof {
                assert(next =~= done.push(mv));
                assert(next.drop_last() =~= done);
                assert(next.is_prefix_of(after));
                assert(next.is_prefix_of(every));
            }
            let head = pos.rope[0];
            let free = match mv {
                Move::Left => head.0 > isize::MIN,
                Move::Right => head.0 < isize::MAX,
                Move::Up => head.1 < isize::MAX,
                Move::Down => head.1 > isize::MIN,
            };
            if !free {
                proof {
                    lemma_rope_stuck(start, next, every);
                }
                return Err(Error::Overflow);
            }
            proof {
                lemma_stepped_len(pos.rope@, mv, l as nat);
            }
            pos.apply(mv);
            proof {
                lemma_tails_push(start, done, mv);
            }
            visit(&mut visited, pos.rope[l - 1]);
            n += 1;
        }
        k += 1;
    }
    proof {
        visited@.unique_seq_to_set();
    }
    Ok(visited.len())
}

} // verus!
