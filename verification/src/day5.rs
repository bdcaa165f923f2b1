//! Supply stacks: crates moved between stacks by a crane, one at a time or
//! several at once.

use crate::text::{
    chars_of, lines, paragraph_end, paragraph_len, parse_usize, spells, split_lines, split_words,
    unsigned_of, views, words,
};
use vstd::prelude::*;

verus! {

/// Why a drawing of stacks with a list of moves has no answer.
#[derive(Clone, Copy, Debug, PartialEq, Eq)]
pub enum Error {
    /// No line comes before the first empty line.
    NoStacks,
    /// A line of the drawing is too short to show every stack.
    ShortLine,
    /// A line does not read `move <count> from <stack> to <stack>`.
    InvalidLine,
    /// A move names a stack that does not exist, or more crates than its
    /// stack holds.
    InvalidMove,
}

/// A move of `nbr` crates from stack `from` to stack `to`, stacks counted
/// from 0.
#[derive(Clone, Copy, Debug, PartialEq, Eq)]
pub struct Move {
    pub from: usize,
    pub to: usize,
    pub nbr: usize,
}

/// Stacks of crates, each from the bottom up.
pub struct Stacks {
    stacks: Vec<Vec<char>>,
}

impl View for Stacks {
    type V = Seq<Seq<char>>;

    closed spec fn view(&self) -> Seq<Seq<char>> {
        views(self.stacks@)
    }
}

/// Whether the crane can make the move `m` on the stacks `s`.
pub open spec fn possible(s: Seq<Seq<char>>, m: Move) -> bool {
    m.from < s.len() && m.to < s.len() && m.nbr <= s[m.from as int].len()
}

/// The stacks `s` after the move `m`. The crates arrive in the order in
/// which they were stacked, or, if `one_by_one`, in the opposite order.
pub open spec fn moved(s: Seq<Seq<char>>, m: Move, one_by_one: bool) -> Seq<Seq<char>> {
    let source = s[m.from as int];
    let kept = source.take(source.len() - m.nbr);
    let taken = source.skip(source.len() - m.nbr);
    let left = s.update(m.from as int, kept);
    left.update(
        m.to as int,
        left[m.to as int] + if one_by_one {
            taken.reverse()
        } else {
            taken
        },
    )
}

/// The top crates of the first `n` stacks, empty stacks left out.
pub open spec fn tops(s: Seq<Seq<char>>, n: nat) -> Seq<char>
    decreases n,
{
    if n == 0 {
        Seq::empty()
    } else if s[n - 1].len() == 0 {
        tops(s, (n - 1) as nat)
    } else {
        tops(s, (n - 1) as nat).push(s[n - 1].last())
    }
}

/// The length of the longest of the first `n` lines.
pub open spec fn longest(d: Seq<Seq<char>>, n: nat) -> nat
    decreases n,
{
    if n == 0 {
        0
    } else if d[n - 1].len() > longest(d, (n - 1) as nat) {
        d[n - 1].len()
    } else {
        longest(d, (n - 1) as nat)
    }
}

/// The number of stacks that a drawing shows: one for every four columns.
pub open spec fn stack_count(d: Seq<Seq<char>>) -> nat {
    (longest(d, d.len()) + 1) / 4
}

/// Whether every line of the drawing reaches the column of the last stack.
pub open spec fn wide_enough(d: Seq<Seq<char>>) -> bool {
    forall|k: int| 0 <= k < d.len() ==> (#[trigger] d[k]).len() + 2 >= 4 * stack_count(d)
}

/// Stack `i` as the lowest `n` lines of the drawing show it: the characters
/// in its column that are not spaces, from the lowest line up.
pub open spec fn drawn_stack(d: Seq<Seq<char>>, i: int, n: nat) -> Seq<char>
    decreases n,
{
    if n == 0 {
        Seq::empty()
    } else {
        let c = d[d.len() - n][4 * i + 1];
        if c != ' ' {
            drawn_stack(d, i, (n - 1) as nat).push(c)
        } else {
            drawn_stack(d, i, (n - 1) as nat)
        }
    }
}

/// The stacks that a drawing shows.
pub open spec fn drawn(d: Seq<Seq<char>>) -> Seq<Seq<char>> {
    Seq::new(stack_count(d), |i: int| drawn_stack(d, i, d.len()))
}

/// The move that a line describes.
pub open spec fn move_of(line: Seq<char>) -> Result<Move, Error> {
    let w = words(line);
    if w.len() == 6 && w[0] == "move"@ && w[2] == "from"@ && w[4] == "to"@ {
        match (
            unsigned_of(w[1], usize::MAX as nat),
            unsigned_of(w[3], usize::MAX as nat),
            unsigned_of(w[5], usize::MAX as nat),
        ) {
            (Some(nbr), Some(from), Some(to)) => if from >= 1 && to >= 1 {
                Ok(Move { nbr: nbr as usize, from: (from - 1) as usize, to: (to - 1) as usize })
            } else {
                Err(Error::InvalidLine)
            },
            _ => Err(Error::InvalidLine),
        }
    } else {
        Err(Error::InvalidLine)
    }
}

/// The moves that the first `n` of `rows` describe, or the error of the
/// first line that describes none.
pub open spec fn moves_of(rows: Seq<Seq<char>>, n: nat) -> Result<Seq<Move>, Error>
    decreases n,
{
    if n == 0 {
        Ok(Seq::empty())
    } else {
        match moves_of(rows, (n - 1) as nat) {
            Err(e) => Err(e),
            Ok(ms) => match move_of(rows[n - 1]) {
                Err(e) => Err(e),
                Ok(m) => Ok(ms.push(m)),
            },
        }
    }
}

/// The stacks `s` after the first `n` of the moves `ms`, or `InvalidMove`
/// if the crane cannot make one of them.
pub open spec fn after_moves(s: Seq<Seq<char>>, ms: Seq<Move>, one_by_one: bool, n: nat) -> Result<
    Seq<Seq<char>>,
    Error,
>
    decreases n,
{
    if n == 0 {
        Ok(s)
    } else {
        match after_moves(s, ms, one_by_one, (n - 1) as nat) {
            Err(e) => Err(e),
            Ok(t) => if possible(t, ms[n - 1]) {
                Ok(moved(t, ms[n - 1], one_by_one))
            } else {
                Err(Error::InvalidMove)
            },
        }
    }
}

/// The top crates after all moves, for the drawing and the moves that the
/// lines `all` hold, with an empty line between the two.
pub open spec fn answer(all: Seq<Seq<char>>, one_by_one: bool) -> Result<Seq<char>, Error> {
    let n = paragraph_len(all) as int;
    let d = all.take(n);
    let rows = if n < all.len() {
        all.skip(n + 1)
    } else {
        Seq::empty()
    };
    if n == 0 {
        Err(Error::NoStacks)
    } else if !wide_enough(d) {
        Err(Error::ShortLine)
    } else {
        match moves_of(rows, rows.len()) {
            Err(e) => Err(e),
            Ok(ms) => match after_moves(drawn(d), ms, one_by_one, ms.len()) {
                Err(e) => Err(e),
                Ok(s) => Ok(tops(s, s.len())),
            },
        }
    }
}

/// An error among the first lines is the error of all lines.
pub proof fn lemma_moves_error(rows: Seq<Seq<char>>, k: nat, n: nat)
    requires
        k <= n,
        moves_of(rows, k) is Err,
    ensures
        moves_of(rows, n) == moves_of(rows, k),
    decreases n,
{
    if k < n {
        lemma_moves_error(rows, k, (n - 1) as nat);
    }
}

/// A move that cannot be made fails all the moves.
pub proof fn lemma_after_moves_error(s: Seq<Seq<char>>, ms: Seq<Move>, one_by_one: bool, k: nat, n: nat)
    requires
        k <= n,
        after_moves(s, ms, one_by_one, k) is Err,
    ensures
        after_moves(s, ms, one_by_one, n) == after_moves(s, ms, one_by_one, k),
    decreases n,
{
    if k < n {
        lemma_after_moves_error(s, ms, one_by_one, k, (n - 1) as nat);
    }
}

/// The string of the characters `chars`.
///
/// Trusted: `String::from_iter` collects the characters it is given, in
/// their order, into a string.
#[verifier::external_body]
fn string_of(chars: &Vec<char>) -> (s: String)
    ensures
        s@ == chars@,
{
    String::from_iter(chars.iter())
}

impl Stacks {
    /// `n` empty stacks.
    pub fn new(n: usize) -> (r: Self)
        ensures
            r@ == Seq::new(n as nat, |i: int| Seq::<char>::empty()),
    {
        let mut stacks: Vec<Vec<char>> = Vec::new();
        let mut i: usize = 0;
        while i < n
            invariant
                i <= n,
                stacks.len() == i,
                forall|k: int| 0 <= k < i ==> (#[trigger] stacks[k])@ == Seq::<char>::empty(),
            decreases n - i,
        {
            stacks.push(Vec::new());
            i += 1;
        }
        assert(views(stacks@) =~= Seq::new(n as nat, |k: int| Seq::<char>::empty()));
        Stacks { stacks }
    }

    /// The number of stacks.
    pub fn len(&self) -> (n: usize)
        ensures
            n == self@.len(),
    {
        self.stacks.len()
    }

    /// Puts the crate `c` on top of stack `i`.
    pub fn put(&mut self, i: usize, c: char)
        requires
            i < old(self)@.len(),
        ensures
            final(self)@ == old(self)@.update(i as int, old(self)@[i as int].push(c)),
    {
        self.stacks[i].push(c);
        assert(self@ =~= old(self)@.update(i as int, old(self)@[i as int].push(c)));
    }

    /// Takes the top crate off stack `i`.
    fn take(&mut self, i: usize) -> (c: char)
        requires
            i < old(self)@.len(),
            old(self)@[i as int].len() > 0,
        ensures
            final(self)@ == old(self)@.update(i as int, old(self)@[i as int].drop_last()),
            c == old(self)@[i as int].last(),
    {
        let c = self.stacks[i].pop();
        assert(self@ =~= old(self)@.update(i as int, old(self)@[i as int].drop_last()));
        match c {
            Some(c) => c,
            None => ' ',
        }
    }

    fn shift(&mut self, m: &Move, one_by_one: bool) -> (r: Result<(), Error>)
        ensures
            match r {
                Ok(_) => possible(old(self)@, *m) && final(self)@ == moved(old(self)@, *m, one_by_one),
                Err(e) => e == Error::InvalidMove && !possible(old(self)@, *m) && final(self)@
                    == old(self)@,
            },
    {
        if m.from >= self.stacks.len() || m.to >= self.stacks.len() || m.nbr
            > self.stacks[m.from].len() {
            return Err(Error::InvalidMove);
        }
        let ghost source = self@[m.from as int];
        let ghost kept = source.take(source.len() - m.nbr);
        let ghost taken = source.skip(source.len() - m.nbr);
        let mut held: Vec<char> = Vec::new();
        let mut i: usize = 0;
        proof {
            assert(source.take(source.len() as int) =~= source);
            assert(self@ =~= old(self)@.update(m.from as int, source));
            assert(held@ =~= source.skip(source.len() as int).reverse());
        }
        while i < m.nbr
            invariant
                i <= m.nbr <= source.len(),
                m.from < self@.len() == old(self)@.len(),
                m.to < self@.len(),
                source == old(self)@[m.from as int],
                self@ == old(self)@.update(m.from as int, source.take(source.len() - i)),
                held@ == source.skip(source.len() - i).reverse(),
            decreases m.nbr - i,
        {
            let c = self.take(m.from);
            held.push(c);
            proof {
                assert(source.take(source.len() - i).drop_last() =~= source.take(
                    source.len() - i - 1,
                ));
                assert(self@ =~= old(self)@.update(
                    m.from as int,
                    source.take(source.len() - i - 1),
                ));
                assert(held@ =~= source.skip(source.len() - i - 1).reverse());
            }
            i += 1;
        }
        let ghost left = self@;
        assert(held@ == taken.reverse());
        let mut j: usize = 0;
        while j < m.nbr
            invariant
                j <= m.nbr == held.len(),
                m.to < self@.len() == left.len(),
                self@ == left.update(
                    m.to as int,
                    left[m.to as int] + if one_by_one {
                        held@.take(j as int)
                    } else {
                        held@.reverse().take(j as int)
                    },
                ),
            decreases m.nbr - j,
        {
            let c = if one_by_one {
                held[j]
            } else {
                held[m.nbr - 1 - j]
            };
            let ghost before = self@;
            self.put(m.to, c);
            proof {
                if one_by_one {
                    assert(held@.take(j + 1) =~= held@.take(j as int).push(c));
                } else {
                    assert(held@.reverse().take(j + 1) =~= held@.reverse().take(j as int).push(c));
                }
                assert(self@ =~= left.update(
                    m.to as int,
                    left[m.to as int] + if one_by_one {
                        held@.take(j + 1)
                    } else {
                        held@.reverse().take(j + 1)
                    },
                ));
            }
            j += 1;
        }
        proof {
            assert(held@.take(m.nbr as int) =~= held@);
            assert(held@.reverse().take(m.nbr as int) =~= held@.reverse());
            assert(taken.reverse().reverse() =~= taken);
        }
        Ok(())
    }

    /// Moves crates one by one, so that they arrive in the opposite order.
    /// Fails, and changes nothing, if the move cannot be made.
    pub fn apply(&mut self, m: &Move) -> (r: Result<(), Error>)
        ensures
            match r {
                Ok(_) => possible(old(self)@, *m) && final(self)@ == moved(old(self)@, *m, true),
                Err(e) => e == Error::InvalidMove && !possible(old(self)@, *m) && final(self)@
                    == old(self)@,
            },
    {
        self.shift(m, true)
    }

    /// Moves crates all at once, so that they keep their order. Fails, and
    /// changes nothing, if the move cannot be made.
    pub fn apply2(&mut self, m: &Move) -> (r: Result<(), Error>)
        ensures
            match r {
                Ok(_) => possible(old(self)@, *m) && final(self)@ == moved(old(self)@, *m, false),
                Err(e) => e == Error::InvalidMove && !possible(old(self)@, *m) && final(self)@
                    == old(self)@,
            },
    {
        self.shift(m, false)
    }

    /// The top crates of the stacks that are not empty.
    pub fn top_crates(&self) -> (r: Vec<char>)
        ensures
            r@ == tops(self@, self@.len()),
    {
        let mut out: Vec<char> = Vec::new();
        let mut i: usize = 0;
        while i < self.stacks.len()
            invariant
                i <= self.stacks.len(),
                out@ == tops(self@, i as nat),
            decreases self.stacks.len() - i,
        {
            let n = self.stacks[i].len();
            assert(self@[i as int] == self.stacks[i as int]@);
            if n > 0 {
                out.push(self.stacks[i][n - 1]);
            }
            i += 1;
        }
        out
    }

    /// The top crates of the stacks that are not empty, as a string.
    pub fn read_top(&self) -> (r: String)
        ensures
            r@ == tops(self@, self@.len()),
    {
        string_of(&self.top_crates())
    }
}

/// Reads the move that a line describes.
pub fn parse_move(line: &Vec<char>) -> (r: Result<Move, Error>)
    ensures
        r == move_of(line@),
{
    let w = split_words(line);
    assert(w@.len() == words(line@).len());
    if w.len() != 6 {
        return Err(Error::InvalidLine);
    }
    assert(forall|k: int| 0 <= k < 6 ==> (#[trigger] w[k])@ == words(line@)[k]);
    if !spells(&w[0], "move") || !spells(&w[2], "from") || !spells(&w[4], "to") {
        return Err(Error::InvalidLine);
    }
    match (parse_usize(&w[1]), parse_usize(&w[3]), parse_usize(&w[5])) {
        (Some(nbr), Some(from), Some(to)) => {
            if from >= 1 && to >= 1 {
                Ok(Move { nbr, from: from - 1, to: to - 1 })
            } else {
                Err(Error::InvalidLine)
            }
        },
        _ => Err(Error::InvalidLine),
    }
}

/// Reads the moves that the lines of `rows` from place `from` on describe.
pub fn parse_moves(rows: &Vec<Vec<char>>, from: usize) -> (r: Result<Vec<Move>, Error>)
    requires
        from <= rows.len(),
    ensures
        ({
            let rest = views(rows@).skip(from as int);
            match r {
                Ok(ms) => moves_of(rest, rest.len()) == Ok::<Seq<Move>, Error>(ms@),
                Err(e) => moves_of(rest, rest.len()) == Err::<Seq<Move>, Error>(e),
            }
        }),
{
    let ghost rest = views(rows@).skip(from as int);
    let mut out: Vec<Move> = Vec::new();
    let mut i: usize = from;
    while i < rows.len()
        invariant
            from <= i <= rows.len(),
            rest == views(rows@).skip(from as int),
            moves_of(rest, (i - from) as nat) == Ok::<Seq<Move>, Error>(out@),
        decreases rows.len() - i,
    {
        assert(rest[i - from] == rows[i as int]@);
        match parse_move(&rows[i]) {
            Err(e) => {
                proof {
                    lemma_moves_error(rest, (i - from + 1) as nat, rest.len());
                }
                return Err(e);
            },
            Ok(m) => {
                out.push(m);
            },
        }
        i += 1;
    }
    Ok(out)
}

/// Reads the stacks that the first `count` lines of `rows` draw.
pub fn parse_stacks(rows: &Vec<Vec<char>>, count: usize) -> (r: Result<Stacks, Error>)
    requires
        count <= rows.len(),
    ensures
        ({
            let d = views(rows@).take(count as int);
            match r {
                Ok(s) => count > 0 && wide_enough(d) && s@ == drawn(d),
                Err(Error::NoStacks) => count == 0,
                Err(Error::ShortLine) => count > 0 && !wide_enough(d),
                Err(_) => false,
            }
        }),
{
    let ghost d = views(rows@).take(count as int);
    if count == 0 {
        return Err(Error::NoStacks);
    }
    let mut width: usize = 0;
    let mut k: usize = 0;
    while k < count
        invariant
            k <= count <= rows.len(),
            d == views(rows@).take(count as int),
            width == longest(d, k as nat),
        decreases count - k,
    {
        assert(d[k as int] == rows[k as int]@);
        if rows[k].len() > width {
            width = rows[k].len();
        }
        k += 1;
    }
    let n = width / 4 + if width % 4 == 3 { 1usize } else { 0usize };
    assert(n == stack_count(d));
    let mut k: usize = 0;
    while k < count
        invariant
            k <= count <= rows.len(),
            d == views(rows@).take(count as int),
            n == stack_count(d),
            4 * n <= width + 1,
            forall|j: int| 0 <= j < k ==> (#[trigger] d[j]).len() + 2 >= 4 * n,
        decreases count - k,
    {
        assert(d[k as int] == rows[k as int]@);
        if n > 0 && rows[k].len() < 4 * (n - 1) + 2 {
            return Err(Error::ShortLine);
        }
        k += 1;
    }
    let mut stacks = Stacks::new(n);
    let mut k: usize = 0;
    assert(stacks@ =~= Seq::new(n as nat, |i: int| drawn_stack(d, i, 0)));
    while k < count
        invariant
            k <= count <= rows.len(),
            d == views(rows@).take(count as int),
            d.len() == count,
            n == stack_count(d),
            4 * n <= width + 1,
            wide_enough(d),
            stacks@ == Seq::new(n as nat, |i: int| drawn_stack(d, i, k as nat)),
        decreases count - k,
    {
        let row = &rows[count - 1 - k];
        assert(d[count - 1 - k] == row@);
        let mut i: usize = 0;
        while i < n
            invariant
                i <= n,
                k < count <= rows.len(),
                d.len() == count,
                row@ == d[count - 1 - k],
                row@.len() + 2 >= 4 * n,
                4 * n <= width + 1,
                stacks@.len() == n,
                forall|j: int| 0 <= j < i ==> #[trigger] stacks@[j] == drawn_stack(d, j, (k + 1) as nat),
                forall|j: int| i <= j < n ==> #[trigger] stacks@[j] == drawn_stack(d, j, k as nat),
            decreases n - i,
        {
            let c = row[4 * i + 1];
            if c != ' ' {
                stacks.put(i, c);
            }
            i += 1;
        }
        assert(stacks@ =~= Seq::new(n as nat, |i: int| drawn_stack(d, i, (k + 1) as nat)));
        k += 1;
    }
    Ok(stacks)
}

/// The top crates, for the stacks that the lines of `input` draw before the
/// first empty line, after the moves that the lines after it describe.
pub fn compute(input: &str, one_by_one: bool) -> (r: Result<String, Error>)
    ensures
        match answer(lines(input@), one_by_one) {
            Ok(t) => r matches Ok(s) && s@ == t,
            Err(e) => r matches Err(f) && f == e,
        },
{
    let text = chars_of(input);
    let rows = split_lines(&text);
    let ghost all = lines(input@);
    assert(all.skip(0) =~= all);
    let n = paragraph_end(&rows, 0);
    let mut stacks = match parse_stacks(&rows, n) {
        Ok(s) => s,
        Err(e) => {
            return Err(e);
        },
    };
    let from = if n < rows.len() { n + 1 } else { n };
    let ghost rest = if n < all.len() { all.skip(n + 1) } else { Seq::<Seq<char>>::empty() };
    assert(views(rows@).skip(from as int) =~= rest);
    let moves = match parse_moves(&rows, from) {
        Ok(ms) => ms,
        Err(e) => {
            return Err(e);
        },
    };
    let ghost start = stacks@;
    let ghost goal = answer(lines(input@), one_by_one);
    assert(goal == match after_moves(start, moves@, one_by_one, moves@.len()) {
        Err(e) => Err::<Seq<char>, Error>(e),
        Ok(s) => Ok(tops(s, s.len())),
    });
    let mut i: usize = 0;
    while i < moves.len()
        invariant
            i <= moves.len(),
            goal == answer(lines(input@), one_by_one),
            goal == match after_moves(start, moves@, one_by_one, moves@.len()) {
                Err(e) => Err::<Seq<char>, Error>(e),
                Ok(s) => Ok(tops(s, s.len())),
            },
            after_moves(start, moves@, one_by_one, i as nat) == Ok::<Seq<Seq<char>>, Error>(
                stacks@,
            ),
        decreases moves.len() - i,
    {
        let done = if one_by_one {
            stacks.apply(&moves[i])
        } else {
            stacks.apply2(&moves[i])
        };
        if let Err(e) = done {
            proof {
                lemma_after_moves_error(start, moves@, one_by_one, (i + 1) as nat, moves@.len());
            }
            return Err(e);
        }
        i += 1;
    }
    Ok(stacks.read_top())
}

/// The top crates after the crane has moved the crates one by one.
pub fn compute1(input: &str) -> (r: Result<String, Error>)
    ensures
        match answer(lines(input@), true) {
            Ok(t) => r matches Ok(s) && s@ == t,
            Err(e) => r matches Err(f) && f == e,
        },
{
    compute(input, true)
}

/// The top crates after the crane has moved the crates several at once.
pub fn compute2(input: &str) -> (r: Result<String, Error>)
    ensures
        match answer(lines(input@), false) {
            Ok(t) => r matches Ok(s) && s@ == t,
            Err(e) => r matches Err(f) && f == e,
        },
{
    compute(input, false)
}

} // verus!
