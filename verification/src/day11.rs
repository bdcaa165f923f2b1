//! Monkey in the middle: monkeys that inspect items and throw them to each
//! other, and how often each monkey inspects an item.

use crate::text::{
    chars_of, lines, paragraph_end, paragraph_len, parse_usize, slice, spells, split_lines,
    split_words, unsigned_of, views, words,
};
use vstd::prelude::*;

verus! {

/// Which of the two games to play.
#[derive(Clone, Copy, Debug, PartialEq, Eq)]
pub enum Part {
    /// Twenty rounds, in which the worry level drops to a third after every
    /// inspection.
    One,
    /// Ten thousand rounds, in which the worry level is kept below the
    /// product of all divisors.
    Two,
}

/// Why the notes on the monkeys have no answer.
#[derive(Clone, Copy, Debug, PartialEq, Eq)]
pub enum Error {
    /// The notes on a monkey have fewer than six lines.
    Incomplete,
    /// The first line of a monkey's notes is not `Monkey` and one more word.
    InvalidHeader,
    /// The second line does not list the starting items.
    InvalidItems,
    /// The third line gives no operation.
    InvalidOperation,
    /// The fourth line gives no divisor, or the divisor 0.
    InvalidTest,
    /// The fifth or sixth line names no monkey, or a monkey that is not
    /// there.
    InvalidTarget,
    /// A number leaves the range of its type.
    Overflow,
}

/// What inspecting does to the worry level of an item.
#[derive(Clone, Copy, Debug, PartialEq, Eq)]
pub enum Op {
    Add(usize),
    Mul(usize),
    Square,
}

/// How a monkey decides where to throw an item.
#[derive(Clone, Copy, Debug, PartialEq, Eq)]
pub enum Test {
    DivisibleBy(usize),
}

/// How the worry level changes after an inspection.
#[derive(Clone, Copy, Debug, PartialEq, Eq)]
pub enum Relief {
    /// It drops to a third.
    Third,
    /// It is replaced by its remainder on division by the modulus.
    Modulo(usize),
}

/// An item on its way to a monkey.
#[derive(Clone, Copy, Debug, PartialEq, Eq)]
pub struct Throw {
    pub item: usize,
    pub to_monkey: usize,
}

/// A monkey with the items it holds, in the order in which it will inspect
/// them.
#[derive(Debug, PartialEq, Eq)]
pub struct Monkey {
    pub items: Vec<usize>,
    pub operation: Op,
    pub test: Test,
    pub if_true: usize,
    pub if_false: usize,
}

/// The mathematical model of a monkey.
pub struct MonkeyView {
    pub items: Seq<usize>,
    pub operation: Op,
    pub test: Test,
    pub if_true: usize,
    pub if_false: usize,
}

impl View for Monkey {
    type V = MonkeyView;

    open spec fn view(&self) -> MonkeyView {
        MonkeyView {
            items: self.items@,
            operation: self.operation,
            test: self.test,
            if_true: self.if_true,
            if_false: self.if_false,
        }
    }
}

/// The views of a sequence of monkeys.
pub open spec fn monkey_views(ms: Seq<Monkey>) -> Seq<MonkeyView> {
    ms.map_values(|m: Monkey| m@)
}

impl MonkeyView {
    /// The divisor of the monkey's test.
    pub open spec fn divisor(self) -> usize {
        match self.test {
            Test::DivisibleBy(x) => x,
        }
    }

    /// The monkey without its items.
    pub open spec fn emptied(self) -> MonkeyView {
        MonkeyView { items: Seq::empty(), ..self }
    }

    /// The monkey with one more item, which it will inspect last.
    pub open spec fn given(self, item: usize) -> MonkeyView {
        MonkeyView { items: self.items.push(item), ..self }
    }
}

/// What stands after `prefix` in `s`, if `s` starts with `prefix`.
pub open spec fn strip_prefix(s: Seq<char>, prefix: Seq<char>) -> Option<Seq<char>> {
    if s.len() >= prefix.len() && s.take(prefix.len() as int) == prefix {
        Some(s.skip(prefix.len() as int))
    } else {
        None
    }
}

/// Whether a comma and a space stand at place `i` of `s`.
pub open spec fn comma_at(s: Seq<char>, i: int) -> bool {
    0 <= i && i + 1 < s.len() && s[i] == ',' && s[i + 1] == ' '
}

/// The number of characters before the first comma and space of `s`.
pub open spec fn item_len(s: Seq<char>) -> nat
    decreases s.len(),
{
    if s.len() == 0 || comma_at(s, 0) {
        0
    } else {
        1 + item_len(s.drop_first())
    }
}

/// The numbers that `s` lists with a comma and a space between each two,
/// or `None` if something between them is not a number.
pub open spec fn items_of(s: Seq<char>) -> Option<Seq<usize>>
    decreases s.len(),
{
    let n = item_len(s) as int;
    match unsigned_of(s.take(n), usize::MAX as nat) {
        None => None,
        Some(v) => if n + 2 > s.len() {
            Some(seq![v as usize])
        } else {
            match items_of(s.skip(n + 2)) {
                None => None,
                Some(rest) => Some(seq![v as usize] + rest),
            }
        },
    }
}

/// The numbers `done` followed by the numbers `rest`, if there are any.
pub open spec fn followed_by(done: Seq<usize>, rest: Option<Seq<usize>>) -> Option<Seq<usize>> {
    match rest {
        None => None,
        Some(r) => Some(done + r),
    }
}

/// The operation that the third line of a monkey's notes gives.
pub open spec fn operation_of(line: Seq<char>) -> Result<Op, Error> {
    let w = words(line);
    if w.len() == 6 && w[0] == "Operation:"@ && w[1] == "new"@ && w[2] == "="@ && w[3] == "old"@ {
        if w[4] == "*"@ && w[5] == "old"@ {
            Ok(Op::Square)
        } else {
            match unsigned_of(w[5], usize::MAX as nat) {
                None => Err(Error::InvalidOperation),
                Some(n) => if w[4] == "*"@ {
                    Ok(Op::Mul(n as usize))
                } else if w[4] == "+"@ {
                    Ok(Op::Add(n as usize))
                } else {
                    Err(Error::InvalidOperation)
                },
            }
        }
    } else {
        Err(Error::InvalidOperation)
    }
}

/// The number that ends a line of the six words `w0` to `w4` and a number.
pub open spec fn last_of_six(
    line: Seq<char>,
    w0: Seq<char>,
    w1: Seq<char>,
    w2: Seq<char>,
    w3: Seq<char>,
    w4: Seq<char>,
) -> Option<usize> {
    let w = words(line);
    if w.len() == 6 && w[0] == w0 && w[1] == w1 && w[2] == w2 && w[3] == w3 && w[4] == w4 {
        match unsigned_of(w[5], usize::MAX as nat) {
            Some(n) => Some(n as usize),
            None => None,
        }
    } else {
        None
    }
}

/// The divisor that the fourth line of a monkey's notes gives.
pub open spec fn divisor_of(line: Seq<char>) -> Option<usize> {
    let w = words(line);
    if w.len() == 4 && w[0] == "Test:"@ && w[1] == "divisible"@ && w[2] == "by"@ {
        match unsigned_of(w[3], usize::MAX as nat) {
            Some(n) => if n > 0 {
                Some(n as usize)
            } else {
                None
            },
            None => None,
        }
    } else {
        None
    }
}

/// The monkey that the six lines of `ss` from place `at` on describe.
pub open spec fn monkey_of(ss: Seq<Seq<char>>, at: int) -> Result<MonkeyView, Error> {
    if at + 6 > ss.len() {
        Err(Error::Incomplete)
    } else if !(words(ss[at]).len() == 2 && words(ss[at])[0] == "Monkey"@) {
        Err(Error::InvalidHeader)
    } else {
        match strip_prefix(ss[at + 1], "  Starting items: "@) {
            None => Err(Error::InvalidItems),
            Some(list) => match items_of(list) {
                None => Err(Error::InvalidItems),
                Some(items) => match operation_of(ss[at + 2]) {
                    Err(e) => Err(e),
                    Ok(operation) => match divisor_of(ss[at + 3]) {
                        None => Err(Error::InvalidTest),
                        Some(divisor) => match (
                            last_of_six(
                                ss[at + 4],
                                "If"@,
                                "true:"@,
                                "throw"@,
                                "to"@,
                                "monkey"@,
                            ),
                            last_of_six(
                                ss[at + 5],
                                "If"@,
                                "false:"@,
                                "throw"@,
                                "to"@,
                                "monkey"@,
                            ),
                        ) {
                            (Some(if_true), Some(if_false)) => Ok(
                                MonkeyView {
                                    items,
                                    operation,
                                    test: Test::DivisibleBy(divisor),
                                    if_true,
                                    if_false,
                                },
                            ),
                            _ => Err(Error::InvalidTarget),
                        },
                    },
                },
            },
        }
    }
}

/// The monkeys that the lines of `ss` from place `at` on describe: six
/// lines for each, and an empty line between the notes on two monkeys.
pub open spec fn monkeys_from(ss: Seq<Seq<char>>, at: nat) -> Result<Seq<MonkeyView>, Error>
    decreases ss.len() - at,
{
    if at > ss.len() {
        Err(Error::Incomplete)
    } else {
        match monkey_of(ss, at as int) {
            Err(e) => Err(e),
            Ok(m) => {
                let end = at + paragraph_len(ss.skip(at as int));
                if end >= ss.len() {
                    Ok(seq![m])
                } else {
                    match monkeys_from(ss, end + 1) {
                        Err(e) => Err(e),
                        Ok(rest) => Ok(seq![m] + rest),
                    }
                }
            },
        }
    }
}

/// Whether every monkey throws to monkeys that are there.
pub open spec fn targets_exist(ms: Seq<MonkeyView>) -> bool {
    forall|i: int|
        0 <= i < ms.len() ==> (#[trigger] ms[i]).if_true < ms.len() && ms[i].if_false < ms.len()
}

/// The worry level after the relief that follows an inspection.
pub open spec fn relieved(relief: Relief, level: usize) -> usize {
    match relief {
        Relief::Third => level / 3,
        Relief::Modulo(m) => if m > 0 {
            level % m
        } else {
            level
        },
    }
}

/// The worry level after an inspection, or `None` if it is more than a
/// `usize` holds.
pub open spec fn inspected(op: Op, level: usize) -> Option<usize> {
    let v = match op {
        Op::Add(x) => level + x,
        Op::Mul(x) => level * x,
        Op::Square => level * level,
    };
    if v <= usize::MAX {
        Some(v as usize)
    } else {
        None
    }
}

/// What becomes of an item of worry level `level` that the monkey inspects.
pub open spec fn throw_of(m: MonkeyView, relief: Relief, level: usize) -> Option<Throw> {
    match inspected(m.operation, level) {
        None => None,
        Some(v) => {
            let item = relieved(relief, v);
            Some(
                Throw {
                    item,
                    to_monkey: if m.divisor() > 0 && item % m.divisor() == 0 {
                        m.if_true
                    } else {
                        m.if_false
                    },
                },
            )
        },
    }
}

/// What becomes of the first `k` items that the monkey holds.
pub open spec fn throws_of(m: MonkeyView, relief: Relief, k: nat) -> Option<Seq<Throw>>
    decreases k,
{
    if k == 0 {
        Some(Seq::empty())
    } else {
        match (throws_of(m, relief, (k - 1) as nat), throw_of(m, relief, m.items[k - 1])) {
            (Some(ts), Some(t)) => Some(ts.push(t)),
            _ => None,
        }
    }
}

/// The monkeys after the first `k` of the thrown items have arrived.
pub open spec fn delivered(ms: Seq<MonkeyView>, ts: Seq<Throw>, k: nat) -> Seq<MonkeyView>
    decreases k,
{
    if k == 0 {
        ms
    } else {
        let before = delivered(ms, ts, (k - 1) as nat);
        let t = ts[k - 1];
        before.update(t.to_monkey as int, before[t.to_monkey as int].given(t.item))
    }
}

/// The monkeys, and how often each has inspected an item.
pub struct Game {
    pub monkeys: Seq<MonkeyView>,
    pub counts: Seq<usize>,
}

/// The game after the turn of monkey `i`: it inspects and throws all its
/// items, in the order in which it holds them.
pub open spec fn turn(g: Game, relief: Relief, i: int) -> Option<Game> {
    match throws_of(g.monkeys[i], relief, g.monkeys[i].items.len()) {
        None => None,
        Some(ts) => if g.counts[i] + ts.len() > usize::MAX {
            None
        } else {
            Some(
                Game {
                    monkeys: delivered(g.monkeys.update(i, g.monkeys[i].emptied()), ts, ts.len()),
                    counts: g.counts.update(i, (g.counts[i] + ts.len()) as usize),
                },
            )
        },
    }
}

/// The game after the turns of the first `k` monkeys.
pub open spec fn turns(g: Game, relief: Relief, k: nat) -> Option<Game>
    decreases k,
{
    if k == 0 {
        Some(g)
    } else {
        match turns(g, relief, (k - 1) as nat) {
            None => None,
            Some(h) => turn(h, relief, k - 1),
        }
    }
}

/// The game after `r` rounds, in each of which every monkey takes a turn.
pub open spec fn rounds(g: Game, relief: Relief, r: nat) -> Option<Game>
    decreases r,
{
    if r == 0 {
        Some(g)
    } else {
        match rounds(g, relief, (r - 1) as nat) {
            None => None,
            Some(h) => turns(h, relief, h.monkeys.len()),
        }
    }
}

/// The two largest of the first `n` counts, the larger first.
pub open spec fn top_two(counts: Seq<usize>, n: nat) -> (usize, usize)
    decreases n,
{
    if n == 0 {
        (0usize, 0usize)
    } else {
        let (a, b) = top_two(counts, (n - 1) as nat);
        let v = counts[n - 1];
        if v > a {
            (v, a)
        } else if v > b {
            (a, v)
        } else {
            (a, b)
        }
    }
}

/// The product of the two largest counts, and of all counts if they are
/// fewer than two.
pub open spec fn business(counts: Seq<usize>) -> int {
    if counts.len() == 0 {
        1
    } else if counts.len() == 1 {
        counts[0] as int
    } else {
        top_two(counts, counts.len()).0 * top_two(counts, counts.len()).1
    }
}

/// The product of the divisors of the first `n` monkeys.
pub open spec fn modulus(ms: Seq<MonkeyView>, n: nat) -> int
    decreases n,
{
    if n == 0 {
        1
    } else {
        modulus(ms, (n - 1) as nat) * ms[n - 1].divisor()
    }
}

/// What `compute` returns for the lines `rows`.
pub open spec fn answer(rows: Seq<Seq<char>>, part: Part) -> Result<usize, Error> {
    match monkeys_from(rows, 0) {
        Err(e) => Err(e),
        Ok(ms) => if !targets_exist(ms) {
            Err(Error::InvalidTarget)
        } else if part == Part::Two && modulus(ms, ms.len()) > usize::MAX {
            Err(Error::Overflow)
        } else {
            let start = Game { monkeys: ms, counts: Seq::new(ms.len(), |i: int| 0usize) };
            let end = match part {
                Part::One => rounds(start, Relief::Third, 20),
                Part::Two => rounds(start, Relief::Modulo(modulus(ms, ms.len()) as usize), 10000),
            };
            match end {
                None => Err(Error::Overflow),
                Some(g) => if business(g.counts) > usize::MAX {
                    Err(Error::Overflow)
                } else {
                    Ok(business(g.counts) as usize)
                },
            }
        },
    }
}

/// Throwing items about changes neither the number of the monkeys nor
/// where they throw.
pub proof fn lemma_delivered(ms: Seq<MonkeyView>, ts: Seq<Throw>, k: nat)
    requires
        k <= ts.len(),
        forall|j: int| 0 <= j < ts.len() ==> (#[trigger] ts[j]).to_monkey < ms.len(),
    ensures
        delivered(ms, ts, k).len() == ms.len(),
        targets_exist(ms) ==> targets_exist(delivered(ms, ts, k)),
    decreases k,
{
    if k > 0 {
        lemma_delivered(ms, ts, (k - 1) as nat);
    }
}

/// A monkey throws to one of the two monkeys that its notes name.
pub proof fn lemma_throws(m: MonkeyView, relief: Relief, k: nat)
    requires
        k <= m.items.len(),
    ensures
        throws_of(m, relief, k) matches Some(ts) ==> ts.len() == k && forall|j: int|
            0 <= j < k ==> (#[trigger] ts[j]).to_monkey == m.if_true || ts[j].to_monkey
                == m.if_false,
    decreases k,
{
    if k > 0 {
        lemma_throws(m, relief, (k - 1) as nat);
    }
}

/// A turn that fails stops the round.
pub proof fn lemma_turns_stuck(g: Game, relief: Relief, k: nat, n: nat)
    requires
        k <= n,
        turns(g, relief, k) is None,
    ensures
        turns(g, relief, n) is None,
    decreases n,
{
    if k < n {
        lemma_turns_stuck(g, relief, k, (n - 1) as nat);
    }
}

/// A round that fails stops the game.
pub proof fn lemma_rounds_stuck(g: Game, relief: Relief, k: nat, n: nat)
    requires
        k <= n,
        rounds(g, relief, k) is None,
    ensures
        rounds(g, relief, n) is None,
    decreases n,
{
    if k < n {
        lemma_rounds_stuck(g, relief, k, (n - 1) as nat);
    }
}

/// A run of characters without a comma and space, ended by a comma and
/// space or by the text, is the length of the first item.
pub proof fn lemma_item_len(s: Seq<char>, k: int)
    requires
        0 <= k <= s.len(),
        forall|j: int| 0 <= j < k ==> !comma_at(s, j),
        k == s.len() || comma_at(s, k),
    ensures
        item_len(s) == k,
    decreases k,
{
    if k > 0 {
        let t = s.drop_first();
        assert(!comma_at(s, 0));
        assert forall|j: int| 0 <= j < k - 1 implies !comma_at(t, j) by {
            assert(!comma_at(s, j + 1));
            if j + 1 < t.len() {
                assert(t[j] == s[j + 1] && t[j + 1] == s[j + 2]);
            }
        }
        if k < s.len() {
            assert(t[k - 1] == s[k] && t[k] == s[k + 1]);
        }
        lemma_item_len(t, k - 1);
    }
}

/// Reads a list of numbers with a comma and a space between each two.
pub fn parse_items(s: &Vec<char>) -> (r: Option<Vec<usize>>)
    ensures
        match r {
            Some(items) => items_of(s@) == Some(items@),
            None => items_of(s@) is None,
        },
{
    let n = s.len();
    let mut out: Vec<usize> = Vec::new();
    let mut i: usize = 0;
    assert(s@.skip(0) =~= s@);
    assert(Seq::<usize>::empty() + items_of(s@)->0 =~= items_of(s@)->0);
    loop
        invariant
            i <= n == s.len(),
            items_of(s@) == followed_by(out@, items_of(s@.skip(i as int))),
        decreases n - i,
    {
        let ghost rest = s@.skip(i as int);
        let start = i;
        while i < n && !(i + 1 < n && s[i] == ',' && s[i + 1] == ' ')
            invariant
                start <= i <= n == s.len(),
                rest == s@.skip(start as int),
                forall|j: int| 0 <= j < i - start ==> !comma_at(rest, j),
            decreases n - i,
        {
            assert(!comma_at(rest, i - start)) by {
                if i + 1 < n {
                    assert(rest[i - start] == s[i as int] && rest[i - start + 1] == s[i + 1]);
                }
            }
            i += 1;
        }
        proof {
            if i < n {
                assert(rest[i - start] == s[i as int] && rest[i - start + 1] == s[i + 1]);
            }
            lemma_item_len(rest, i - start);
        }
        let word = slice(s, start, i);
        assert(word@ =~= rest.take(i - start));
        let v = match parse_usize(&word) {
            Some(v) => v,
            None => {
                return None;
            },
        };
        let ghost before = out@;
        out.push(v);
        if i >= n {
            proof {
                assert(items_of(rest) == Some(seq![v]));
                assert(before + seq![v] =~= out@);
            }
            return Some(out);
        }
        i += 2;
        proof {
            assert(rest.skip(i - start) =~= s@.skip(i as int));
            match items_of(s@.skip(i as int)) {
                Some(more) => {
                    assert(before + (seq![v] + more) =~= out@ + more);
                },
                None => {},
            }
        }
    }
}

/// Reads the number that ends a line of the five given words and a number.
fn parse_last_of_six(
    line: &Vec<char>,
    w0: &str,
    w1: &str,
    w2: &str,
    w3: &str,
    w4: &str,
) -> (r: Option<usize>)
    ensures
        r == last_of_six(line@, w0@, w1@, w2@, w3@, w4@),
{
    let w = split_words(line);
    assert(w@.len() == words(line@).len());
    assert(forall|k: int| 0 <= k < w.len() ==> (#[trigger] w[k])@ == words(line@)[k]);
    if w.len() == 6 && spells(&w[0], w0) && spells(&w[1], w1) && spells(&w[2], w2) && spells(
        &w[3],
        w3,
    ) && spells(&w[4], w4) {
        parse_usize(&w[5])
    } else {
        None
    }
}

/// Reads the operation that the third line of a monkey's notes gives.
pub fn parse_operation(line: &Vec<char>) -> (r: Result<Op, Error>)
    ensures
        r == operation_of(line@),
{
    let w = split_words(line);
    assert(w@.len() == words(line@).len());
    assert(forall|k: int| 0 <= k < w.len() ==> (#[trigger] w[k])@ == words(line@)[k]);
    if w.len() == 6 && spells(&w[0], "Operation:") && spells(&w[1], "new") && spells(&w[2], "=")
        && spells(&w[3], "old") {
        if spells(&w[4], "*") && spells(&w[5], "old") {
            Ok(Op::Square)
        } else {
            match parse_usize(&w[5]) {
                None => Err(Error::InvalidOperation),
                Some(n) => {
                    if spells(&w[4], "*") {
                        Ok(Op::Mul(n))
                    } else if spells(&w[4], "+") {
                        Ok(Op::Add(n))
                    } else {
                        Err(Error::InvalidOperation)
                    }
                },
            }
        }
    } else {
        Err(Error::InvalidOperation)
    }
}

/// Reads the divisor that the fourth line of a monkey's notes gives.
pub fn parse_divisor(line: &Vec<char>) -> (r: Option<usize>)
    ensures
        r == divisor_of(line@),
{
    let w = split_words(line);
    assert(w@.len() == words(line@).len());
    assert(forall|k: int| 0 <= k < w.len() ==> (#[trigger] w[k])@ == words(line@)[k]);
    if w.len() == 4 && spells(&w[0], "Test:") && spells(&w[1], "divisible") && spells(&w[2], "by") {
        match parse_usize(&w[3]) {
            Some(n) => if n > 0 {
                Some(n)
            } else {
                None
            },
            None => None,
        }
    } else {
        None
    }
}

impl Monkey {
    /// Reads the monkey that the six lines of `ss` from place `at` on
    /// describe.
    pub fn parse(ss: &Vec<Vec<char>>, at: usize) -> (r: Result<Monkey, Error>)
        requires
            at <= ss.len(),
        ensures
            match r {
                Ok(m) => monkey_of(views(ss@), at as int) == Ok::<MonkeyView, Error>(m@),
                Err(e) => monkey_of(views(ss@), at as int) == Err::<MonkeyView, Error>(e),
            },
    {
        let ghost all = views(ss@);
        if ss.len() - at < 6 {
            return Err(Error::Incomplete);
        }
        assert(forall|k: int| 0 <= k < ss.len() ==> (#[trigger] ss[k])@ == all[k]);
        let header = split_words(&ss[at]);
        assert(header@.len() == words(all[at as int]).len());
        assert(forall|k: int|
            0 <= k < header.len() ==> (#[trigger] header[k])@ == words(all[at as int])[k]);
        if !(header.len() == 2 && spells(&header[0], "Monkey")) {
            return Err(Error::InvalidHeader);
        }
        let prefix = chars_of("  Starting items: ");
        let second = &ss[at + 1];
        if second.len() < prefix.len() {
            return Err(Error::InvalidItems);
        }
        let head = slice(second, 0, prefix.len());
        assert(head@ =~= second@.take(prefix.len() as int));
        if !spells(&head, "  Starting items: ") {
            return Err(Error::InvalidItems);
        }
        let list = slice(second, prefix.len(), second.len());
        assert(list@ =~= second@.skip(prefix.len() as int));
        let items = match parse_items(&list) {
            Some(items) => items,
            None => {
                return Err(Error::InvalidItems);
            },
        };
        let operation = match parse_operation(&ss[at + 2]) {
            Ok(op) => op,
            Err(e) => {
                return Err(e);
            },
        };
        let divisor = match parse_divisor(&ss[at + 3]) {
            Some(d) => d,
            None => {
                return Err(Error::InvalidTest);
            },
        };
        let if_true = parse_last_of_six(&ss[at + 4], "If", "true:", "throw", "to", "monkey");
        let if_false = parse_last_of_six(&ss[at + 5], "If", "false:", "throw", "to", "monkey");
        match (if_true, if_false) {
            (Some(if_true), Some(if_false)) => Ok(
                Monkey { items, operation, test: Test::DivisibleBy(divisor), if_true, if_false },
            ),
            _ => Err(Error::InvalidTarget),
        }
    }
}

impl Monkey {
    /// Inspects and throws all items, in the order in which the monkey
    /// holds them. Fails, and keeps the items, if a worry level becomes
    /// more than a `usize` holds.
    pub fn inspect(&mut self, relief: Relief) -> (r: Result<Vec<Throw>, Error>)
        ensures
            match r {
                Ok(ts) => throws_of(old(self)@, relief, old(self)@.items.len()) == Some(ts@)
                    && final(self)@ == old(self)@.emptied(),
                Err(e) => e == Error::Overflow && throws_of(
                    old(self)@,
                    relief,
                    old(self)@.items.len(),
                ) is None && final(self)@ == old(self)@,
            },
    {
        let n = self.items.len();
        let divisor = match self.test {
            Test::DivisibleBy(x) => x,
        };
        let mut out: Vec<Throw> = Vec::new();
        let mut k: usize = 0;
        while k < n
            invariant
                k <= n == self.items.len(),
                *self == *old(self),
                divisor == self@.divisor(),
                throws_of(self@, relief, k as nat) == Some(out@),
            decreases n - k,
        {
            let level = self.items[k];
            let raised = match self.operation {
                Op::Add(x) => level.checked_add(x),
                Op::Mul(x) => level.checked_mul(x),
                Op::Square => level.checked_mul(level),
            };
            let raised = match raised {
                Some(v) => v,
                None => {
                    proof {
                        assert(throws_of(self@, relief, (k + 1) as nat) is None);
                        lemma_throws_stuck(self@, relief, (k + 1) as nat, n as nat);
                    }
                    return Err(Error::Overflow);
                },
            };
            let item = match relief {
                Relief::Third => raised / 3,
                Relief::Modulo(m) => if m > 0 {
                    raised % m
                } else {
                    raised
                },
            };
            let to_monkey = if divisor > 0 && item % divisor == 0 {
                self.if_true
            } else {
                self.if_false
            };
            out.push(Throw { item, to_monkey });
            k += 1;
        }
        self.items = Vec::new();
        Ok(out)
    }
}

/// An item that cannot be inspected fails the turn.
pub proof fn lemma_throws_stuck(m: MonkeyView, relief: Relief, k: nat, n: nat)
    requires
        k <= n,
        throws_of(m, relief, k) is None,
    ensures
        throws_of(m, relief, n) is None,
    decreases n,
{
    if k < n {
        lemma_throws_stuck(m, relief, k, (n - 1) as nat);
    }
}

/// Lets monkey `i` take its turn.
pub fn take_turn(monkeys: &mut Vec<Monkey>, counts: &mut Vec<usize>, relief: Relief, i: usize) -> (r:
    Result<(), Error>)
    requires
        i < old(monkeys).len() == old(counts).len(),
        targets_exist(monkey_views(old(monkeys)@)),
    ensures
        ({
            let before = Game { monkeys: monkey_views(old(monkeys)@), counts: old(counts)@ };
            match r {
                Ok(_) => turn(before, relief, i as int) == Some(
                    Game { monkeys: monkey_views(final(monkeys)@), counts: final(counts)@ },
                ) && final(monkeys).len() == final(counts).len() == old(monkeys).len()
                    && targets_exist(monkey_views(final(monkeys)@)),
                Err(e) => e == Error::Overflow && turn(before, relief, i as int) is None,
            }
        }),
{
    let ghost start = monkey_views(monkeys@);
    let n = monkeys.len();
    assert(start[i as int] == monkeys[i as int]@);
    let thrown = match monkeys[i].inspect(relief) {
        Ok(ts) => ts,
        Err(e) => {
            return Err(e);
        },
    };
    let ghost emptied = start.update(i as int, start[i as int].emptied());
    assert(monkey_views(monkeys@) =~= emptied);
    let count = match counts[i].checked_add(thrown.len()) {
        Some(c) => c,
        None => {
            return Err(Error::Overflow);
        },
    };
    counts[i] = count;
    proof {
        lemma_throws(start[i as int], relief, start[i as int].items.len());
        assert(targets_exist(emptied));
        assert forall|j: int| 0 <= j < thrown@.len() implies (#[trigger] thrown@[j]).to_monkey
            < emptied.len() by {}
    }
    let mut k: usize = 0;
    while k < thrown.len()
        invariant
            k <= thrown.len(),
            monkeys.len() == n == emptied.len(),
            forall|j: int| 0 <= j < thrown@.len() ==> (#[trigger] thrown@[j]).to_monkey < n,
            monkey_views(monkeys@) == delivered(emptied, thrown@, k as nat),
        decreases thrown.len() - k,
    {
        let t = thrown[k];
        let ghost before = monkey_views(monkeys@);
        assert(before[t.to_monkey as int] == monkeys[t.to_monkey as int]@);
        monkeys[t.to_monkey].items.push(t.item);
        assert(monkey_views(monkeys@) =~= before.update(
            t.to_monkey as int,
            before[t.to_monkey as int].given(t.item),
        ));
        k += 1;
    }
    proof {
        lemma_delivered(emptied, thrown@, thrown@.len());
    }
    Ok(())
}

/// Plays `count` rounds.
pub fn play(monkeys: &mut Vec<Monkey>, counts: &mut Vec<usize>, relief: Relief, count: usize) -> (r:
    Result<(), Error>)
    requires
        old(monkeys).len() == old(counts).len(),
        targets_exist(monkey_views(old(monkeys)@)),
    ensures
        ({
            let before = Game { monkeys: monkey_views(old(monkeys)@), counts: old(counts)@ };
            match r {
                Ok(_) => rounds(before, relief, count as nat) == Some(
                    Game { monkeys: monkey_views(final(monkeys)@), counts: final(counts)@ },
                ),
                Err(e) => e == Error::Overflow && rounds(before, relief, count as nat) is None,
            }
        }),
{
    let ghost start = Game { monkeys: monkey_views(monkeys@), counts: counts@ };
    let n = monkeys.len();
    let mut round: usize = 0;
    while round < count
        invariant
            round <= count,
            monkeys.len() == counts.len() == n,
            start == (Game { monkeys: monkey_views(old(monkeys)@), counts: old(counts)@ }),
            targets_exist(monkey_views(monkeys@)),
            rounds(start, relief, round as nat) == Some(
                Game { monkeys: monkey_views(monkeys@), counts: counts@ },
            ),
        decreases count - round,
    {
        let ghost begun = Game { monkeys: monkey_views(monkeys@), counts: counts@ };
        let mut i: usize = 0;
        while i < n
            invariant
                i <= n,
                round < count,
                begun.monkeys.len() == n,
                monkeys.len() == counts.len() == n,
                start == (Game { monkeys: monkey_views(old(monkeys)@), counts: old(counts)@ }),
                targets_exist(monkey_views(monkeys@)),
                rounds(start, relief, round as nat) == Some(begun),
                turns(begun, relief, i as nat) == Some(
                    Game { monkeys: monkey_views(monkeys@), counts: counts@ },
                ),
            decreases n - i,
        {
            if let Err(e) = take_turn(monkeys, counts, relief, i) {
                proof {
                    lemma_turns_stuck(begun, relief, (i + 1) as nat, n as nat);
                    lemma_rounds_stuck(start, relief, (round + 1) as nat, count as nat);
                }
                return Err(e);
            }
            i += 1;
        }
        round += 1;
    }
    Ok(())
}

/// Reads the monkeys that the lines describe.
pub fn parse_monkeys(ss: &Vec<Vec<char>>) -> (r: Result<Vec<Monkey>, Error>)
    ensures
        match r {
            Ok(ms) => monkeys_from(views(ss@), 0) == Ok::<Seq<MonkeyView>, Error>(
                monkey_views(ms@),
            ),
            Err(e) => monkeys_from(views(ss@), 0) == Err::<Seq<MonkeyView>, Error>(e),
        },
{
    let ghost all = views(ss@);
    let mut out: Vec<Monkey> = Vec::new();
    let mut at: usize = 0;
    assert(monkey_views(out@) =~= Seq::<MonkeyView>::empty());
    loop
        invariant
            at <= ss.len(),
            all == views(ss@),
            monkeys_from(all, 0) == match monkeys_from(all, at as nat) {
                Err(e) => Err::<Seq<MonkeyView>, Error>(e),
                Ok(rest) => Ok(monkey_views(out@) + rest),
            },
        decreases ss.len() - at,
    {
        let m = match Monkey::parse(ss, at) {
            Ok(m) => m,
            Err(e) => {
                return Err(e);
            },
        };
        let ghost before = monkey_views(out@);
        let ghost view = m@;
        out.push(m);
        assert(monkey_views(out@) =~= before.push(view));
        let end = paragraph_end(ss, at);
        if end >= ss.len() {
            assert(before + seq![view] =~= monkey_views(out@));
            return Ok(out);
        }
        proof {
            match monkeys_from(all, (end + 1) as nat) {
                Ok(rest) => {
                    assert(before + (seq![view] + rest) =~= monkey_views(out@) + rest);
                },
                Err(_) => {},
            }
        }
        at = end + 1;
    }
}

/// The product of the two largest counts, and of all counts if they are
/// fewer than two; `None` if it is more than a `usize` holds.
pub fn monkey_business(counts: &Vec<usize>) -> (r: Option<usize>)
    ensures
        match r {
            Some(v) => v == business(counts@),
            None => business(counts@) > usize::MAX,
        },
{
    let n = counts.len();
    if n == 0 {
        return Some(1);
    }
    if n == 1 {
        return Some(counts[0]);
    }
    let mut a: usize = 0;
    let mut b: usize = 0;
    let mut i: usize = 0;
    while i < n
        invariant
            i <= n == counts.len(),
            (a, b) == top_two(counts@, i as nat),
        decreases n - i,
    {
        let v = counts[i];
        if v > a {
            b = a;
            a = v;
        } else if v > b {
            b = v;
        }
        i += 1;
    }
    a.checked_mul(b)
}

/// The product of the numbers of inspections of the two busiest of the
/// monkeys that `input` describes, after the game that `part` names.
pub fn compute(input: &str, part: Part) -> (r: Result<usize, Error>)
    ensures
        r == answer(lines(input@), part),
{
    let text = chars_of(input);
    let rows = split_lines(&text);
    let mut monkeys = match parse_monkeys(&rows) {
        Ok(ms) => ms,
        Err(e) => {
            return Err(e);
        },
    };
    let ghost ms = monkey_views(monkeys@);
    let n = monkeys.len();
    let mut i: usize = 0;
    while i < n
        invariant
            i <= n == monkeys.len(),
            ms == monkey_views(monkeys@),
            monkeys_from(lines(input@), 0) == Ok::<Seq<MonkeyView>, Error>(ms),
            forall|j: int|
                0 <= j < i ==> (#[trigger] ms[j]).if_true < ms.len() && ms[j].if_false < ms.len(),
        decreases n - i,
    {
        assert(ms[i as int] == monkeys[i as int]@);
        if monkeys[i].if_true >= n || monkeys[i].if_false >= n {
            return Err(Error::InvalidTarget);
        }
        i += 1;
    }
    let mut counts: Vec<usize> = vec![0usize; n];
    assert(counts@ =~= Seq::new(ms.len(), |i: int| 0usize));
    let (relief, count) = match part {
        Part::One => (Relief::Third, 20usize),
        Part::Two => {
            let mut m: usize = 1;
            let mut i: usize = 0;
            proof {
                lemma_parsed_divisors(lines(input@), 0);
            }
            while i < n
                invariant
                    i <= n == monkeys.len(),
                    ms == monkey_views(monkeys@),
                    forall|j: int| 0 <= j < ms.len() ==> (#[trigger] ms[j]).divisor() > 0,
                    monkeys_from(lines(input@), 0) == Ok::<Seq<MonkeyView>, Error>(ms),
                    targets_exist(ms),
                    part == Part::Two,
                    m == modulus(ms, i as nat),
                decreases n - i,
            {
                assert(ms[i as int] == monkeys[i as int]@);
                let d = match monkeys[i].test {
                    Test::DivisibleBy(x) => x,
                };
                m = match m.checked_mul(d) {
                    Some(p) => p,
                    None => {
                        proof {
                            lemma_modulus_grows(ms, (i + 1) as nat, n as nat);
                        }
                        return Err(Error::Overflow);
                    },
                };
                i += 1;
            }
            (Relief::Modulo(m), 10000usize)
        },
    };
    if let Err(e) = play(&mut monkeys, &mut counts, relief, count) {
        return Err(e);
    }
    match monkey_business(&counts) {
        Some(v) => Ok(v),
        None => Err(Error::Overflow),
    }
}

/// No monkey that was read from its notes has the divisor 0.
pub proof fn lemma_parsed_divisors(ss: Seq<Seq<char>>, at: nat)
    ensures
        monkeys_from(ss, at) matches Ok(ms) ==> forall|j: int|
            0 <= j < ms.len() ==> (#[trigger] ms[j]).divisor() > 0,
    decreases ss.len() - at,
{
    if at <= ss.len() {
        if let Ok(m) = monkey_of(ss, at as int) {
            let end = at + paragraph_len(ss.skip(at as int));
            if end < ss.len() {
                lemma_parsed_divisors(ss, end + 1);
            }
        }
    }
}

/// The product of some divisors is no more than the product of all, as far
/// as no divisor is 0.
pub proof fn lemma_modulus_grows(ms: Seq<MonkeyView>, k: nat, n: nat)
    requires
        k <= n <= ms.len(),
        forall|j: int| 0 <= j < ms.len() ==> (#[trigger] ms[j]).divisor() > 0,
    ensures
        0 < modulus(ms, k) <= modulus(ms, n),
    decreases n,
{
    if n == 0 {
    } else if k < n {
        lemma_modulus_grows(ms, k, (n - 1) as nat);
        let a = modulus(ms, (n - 1) as nat);
        let d = ms[n - 1].divisor() as int;
        assert(a <= a * d) by (nonlinear_arith)
            requires
                a > 0,
                d > 0,
        ;
    } else {
        lemma_modulus_grows(ms, (n - 1) as nat, (n - 1) as nat);
        let a = modulus(ms, (n - 1) as nat);
        let d = ms[n - 1].divisor() as int;
        assert(0 < a * d) by (nonlinear_arith)
            requires
                a > 0,
                d > 0,
        ;
    }
}

/// The answer for the game of twenty rounds.
pub fn compute1(input: &str) -> (r: Result<usize, Error>)
    ensures
        r == answer(lines(input@), Part::One),
{
    compute(input, Part::One)
}

/// The answer for the game of ten thousand rounds.
pub fn compute2(input: &str) -> (r: Result<usize, Error>)
    ensures
        r == answer(lines(input@), Part::Two),
{
    compute(input, Part::Two)
}

} // verus!
