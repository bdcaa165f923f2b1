//! Distress signal: packets of nested lists of numbers, and their order.

use crate::text::{chars_of, is_digit, lines, parse_isize, signed_of, slice, split_lines, views};
use vstd::prelude::*;

verus! {

/// Why a list of packets has no answer.
#[derive(Clone, Copy, Debug, PartialEq, Eq)]
pub enum Error {
    /// A line is not a packet.
    InvalidPacket,
    /// The answer is more than the result type holds.
    Overflow,
}

/// A packet: a number, or a list of packets.
#[derive(Debug, PartialEq, Eq)]
pub enum Packet {
    Int(isize),
    List(Vec<Packet>),
}

/// The mathematical model of a packet.
pub enum Tree {
    Int(isize),
    List(Seq<Tree>),
}

impl View for Packet {
    type V = Tree;

    open spec fn view(&self) -> Tree
        decreases self,
    {
        match self {
            Packet::Int(i) => Tree::Int(*i),
            Packet::List(v) => Tree::List(trees(v@)),
        }
    }
}

/// The views of a sequence of packets.
pub open spec fn trees(v: Seq<Packet>) -> Seq<Tree>
    decreases v,
{
    if v.len() == 0 {
        Seq::empty()
    } else {
        trees(v.drop_last()).push(v.last().view())
    }
}

/// How `a` and `b` are ordered as numbers: -1 if `a` comes first, 1 if `b`
/// does, 0 if they are equal.
pub open spec fn sign(a: int, b: int) -> int {
    if a < b {
        -1
    } else if a > b {
        1
    } else {
        0
    }
}

/// How the packets `a` and `b` are ordered: -1 if `a` comes first, 1 if `b`
/// does, 0 if neither. Numbers are ordered by size and lists by their
/// first packets that differ, a list coming before those that continue it;
/// a number is taken for the list of that number when it meets a list.
pub open spec fn order(a: Tree, b: Tree) -> int
    decreases a, b,
{
    match (a, b) {
        (Tree::Int(x), Tree::Int(y)) => sign(x as int, y as int),
        (Tree::List(x), Tree::List(y)) => order_lists(x, y),
        (Tree::Int(x), Tree::List(y)) => if y.len() == 0 {
            1
        } else {
            let c = order(a, y[0]);
            if c != 0 {
                c
            } else if y.len() == 1 {
                0
            } else {
                -1
            }
        },
        (Tree::List(x), Tree::Int(y)) => if x.len() == 0 {
            -1
        } else {
            let c = order(x[0], b);
            if c != 0 {
                c
            } else if x.len() == 1 {
                0
            } else {
                1
            }
        },
    }
}

/// How the lists `x` and `y` are ordered.
pub open spec fn order_lists(x: Seq<Tree>, y: Seq<Tree>) -> int
    decreases x, y,
{
    if x.len() == 0 {
        if y.len() == 0 {
            0
        } else {
            -1
        }
    } else if y.len() == 0 {
        1
    } else {
        let c = order(x[0], y[0]);
        if c != 0 {
            c
        } else {
            order_lists(x.drop_first(), y.drop_first())
        }
    }
}

/// The place of the first character from place `i` on that is no digit.
pub open spec fn digits_end(s: Seq<char>, i: nat) -> nat
    decreases s.len() - i,
{
    if i < s.len() && is_digit(s[i as int]) {
        digits_end(s, i + 1)
    } else {
        i
    }
}

/// The packet that starts at place `i` of `s`, which holds neither the
/// end of `s` nor a `]`, and the place after it.
pub open spec fn element(s: Seq<char>, i: nat) -> Option<(Tree, nat)>
    decreases s.len() - i, 0nat,
{
    if i >= s.len() {
        None
    } else if s[i as int] == '[' {
        match elements(s, i + 1, Seq::empty()) {
            None => None,
            Some((items, j)) => Some((Tree::List(items), j)),
        }
    } else if is_digit(s[i as int]) {
        let j = digits_end(s, i + 1);
        match signed_of(s.subrange(i as int, j as int), isize::MIN as int, isize::MAX as int) {
            None => None,
            Some(v) => Some((Tree::Int(v as isize), j)),
        }
    } else {
        None
    }
}

/// The packets `acc` followed by those that `s` lists from place `i` on,
/// up to the `]` that ends the list or to the end of `s`, and the place
/// after the list. A `,` or the `]` follows every packet.
pub open spec fn elements(s: Seq<char>, i: nat, acc: Seq<Tree>) -> Option<(Seq<Tree>, nat)>
    decreases s.len() - i, 1nat,
{
    if i >= s.len() {
        Some((acc, i))
    } else if s[i as int] == ']' {
        Some((acc, i + 1))
    } else {
        match element(s, i) {
            None => None,
            Some((t, j)) => if !(i < j < s.len()) {
                None
            } else if s[j as int] == ']' {
                Some((acc.push(t), j + 1))
            } else if s[j as int] == ',' {
                elements(s, j + 1, acc.push(t))
            } else {
                None
            },
        }
    }
}

/// The packet that a line gives: a `[` and the list that it opens.
pub open spec fn packet_of(s: Seq<char>) -> Result<Tree, Error> {
    if s.len() > 0 && s[0] == '[' {
        match elements(s, 1, Seq::empty()) {
            Some((items, _)) => Ok(Tree::List(items)),
            None => Err(Error::InvalidPacket),
        }
    } else {
        Err(Error::InvalidPacket)
    }
}

/// The packets that the first `n` of `rows` give, empty lines left out, or
/// the error of the first line that is neither empty nor a packet.
pub open spec fn packets_of(rows: Seq<Seq<char>>, n: nat) -> Result<Seq<Tree>, Error>
    decreases n,
{
    if n == 0 {
        Ok(Seq::empty())
    } else {
        match packets_of(rows, (n - 1) as nat) {
            Err(e) => Err(e),
            Ok(ps) => if rows[n - 1].len() == 0 {
                Ok(ps)
            } else {
                match packet_of(rows[n - 1]) {
                    Err(e) => Err(e),
                    Ok(p) => Ok(ps.push(p)),
                }
            },
        }
    }
}

/// The sum of the numbers of the first `pairs` pairs of packets that are in
/// the right order, pairs numbered from 1.
pub open spec fn ordered_pairs(ps: Seq<Tree>, pairs: nat) -> nat
    decreases pairs,
{
    if pairs == 0 {
        0
    } else {
        ordered_pairs(ps, (pairs - 1) as nat) + if order(ps[2 * (pairs - 1)], ps[2 * (pairs - 1) + 1])
            <= 0 {
            pairs
        } else {
            0
        }
    }
}

/// The number of the first `n` packets that come before `d`.
pub open spec fn before(ps: Seq<Tree>, d: Tree, n: nat) -> nat
    decreases n,
{
    if n == 0 {
        0
    } else {
        before(ps, d, (n - 1) as nat) + if order(ps[n - 1], d) < 0 {
            1nat
        } else {
            0nat
        }
    }
}

/// The divider packet `[[n]]`.
pub open spec fn divider(n: isize) -> Tree {
    Tree::List(seq![Tree::List(seq![Tree::Int(n)])])
}

/// The product of the places that the dividers `[[2]]` and `[[6]]` take
/// when they are sorted in among the packets, places counted from 1 and
/// each divider put before the packets that it is neither before nor after.
pub open spec fn decoder_key(ps: Seq<Tree>) -> nat {
    (before(ps, divider(2), ps.len()) + 1) * (before(ps, divider(6), ps.len()) + 2)
}

/// The views of packets are as many as the packets, and stand in their
/// places.
pub proof fn lemma_trees(v: Seq<Packet>)
    ensures
        trees(v).len() == v.len(),
        forall|k: int| 0 <= k < v.len() ==> #[trigger] trees(v)[k] == v[k]@,
    decreases v.len(),
{
    if v.len() > 0 {
        lemma_trees(v.drop_last());
        assert(trees(v) == trees(v.drop_last()).push(v.last()@));
        assert forall|k: int| 0 <= k < v.len() implies #[trigger] trees(v)[k] == v[k]@ by {
            if k < v.len() - 1 {
                assert(trees(v.drop_last())[k] == v.drop_last()[k]@);
            }
        }
    }
}

/// The views of packets with one more packet are the views with one more
/// view.
pub proof fn lemma_trees_push(v: Seq<Packet>, p: Packet)
    ensures
        trees(v.push(p)) == trees(v).push(p@),
{
    assert(v.push(p).drop_last() =~= v);
}

/// A run of digits, ended by another character or by the text, ends where
/// `digits_end` says.
pub proof fn lemma_digits_end(s: Seq<char>, i: nat, j: nat)
    requires
        i <= j <= s.len(),
        forall|k: int| i <= k < j ==> is_digit(#[trigger] s[k]),
        j == s.len() || !is_digit(s[j as int]),
    ensures
        digits_end(s, i) == j,
    decreases j - i,
{
    if i < j {
        lemma_digits_end(s, i + 1, j);
    }
}

/// An error among the first lines is the error of all lines.
pub proof fn lemma_packets_error(rows: Seq<Seq<char>>, k: nat, n: nat)
    requires
        k <= n,
        packets_of(rows, k) is Err,
    ensures
        packets_of(rows, n) == packets_of(rows, k),
    decreases n,
{
    if k < n {
        lemma_packets_error(rows, k, (n - 1) as nat);
    }
}

/// The sum over the first pairs is no more than the sum over all.
pub proof fn lemma_ordered_pairs_grow(ps: Seq<Tree>, k: nat, n: nat)
    requires
        k <= n,
    ensures
        ordered_pairs(ps, k) <= ordered_pairs(ps, n),
    decreases n,
{
    if k < n {
        lemma_ordered_pairs_grow(ps, k, (n - 1) as nat);
    }
}

/// No more packets come before a packet than there are.
pub proof fn lemma_before_bounded(ps: Seq<Tree>, d: Tree, n: nat)
    ensures
        before(ps, d, n) <= n,
    decreases n,
{
    if n > 0 {
        lemma_before_bounded(ps, d, (n - 1) as nat);
    }
}

/// How the packets `a` and `b` are ordered: -1 if `a` comes first, 1 if `b`
/// does, 0 if neither.
pub fn compare(a: &Packet, b: &Packet) -> (r: i8)
    ensures
        r == order(a@, b@),
    decreases a, b,
{
    match (a, b) {
        (Packet::Int(x), Packet::Int(y)) => {
            if *x < *y {
                -1
            } else if *x > *y {
                1
            } else {
                0
            }
        },
        (Packet::List(x), Packet::List(y)) => compare_lists(x, y),
        (Packet::Int(_), Packet::List(y)) => {
            proof {
                lemma_trees(y@);
            }
            if y.len() == 0 {
                1
            } else {
                let c = compare(a, &y[0]);
                if c != 0 {
                    c
                } else if y.len() == 1 {
                    0
                } else {
                    -1
                }
            }
        },
        (Packet::List(x), Packet::Int(_)) => {
            proof {
                lemma_trees(x@);
            }
            if x.len() == 0 {
                -1
            } else {
                let c = compare(&x[0], b);
                if c != 0 {
                    c
                } else if x.len() == 1 {
                    0
                } else {
                    1
                }
            }
        },
    }
}

/// How the lists `x` and `y` are ordered.
pub fn compare_lists(x: &Vec<Packet>, y: &Vec<Packet>) -> (r: i8)
    ensures
        r == order_lists(trees(x@), trees(y@)),
    decreases x, y,
{
    let ghost tx = trees(x@);
    let ghost ty = trees(y@);
    proof {
        lemma_trees(x@);
        lemma_trees(y@);
        assert(tx.skip(0) =~= tx);
        assert(ty.skip(0) =~= ty);
    }
    let mut i: usize = 0;
    while i < x.len() && i < y.len()
        invariant
            i <= x.len(),
            i <= y.len(),
            tx == trees(x@),
            ty == trees(y@),
            tx.len() == x.len(),
            ty.len() == y.len(),
            forall|k: int| 0 <= k < x.len() ==> #[trigger] tx[k] == x[k]@,
            forall|k: int| 0 <= k < y.len() ==> #[trigger] ty[k] == y[k]@,
            order_lists(tx, ty) == order_lists(tx.skip(i as int), ty.skip(i as int)),
        decreases x.len() - i,
    {
        let c = compare(&x[i], &y[i]);
        proof {
            assert(tx.skip(i as int)[0] == tx[i as int]);
            assert(ty.skip(i as int)[0] == ty[i as int]);
            assert(tx.skip(i as int).drop_first() =~= tx.skip(i + 1));
            assert(ty.skip(i as int).drop_first() =~= ty.skip(i + 1));
        }
        if c != 0 {
            return c;
        }
        i += 1;
    }
    if i < y.len() {
        -1
    } else if i < x.len() {
        1
    } else {
        0
    }
}

/// Reads the list of packets that `s` holds from place `start` on.
pub fn parse_list(s: &Vec<char>, start: usize) -> (r: Option<(Vec<Packet>, usize)>)
    requires
        start <= s.len(),
    ensures
        match r {
            Some((items, next)) => elements(s@, start as nat, Seq::empty()) == Some(
                (trees(items@), next as nat),
            ) && start <= next <= s.len(),
            None => elements(s@, start as nat, Seq::empty()) is None,
        },
    decreases s.len() - start,
{
    let n = s.len();
    let mut items: Vec<Packet> = Vec::new();
    let mut i: usize = start;
    assert(trees(items@) =~= Seq::<Tree>::empty());
    loop
        invariant
            start <= i <= n == s.len(),
            elements(s@, start as nat, Seq::empty()) == elements(s@, i as nat, trees(items@)),
        decreases n - i,
    {
        if i >= n {
            return Some((items, i));
        }
        let c = s[i];
        if c == ']' {
            return Some((items, i + 1));
        }
        let (packet, j) = if c == '[' {
            match parse_list(s, i + 1) {
                None => {
                    return None;
                },
                Some((inner, j)) => (Packet::List(inner), j),
            }
        } else if c >= '0' && c <= '9' {
            let mut j: usize = i + 1;
            while j < n && s[j] >= '0' && s[j] <= '9'
                invariant
                    i < j <= n == s.len(),
                    forall|k: int| i < k < j ==> is_digit(#[trigger] s[k]),
                decreases n - j,
            {
                j += 1;
            }
            proof {
                lemma_digits_end(s@, (i + 1) as nat, j as nat);
            }
            let word = slice(s, i, j);
            match parse_isize(&word) {
                None => {
                    return None;
                },
                Some(v) => (Packet::Int(v), j),
            }
        } else {
            return None;
        };
        assert(element(s@, i as nat) == Some((packet@, j as nat)));
        if j >= n {
            return None;
        }
        proof {
            lemma_trees_push(items@, packet);
        }
        items.push(packet);
        if s[j] == ']' {
            return Some((items, j + 1));
        } else if s[j] == ',' {
            i = j + 1;
        } else {
            return None;
        }
    }
}

/// Reads the packet that a line gives.
pub fn parse_packet(line: &Vec<char>) -> (r: Result<Packet, Error>)
    ensures
        match r {
            Ok(p) => packet_of(line@) == Ok::<Tree, Error>(p@),
            Err(e) => packet_of(line@) == Err::<Tree, Error>(e),
        },
{
    if line.len() > 0 && line[0] == '[' {
        match parse_list(line, 1) {
            Some((items, _)) => Ok(Packet::List(items)),
            None => Err(Error::InvalidPacket),
        }
    } else {
        Err(Error::InvalidPacket)
    }
}

/// Reads the packets that the lines of `input` give, empty lines left out.
pub fn load(input: &str) -> (r: Result<Vec<Packet>, Error>)
    ensures
        match r {
            Ok(ps) => packets_of(lines(input@), lines(input@).len()) == Ok::<Seq<Tree>, Error>(
                trees(ps@),
            ),
            Err(e) => packets_of(lines(input@), lines(input@).len()) == Err::<Seq<Tree>, Error>(
                e,
            ),
        },
{
    let text = chars_of(input);
    let rows = split_lines(&text);
    let ghost all = lines(input@);
    let mut out: Vec<Packet> = Vec::new();
    let mut i: usize = 0;
    assert(trees(out@) =~= Seq::<Tree>::empty());
    while i < rows.len()
        invariant
            i <= rows.len(),
            views(rows@) == all,
            all == lines(input@),
            packets_of(all, i as nat) == Ok::<Seq<Tree>, Error>(trees(out@)),
        decreases rows.len() - i,
    {
        assert(all[i as int] == rows[i as int]@);
        if rows[i].len() > 0 {
            match parse_packet(&rows[i]) {
                Err(e) => {
                    proof {
                        lemma_packets_error(all, (i + 1) as nat, all.len());
                    }
                    return Err(e);
                },
                Ok(p) => {
                    proof {
                        lemma_trees_push(out@, p);
                    }
                    out.push(p);
                },
            }
        }
        i += 1;
    }
    Ok(out)
}

/// The sum of the numbers of the pairs of packets that are in the right
/// order, for the packets that the lines of `input` give two by two.
pub fn compute1(input: &str) -> (r: Result<usize, Error>)
    ensures
        match packets_of(lines(input@), lines(input@).len()) {
            Err(e) => r == Err::<usize, Error>(e),
            Ok(ps) => if ordered_pairs(ps, ps.len() / 2) > usize::MAX {
                r == Err::<usize, Error>(Error::Overflow)
            } else {
                r == Ok::<usize, Error>(ordered_pairs(ps, ps.len() / 2) as usize)
            },
        },
{
    let packets = match load(input) {
        Ok(ps) => ps,
        Err(e) => {
            return Err(e);
        },
    };
    let ghost ps = trees(packets@);
    proof {
        lemma_trees(packets@);
    }
    let pairs = packets.len() / 2;
    let mut sum: usize = 0;
    let mut k: usize = 0;
    while k < pairs
        invariant
            k <= pairs == packets.len() / 2,
            ps == trees(packets@),
            ps.len() == packets.len(),
            forall|j: int| 0 <= j < packets.len() ==> #[trigger] ps[j] == packets[j]@,
            packets_of(lines(input@), lines(input@).len()) == Ok::<Seq<Tree>, Error>(ps),
            sum == ordered_pairs(ps, k as nat),
        decreases pairs - k,
    {
        let c = compare(&packets[2 * k], &packets[2 * k + 1]);
        assert(ps[2 * k] == packets[2 * k]@ && ps[2 * k + 1] == packets[2 * k + 1]@);
        if c <= 0 {
            sum = match sum.checked_add(k + 1) {
                Some(v) => v,
                None => {
                    proof {
                        lemma_ordered_pairs_grow(ps, (k + 1) as nat, pairs as nat);
                    }
                    return Err(Error::Overflow);
                },
            };
        }
        k += 1;
    }
    Ok(sum)
}

/// The number of `packets` that come before `d`.
fn count_before(packets: &Vec<Packet>, d: &Packet) -> (r: usize)
    ensures
        r == before(trees(packets@), d@, packets@.len()),
{
    let ghost ps = trees(packets@);
    proof {
        lemma_trees(packets@);
    }
    let mut count: usize = 0;
    let mut i: usize = 0;
    while i < packets.len()
        invariant
            i <= packets.len(),
            ps == trees(packets@),
            forall|j: int| 0 <= j < packets.len() ==> #[trigger] ps[j] == packets[j]@,
            count == before(ps, d@, i as nat),
            count <= i,
        decreases packets.len() - i,
    {
        assert(ps[i as int] == packets[i as int]@);
        if compare(&packets[i], d) < 0 {
            count += 1;
        }
        i += 1;
    }
    count
}

/// The divider packet `[[n]]`.
fn make_divider(n: isize) -> (r: Packet)
    ensures
        r@ == divider(n),
{
    let mut inner: Vec<Packet> = Vec::new();
    inner.push(Packet::Int(n));
    let mut outer: Vec<Packet> = Vec::new();
    let list = Packet::List(inner);
    proof {
        lemma_trees(inner@);
        assert(trees(inner@) =~= seq![Tree::Int(n)]);
    }
    outer.push(list);
    proof {
        lemma_trees(outer@);
        assert(trees(outer@) =~= seq![Tree::List(seq![Tree::Int(n)])]);
    }
    Packet::List(outer)
}

/// The product of the places that the dividers `[[2]]` and `[[6]]` take
/// among the sorted packets that the lines of `input` give.
pub fn compute2(input: &str) -> (r: Result<usize, Error>)
    ensures
        match packets_of(lines(input@), lines(input@).len()) {
            Err(e) => r == Err::<usize, Error>(e),
            Ok(ps) => if decoder_key(ps) > usize::MAX {
                r == Err::<usize, Error>(Error::Overflow)
            } else {
                r == Ok::<usize, Error>(decoder_key(ps) as usize)
            },
        },
{
    let packets = match load(input) {
        Ok(ps) => ps,
        Err(e) => {
            return Err(e);
        },
    };
    proof {
        lemma_trees(packets@);
    }
    let first = count_before(&packets, &make_divider(2));
    let second = count_before(&packets, &make_divider(6));
    proof {
        lemma_before_bounded(trees(packets@), divider(2), packets@.len());
        lemma_before_bounded(trees(packets@), divider(6), packets@.len());
    }
    let a = first as u128 + 1;
    let b = second as u128 + 2;
    match a.checked_mul(b) {
        Some(key) => if key > usize::MAX as u128 {
            Err(Error::Overflow)
        } else {
            Ok(key as usize)
        },
        None => Err(Error::Overflow),
    }
}

} // verus!
