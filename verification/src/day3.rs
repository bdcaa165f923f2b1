//! Rucksack reorganization: the priorities of the item types that the
//! compartments of a rucksack, or the rucksacks of a group, have in common.

use crate::text::{chars_of, lines, split_lines, views};
use vstd::prelude::*;

verus! {

/// Why a list of rucksacks has no answer.
#[derive(Clone, Copy, Debug, PartialEq, Eq)]
pub enum Error {
    /// The rucksacks do not form groups of three.
    IncompleteGroup,
    /// The sum of the priorities does not fit the result type.
    Overflow,
}

/// The priority of an item type: 1 to 26 for `a` to `z`, 27 to 52 for `A` to
/// `Z`, and 0 for any other character.
pub open spec fn score_of(c: char) -> int {
    let v = c as u32 as int;
    if 65 <= v <= 90 {
        v - 38
    } else if 97 <= v <= 122 {
        v - 96
    } else {
        0
    }
}

/// Whether each of `others` holds `c`.
pub open spec fn in_all(c: char, others: Seq<Seq<char>>) -> bool {
    forall|k: int| 0 <= k < others.len() ==> (#[trigger] others[k]).contains(c)
}

/// The priority that place `i` of `items` adds: that of its item type, if
/// the type occurs here for the first time and each of `others` holds it.
pub open spec fn share_at(items: Seq<char>, others: Seq<Seq<char>>, i: int) -> int {
    if !items.take(i).contains(items[i]) && in_all(items[i], others) {
        score_of(items[i])
    } else {
        0
    }
}

/// The priorities of the item types among the first `n` of `items` that
/// each of `others` holds too, every type counted once.
pub open spec fn shared_score(items: Seq<char>, others: Seq<Seq<char>>, n: nat) -> int
    decreases n,
{
    if n == 0 {
        0
    } else {
        shared_score(items, others, (n - 1) as nat) + share_at(items, others, n - 1)
    }
}

/// The priority of what the two compartments of a rucksack share.
pub open spec fn rucksack_score(sack: Seq<char>) -> int {
    let half = sack.len() / 2;
    shared_score(sack.take(half as int), seq![sack.skip(half as int)], half)
}

/// The priority of what the three rucksacks of group `g` share.
pub open spec fn group_score(sacks: Seq<Seq<char>>, g: int) -> int {
    shared_score(sacks[3 * g], seq![sacks[3 * g + 1], sacks[3 * g + 2]], sacks[3 * g].len())
}

/// The sum of the scores of the first `n` rucksacks.
pub open spec fn rucksacks_total(sacks: Seq<Seq<char>>, n: nat) -> int
    decreases n,
{
    if n == 0 {
        0
    } else {
        rucksacks_total(sacks, (n - 1) as nat) + rucksack_score(sacks[n - 1])
    }
}

/// The sum of the scores of the first `n` groups.
pub open spec fn groups_total(sacks: Seq<Seq<char>>, n: nat) -> int
    decreases n,
{
    if n == 0 {
        0
    } else {
        groups_total(sacks, (n - 1) as nat) + group_score(sacks, n - 1)
    }
}

/// No item type has a priority above 52.
pub proof fn lemma_shared_score_bounds(items: Seq<char>, others: Seq<Seq<char>>, n: nat)
    ensures
        0 <= shared_score(items, others, n) <= 52 * n,
    decreases n,
{
    if n > 0 {
        lemma_shared_score_bounds(items, others, (n - 1) as nat);
    }
}

/// The sum over the first rucksacks is no more than the sum over all.
pub proof fn lemma_rucksacks_total_grows(sacks: Seq<Seq<char>>, k: nat, n: nat)
    requires
        k <= n,
    ensures
        0 <= rucksacks_total(sacks, k) <= rucksacks_total(sacks, n),
    decreases n,
{
    if n > 0 {
        let half = sacks[n - 1].len() / 2;
        lemma_shared_score_bounds(
            sacks[n - 1].take(half as int),
            seq![sacks[n - 1].skip(half as int)],
            half,
        );
        if k < n {
            lemma_rucksacks_total_grows(sacks, k, (n - 1) as nat);
        } else {
            lemma_rucksacks_total_grows(sacks, (n - 1) as nat, (n - 1) as nat);
        }
    }
}

/// The sum over the first groups is no more than the sum over all.
pub proof fn lemma_groups_total_grows(sacks: Seq<Seq<char>>, k: nat, n: nat)
    requires
        k <= n,
    ensures
        0 <= groups_total(sacks, k) <= groups_total(sacks, n),
    decreases n,
{
    if n > 0 {
        lemma_shared_score_bounds(
            sacks[3 * (n - 1)],
            seq![sacks[3 * (n - 1) + 1], sacks[3 * (n - 1) + 2]],
            sacks[3 * (n - 1)].len(),
        );
        if k < n {
            lemma_groups_total_grows(sacks, k, (n - 1) as nat);
        } else {
            lemma_groups_total_grows(sacks, (n - 1) as nat, (n - 1) as nat);
        }
    }
}

/// The priority of the item type `c`.
pub fn score(c: char) -> (r: i64)
    ensures
        r == score_of(c),
{
    let v = c as u32;
    if 65 <= v && v <= 90 {
        (v - 38) as i64
    } else if 97 <= v && v <= 122 {
        (v - 96) as i64
    } else {
        0
    }
}

/// Whether `c` is among the characters of `items` from place `from` up to
/// place `to`.
fn holds(items: &Vec<char>, from: usize, to: usize, c: char) -> (r: bool)
    requires
        from <= to <= items.len(),
    ensures
        r == items@.subrange(from as int, to as int).contains(c),
{
    let ghost part = items@.subrange(from as int, to as int);
    let mut i: usize = from;
    while i < to
        invariant
            from <= i <= to <= items.len(),
            part == items@.subrange(from as int, to as int),
            forall|j: int| 0 <= j < i - from ==> part[j] != c,
        decreases to - i,
    {
        if items[i] == c {
            assert(part[i - from] == c);
            return true;
        }
        i += 1;
    }
    false
}

/// The priorities of the item types among the first `half` of `first` that
/// `first` from `half` on (if `second` and `third` are absent) or both
/// `second` and `third` hold too.
fn common(first: &Vec<char>, half: usize, others: Option<(&Vec<char>, &Vec<char>)>) -> (r: i128)
    requires
        half <= first.len(),
    ensures
        r == shared_score(
            first@.take(half as int),
            match others {
                Some((second, third)) => seq![second@, third@],
                None => seq![first@.skip(half as int)],
            },
            half as nat,
        ),
        0 <= r <= 52 * half,
{
    let ghost items = first@.take(half as int);
    let ghost rest = match others {
        Some((second, third)) => seq![second@, third@],
        None => seq![first@.skip(half as int)],
    };
    let mut total: i128 = 0;
    let mut i: usize = 0;
    while i < half
        invariant
            i <= half <= first.len(),
            items == first@.take(half as int),
            rest == match others {
                Some((second, third)) => seq![second@, third@],
                None => seq![first@.skip(half as int)],
            },
            total == shared_score(items, rest, i as nat),
            0 <= total <= 52 * i,
        decreases half - i,
    {
        let c = first[i];
        assert(items[i as int] == c);
        assert(first@.subrange(0, i as int) =~= items.take(i as int));
        let seen = holds(first, 0, i, c);
        let everywhere = match others {
            Some((second, third)) => {
                assert(second@.subrange(0, second@.len() as int) =~= second@);
                assert(third@.subrange(0, third@.len() as int) =~= third@);
                let a = holds(second, 0, second.len(), c);
                let b = holds(third, 0, third.len(), c);
                proof {
                    if a && b {
                        assert forall|k: int| 0 <= k < rest.len() implies (#[trigger] rest[k]).contains(
                            c,
                        ) by {}
                    } else if !a {
                        assert(!rest[0].contains(c));
                    } else {
                        assert(!rest[1].contains(c));
                    }
                }
                a && b
            },
            None => {
                assert(first@.subrange(half as int, first@.len() as int) =~= first@.skip(
                    half as int,
                ));
                let a = holds(first, half, first.len(), c);
                proof {
                    if !a {
                        assert(!rest[0].contains(c));
                    }
                }
                a
            },
        };
        if !seen && everywhere {
            total = total + score(c) as i128;
        }
        i += 1;
    }
    total
}

/// The sum, over the rucksacks that the lines of `input` describe, of the
/// priorities of the item types that both halves of a rucksack hold.
pub fn compute1(input: &str) -> (r: Result<i64, Error>)
    ensures
        ({
            let sacks = lines(input@);
            let total = rucksacks_total(sacks, sacks.len());
            match r {
                Ok(v) => v == total,
                Err(e) => e == Error::Overflow && total > i64::MAX,
            }
        }),
{
    let text = chars_of(input);
    let sacks = split_lines(&text);
    let ghost all = lines(input@);
    let mut total: i64 = 0;
    let mut i: usize = 0;
    while i < sacks.len()
        invariant
            i <= sacks.len(),
            views(sacks@) == all,
            all == lines(input@),
            total == rucksacks_total(all, i as nat),
            total >= 0,
        decreases sacks.len() - i,
    {
        let sack = &sacks[i];
        assert(sack@ == all[i as int]);
        let add = common(sack, sack.len() / 2, None);
        proof {
            lemma_rucksacks_total_grows(all, (i + 1) as nat, all.len());
            assert(rucksacks_total(all, (i + 1) as nat) == total + add);
        }
        if add > (i64::MAX - total) as i128 {
            return Err(Error::Overflow);
        }
        total = total + add as i64;
        i += 1;
    }
    Ok(total)
}

/// The sum, over the groups of three rucksacks that the lines of `input`
/// describe, of the priorities of the item types that all rucksacks of a
/// group hold.
pub fn compute2(input: &str) -> (r: Result<i64, Error>)
    ensures
        ({
            let sacks = lines(input@);
            let total = groups_total(sacks, sacks.len() / 3);
            match r {
                Ok(v) => sacks.len() % 3 == 0 && v == total,
                Err(Error::IncompleteGroup) => sacks.len() % 3 != 0,
                Err(Error::Overflow) => sacks.len() % 3 == 0 && total > i64::MAX,
            }
        }),
{
    let text = chars_of(input);
    let sacks = split_lines(&text);
    let ghost all = lines(input@);
    if sacks.len() % 3 != 0 {
        return Err(Error::IncompleteGroup);
    }
    let groups = sacks.len() / 3;
    let mut total: i64 = 0;
    let mut g: usize = 0;
    while g < groups
        invariant
            g <= groups,
            groups == sacks.len() / 3,
            sacks.len() % 3 == 0,
            views(sacks@) == all,
            all == lines(input@),
            total == groups_total(all, g as nat),
            total >= 0,
        decreases groups - g,
    {
        let first = &sacks[3 * g];
        let second = &sacks[3 * g + 1];
        let third = &sacks[3 * g + 2];
        assert(first@ == all[3 * g] && second@ == all[3 * g + 1] && third@ == all[3 * g + 2]);
        assert(first@.take(first@.len() as int) =~= first@);
        let add = common(first, first.len(), Some((second, third)));
        proof {
            lemma_groups_total_grows(all, (g + 1) as nat, (all.len() / 3) as nat);
            assert(groups_total(all, (g + 1) as nat) == total + add);
        }
        if add > (i64::MAX - total) as i128 {
            return Err(Error::Overflow);
        }
        total = total + add as i64;
        g += 1;
    }
    Ok(total)
}

} // verus!
