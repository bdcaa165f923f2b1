//! Tuning trouble: the first place in a stream of characters at which the
//! last `n` characters all differ.

use crate::text::chars_of;
use vstd::prelude::*;

verus! {

/// The `n` characters of `s` that end at place `i` are all different, and
/// at least `n` characters come before place `i`.
pub open spec fn marker_ends_at(s: Seq<char>, n: nat, i: int) -> bool {
    n <= i < s.len() && s.subrange(i - n + 1, i + 1).no_duplicates()
}

/// Whether the characters of `s` from place `from` up to place `to` are
/// all different.
pub fn all_different(s: &Vec<char>, from: usize, to: usize) -> (r: bool)
    requires
        from <= to <= s.len(),
    ensures
        r == s@.subrange(from as int, to as int).no_duplicates(),
{
    let ghost window = s@.subrange(from as int, to as int);
    let mut i: usize = from;
    while i < to
        invariant
            from <= i <= to <= s.len(),
            window == s@.subrange(from as int, to as int),
            forall|a: int, b: int|
                0 <= a < i - from && a < b < to - from ==> #[trigger] window[a] != #[trigger] window[b],
        decreases to - i,
    {
        let mut j: usize = i + 1;
        while j < to
            invariant
                from <= i < j <= to <= s.len(),
                window == s@.subrange(from as int, to as int),
                forall|b: int| i - from < b < j - from ==> window[i - from] != #[trigger] window[b],
            decreases to - j,
        {
            if s[i] == s[j] {
                assert(window[i - from] == window[j - from]);
                return false;
            }
            j += 1;
        }
        i += 1;
    }
    assert forall|a: int, b: int| 0 <= a < window.len() && 0 <= b < window.len() && a != b implies window[a]
        != window[b] by {
        if a < b {
            assert(window[a] != window[b]);
        } else {
            assert(window[b] != window[a]);
        }
    }
    true
}

/// The number of characters of `s` read when, for the first time after more
/// than `n` characters, the last `n` characters all differ; `None` if that
/// never happens.
pub fn find_marker(s: &str, n: usize) -> (r: Option<usize>)
    ensures
        match r {
            Some(k) => {
                &&& k >= 1
                &&& marker_ends_at(s@, n as nat, k - 1)
                &&& forall|j: int| 0 <= j < k - 1 ==> !marker_ends_at(s@, n as nat, j)
            },
            None => forall|j: int| !marker_ends_at(s@, n as nat, j),
        },
{
    let chars = chars_of(s);
    let len = chars.len();
    let mut i: usize = n;
    while i < len
        invariant
            n <= i,
            len == chars.len(),
            chars@ == s@,
            forall|j: int| 0 <= j < i ==> !marker_ends_at(s@, n as nat, j),
        decreases len - i,
    {
        if all_different(&chars, i + 1 - n, i + 1) {
            return Some(i + 1);
        }
        i += 1;
    }
    None
}

} // verus!
