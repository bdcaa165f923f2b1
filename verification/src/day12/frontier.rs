//! The search frontier: a min-priority queue of cells keyed by distance.

use vstd::multiset::Multiset;
use vstd::prelude::*;

verus! {

/// The order in which entries leave the frontier: ascending distance, and
/// ascending cell index among entries of equal distance.
pub open spec fn comes_first(a: (usize, usize), b: (usize, usize)) -> bool {
    a.0 < b.0 || (a.0 == b.0 && a.1 <= b.1)
}

/// Whether every entry of `s` comes first among the entries up to its own
/// place, so that the last entry comes first of all.
pub open spec fn last_first(s: Seq<(usize, usize)>) -> bool {
    forall|i: int, j: int| 0 <= i < j < s.len() ==> comes_first(#[trigger] s[j], #[trigger] s[i])
}

/// A bag of `(distance, cell)` entries awaiting expansion.
///
/// The same entry may be held several times; an entry whose distance has been
/// improved upon since it was pushed stays in the bag until it is popped.
/// The entries are kept in the order in which they will leave, the next to
/// leave last.
pub struct Frontier {
    entries: Vec<(usize, usize)>,
}

impl View for Frontier {
    type V = Multiset<(usize, usize)>;

    closed spec fn view(&self) -> Multiset<(usize, usize)> {
        self.entries@.to_multiset()
    }
}

/// Putting a value into a sequence adds it to what the sequence holds.
proof fn lemma_insert_adds(s: Seq<(usize, usize)>, at: int, e: (usize, usize))
    requires
        0 <= at <= s.len(),
    ensures
        s.insert(at, e).to_multiset() == s.to_multiset().insert(e),
{
    let t = s.insert(at, e);
    t.to_multiset_ensures();
    assert(t.remove(at) =~= s);
    assert(t[at] == e);
    assert(t.to_multiset().remove(e) == s.to_multiset());
    assert(t.contains(e));
    assert(t.to_multiset() =~= s.to_multiset().insert(e));
}

impl Frontier {
    /// The entries are held in the order in which they will leave.
    pub closed spec fn wf(&self) -> bool {
        last_first(self.entries@)
    }

    /// An empty frontier.
    pub fn new() -> (f: Frontier)
        ensures
            f.wf(),
            f@ == Multiset::<(usize, usize)>::empty(),
    {
        let f = Frontier { entries: Vec::new() };
        proof {
            f.entries@.to_multiset_ensures();
            assert(f@.len() == 0);
            assert(f@ =~= Multiset::<(usize, usize)>::empty());
        }
        f
    }

    /// The number of entries held, repeated entries counted each time.
    pub fn len(&self) -> (n: usize)
        ensures
            n == self@.len(),
    {
        proof {
            self.entries@.to_multiset_ensures();
        }
        self.entries.len()
    }

    /// Adds the entry `(distance, cell)`.
    pub fn push(&mut self, distance: usize, cell: usize)
        requires
            old(self).wf(),
        ensures
            final(self).wf(),
            final(self)@ == old(self)@.insert((distance, cell)),
    {
        let e = (distance, cell);
        let n = self.entries.len();
        let mut at: usize = 0;
        while at < n && (self.entries[at].0 > distance || (self.entries[at].0 == distance
            && self.entries[at].1 > cell))
            invariant
                at <= n == self.entries.len(),
                *self == *old(self),
                e == (distance, cell),
                forall|k: int| 0 <= k < at ==> comes_first(e, #[trigger] self.entries[k]),
            decreases n - at,
        {
            at += 1;
        }
        let ghost before = self.entries@;
        proof {
            lemma_insert_adds(before, at as int, e);
            let after = before.insert(at as int, e);
            assert forall|i: int, j: int| 0 <= i < j < after.len() implies comes_first(
                #[trigger] after[j],
                #[trigger] after[i],
            ) by {
                if j < at {
                    assert(after[i] == before[i] && after[j] == before[j]);
                } else if j == at {
                    assert(after[i] == before[i]);
                } else if i < at {
                    assert(after[i] == before[i] && after[j] == before[j - 1]);
                } else if i == at {
                    assert(after[j] == before[j - 1]);
                    assert(comes_first(before[at as int], e));
                    if j - 1 > at {
                        assert(comes_first(before[j - 1], before[at as int]));
                    }
                } else {
                    assert(after[i] == before[i - 1] && after[j] == before[j - 1]);
                }
            }
        }
        self.entries.insert(at, e);
    }

    /// Removes and returns the entry that comes first, or `None` when the
    /// frontier is empty.
    pub fn pop(&mut self) -> (r: Option<(usize, usize)>)
        requires
            old(self).wf(),
        ensures
            final(self).wf(),
            match r {
                Some(e) => {
                    &&& old(self)@.count(e) > 0
                    &&& final(self)@ == old(self)@.remove(e)
                    &&& forall|o: (usize, usize)| old(self)@.count(o) > 0 ==> comes_first(e, o)
                },
                None => old(self)@.len() == 0 && final(self)@ == old(self)@,
            },
    {
        proof {
            self.entries@.to_multiset_ensures();
        }
        let ghost before = self.entries@;
        let r = self.entries.pop();
        proof {
            if let Some(e) = r {
                assert(self.entries@ =~= before.remove(before.len() - 1));
                assert(before.contains(e));
                assert forall|o: (usize, usize)| old(self)@.count(o) > 0 implies comes_first(
                    e,
                    o,
                ) by {
                    assert(before.contains(o));
                    let k = choose|k: int| 0 <= k < before.len() && before[k] == o;
                    if k < before.len() - 1 {
                        assert(comes_first(before[before.len() - 1], before[k]));
                    }
                }
                assert forall|i: int, j: int| 0 <= i < j < self.entries@.len() implies comes_first(
                    #[trigger] self.entries@[j],
                    #[trigger] self.entries@[i],
                ) by {
                    assert(self.entries@[i] == before[i] && self.entries@[j] == before[j]);
                }
            }
        }
        r
    }
}

} // verus!
