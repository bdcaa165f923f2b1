//! The mathematical model of a grid of elevations: cells, legal steps,
//! walks, and the distance between a set of starts and a cell.

use vstd::prelude::*;
use vstd::arithmetic::div_mod::{lemma_fundamental_div_mod, lemma_fundamental_div_mod_converse};
use vstd::set_lib::{lemma_int_range, lemma_len_subset, set_int_range};

verus! {

/// A rectangular grid of elevations in row-major order.
///
/// Cell `c` lies in row `c / width` and column `c % width`.
pub struct Terrain {
    pub width: nat,
    pub cells: Seq<u8>,
}

impl Terrain {
    /// The cells fill whole rows of `width > 0` cells each.
    pub open spec fn wf(self) -> bool {
        self.width > 0 && self.cells.len() % self.width == 0
    }

    /// The number of rows.
    pub open spec fn height(self) -> int {
        self.cells.len() as int / self.width as int
    }

    /// Whether `c` is the index of a cell.
    pub open spec fn contains(self, c: int) -> bool {
        0 <= c < self.cells.len()
    }

    /// The row of cell `c`, rows counted from 0.
    pub open spec fn row(self, c: int) -> int {
        c / self.width as int
    }

    /// The column of cell `c`, columns counted from 0.
    pub open spec fn col(self, c: int) -> int {
        c % self.width as int
    }

    /// Two cells are adjacent when they share a side: no diagonals and no
    /// wrapping around the end of a row.
    pub open spec fn adjacent(self, a: int, b: int) -> bool {
        &&& self.contains(a)
        &&& self.contains(b)
        &&& {
            ||| self.row(a) == self.row(b) && self.col(a) + 1 == self.col(b)
            ||| self.row(a) == self.row(b) && self.col(b) + 1 == self.col(a)
            ||| self.col(a) == self.col(b) && self.row(a) + 1 == self.row(b)
            ||| self.col(a) == self.col(b) && self.row(b) + 1 == self.row(a)
        }
    }

    /// A step from `a` to the adjacent cell `b` is legal when it climbs at
    /// most one unit; descending is unrestricted.
    pub open spec fn can_step(self, a: int, b: int) -> bool {
        self.adjacent(a, b) && self.cells[b] as int - self.cells[a] as int <= 1
    }

    /// The `i`-th step of `w`, from its `i`-th cell to the next, is legal.
    pub open spec fn step_at(self, w: Seq<int>, i: int) -> bool {
        self.can_step(w[i], w[i + 1])
    }

    /// A walk is a non-empty sequence of cells in which every cell is
    /// followed by one it can legally step to.
    pub open spec fn is_walk(self, w: Seq<int>) -> bool {
        &&& w.len() > 0
        &&& forall|i: int| 0 <= i < w.len() ==> self.contains(#[trigger] w[i])
        &&& forall|i: int| 0 <= i < w.len() - 1 ==> #[trigger] self.step_at(w, i)
    }

    /// `w` is a walk from one of `starts` to `end`.
    pub open spec fn connects(self, starts: Set<int>, w: Seq<int>, end: int) -> bool {
        self.is_walk(w) && starts.contains(w[0]) && w.last() == end
    }

    /// Some walk of exactly `n` steps leads from one of `starts` to `end`.
    pub open spec fn reachable_in(self, starts: Set<int>, end: int, n: nat) -> bool {
        exists|w: Seq<int>| #[trigger] self.connects(starts, w, end) && w.len() == n + 1
    }

    /// Some walk leads from one of `starts` to `end`.
    pub open spec fn reachable(self, starts: Set<int>, end: int) -> bool {
        exists|n: nat| self.reachable_in(starts, end, n)
    }

    /// `d` is the least number of steps in which `end` can be reached.
    pub open spec fn is_distance(self, starts: Set<int>, end: int, d: nat) -> bool {
        &&& self.reachable_in(starts, end, d)
        &&& forall|n: nat| self.reachable_in(starts, end, n) ==> d <= n
    }

    /// The least number of steps from one of `starts` to `end`, or `None`
    /// when no walk connects them.
    pub open spec fn distance(self, starts: Set<int>, end: int) -> Option<nat> {
        if exists|d: nat| self.is_distance(starts, end, d) {
            Some(choose|d: nat| self.is_distance(starts, end, d))
        } else {
            None
        }
    }

    /// The cells whose elevation is the lowest of the grid.
    pub open spec fn lowest_cells(self) -> Set<int> {
        Set::new(
            |c: int|
                self.contains(c) && forall|o: int|
                    self.contains(o) ==> self.cells[c] <= #[trigger] self.cells[o],
        )
    }

    /// The cell above `c`, if `c` is not in the first row.
    pub open spec fn up(self, c: int) -> Option<int> {
        if c >= self.width { Some(c - self.width) } else { None }
    }

    /// The cell below `c`, if `c` is not in the last row.
    pub open spec fn down(self, c: int) -> Option<int> {
        if c + self.width < self.cells.len() { Some(c + self.width) } else { None }
    }

    /// The cell to the left of `c`, if `c` is not in the first column.
    pub open spec fn left(self, c: int) -> Option<int> {
        if c % self.width as int != 0 { Some(c - 1) } else { None }
    }

    /// The cell to the right of `c`, if `c` is not in the last column.
    pub open spec fn right(self, c: int) -> Option<int> {
        if (c + 1) % self.width as int != 0 { Some(c + 1) } else { None }
    }

    /// The cells adjacent to a cell are exactly those above, below, left and
    /// right of it, as far as they exist.
    pub proof fn lemma_neighbors(self, a: int, b: int)
        requires
            self.wf(),
            self.contains(a),
        ensures
            self.adjacent(a, b) <==> {
                ||| self.up(a) == Some(b)
                ||| self.down(a) == Some(b)
                ||| self.left(a) == Some(b)
                ||| self.right(a) == Some(b)
            },
            self.up(a) matches Some(c) ==> self.contains(c),
            self.down(a) matches Some(c) ==> self.contains(c),
            self.left(a) matches Some(c) ==> self.contains(c),
            self.right(a) matches Some(c) ==> self.contains(c),
    {
        let w = self.width as int;
        let n = self.cells.len() as int;
        let ra = a / w;
        let ca = a % w;
        lemma_fundamental_div_mod(a, w);
        lemma_fundamental_div_mod(n, w);
        assert(a == w * ra + ca);
        assert(w * (ra - 1) == w * ra - w) by (nonlinear_arith);
        assert(w * (ra + 1) == w * ra + w) by (nonlinear_arith);
        if a >= w {
            lemma_fundamental_div_mod_converse(a - w, w, ra - 1, ca);
        }
        if a + w < n {
            lemma_fundamental_div_mod_converse(a + w, w, ra + 1, ca);
        }
        if ca != 0 {
            lemma_fundamental_div_mod_converse(a - 1, w, ra, ca - 1);
        }
        if ca + 1 < w {
            lemma_fundamental_div_mod_converse(a + 1, w, ra, ca + 1);
        } else {
            lemma_fundamental_div_mod_converse(a + 1, w, ra + 1, 0);
            assert(a + 1 <= n) by {
                let h = n / w;
                assert(n == w * h);
                assert(ra < h) by (nonlinear_arith)
                    requires w * ra + ca < w * h, 0 <= ca, w > 0;
                assert(w * (ra + 1) <= w * h) by (nonlinear_arith)
                    requires ra + 1 <= h, w > 0;
            }
        }
        if self.contains(b) {
            let rb = b / w;
            let cb = b % w;
            lemma_fundamental_div_mod(b, w);
            assert(b == w * rb + cb);
            assert(w * (rb - 1) == w * rb - w) by (nonlinear_arith);
            assert(w * (rb + 1) == w * rb + w) by (nonlinear_arith);
        }
    }

    /// How the columns of a cell and of the next one relate.
    pub proof fn lemma_columns(self, c: int)
        requires
            self.wf(),
            self.contains(c),
        ensures
            c % self.width as int != 0 ==> c >= 1,
            (c + 1) % self.width as int != 0 <==> c % self.width as int != self.width - 1,
            (c + 1) % self.width as int != 0 ==> c + 1 < self.cells.len(),
    {
        let w = self.width as int;
        lemma_fundamental_div_mod(c, w);
        if c % w + 1 < w {
            lemma_fundamental_div_mod_converse(c + 1, w, c / w, c % w + 1);
        } else {
            assert(w * (c / w + 1) == w * (c / w) + w) by (nonlinear_arith);
            lemma_fundamental_div_mod_converse(c + 1, w, c / w + 1, 0);
        }
        self.lemma_neighbors(c, c + 1);
    }

    /// A start that is a cell reaches itself in no steps.
    pub proof fn lemma_reach_start(self, starts: Set<int>, s: int)
        requires
            self.contains(s),
            starts.contains(s),
        ensures
            self.reachable_in(starts, s, 0),
    {
        let w = seq![s];
        assert(self.connects(starts, w, s));
    }

    /// A walk that reaches `a` in `n` steps reaches every cell that `a` can
    /// step to in `n + 1` steps.
    pub proof fn lemma_reach_step(self, starts: Set<int>, a: int, b: int, n: nat)
        requires
            self.reachable_in(starts, a, n),
            self.can_step(a, b),
        ensures
            self.reachable_in(starts, b, n + 1),
    {
        let w = choose|w: Seq<int>| #[trigger] self.connects(starts, w, a) && w.len() == n + 1;
        let w2 = w.push(b);
        assert forall|i: int| 0 <= i < w2.len() - 1 implies #[trigger] self.step_at(w2, i) by {
            if i < w.len() - 1 {
                assert(self.step_at(w, i));
            }
        }
        assert forall|i: int| 0 <= i < w2.len() implies self.contains(#[trigger] w2[i]) by {
            if i < w.len() {
                assert(w2[i] == w[i]);
            }
        }
        assert(self.connects(starts, w2, b));
    }

    /// Cutting the loops out of a walk leaves a walk between the same cells
    /// that visits no cell twice, so it has no more cells than the grid.
    pub proof fn lemma_short_walk(self, starts: Set<int>, w: Seq<int>, end: int) -> (s: Seq<int>)
        requires
            self.connects(starts, w, end),
        ensures
            self.connects(starts, s, end),
            s.len() <= self.cells.len(),
            s.len() <= w.len(),
        decreases w.len(),
    {
        if w.no_duplicates() {
            let all = set_int_range(0, self.cells.len() as int);
            w.unique_seq_to_set();
            lemma_int_range(0, self.cells.len() as int);
            assert forall|c: int| w.to_set().contains(c) implies all.contains(c) by {
                let i = choose|i: int| 0 <= i < w.len() && w[i] == c;
                assert(self.contains(w[i]));
            }
            lemma_len_subset(w.to_set(), all);
            w
        } else {
            let (i, j) = choose|i: int, j: int|
                0 <= i < w.len() && 0 <= j < w.len() && i != j && w[i] == w[j];
            let lo = if i < j { i } else { j };
            let hi = if i < j { j } else { i };
            let cut = w.subrange(0, lo) + w.subrange(hi, w.len() as int);
            assert forall|k: int| 0 <= k < cut.len() implies self.contains(#[trigger] cut[k]) by {
                if k < lo {
                    assert(cut[k] == w[k]);
                } else {
                    assert(cut[k] == w[hi + k - lo]);
                }
            }
            assert forall|k: int| 0 <= k < cut.len() - 1 implies #[trigger] self.step_at(
                cut,
                k,
            ) by {
                if k + 1 < lo {
                    assert(self.step_at(w, k));
                } else if k + 1 == lo {
                    assert(self.step_at(w, k));
                    assert(cut[k + 1] == w[hi]);
                } else {
                    assert(self.step_at(w, hi + k - lo));
                    assert(cut[k + 1] == w[hi + k - lo + 1]);
                }
            }
            assert(cut[0] == w[0]);
            assert(cut.last() == w.last());
            self.lemma_short_walk(starts, cut, end)
        }
    }

    /// A cell that can be reached at all can be reached in fewer steps than
    /// the grid has cells.
    pub proof fn lemma_reachable_within_size(self, starts: Set<int>, end: int) -> (n: nat)
        requires
            self.reachable(starts, end),
        ensures
            self.reachable_in(starts, end, n),
            n < self.cells.len(),
    {
        let m = choose|m: nat| self.reachable_in(starts, end, m);
        let w = choose|w: Seq<int>| #[trigger] self.connects(starts, w, end) && w.len() == m + 1;
        let s = self.lemma_short_walk(starts, w, end);
        assert(self.connects(starts, s, end) && s.len() == (s.len() - 1) as nat + 1);
        (s.len() - 1) as nat
    }

    /// Among the numbers of steps in which `end` can be reached there is a
    /// least one.
    pub proof fn lemma_least_steps(self, starts: Set<int>, end: int, n: nat) -> (d: nat)
        requires
            self.reachable_in(starts, end, n),
        ensures
            d <= n,
            self.is_distance(starts, end, d),
        decreases n,
    {
        if exists|m: nat| m < n && self.reachable_in(starts, end, m) {
            let m = choose|m: nat| m < n && self.reachable_in(starts, end, m);
            self.lemma_least_steps(starts, end, m)
        } else {
            n
        }
    }

    /// The least number of steps is unique, and it is what `distance` names.
    pub proof fn lemma_distance_is(self, starts: Set<int>, end: int, d: nat)
        requires
            self.is_distance(starts, end, d),
        ensures
            self.distance(starts, end) == Some(d),
    {
        let c = choose|c: nat| self.is_distance(starts, end, c);
        assert(c <= d && d <= c);
    }

    /// `distance` is `None` exactly when no walk connects the starts to `end`.
    pub proof fn lemma_distance_none(self, starts: Set<int>, end: int)
        ensures
            self.distance(starts, end) is None <==> !self.reachable(starts, end),
    {
        if self.reachable(starts, end) {
            let n = choose|n: nat| self.reachable_in(starts, end, n);
            let d = self.lemma_least_steps(starts, end, n);
        }
    }

    /// What `distance` returns, spelled out: `Some(d)` exactly when `d` is
    /// the least number of steps of a connecting walk.
    pub proof fn lemma_distance_some(self, starts: Set<int>, end: int, d: nat)
        ensures
            self.distance(starts, end) == Some(d) <==> self.is_distance(starts, end, d),
    {
        if self.is_distance(starts, end, d) {
            self.lemma_distance_is(starts, end, d);
        }
    }
}

} // verus!
