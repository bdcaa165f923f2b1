//! The grid of elevations as the search holds it in memory.

use super::terrain::Terrain;
use vstd::prelude::*;

verus! {

/// An immutable rectangular grid of elevations, stored row by row.
pub struct Grid {
    width: usize,
    cells: Vec<u8>,
}

impl View for Grid {
    type V = Terrain;

    closed spec fn view(&self) -> Terrain {
        Terrain { width: self.width as nat, cells: self.cells@ }
    }
}

impl Grid {
    #[verifier::type_invariant]
    spec fn rectangular(self) -> bool {
        self@.wf()
    }

    /// Makes a grid of rows of `width` cells each out of `cells`, or returns
    /// `None` when `width` is zero or the cells do not fill whole rows.
    pub fn new(width: usize, cells: Vec<u8>) -> (g: Option<Grid>)
        ensures
            match g {
                Some(g) => g@ == (Terrain { width: width as nat, cells: cells@ }) && g@.wf(),
                None => !(Terrain { width: width as nat, cells: cells@ }).wf(),
            },
    {
        if width == 0 || cells.len() % width != 0 {
            None
        } else {
            Some(Grid { width, cells })
        }
    }

    /// The number of cells in a row.
    pub fn width(&self) -> (w: usize)
        ensures
            w == self@.width,
            self@.wf(),
    {
        proof {
            use_type_invariant(self);
        }
        self.width
    }

    /// The number of rows.
    pub fn height(&self) -> (h: usize)
        ensures
            h == self@.height(),
    {
        proof {
            use_type_invariant(self);
        }
        self.cells.len() / self.width
    }

    /// The number of cells.
    pub fn len(&self) -> (n: usize)
        ensures
            n == self@.cells.len(),
            self@.wf(),
    {
        proof {
            use_type_invariant(self);
        }
        self.cells.len()
    }

    /// The elevation of cell `c`.
    pub fn elevation(&self, c: usize) -> (e: u8)
        requires
            self@.contains(c as int),
        ensures
            e == self@.cells[c as int],
    {
        self.cells[c]
    }

    /// The lowest elevation of any cell, or `None` for a grid without cells.
    pub fn lowest(&self) -> (m: Option<u8>)
        ensures
            match m {
                Some(m) => {
                    &&& exists|c: int| self@.contains(c) && self@.cells[c] == m
                    &&& forall|c: int| self@.contains(c) ==> m <= #[trigger] self@.cells[c]
                },
                None => self@.cells.len() == 0,
            },
    {
        let n = self.cells.len();
        if n == 0 {
            return None;
        }
        let mut m: u8 = self.cells[0];
        let ghost mut at: int = 0;
        let mut i: usize = 1;
        while i < n
            invariant
                n == self.cells.len(),
                1 <= i <= n,
                0 <= at < i && self.cells[at] == m,
                forall|c: int| 0 <= c < i ==> m <= #[trigger] self.cells[c],
            decreases n - i,
        {
            if self.cells[i] < m {
                m = self.cells[i];
                proof {
                    at = i as int;
                }
            }
            i += 1;
        }
        assert(self@.contains(at) && self@.cells[at] == m);
        Some(m)
    }

    /// The cell above `c`, if there is one.
    pub fn up(&self, c: usize) -> (r: Option<usize>)
        requires
            self@.contains(c as int),
        ensures
            self@.up(c as int) == match r {
                Some(v) => Some(v as int),
                None => None,
            },
    {
        if c >= self.width {
            Some(c - self.width)
        } else {
            None
        }
    }

    /// The cell below `c`, if there is one.
    pub fn down(&self, c: usize) -> (r: Option<usize>)
        requires
            self@.contains(c as int),
        ensures
            self@.down(c as int) == match r {
                Some(v) => Some(v as int),
                None => None,
            },
    {
        if self.width < self.cells.len() - c {
            Some(c + self.width)
        } else {
            None
        }
    }

    /// The cell to the left of `c`, if there is one.
    pub fn left(&self, c: usize) -> (r: Option<usize>)
        requires
            self@.contains(c as int),
        ensures
            self@.left(c as int) == match r {
                Some(v) => Some(v as int),
                None => None,
            },
    {
        proof {
            use_type_invariant(self);
            self@.lemma_columns(c as int);
        }
        if c % self.width != 0 {
            Some(c - 1)
        } else {
            None
        }
    }

    /// The cell to the right of `c`, if there is one.
    pub fn right(&self, c: usize) -> (r: Option<usize>)
        requires
            self@.contains(c as int),
        ensures
            self@.right(c as int) == match r {
                Some(v) => Some(v as int),
                None => None,
            },
    {
        proof {
            use_type_invariant(self);
            self@.lemma_columns(c as int);
        }
        if c % self.width != self.width - 1 && c < self.cells.len() - 1 {
            Some(c + 1)
        } else {
            None
        }
    }
}

} // verus!
