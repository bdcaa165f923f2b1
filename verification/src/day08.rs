//! Treetop tree house: which trees of a rectangular forest can be seen from
//! outside, and how far one can see from a tree.

use crate::text::{chars_of, code, lemma_prefix_len, prefix_len};
use vstd::prelude::*;

verus! {

/// Which question to answer.
#[derive(Clone, Copy, Debug, PartialEq, Eq)]
pub enum Part {
    One,
    Two,
}

/// Why a map of a forest has no answer.
#[derive(Clone, Copy, Debug, PartialEq, Eq)]
pub enum Error {
    /// The first line of the map is empty.
    Empty,
    /// The trees do not fill whole rows of the length of the first line.
    Ragged,
    /// The best scenic score is more than the result type holds.
    Overflow,
}

/// One of the four directions in which one can look along a row or column.
#[derive(Clone, Copy, Debug, PartialEq, Eq)]
pub enum Dir {
    Left,
    Right,
    Up,
    Down,
}

/// The mathematical model of a forest: tree heights in row-major order.
pub struct Forest {
    pub width: nat,
    pub values: Seq<isize>,
}

impl Forest {
    /// The trees fill whole rows of `width > 0` trees each.
    pub open spec fn wf(self) -> bool {
        self.width > 0 && self.values.len() % self.width == 0
    }

    /// The number of rows.
    pub open spec fn rows(self) -> int {
        self.values.len() as int / self.width as int
    }

    /// Whether a tree stands in row `r` and column `c`.
    pub open spec fn has(self, r: int, c: int) -> bool {
        0 <= r < self.rows() && 0 <= c < self.width
    }

    /// The height of the tree in row `r` and column `c`.
    pub open spec fn at(self, r: int, c: int) -> isize {
        self.values[r * self.width + c]
    }

    /// The number of trees between the tree in row `r` and column `c` and
    /// the edge of the forest in direction `d`.
    pub open spec fn reach(self, r: int, c: int, d: Dir) -> int {
        match d {
            Dir::Left => c,
            Dir::Right => self.width - 1 - c,
            Dir::Up => r,
            Dir::Down => self.rows() - 1 - r,
        }
    }

    /// The height of the `k`-th tree from the tree in row `r` and column
    /// `c` in direction `d`.
    pub open spec fn ahead(self, r: int, c: int, d: Dir, k: int) -> isize {
        match d {
            Dir::Left => self.at(r, c - k),
            Dir::Right => self.at(r, c + k),
            Dir::Up => self.at(r - k, c),
            Dir::Down => self.at(r + k, c),
        }
    }

    /// Every tree between this tree and the edge in direction `d` is lower.
    pub open spec fn clear(self, r: int, c: int, d: Dir) -> bool {
        forall|k: int| 1 <= k <= self.reach(r, c, d) ==> #[trigger] self.ahead(r, c, d, k) < self.at(r, c)
    }

    /// The tree can be seen from outside the forest in some direction.
    pub open spec fn visible(self, r: int, c: int) -> bool {
        ||| self.clear(r, c, Dir::Left)
        ||| self.clear(r, c, Dir::Right)
        ||| self.clear(r, c, Dir::Up)
        ||| self.clear(r, c, Dir::Down)
    }

    /// `n` trees can be seen from this tree in direction `d`: all up to
    /// the first that is as high as this tree or higher, or all up to the
    /// edge.
    pub open spec fn sees(self, r: int, c: int, d: Dir, n: int) -> bool {
        &&& 0 <= n <= self.reach(r, c, d)
        &&& forall|k: int| 1 <= k < n ==> #[trigger] self.ahead(r, c, d, k) < self.at(r, c)
        &&& n < self.reach(r, c, d) ==> n >= 1 && self.ahead(r, c, d, n) >= self.at(r, c)
    }

    /// The scenic score of this tree is `s`: the product of the numbers of
    /// trees that can be seen from it in the four directions.
    pub open spec fn scores(self, r: int, c: int, s: int) -> bool {
        exists|left: int, right: int, up: int, down: int|
            {
                &&& #[trigger] self.sees(r, c, Dir::Left, left)
                &&& #[trigger] self.sees(r, c, Dir::Right, right)
                &&& #[trigger] self.sees(r, c, Dir::Up, up)
                &&& #[trigger] self.sees(r, c, Dir::Down, down)
                &&& s == right * left * up * down
            }
    }

    /// Whether the tree stands in neither the first nor the last row or
    /// column.
    pub open spec fn inner(self, r: int, c: int) -> bool {
        1 <= r < self.rows() - 1 && 1 <= c < self.width - 1
    }

    /// `s` is the highest scenic score of any inner tree, or 0 if there is
    /// no inner tree.
    pub open spec fn best_score(self, s: int) -> bool {
        &&& s == 0 || exists|r: int, c: int| self.inner(r, c) && #[trigger] self.scores(r, c, s)
        &&& forall|r: int, c: int, o: int|
            self.inner(r, c) && #[trigger] self.scores(r, c, o) ==> o <= s
    }

    /// Whether tree `i`, counted row by row, can be seen from outside.
    pub open spec fn visible_at(self, i: int) -> bool {
        self.visible(i / self.width as int, i % self.width as int)
    }

    /// The number of the first `n` trees, counted row by row, that can be
    /// seen from outside the forest.
    pub open spec fn visible_count(self, n: nat) -> nat
        decreases n,
    {
        if n == 0 {
            0
        } else {
            self.visible_count((n - 1) as nat) + if self.visible_at(n - 1) {
                1nat
            } else {
                0nat
            }
        }
    }

    /// The trees of a row follow each other, and the rows follow each other.
    pub proof fn lemma_index(self, r: int, c: int)
        requires
            self.wf(),
            self.has(r, c),
        ensures
            0 <= r * self.width + c < self.values.len(),
            (r * self.width + c) / self.width as int == r,
            (r * self.width + c) % self.width as int == c,
            self.rows() * self.width == self.values.len(),
    {
        let w = self.width as int;
        let n = self.values.len() as int;
        vstd::arithmetic::div_mod::lemma_fundamental_div_mod(n, w);
        assert(n == w * (n / w));
        assert(r * w + c < n) by (nonlinear_arith)
            requires
                0 <= r < n / w,
                0 <= c < w,
                n == w * (n / w),
        ;
        assert(r * w >= 0) by (nonlinear_arith)
            requires
                r >= 0,
                w > 0,
        ;
        assert(r * w == w * r) by (nonlinear_arith);
        vstd::arithmetic::div_mod::lemma_fundamental_div_mod_converse(r * w + c, w, r, c);
        assert((n / w) * w == w * (n / w)) by (nonlinear_arith);
    }

    /// From a tree one sees a certain number of trees in a direction, and
    /// no other number.
    pub proof fn lemma_sees_unique(self, r: int, c: int, d: Dir, a: int, b: int)
        requires
            self.sees(r, c, d, a),
            self.sees(r, c, d, b),
        ensures
            a == b,
    {
        if a < b {
            assert(self.ahead(r, c, d, a) < self.at(r, c));
        }
        if b < a {
            assert(self.ahead(r, c, d, b) < self.at(r, c));
        }
    }

    /// No more trees can be seen than there are.
    pub proof fn lemma_visible_count_bounded(self, n: nat)
        ensures
            self.visible_count(n) <= n,
        decreases n,
    {
        if n > 0 {
            self.lemma_visible_count_bounded((n - 1) as nat);
        }
    }
}

/// The heights of the trees that a map shows: one tree for every character
/// that is not a newline, as high as the character's code is above that of
/// `0`.
pub open spec fn trees_of(s: Seq<char>) -> Seq<isize>
    decreases s.len(),
{
    if s.len() == 0 {
        Seq::empty()
    } else if s.last() == '\n' {
        trees_of(s.drop_last())
    } else {
        trees_of(s.drop_last()).push((s.last() as u32 - 48) as isize)
    }
}

/// The forest that a map shows: as wide as the first line of the map.
pub open spec fn forest_of(s: Seq<char>) -> Forest {
    Forest { width: prefix_len(s, '\n'), values: trees_of(s) }
}

/// What `compute` returns for a forest.
pub open spec fn answers(f: Forest, part: Part, r: Result<usize, Error>) -> bool {
    match part {
        Part::One => r == Ok::<usize, Error>(f.visible_count(f.values.len()) as usize),
        Part::Two => exists|s: int| #[trigger]
            f.best_score(s) && r == if s > usize::MAX {
                Err::<usize, Error>(Error::Overflow)
            } else {
                Ok::<usize, Error>(s as usize)
            },
    }
}

/// A forest as it is held in memory.
pub struct Matrix {
    values: Vec<isize>,
    width: usize,
}

impl View for Matrix {
    type V = Forest;

    closed spec fn view(&self) -> Forest {
        Forest { width: self.width as nat, values: self.values@ }
    }
}

impl Matrix {
    #[verifier::type_invariant]
    spec fn rectangular(self) -> bool {
        self@.wf()
    }

    /// Makes a forest of rows of `width` trees each out of `values`, or
    /// returns `None` when `width` is zero or the trees do not fill whole
    /// rows.
    pub fn new(width: usize, values: Vec<isize>) -> (m: Option<Matrix>)
        ensures
            match m {
                Some(m) => m@ == (Forest { width: width as nat, values: values@ }) && m@.wf(),
                None => !(Forest { width: width as nat, values: values@ }).wf(),
            },
    {
        if width == 0 || values.len() % width != 0 {
            None
        } else {
            Some(Matrix { values, width })
        }
    }

    /// The number of trees in a row.
    pub fn width(&self) -> (w: usize)
        ensures
            w == self@.width,
            self@.wf(),
    {
        proof {
            use_type_invariant(self);
        }
        self.width
    }

    /// The number of trees.
    pub fn len(&self) -> (n: usize)
        ensures
            n == self@.values.len(),
    {
        self.values.len()
    }

    /// The number of rows.
    pub fn height(&self) -> (h: usize)
        ensures
            h == self@.rows(),
            self@.wf(),
            h * self@.width == self@.values.len(),
    {
        proof {
            use_type_invariant(self);
            let n = self.values@.len() as int;
            let w = self.width as int;
            vstd::arithmetic::div_mod::lemma_fundamental_div_mod(n, w);
            assert((n / w) * w == w * (n / w)) by (nonlinear_arith);
        }
        self.values.len() / self.width
    }

    /// The place of the tree in row `row` and column `col`, counted row by
    /// row.
    pub fn idx(&self, row: usize, col: usize) -> (i: usize)
        requires
            self@.has(row as int, col as int),
        ensures
            i == row * self@.width + col,
            i < self@.values.len(),
    {
        let n = self.values.len();
        proof {
            use_type_invariant(self);
            self@.lemma_index(row as int, col as int);
            assert(row * self.width >= 0) by (nonlinear_arith)
                requires
                    row >= 0,
                    self.width > 0,
            ;
            assert(row * self.width + col < n);
        }
        row * self.width + col
    }

    /// The height of the tree in row `row` and column `col`.
    pub fn get(&self, row: usize, col: usize) -> (h: isize)
        requires
            self@.has(row as int, col as int),
        ensures
            h == self@.at(row as int, col as int),
    {
        let i = self.idx(row, col);
        self.values[i]
    }

    /// The number of trees between a tree and the edge in direction `d`.
    pub fn reach(&self, row: usize, col: usize, d: Dir) -> (n: usize)
        requires
            self@.has(row as int, col as int),
        ensures
            n == self@.reach(row as int, col as int, d),
            n < usize::MAX,
    {
        let width = self.width;
        let height = self.height();
        match d {
            Dir::Left => col,
            Dir::Right => width - 1 - col,
            Dir::Up => row,
            Dir::Down => height - 1 - row,
        }
    }

    /// The height of the `k`-th tree from a tree in direction `d`.
    pub fn ahead(&self, row: usize, col: usize, d: Dir, k: usize) -> (h: isize)
        requires
            self@.has(row as int, col as int),
            1 <= k <= self@.reach(row as int, col as int, d),
        ensures
            h == self@.ahead(row as int, col as int, d, k as int),
    {
        let rows = self.height();
        assert(row < rows);
        match d {
            Dir::Left => self.get(row, col - k),
            Dir::Right => self.get(row, col + k),
            Dir::Up => self.get(row - k, col),
            Dir::Down => self.get(row + k, col),
        }
    }

    /// Whether every tree between a tree and the edge in direction `d` is
    /// lower than the tree.
    pub fn clear(&self, row: usize, col: usize, d: Dir) -> (b: bool)
        requires
            self@.has(row as int, col as int),
        ensures
            b == self@.clear(row as int, col as int, d),
    {
        let h = self.get(row, col);
        let n = self.reach(row, col, d);
        let mut k: usize = 1;
        while k <= n
            invariant
                1 <= k <= n + 1,
                n < usize::MAX,
                self@.has(row as int, col as int),
                n == self@.reach(row as int, col as int, d),
                h == self@.at(row as int, col as int),
                forall|j: int| 1 <= j < k ==> #[trigger] self@.ahead(row as int, col as int, d, j) < h,
            decreases n + 1 - k,
        {
            if self.ahead(row, col, d, k) >= h {
                return false;
            }
            k += 1;
        }
        true
    }

    /// The number of trees that can be seen from a tree in direction `d`.
    pub fn sight(&self, row: usize, col: usize, d: Dir) -> (n: usize)
        requires
            self@.has(row as int, col as int),
        ensures
            self@.sees(row as int, col as int, d, n as int),
    {
        let h = self.get(row, col);
        let n = self.reach(row, col, d);
        let mut k: usize = 1;
        while k <= n
            invariant
                1 <= k <= n + 1,
                n < usize::MAX,
                self@.has(row as int, col as int),
                n == self@.reach(row as int, col as int, d),
                h == self@.at(row as int, col as int),
                forall|j: int| 1 <= j < k ==> #[trigger] self@.ahead(row as int, col as int, d, j) < h,
            decreases n + 1 - k,
        {
            if self.ahead(row, col, d, k) >= h {
                return k;
            }
            k += 1;
        }
        n
    }
}

/// For every tree, counted row by row, whether it can be seen from outside
/// the forest.
pub fn fill_visibility(matrix: &Matrix) -> (visible: Vec<bool>)
    ensures
        visible.len() == matrix@.values.len(),
        forall|i: int| 0 <= i < visible.len() ==> visible[i] == matrix@.visible_at(i),
{
    let width = matrix.width();
    let height = matrix.height();
    let mut visible: Vec<bool> = Vec::new();
    let mut row: usize = 0;
    while row < height
        invariant
            row <= height,
            width == matrix@.width,
            height == matrix@.rows(),
            matrix@.wf(),
            height * width == matrix@.values.len(),
            visible.len() == row * width,
            forall|i: int| 0 <= i < visible.len() ==> visible[i] == matrix@.visible_at(i),
        decreases height - row,
    {
        let mut col: usize = 0;
        while col < width
            invariant
                col <= width,
                row < height,
                width == matrix@.width,
                height == matrix@.rows(),
                matrix@.wf(),
                visible.len() == row * width + col,
                forall|i: int| 0 <= i < visible.len() ==> visible[i] == matrix@.visible_at(i),
            decreases width - col,
        {
            proof {
                matrix@.lemma_index(row as int, col as int);
            }
            let seen = matrix.clear(row, col, Dir::Left) || matrix.clear(row, col, Dir::Right)
                || matrix.clear(row, col, Dir::Up) || matrix.clear(row, col, Dir::Down);
            visible.push(seen);
            col += 1;
        }
        assert(row * width + width == (row + 1) * width) by (nonlinear_arith);
        row += 1;
    }
    visible
}

/// The number of trees that can be seen from outside the forest.
pub fn part1(matrix: &Matrix) -> (r: usize)
    ensures
        r == matrix@.visible_count(matrix@.values.len()),
{
    let visible = fill_visibility(matrix);
    let mut count: usize = 0;
    let mut i: usize = 0;
    while i < visible.len()
        invariant
            i <= visible.len() == matrix@.values.len(),
            forall|k: int| 0 <= k < visible.len() ==> visible[k] == matrix@.visible_at(k),
            count == matrix@.visible_count(i as nat),
            count <= i,
        decreases visible.len() - i,
    {
        if visible[i] {
            count += 1;
        }
        i += 1;
    }
    count
}

/// The scenic score of the tree in row `row` and column `col`.
pub fn determine_score(matrix: &Matrix, row: usize, col: usize) -> (s: u128)
    requires
        matrix@.has(row as int, col as int),
    ensures
        matrix@.scores(row as int, col as int, s as int),
{
    let width = matrix.width();
    let height = matrix.height();
    let left = matrix.sight(row, col, Dir::Left);
    let right = matrix.sight(row, col, Dir::Right);
    let up = matrix.sight(row, col, Dir::Up);
    let down = matrix.sight(row, col, Dir::Down);
    let cells = matrix.len();
    proof {
        let n = matrix@.values.len() as int;
        assert(n <= 0xffff_ffff_ffff_ffff);
        assert(left * up <= n && right * down <= n) by (nonlinear_arith)
            requires
                0 <= left < width,
                0 <= right < width,
                0 <= up < height,
                0 <= down < height,
                height * width == n,
        ;
        assert((left * up) * (right * down) <= 0xffff_ffff_ffff_ffff * 0xffff_ffff_ffff_ffff)
            by (nonlinear_arith)
            requires
                0 <= left * up <= 0xffff_ffff_ffff_ffff,
                0 <= right * down <= 0xffff_ffff_ffff_ffff,
        ;
        assert((left * up) * (right * down) == right * left * up * down) by (nonlinear_arith);
    }
    let a = left as u128 * up as u128;
    let b = right as u128 * down as u128;
    a * b
}

/// The highest scenic score of any tree that stands in neither the first
/// nor the last row or column; 0 if there is no such tree.
pub fn part2(matrix: &Matrix) -> (r: Result<usize, Error>)
    ensures
        answers(matrix@, Part::Two, r),
{
    let width = matrix.width();
    let height = matrix.height();
    let mut best: u128 = 0;
    if height < 3 || width < 3 {
        assert(matrix@.best_score(0));
        return Ok(0);
    }
    let mut row: usize = 1;
    while row < height - 1
        invariant
            1 <= row <= height - 1,
            3 <= width,
            width == matrix@.width,
            height == matrix@.rows(),
            matrix@.wf(),
            best == 0 || exists|r: int, c: int|
                matrix@.inner(r, c) && #[trigger] matrix@.scores(r, c, best as int),
            forall|r: int, c: int, o: int|
                matrix@.inner(r, c) && r < row && #[trigger] matrix@.scores(r, c, o) ==> o <= best,
        decreases height - row,
    {
        let mut col: usize = 1;
        while col < width - 1
            invariant
                1 <= col <= width - 1,
                1 <= row,
                row + 1 < height,
                width == matrix@.width,
                height == matrix@.rows(),
                matrix@.wf(),
                best == 0 || exists|r: int, c: int|
                    matrix@.inner(r, c) && #[trigger] matrix@.scores(r, c, best as int),
                forall|r: int, c: int, o: int|
                    matrix@.inner(r, c) && (r < row || (r == row && c < col))
                        && #[trigger] matrix@.scores(r, c, o) ==> o <= best,
            decreases width - col,
        {
            let score = determine_score(matrix, row, col);
            proof {
                assert forall|o: int| matrix@.scores(row as int, col as int, o) implies o
                    == score by {
                    lemma_score_unique(matrix@, row as int, col as int, o, score as int);
                }
            }
            if score > best {
                best = score;
            }
            col += 1;
        }
        row += 1;
    }
    assert(matrix@.best_score(best as int));
    if best > usize::MAX as u128 {
        Err(Error::Overflow)
    } else {
        Ok(best as usize)
    }
}

/// A tree has one scenic score only.
pub proof fn lemma_score_unique(f: Forest, r: int, c: int, a: int, b: int)
    requires
        f.scores(r, c, a),
        f.scores(r, c, b),
    ensures
        a == b,
{
    let (l1, r1, u1, d1) = choose|left: int, right: int, up: int, down: int|
        {
            &&& #[trigger] f.sees(r, c, Dir::Left, left)
            &&& #[trigger] f.sees(r, c, Dir::Right, right)
            &&& #[trigger] f.sees(r, c, Dir::Up, up)
            &&& #[trigger] f.sees(r, c, Dir::Down, down)
            &&& a == right * left * up * down
        };
    let (l2, r2, u2, d2) = choose|left: int, right: int, up: int, down: int|
        {
            &&& #[trigger] f.sees(r, c, Dir::Left, left)
            &&& #[trigger] f.sees(r, c, Dir::Right, right)
            &&& #[trigger] f.sees(r, c, Dir::Up, up)
            &&& #[trigger] f.sees(r, c, Dir::Down, down)
            &&& b == right * left * up * down
        };
    f.lemma_sees_unique(r, c, Dir::Left, l1, l2);
    f.lemma_sees_unique(r, c, Dir::Right, r1, r2);
    f.lemma_sees_unique(r, c, Dir::Up, u1, u2);
    f.lemma_sees_unique(r, c, Dir::Down, d1, d2);
}

/// Reads the map of a forest.
pub fn parse(input: &str) -> (r: Result<Matrix, Error>)
    ensures
        match r {
            Ok(m) => m@ == forest_of(input@) && m@.wf(),
            Err(Error::Empty) => forest_of(input@).width == 0,
            Err(Error::Ragged) => forest_of(input@).width > 0 && !forest_of(input@).wf(),
            Err(Error::Overflow) => false,
        },
{
    let text = chars_of(input);
    let n = text.len();
    let mut width: usize = 0;
    while width < n && text[width] != '\n'
        invariant
            width <= n == text.len(),
            forall|j: int| 0 <= j < width ==> #[trigger] text[j] != '\n',
        decreases n - width,
    {
        width += 1;
    }
    proof {
        lemma_prefix_len(text@, '\n', width as int);
    }
    if width == 0 {
        return Err(Error::Empty);
    }
    let mut values: Vec<isize> = Vec::new();
    let mut i: usize = 0;
    assert(text@.take(0) =~= Seq::<char>::empty());
    while i < n
        invariant
            i <= n == text.len(),
            values@ == trees_of(text@.take(i as int)),
        decreases n - i,
    {
        assert(text@.take(i + 1).drop_last() =~= text@.take(i as int));
        let c = text[i];
        if c != '\n' {
            values.push(code(c) as isize - 48);
        }
        i += 1;
    }
    assert(text@.take(n as int) =~= text@);
    match Matrix::new(width, values) {
        Some(m) => Ok(m),
        None => Err(Error::Ragged),
    }
}

/// The number of trees that can be seen from outside the forest that
/// `input` maps, or the highest scenic score of any of its inner trees.
pub fn compute(input: &str, part: Part) -> (r: Result<usize, Error>)
    ensures
        match r {
            Err(Error::Empty) => forest_of(input@).width == 0,
            Err(Error::Ragged) => forest_of(input@).width > 0 && !forest_of(input@).wf(),
            _ => forest_of(input@).wf() && answers(forest_of(input@), part, r),
        },
{
    let matrix = match parse(input) {
        Ok(m) => m,
        Err(e) => {
            return Err(e);
        },
    };
    match part {
        Part::One => {
            proof {
                matrix@.lemma_visible_count_bounded(matrix@.values.len());
            }
            let n = matrix.height();
            Ok(part1(&matrix))
        },
        Part::Two => part2(&matrix),
    }
}

} // verus!
