//! Reading a puzzle from text: one line per row, `a` to `z` for the
//! elevations 0 to 25, `S` for the start and `E` for the end.

use super::grid::Grid;
use super::terrain::Terrain;
use vstd::arithmetic::div_mod::{lemma_fundamental_div_mod, lemma_fundamental_div_mod_converse};
use vstd::prelude::*;
use vstd::string::StringSliceAdditionalSpecFns;

verus! {

/// The byte that ends a line.
pub const NEWLINE: u8 = 10;

/// The byte `S`, which marks the start.
pub const START: u8 = 83;

/// The byte `E`, which marks the end.
pub const END: u8 = 69;

/// Why a text is not a puzzle.
#[derive(Clone, Copy, Debug, PartialEq, Eq)]
pub enum LoadError {
    /// A byte is neither a letter `a` to `z`, nor `S`, `E` or a newline.
    UnknownCharacter,
    /// The text is empty, or its lines are not all of the length of the first.
    RaggedRows,
    /// The text does not hold exactly one `S`.
    StartMarker,
    /// The text does not hold exactly one `E`.
    EndMarker,
}

/// A grid with its designated start and end cells.
pub struct Puzzle {
    pub grid: Grid,
    pub start: usize,
    pub end: usize,
}

/// The mathematical model of a puzzle.
pub struct PuzzleView {
    pub terrain: Terrain,
    pub start: int,
    pub end: int,
}

impl View for Puzzle {
    type V = PuzzleView;

    open spec fn view(&self) -> PuzzleView {
        PuzzleView { terrain: self.grid@, start: self.start as int, end: self.end as int }
    }
}

impl PuzzleView {
    /// The cells a search sets out from: the designated start alone, or
    /// every cell of lowest elevation.
    pub open spec fn origins(self, every_lowest: bool) -> Set<int> {
        if every_lowest {
            self.terrain.lowest_cells()
        } else {
            set![self.start]
        }
    }
}

/// Whether `b` may occur in the text of a puzzle.
pub open spec fn known(b: u8) -> bool {
    b == NEWLINE || b == START || b == END || 97 <= b <= 122
}

/// The elevation that a byte of the text stands for: `S` is as low as `a`,
/// `E` as high as `z`.
pub open spec fn elevation_of(b: u8) -> u8 {
    if 97 <= b <= 122 {
        (b - 97) as u8
    } else if b == END {
        25
    } else {
        0
    }
}

/// `w` is the length of the first line of `text`.
pub open spec fn is_row_width(text: Seq<u8>, w: int) -> bool {
    &&& 0 <= w <= text.len()
    &&& w == text.len() || text[w] == NEWLINE
    &&& forall|i: int| 0 <= i < w ==> text[i] != NEWLINE
}

/// The length of the first line of `text`.
pub open spec fn row_width(text: Seq<u8>) -> int {
    choose|w: int| is_row_width(text, w)
}

/// A text of `n` bytes in lines of `w` bytes ends with a full line, with or
/// without the newline after it.
pub open spec fn ends_evenly(n: int, w: int) -> bool {
    n % (w + 1) == 0 || n % (w + 1) == w
}

/// The text consists of lines of `w > 0` bytes each: a newline follows every
/// `w` bytes and stands nowhere else; the one after the last line may be
/// missing.
pub open spec fn rectangular(text: Seq<u8>, w: int) -> bool {
    &&& w > 0
    &&& forall|i: int| 0 <= i < text.len() ==> (text[i] == NEWLINE <==> i % (w + 1) == w)
    &&& ends_evenly(text.len() as int, w)
}

/// The number of lines of a rectangular text.
pub open spec fn row_count(text: Seq<u8>, w: int) -> int {
    (text.len() as int + 1) / (w + 1)
}

/// The byte that stands for cell `k`.
pub open spec fn cell_byte(text: Seq<u8>, w: int, k: int) -> u8 {
    text[k + k / w]
}

/// The grid that a rectangular text describes.
pub open spec fn terrain_of(text: Seq<u8>, w: int) -> Terrain {
    Terrain {
        width: w as nat,
        cells: Seq::new(
            (row_count(text, w) * w) as nat,
            |k: int| elevation_of(cell_byte(text, w, k)),
        ),
    }
}

/// Cell `k` is the only one that the byte `mark` stands for.
pub open spec fn only_mark(text: Seq<u8>, w: int, mark: u8, k: int) -> bool {
    &&& 0 <= k < row_count(text, w) * w
    &&& cell_byte(text, w, k) == mark
    &&& forall|j: int|
        0 <= j < row_count(text, w) * w && j != k ==> #[trigger] cell_byte(text, w, j) != mark
}

/// The puzzle that `text` describes, or why it describes none.
pub open spec fn puzzle_of(text: Seq<u8>) -> Result<PuzzleView, LoadError> {
    let w = row_width(text);
    if exists|i: int| 0 <= i < text.len() && !known(#[trigger] text[i]) {
        Err(LoadError::UnknownCharacter)
    } else if !rectangular(text, w) {
        Err(LoadError::RaggedRows)
    } else if !exists|k: int| only_mark(text, w, START, k) {
        Err(LoadError::StartMarker)
    } else if !exists|k: int| only_mark(text, w, END, k) {
        Err(LoadError::EndMarker)
    } else {
        Ok(
            PuzzleView {
                terrain: terrain_of(text, w),
                start: choose|k: int| only_mark(text, w, START, k),
                end: choose|k: int| only_mark(text, w, END, k),
            },
        )
    }
}

/// The first line of a text has one length only.
pub proof fn lemma_row_width(text: Seq<u8>, w: int)
    requires
        is_row_width(text, w),
    ensures
        row_width(text) == w,
{
    let c = row_width(text);
    assert(is_row_width(text, c));
    if c < w {
        assert(text[c] != NEWLINE);
    }
    if w < c {
        assert(text[w] != NEWLINE);
    }
}

/// The cells of a rectangular text of `n` bytes are no more than its bytes,
/// and its lines are one more than the full periods before its last line.
pub proof fn lemma_rows_fit(n: int, w: int)
    requires
        0 < w <= n,
        ends_evenly(n, w),
    ensures
        (n + 1) / (w + 1) == (n - w) / (w + 1) + 1,
        0 <= ((n + 1) / (w + 1)) * w <= n,
        (((n + 1) / (w + 1)) * w) % w == 0,
{
    let h = (n + 1) / (w + 1);
    let q = (n - w) / (w + 1);
    let r = (n - w) % (w + 1);
    lemma_fundamental_div_mod(n - w, w + 1);
    assert((w + 1) * (q + 1) == (w + 1) * q + (w + 1)) by (nonlinear_arith);
    lemma_fundamental_div_mod_converse(n + 1, w + 1, q + 1, r);
    assert(h == q + 1);
    assert(q >= 0) by (nonlinear_arith)
        requires
            n - w == (w + 1) * q + r,
            n - w >= 0,
            r < w + 1,
            w > 0,
    ;
    assert(h * (w + 1) == h * w + h) by (nonlinear_arith);
    assert(h * (w + 1) == (w + 1) * (q + 1)) by (nonlinear_arith)
        requires
            h == q + 1,
    ;
    assert(h * w >= 0) by (nonlinear_arith)
        requires
            h >= 0,
            w > 0,
    ;
    vstd::arithmetic::div_mod::lemma_mod_multiples_basic(h, w);
}

/// Where in a rectangular text of `n` bytes the byte of cell `k` stands.
pub proof fn lemma_cell_position(n: int, w: int, k: int)
    requires
        w > 0,
        n >= 0,
        ends_evenly(n, w),
        0 <= k < ((n + 1) / (w + 1)) * w,
    ensures
        0 <= k + k / w < n,
        (k + k / w) % (w + 1) == k % w,
        (k + k / w) / (w + 1) == k / w,
        ((n + 1) / (w + 1)) * w <= n,
{
    let h = (n + 1) / (w + 1);
    let q = n / (w + 1);
    let r = k / w;
    let c = k % w;
    lemma_fundamental_div_mod(n, w + 1);
    lemma_fundamental_div_mod(k, w);
    assert((w + 1) * (q + 1) == (w + 1) * q + (w + 1)) by (nonlinear_arith);
    if n % (w + 1) == w {
        lemma_fundamental_div_mod_converse(n + 1, w + 1, q + 1, 0);
    } else {
        lemma_fundamental_div_mod_converse(n + 1, w + 1, q, 1);
    }
    assert(h * (w + 1) <= n + 1) by (nonlinear_arith)
        requires
            (h == q + 1 && n + 1 == (w + 1) * (q + 1)) || (h == q && n + 1 == (w + 1) * q + 1),
    ;
    assert(r < h) by (nonlinear_arith)
        requires
            k == w * r + c,
            0 <= c,
            k < h * w,
            w > 0,
    ;
    assert((w + 1) * r == w * r + r) by (nonlinear_arith);
    assert(k + r == (w + 1) * r + c);
    lemma_fundamental_div_mod_converse(k + r, w + 1, r, c);
    assert((r + 1) * (w + 1) <= h * (w + 1)) by (nonlinear_arith)
        requires
            r + 1 <= h,
            w > 0,
    ;
    assert((r + 1) * (w + 1) == (w + 1) * r + w + 1) by (nonlinear_arith);
    assert(h * (w + 1) == h * w + h) by (nonlinear_arith);
    assert(h >= 1);
}

fn is_known(b: u8) -> (r: bool)
    ensures
        r == known(b),
{
    b == NEWLINE || b == START || b == END || (97 <= b && b <= 122)
}

fn elevation(b: u8) -> (e: u8)
    ensures
        e == elevation_of(b),
{
    if 97 <= b && b <= 122 {
        b - 97
    } else if b == END {
        25
    } else {
        0
    }
}

/// Finds the only cell that `mark` stands for.
fn find_only(bytes: &[u8], w: usize, cells: usize, mark: u8) -> (r: Option<usize>)
    requires
        0 < w <= bytes@.len(),
        ends_evenly(bytes@.len() as int, w as int),
        cells == row_count(bytes@, w as int) * w,
    ensures
        match r {
            Some(k) => only_mark(bytes@, w as int, mark, k as int),
            None => !exists|k: int| only_mark(bytes@, w as int, mark, k),
        },
{
    let ghost text = bytes@;
    let n = bytes.len();
    let mut found: Option<usize> = None;
    let mut k: usize = 0;
    while k < cells
        invariant
            k <= cells,
            text == bytes@,
            n == text.len(),
            0 < w <= text.len(),
            ends_evenly(text.len() as int, w as int),
            cells == row_count(text, w as int) * w,
            match found {
                None => forall|j: int| 0 <= j < k ==> #[trigger] cell_byte(text, w as int, j) != mark,
                Some(s) => {
                    &&& s < k
                    &&& cell_byte(text, w as int, s as int) == mark
                    &&& forall|j: int|
                        0 <= j < k && j != s ==> #[trigger] cell_byte(text, w as int, j) != mark
                },
            },
        decreases cells - k,
    {
        proof {
            lemma_cell_position(text.len() as int, w as int, k as int);
        }
        if bytes[k + k / w] == mark {
            match found {
                None => {
                    found = Some(k);
                },
                Some(s) => {
                    proof {
                        assert forall|c: int| !only_mark(text, w as int, mark, c) by {
                            if c == s {
                                assert(cell_byte(text, w as int, k as int) == mark);
                            } else {
                                assert(cell_byte(text, w as int, s as int) == mark);
                            }
                        }
                    }
                    return None;
                },
            }
        }
        k += 1;
    }
    proof {
        if found is None {
            assert forall|c: int| !only_mark(text, w as int, mark, c) by {}
        }
    }
    found
}

/// Reads a puzzle from its text.
pub fn parse(input: &str) -> (r: Result<Puzzle, LoadError>)
    ensures
        match r {
            Ok(p) => puzzle_of(input.spec_bytes()) == Ok::<PuzzleView, LoadError>(p@),
            Err(e) => puzzle_of(input.spec_bytes()) == Err::<PuzzleView, LoadError>(e),
        },
        r matches Ok(p) ==> p.grid@.wf() && p.grid@.contains(p.start as int) && p.grid@.contains(
            p.end as int,
        ),
{
    let bytes = input.as_bytes();
    let n = bytes.len();
    let ghost text = bytes@;
    let mut i: usize = 0;
    while i < n
        invariant
            i <= n == text.len(),
            text == bytes@,
            text == input.spec_bytes(),
            forall|j: int| 0 <= j < i ==> known(#[trigger] text[j]),
        decreases n - i,
    {
        if !is_known(bytes[i]) {
            assert(!known(text[i as int]));
            return Err(LoadError::UnknownCharacter);
        }
        i += 1;
    }
    let mut w: usize = 0;
    while w < n && bytes[w] != NEWLINE
        invariant
            w <= n == text.len(),
            text == bytes@,
            forall|j: int| 0 <= j < w ==> text[j] != NEWLINE,
        decreases n - w,
    {
        w += 1;
    }
    proof {
        lemma_row_width(text, w as int);
    }
    if w == 0 {
        return Err(LoadError::RaggedRows);
    }
    let rows: usize;
    if w == n {
        rows = 1;
        proof {
            vstd::arithmetic::div_mod::lemma_div_basics(n as int + 1);
            assert forall|j: int| 0 <= j < text.len() implies (text[j] == NEWLINE <==> j % (w + 1)
                == w) by {
                vstd::arithmetic::div_mod::lemma_small_mod(j as nat, (n + 1) as nat);
            }
            vstd::arithmetic::div_mod::lemma_small_mod(n as nat, (n + 1) as nat);
        }
    } else {
        let period = w + 1;
        let mut i: usize = 0;
        while i < n
            invariant
                i <= n == text.len(),
                text == bytes@,
                text == input.spec_bytes(),
                forall|j: int| 0 <= j < n ==> known(#[trigger] text[j]),
                row_width(text) == w,
                period == w + 1,
                forall|j: int| 0 <= j < i ==> (text[j] == NEWLINE <==> j % period as int == w),
            decreases n - i,
        {
            if (bytes[i] == NEWLINE) != (i % period == w) {
                assert(!(text[i as int] == NEWLINE <==> i as int % (w as int + 1) == w));
                return Err(LoadError::RaggedRows);
            }
            i += 1;
        }
        if n % period != 0 && n % period != w {
            return Err(LoadError::RaggedRows);
        }
        proof {
            lemma_rows_fit(n as int, w as int);
        }
        rows = (n - w) / period + 1;
    }
    proof {
        lemma_rows_fit(n as int, w as int);
        assert(rectangular(text, w as int));
        assert(rows == row_count(text, w as int));
    }
    let count = rows * w;
    let mut cells: Vec<u8> = Vec::new();
    let mut k: usize = 0;
    while k < count
        invariant
            k <= count,
            text == bytes@,
            0 < w <= n == text.len(),
            ends_evenly(n as int, w as int),
            count == row_count(text, w as int) * w,
            cells@ == Seq::new(k as nat, |j: int| elevation_of(cell_byte(text, w as int, j))),
        decreases count - k,
    {
        proof {
            lemma_cell_position(n as int, w as int, k as int);
        }
        cells.push(elevation(bytes[k + k / w]));
        proof {
            assert(cells@ =~= Seq::new(
                (k + 1) as nat,
                |j: int| elevation_of(cell_byte(text, w as int, j)),
            ));
        }
        k += 1;
    }
    let start = match find_only(bytes, w, count, START) {
        Some(s) => s,
        None => {
            return Err(LoadError::StartMarker);
        },
    };
    let end = match find_only(bytes, w, count, END) {
        Some(e) => e,
        None => {
            return Err(LoadError::EndMarker);
        },
    };
    proof {
        let s = choose|c: int| only_mark(text, w as int, START, c);
        assert(s == start) by {
            if s != start {
                assert(cell_byte(text, w as int, s) != START);
            }
        }
        let e = choose|c: int| only_mark(text, w as int, END, c);
        assert(e == end) by {
            if e != end {
                assert(cell_byte(text, w as int, e) != END);
            }
        }
    }
    match Grid::new(w, cells) {
        Some(grid) => Ok(Puzzle { grid, start, end }),
        None => Err(LoadError::RaggedRows),
    }
}

} // verus!
