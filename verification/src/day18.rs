//! Boiling boulders: the surface of a droplet made of unit cubes.

use crate::distinct::{first_at, firsts, lemma_firsts};
use crate::text::{chars_of, lines, parse_isize, signed_of, split_at_first, split_lines, split_once, views};
use vstd::prelude::*;

verus! {

/// Why a list of cubes has no answer.
#[derive(Clone, Copy, Debug, PartialEq, Eq)]
pub enum Error {
    /// A line holds fewer than two commas.
    InvalidLine,
    /// A coordinate is not a number.
    InvalidNumber,
    /// A coordinate is the largest number there is, so that the cube has
    /// no far side.
    Overflow,
    /// Cubes are listed so often that more faces are shared than there are.
    Repeated,
}

/// The plane that a face lies in.
#[derive(Clone, Copy, Debug, PartialEq, Eq, Structural)]
pub enum Dimension {
    XY,
    YZ,
    XZ,
}

/// The side of its cube that a face is on.
#[derive(Clone, Copy, Debug, PartialEq, Eq, Structural)]
pub enum Orientation {
    Plus,
    Minus,
}

/// A unit cube, named by its corner of least coordinates.
#[derive(Clone, Copy, Debug, PartialEq, Eq, Structural)]
pub struct Point {
    pub x: isize,
    pub y: isize,
    pub z: isize,
}

/// A face of a cube: the unit square that lies in the plane `dimension` and
/// has `origin` for its corner of least coordinates.
#[derive(Clone, Copy, Debug, PartialEq, Eq, Structural)]
pub struct Surface {
    pub origin: Point,
    pub dimension: Dimension,
    pub orientation: Orientation,
}

impl Surface {
    /// Where the face lies, whichever cube it belongs to.
    pub open spec fn place(self) -> (Point, Dimension) {
        (self.origin, self.dimension)
    }
}

impl Point {
    /// Whether the cube has a far side in every direction.
    pub open spec fn bounded(self) -> bool {
        self.x < isize::MAX && self.y < isize::MAX && self.z < isize::MAX
    }

    /// The six faces of the cube: the three at its origin, then the three
    /// opposite them.
    pub open spec fn faces_of(self) -> Seq<Surface> {
        seq![
            Surface { origin: self, dimension: Dimension::XY, orientation: Orientation::Minus },
            Surface { origin: self, dimension: Dimension::YZ, orientation: Orientation::Minus },
            Surface { origin: self, dimension: Dimension::XZ, orientation: Orientation::Minus },
            Surface {
                origin: Point { x: self.x, y: self.y, z: (self.z + 1) as isize },
                dimension: Dimension::XY,
                orientation: Orientation::Plus,
            },
            Surface {
                origin: Point { x: (self.x + 1) as isize, y: self.y, z: self.z },
                dimension: Dimension::YZ,
                orientation: Orientation::Plus,
            },
            Surface {
                origin: Point { x: self.x, y: (self.y + 1) as isize, z: self.z },
                dimension: Dimension::XZ,
                orientation: Orientation::Plus,
            },
        ]
    }

    /// The six faces of the cube.
    pub fn faces(&self) -> (r: Vec<Surface>)
        requires
            self.bounded(),
        ensures
            r@ == self.faces_of(),
    {
        let mut r: Vec<Surface> = Vec::new();
        r.push(Surface { origin: *self, dimension: Dimension::XY, orientation: Orientation::Minus });
        r.push(Surface { origin: *self, dimension: Dimension::YZ, orientation: Orientation::Minus });
        r.push(Surface { origin: *self, dimension: Dimension::XZ, orientation: Orientation::Minus });
        r.push(
            Surface {
                origin: Point { x: self.x, y: self.y, z: self.z + 1 },
                dimension: Dimension::XY,
                orientation: Orientation::Plus,
            },
        );
        r.push(
            Surface {
                origin: Point { x: self.x + 1, y: self.y, z: self.z },
                dimension: Dimension::YZ,
                orientation: Orientation::Plus,
            },
        );
        r.push(
            Surface {
                origin: Point { x: self.x, y: self.y + 1, z: self.z },
                dimension: Dimension::XZ,
                orientation: Orientation::Plus,
            },
        );
        assert(r@ =~= self.faces_of());
        r
    }
}

/// The number that `s` denotes as an `isize`.
pub open spec fn number_of(s: Seq<char>) -> Result<isize, Error> {
    match signed_of(s, isize::MIN as int, isize::MAX as int) {
        Some(v) => Ok(v as isize),
        None => Err(Error::InvalidNumber),
    }
}

/// The cube that a line names: three numbers with commas between them.
pub open spec fn point_of(line: Seq<char>) -> Result<Point, Error> {
    match split_once(line, ',') {
        None => Err(Error::InvalidLine),
        Some((a, rest)) => match split_once(rest, ',') {
            None => Err(Error::InvalidLine),
            Some((b, c)) => match number_of(a) {
                Err(e) => Err(e),
                Ok(x) => match number_of(b) {
                    Err(e) => Err(e),
                    Ok(y) => match number_of(c) {
                        Err(e) => Err(e),
                        Ok(z) => Ok(Point { x, y, z }),
                    },
                },
            },
        },
    }
}

/// The cubes that the first `n` of `rows` name, or the error of the first
/// line that names none.
pub open spec fn points_of(rows: Seq<Seq<char>>, n: nat) -> Result<Seq<Point>, Error>
    decreases n,
{
    if n == 0 {
        Ok(Seq::empty())
    } else {
        match points_of(rows, (n - 1) as nat) {
            Err(e) => Err(e),
            Ok(ps) => match point_of(rows[n - 1]) {
                Err(e) => Err(e),
                Ok(p) => Ok(ps.push(p)),
            },
        }
    }
}

/// Where the faces of the first `n` cubes lie, cube after cube.
pub open spec fn places(cubes: Seq<Point>, n: nat) -> Seq<(Point, Dimension)>
    decreases n,
{
    if n == 0 {
        Seq::empty()
    } else {
        places(cubes, (n - 1) as nat) + cubes[n - 1].faces_of().map_values(|f: Surface| f.place())
    }
}

/// The number of faces of the cubes that are not shared by two cubes:
/// twice the number of places where a face lies, less the number of faces.
pub open spec fn surface(cubes: Seq<Point>) -> int {
    let all = places(cubes, cubes.len());
    2 * all.to_set().len() - all.len()
}

/// What `compute1` returns for the lines `rows`.
pub open spec fn answer(rows: Seq<Seq<char>>) -> Result<usize, Error> {
    match points_of(rows, rows.len()) {
        Err(e) => Err(e),
        Ok(cubes) => if exists|i: int| 0 <= i < cubes.len() && !(#[trigger] cubes[i]).bounded() {
            Err(Error::Overflow)
        } else if surface(cubes) < 0 {
            Err(Error::Repeated)
        } else {
            Ok(surface(cubes) as usize)
        },
    }
}

/// An error among the first lines is the error of all lines.
pub proof fn lemma_points_error(rows: Seq<Seq<char>>, k: nat, n: nat)
    requires
        k <= n,
        points_of(rows, k) is Err,
    ensures
        points_of(rows, n) == points_of(rows, k),
    decreases n,
{
    if k < n {
        lemma_points_error(rows, k, (n - 1) as nat);
    }
}

/// Reads the cube that a line names.
pub fn parse_point(line: &Vec<char>) -> (r: Result<Point, Error>)
    ensures
        r == point_of(line@),
{
    let (a, rest) = match split_at_first(line, ',') {
        Some(parts) => parts,
        None => {
            return Err(Error::InvalidLine);
        },
    };
    let (b, c) = match split_at_first(&rest, ',') {
        Some(parts) => parts,
        None => {
            return Err(Error::InvalidLine);
        },
    };
    let x = match parse_isize(&a) {
        Some(v) => v,
        None => {
            return Err(Error::InvalidNumber);
        },
    };
    let y = match parse_isize(&b) {
        Some(v) => v,
        None => {
            return Err(Error::InvalidNumber);
        },
    };
    let z = match parse_isize(&c) {
        Some(v) => v,
        None => {
            return Err(Error::InvalidNumber);
        },
    };
    Ok(Point { x, y, z })
}

/// Reads the cubes that the lines name.
pub fn load(rows: &Vec<Vec<char>>) -> (r: Result<Vec<Point>, Error>)
    ensures
        match r {
            Ok(ps) => points_of(views(rows@), rows@.len()) == Ok::<Seq<Point>, Error>(ps@),
            Err(e) => points_of(views(rows@), rows@.len()) == Err::<Seq<Point>, Error>(e),
        },
{
    let ghost all = views(rows@);
    let mut out: Vec<Point> = Vec::new();
    let mut i: usize = 0;
    while i < rows.len()
        invariant
            i <= rows.len(),
            all == views(rows@),
            points_of(all, i as nat) == Ok::<Seq<Point>, Error>(out@),
        decreases rows.len() - i,
    {
        assert(all[i as int] == rows[i as int]@);
        match parse_point(&rows[i]) {
            Err(e) => {
                proof {
                    lemma_points_error(all, (i + 1) as nat, all.len());
                }
                return Err(e);
            },
            Ok(p) => {
                out.push(p);
            },
        }
        i += 1;
    }
    Ok(out)
}

/// The number of different places among those where `faces` lie.
pub fn count_places(faces: &Vec<Surface>) -> (r: usize)
    ensures
        r == faces@.map_values(|f: Surface| f.place()).to_set().len(),
        r <= faces.len(),
{
    let ghost all = faces@.map_values(|f: Surface| f.place());
    let mut count: usize = 0;
    let mut i: usize = 0;
    while i < faces.len()
        invariant
            i <= faces.len(),
            all == faces@.map_values(|f: Surface| f.place()),
            count == firsts(all, i as nat),
            count <= i,
        decreases faces.len() - i,
    {
        let f = faces[i];
        let mut seen = false;
        let mut j: usize = 0;
        while j < i && !seen
            invariant
                j <= i < faces.len(),
                all == faces@.map_values(|f: Surface| f.place()),
                f == faces[i as int],
                seen ==> all.take(i as int).contains(all[i as int]),
                !seen ==> forall|k: int| 0 <= k < j ==> all[k] != all[i as int],
            decreases i - j + if seen { 0int } else { 1int },
        {
            let g = faces[j];
            if g.origin == f.origin && g.dimension == f.dimension {
                assert(all.take(i as int)[j as int] == all[i as int]);
                seen = true;
            } else {
                assert(all[j as int] != all[i as int]);
                j += 1;
            }
        }
        proof {
            if !seen {
                assert forall|k: int| 0 <= k < i implies all.take(i as int)[k] != all[i as int] by {
                    assert(all[k] != all[i as int]);
                }
            }
            assert(seen == !first_at(all, i as int));
        }
        if !seen {
            count += 1;
        }
        i += 1;
    }
    proof {
        lemma_firsts(all, all.len());
        assert(all.take(all.len() as int) =~= all);
    }
    count
}

/// The number of faces of the cubes that `input` lists that no two cubes
/// share.
pub fn compute1(input: &str) -> (r: Result<usize, Error>)
    ensures
        r == answer(lines(input@)),
{
    let text = chars_of(input);
    let rows = split_lines(&text);
    let cubes = match load(&rows) {
        Ok(cubes) => cubes,
        Err(e) => {
            return Err(e);
        },
    };
    let mut faces: Vec<Surface> = Vec::new();
    let mut i: usize = 0;
    assert(faces@.map_values(|f: Surface| f.place()) =~= places(cubes@, 0));
    while i < cubes.len()
        invariant
            i <= cubes.len(),
            points_of(lines(input@), lines(input@).len()) == Ok::<Seq<Point>, Error>(cubes@),
            forall|k: int| 0 <= k < i ==> (#[trigger] cubes[k]).bounded(),
            faces@.map_values(|f: Surface| f.place()) == places(cubes@, i as nat),
        decreases cubes.len() - i,
    {
        let cube = cubes[i];
        if !(cube.x < isize::MAX && cube.y < isize::MAX && cube.z < isize::MAX) {
            return Err(Error::Overflow);
        }
        let mut six = cube.faces();
        let ghost before = faces@;
        faces.append(&mut six);
        assert(faces@.map_values(|f: Surface| f.place()) =~= before.map_values(
            |f: Surface| f.place(),
        ) + cube.faces_of().map_values(|f: Surface| f.place()));
        i += 1;
    }
    let different = count_places(&faces);
    let shared = faces.len() - different;
    if different >= shared {
        Ok(different - shared)
    } else {
        Err(Error::Repeated)
    }
}

} // verus!
