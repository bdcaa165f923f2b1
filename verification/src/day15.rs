//! Beacon exclusion zone: where, given sensors and the beacon closest to
//! each, no further beacon can be.

use crate::text::{
    chars_of, lines, parse_isize, signed_of, spells, split_lines, split_words, views, words,
};
use vstd::prelude::*;
use vstd::set_lib::{lemma_int_range, lemma_set_disjoint_lens, set_int_range};

verus! {

/// Why a report of sensors has no answer.
#[derive(Clone, Copy, Debug, PartialEq, Eq)]
pub enum Error {
    /// A line is not a sentence of ten words about a sensor and a beacon.
    InvalidLine,
    /// What is left of a word's numeric characters and hyphens is no number.
    InvalidCoordinate,
    /// No place within the bounds is out of reach of every sensor.
    NotFound,
    /// The answer is more than the result type holds.
    Overflow,
}

/// A place on the grid.
#[derive(Clone, Copy, Debug, PartialEq, Eq, Structural)]
pub struct Pos {
    pub x: isize,
    pub y: isize,
}

/// The line `y = m * x + b`.
#[derive(Clone, Copy, Debug, PartialEq, Eq, Structural)]
pub struct Line {
    pub m: i128,
    pub b: i128,
}

/// A sensor and the beacon that is closest to it.
#[derive(Clone, Copy, Debug, PartialEq, Eq, Structural)]
pub struct Sensor {
    pub pos: Pos,
    pub beacon: Pos,
}

/// The distance from `a` to `b` by `|a - b|`.
pub open spec fn gap(a: int, b: int) -> int {
    if a >= b {
        a - b
    } else {
        b - a
    }
}

impl Pos {
    /// The number of steps along the axes from this place to `other`.
    pub open spec fn far(self, other: Pos) -> int {
        gap(other.x as int, self.x as int) + gap(other.y as int, self.y as int)
    }

    /// The number of steps along the axes from this place to `other`.
    pub fn distance(&self, other: &Pos) -> (d: i128)
        ensures
            d == self.far(*other),
            0 <= d <= 0x2_0000_0000_0000_0000,
    {
        let dx = other.x as i128 - self.x as i128;
        let dy = other.y as i128 - self.y as i128;
        (if dx >= 0 { dx } else { -dx }) + (if dy >= 0 { dy } else { -dy })
    }
}

impl Sensor {
    /// How far the sensor sees: as far as its beacon is.
    pub open spec fn radius(self) -> int {
        self.pos.far(self.beacon)
    }

    /// Whether the sensor sees the place `p`.
    pub open spec fn sees(self, x: int, y: int) -> bool {
        gap(x, self.pos.x as int) + gap(y, self.pos.y as int) <= self.radius()
    }

    /// The first place in row `y` that the sensor sees and that is not its
    /// beacon, if `last_clear` is not less.
    pub open spec fn first_clear(self, y: int) -> int {
        let dx = self.radius() - gap(y, self.pos.y as int);
        self.pos.x - dx + if self.beacon.y == y && self.beacon.x <= self.pos.x {
            1int
        } else {
            0int
        }
    }

    /// The last place in row `y` that the sensor sees and that is not its
    /// beacon, if `first_clear` is not greater.
    pub open spec fn last_clear(self, y: int) -> int {
        let dx = self.radius() - gap(y, self.pos.y as int);
        self.pos.x + dx - if self.beacon.y == y && self.beacon.x >= self.pos.x {
            1int
        } else {
            0int
        }
    }

    /// Whether the place `x` of row `y` lies between the first and the last
    /// place of the row that the sensor sees and that is not its beacon.
    pub open spec fn clears(self, x: int, y: int) -> bool {
        self.first_clear(y) <= x <= self.last_clear(y)
    }

    /// The first and the last place of row `y` that the sensor sees and
    /// that is not its beacon; the first is greater than the last if there
    /// is no such place.
    pub fn x_range_without_beacon(&self, y: isize) -> (r: (i128, i128))
        ensures
            r.0 == self.first_clear(y as int),
            r.1 == self.last_clear(y as int),
            -0x4_0000_0000_0000_0000 <= r.0 <= 0x4_0000_0000_0000_0000,
            -0x4_0000_0000_0000_0000 <= r.1 <= 0x4_0000_0000_0000_0000,
    {
        let dy = y as i128 - self.pos.y as i128;
        let dx = self.pos.distance(&self.beacon) - (if dy >= 0 { dy } else { -dy });
        let x0 = self.pos.x as i128 - dx + if self.beacon.y == y && self.beacon.x <= self.pos.x {
            1i128
        } else {
            0i128
        };
        let x1 = self.pos.x as i128 + dx - if self.beacon.y == y && self.beacon.x >= self.pos.x {
            1i128
        } else {
            0i128
        };
        (x0, x1)
    }

    /// Whether the sensor sees the place `pos`.
    pub fn contains(&self, pos: &Pos) -> (r: bool)
        ensures
            r == self.sees(pos.x as int, pos.y as int),
    {
        self.pos.distance(pos) <= self.pos.distance(&self.beacon)
    }
}

/// The places of row `y` that some sensor clears.
pub open spec fn cleared(sensors: Seq<Sensor>, y: int) -> Set<int> {
    Set::new(|x: int| exists|i: int| 0 <= i < sensors.len() && (#[trigger] sensors[i]).clears(x, y))
}

/// The places that one of the ranges `rs` holds.
pub open spec fn covered(rs: Seq<(i128, i128)>) -> Set<int> {
    Set::new(|x: int| exists|i: int| 0 <= i < rs.len() && within(#[trigger] rs[i], x))
}

/// Whether `x` lies in the range `r`.
pub open spec fn within(r: (i128, i128), x: int) -> bool {
    r.0 <= x <= r.1
}

/// Whether the ranges `rs` follow each other by their starts.
pub open spec fn by_start(rs: Seq<(i128, i128)>) -> bool {
    forall|i: int, j: int| 0 <= i < j < rs.len() ==> (#[trigger] rs[i]).0 <= (#[trigger] rs[j]).0
}

/// Whether `c` is numeric, as Unicode defines it.
pub uninterp spec fn numeric(c: char) -> bool;

/// Whether `c` is numeric.
///
/// Trusted: `char::is_numeric` says whether the character has one of the
/// Unicode general categories for numbers; what it says depends on the
/// character alone.
#[verifier::external_body]
fn is_numeric(c: char) -> (r: bool)
    ensures
        r == numeric(c),
{
    c.is_numeric()
}

/// The numeric characters and hyphens of `s`.
pub open spec fn number_part(s: Seq<char>) -> Seq<char>
    decreases s.len(),
{
    if s.len() == 0 {
        Seq::empty()
    } else if numeric(s.last()) || s.last() == '-' {
        number_part(s.drop_last()).push(s.last())
    } else {
        number_part(s.drop_last())
    }
}

/// The coordinate that a word gives: the number that its numeric
/// characters and hyphens denote.
pub open spec fn coordinate_of(s: Seq<char>) -> Option<isize> {
    match signed_of(number_part(s), isize::MIN as int, isize::MAX as int) {
        Some(v) => Some(v as isize),
        None => None,
    }
}

/// The sensor that a line reports.
pub open spec fn sensor_of(line: Seq<char>) -> Result<Sensor, Error> {
    let w = words(line);
    if w.len() == 10 && w[0] == "Sensor"@ && w[1] == "at"@ && w[4] == "closest"@ && w[5]
        == "beacon"@ && w[6] == "is"@ && w[7] == "at"@ {
        match (coordinate_of(w[2]), coordinate_of(w[3]), coordinate_of(w[8]), coordinate_of(w[9])) {
            (Some(sx), Some(sy), Some(bx), Some(by)) => Ok(
                Sensor { pos: Pos { x: sx, y: sy }, beacon: Pos { x: bx, y: by } },
            ),
            _ => Err(Error::InvalidCoordinate),
        }
    } else {
        Err(Error::InvalidLine)
    }
}

/// The sensors that the first `n` of `rows` report, or the error of the
/// first line that reports none.
pub open spec fn sensors_of(rows: Seq<Seq<char>>, n: nat) -> Result<Seq<Sensor>, Error>
    decreases n,
{
    if n == 0 {
        Ok(Seq::empty())
    } else {
        match sensors_of(rows, (n - 1) as nat) {
            Err(e) => Err(e),
            Ok(ss) => match sensor_of(rows[n - 1]) {
                Err(e) => Err(e),
                Ok(s) => Ok(ss.push(s)),
            },
        }
    }
}

/// An error among the first lines is the error of all lines.
pub proof fn lemma_sensors_error(rows: Seq<Seq<char>>, k: nat, n: nat)
    requires
        k <= n,
        sensors_of(rows, k) is Err,
    ensures
        sensors_of(rows, n) == sensors_of(rows, k),
    decreases n,
{
    if k < n {
        lemma_sensors_error(rows, k, (n - 1) as nat);
    }
}

/// Reads the coordinate that a word gives.
pub fn parse_coordinate(s: &Vec<char>) -> (r: Option<isize>)
    ensures
        r == coordinate_of(s@),
{
    let mut kept: Vec<char> = Vec::new();
    let mut i: usize = 0;
    assert(s@.take(0) =~= Seq::<char>::empty());
    while i < s.len()
        invariant
            i <= s.len(),
            kept@ == number_part(s@.take(i as int)),
        decreases s.len() - i,
    {
        assert(s@.take(i + 1).drop_last() =~= s@.take(i as int));
        let c = s[i];
        if is_numeric(c) || c == '-' {
            kept.push(c);
        }
        i += 1;
    }
    assert(s@.take(s@.len() as int) =~= s@);
    parse_isize(&kept)
}

/// Reads the sensor that a line reports.
pub fn parse_sensor(line: &Vec<char>) -> (r: Result<Sensor, Error>)
    ensures
        r == sensor_of(line@),
{
    let w = split_words(line);
    assert(w@.len() == words(line@).len());
    assert(forall|k: int| 0 <= k < w.len() ==> (#[trigger] w[k])@ == words(line@)[k]);
    if w.len() == 10 && spells(&w[0], "Sensor") && spells(&w[1], "at") && spells(&w[4], "closest")
        && spells(&w[5], "beacon") && spells(&w[6], "is") && spells(&w[7], "at") {
        match (
            parse_coordinate(&w[2]),
            parse_coordinate(&w[3]),
            parse_coordinate(&w[8]),
            parse_coordinate(&w[9]),
        ) {
            (Some(sx), Some(sy), Some(bx), Some(by)) => Ok(
                Sensor { pos: Pos { x: sx, y: sy }, beacon: Pos { x: bx, y: by } },
            ),
            _ => Err(Error::InvalidCoordinate),
        }
    } else {
        Err(Error::InvalidLine)
    }
}

/// Reads the sensors that the lines of `input` report.
pub fn load(input: &str) -> (r: Result<Vec<Sensor>, Error>)
    ensures
        match r {
            Ok(ss) => sensors_of(lines(input@), lines(input@).len()) == Ok::<Seq<Sensor>, Error>(
                ss@,
            ),
            Err(e) => sensors_of(lines(input@), lines(input@).len()) == Err::<
                Seq<Sensor>,
                Error,
            >(e),
        },
{
    let text = chars_of(input);
    let rows = split_lines(&text);
    let ghost all = lines(input@);
    let mut out: Vec<Sensor> = Vec::new();
    let mut i: usize = 0;
    while i < rows.len()
        invariant
            i <= rows.len(),
            views(rows@) == all,
            all == lines(input@),
            sensors_of(all, i as nat) == Ok::<Seq<Sensor>, Error>(out@),
        decreases rows.len() - i,
    {
        assert(all[i as int] == rows[i as int]@);
        match parse_sensor(&rows[i]) {
            Err(e) => {
                proof {
                    lemma_sensors_error(all, (i + 1) as nat, all.len());
                }
                return Err(e);
            },
            Ok(s) => {
                out.push(s);
            },
        }
        i += 1;
    }
    Ok(out)
}

/// Puts the range `r` among the ranges `rs`, which follow each other by
/// their starts, so that they still do.
pub fn insert_by_start(rs: &mut Vec<(i128, i128)>, r: (i128, i128))
    requires
        by_start(old(rs)@),
    ensures
        by_start(final(rs)@),
        final(rs)@.len() == old(rs)@.len() + 1,
        forall|k: int|
            0 <= k < final(rs)@.len() ==> (#[trigger] final(rs)@[k]) == r || old(rs)@.contains(
                final(rs)@[k],
            ),
        forall|x: int|
            #![trigger covered(final(rs)@).contains(x)]
            covered(final(rs)@).contains(x) <==> covered(old(rs)@).contains(x) || within(r, x),
{
    let n = rs.len();
    let mut p: usize = 0;
    while p < n && rs[p].0 <= r.0
        invariant
            p <= n == rs.len(),
            *rs == *old(rs),
            forall|k: int| 0 <= k < p ==> (#[trigger] rs[k]).0 <= r.0,
        decreases n - p,
    {
        p += 1;
    }
    let ghost before = rs@;
    rs.insert(p, r);
    proof {
        let after = rs@;
        assert(before == old(rs)@);
        assert forall|k: int| 0 <= k < after.len() implies (#[trigger] after[k]) == r
            || before.contains(after[k]) by {
            if k < p {
                assert(after[k] == before[k]);
            } else if k > p {
                assert(after[k] == before[k - 1]);
            }
        }
        assert forall|i: int, j: int| 0 <= i < j < after.len() implies (#[trigger] after[i]).0 <= (
        #[trigger] after[j]).0 by {
            if j < p {
                assert(after[i] == before[i] && after[j] == before[j]);
            } else if j == p {
                assert(after[i] == before[i]);
            } else if i < p {
                assert(after[i] == before[i] && after[j] == before[j - 1]);
            } else if i == p {
                assert(after[j] == before[j - 1]);
                assert(before[p as int].0 > r.0);
                if j - 1 > p {
                    assert(before[p as int].0 <= before[j - 1].0);
                }
            } else {
                assert(after[i] == before[i - 1] && after[j] == before[j - 1]);
            }
        }
        assert forall|x: int|
            #![trigger covered(after).contains(x)]
            covered(after).contains(x) <==> covered(before).contains(x) || within(r, x) by {
            if covered(after).contains(x) {
                let i = choose|i: int| 0 <= i < after.len() && within(#[trigger] after[i], x);
                if i < p {
                    assert(within(before[i], x));
                } else if i > p {
                    assert(within(before[i - 1], x));
                }
            }
            if covered(before).contains(x) {
                let i = choose|i: int| 0 <= i < before.len() && within(#[trigger] before[i], x);
                if i < p {
                    assert(within(after[i], x));
                } else {
                    assert(within(after[i + 1], x));
                }
            }
            if within(r, x) {
                assert(within(after[p as int], x));
            }
        }
    }
}

/// The number of places that the ranges `rs`, which follow each other by
/// their starts, hold between them.
pub fn count_covered(rs: &Vec<(i128, i128)>) -> (total: i128)
    requires
        by_start(rs@),
        forall|i: int|
            0 <= i < rs.len() ==> -0x4_0000_0000_0000_0000 <= (#[trigger] rs[i]).0 <= rs[i].1
                <= 0x4_0000_0000_0000_0000,
    ensures
        covered(rs@).finite(),
        total == covered(rs@).len(),
{
    let n = rs.len();
    if n == 0 {
        assert(covered(rs@) =~= Set::<int>::empty());
        return 0;
    }
    let mut total: i128 = 0;
    let mut reach: i128 = rs[0].0;
    let ghost mut top: int = 0;
    let mut i: usize = 0;
    assert(covered(rs@.take(0)) =~= Set::<int>::empty());
    while i < n
        invariant
            i <= n == rs.len(),
            n > 0,
            by_start(rs@),
            forall|k: int|
                0 <= k < rs.len() ==> -0x4_0000_0000_0000_0000 <= (#[trigger] rs[k]).0 <= rs[k].1
                    <= 0x4_0000_0000_0000_0000,
            covered(rs@.take(i as int)).finite(),
            total == covered(rs@.take(i as int)).len(),
            forall|x: int| covered(rs@.take(i as int)).contains(x) ==> x < reach,
            i == 0 ==> reach == rs[0].0,
            i > 0 ==> 0 <= top < i && rs[top].1 + 1 == reach,
            rs[0].0 <= reach <= 0x4_0000_0000_0000_0001,
            0 <= total <= reach - rs[0].0,
        decreases n - i,
    {
        let (a, b) = rs[i];
        let ghost done = covered(rs@.take(i as int));
        let ghost next = covered(rs@.take(i + 1));
        let from = if a > reach { a } else { reach };
        let ghost fresh = if b >= reach {
            set_int_range(from as int, b + 1)
        } else {
            Set::<int>::empty()
        };
        proof {
            lemma_int_range(from as int, if b >= reach { b + 1 } else { from as int });
            assert(done.disjoint(fresh));
            assert forall|x: int| next.contains(x) <==> done.union(fresh).contains(x) by {
                if next.contains(x) {
                    let k = choose|k: int|
                        0 <= k < rs@.take(i + 1).len() && within(#[trigger] rs@.take(i + 1)[k], x);
                    if k < i {
                        assert(within(rs@.take(i as int)[k], x));
                    } else if x < reach {
                        assert(i > 0);
                        assert(rs[top].0 <= rs[i as int].0);
                        assert(within(rs@.take(i as int)[top], x));
                    }
                }
                if done.contains(x) {
                    let k = choose|k: int|
                        0 <= k < rs@.take(i as int).len() && within(
                            #[trigger] rs@.take(i as int)[k],
                            x,
                        );
                    assert(within(rs@.take(i + 1)[k], x));
                }
                if fresh.contains(x) {
                    assert(within(rs@.take(i + 1)[i as int], x));
                }
            }
            assert(next =~= done.union(fresh));
            lemma_set_disjoint_lens(done, fresh);
        }
        if b >= reach {
            total = total + (b - from + 1);
            reach = b + 1;
            proof {
                top = i as int;
            }
        }
        i += 1;
    }
    assert(rs@.take(n as int) =~= rs@);
    total
}

/// The number of places in row `y` that lie between the first and the last
/// place that one of the sensors that `input` reports sees, its beacon left
/// out.
pub fn compute1(input: &str, y: isize) -> (r: Result<usize, Error>)
    ensures
        match sensors_of(lines(input@), lines(input@).len()) {
            Err(e) => r == Err::<usize, Error>(e),
            Ok(sensors) => cleared(sensors, y as int).finite() && if cleared(sensors, y as int).len()
                > usize::MAX {
                r == Err::<usize, Error>(Error::Overflow)
            } else {
                r == Ok::<usize, Error>(cleared(sensors, y as int).len() as usize)
            },
        },
{
    let sensors = match load(input) {
        Ok(ss) => ss,
        Err(e) => {
            return Err(e);
        },
    };
    let mut ranges: Vec<(i128, i128)> = Vec::new();
    let mut i: usize = 0;
    while i < sensors.len()
        invariant
            i <= sensors.len(),
            by_start(ranges@),
            forall|k: int|
                0 <= k < ranges.len() ==> -0x4_0000_0000_0000_0000 <= (#[trigger] ranges[k]).0
                    <= ranges[k].1 <= 0x4_0000_0000_0000_0000,
            forall|x: int|
                covered(ranges@).contains(x) <==> cleared(sensors@.take(i as int), y as int).contains(
                    x,
                ),
        decreases sensors.len() - i,
    {
        let r = sensors[i].x_range_without_beacon(y);
        let ghost before = ranges@;
        let ghost seen = sensors@.take(i as int);
        let ghost more = sensors@.take(i + 1);
        if r.0 <= r.1 {
            insert_by_start(&mut ranges, r);
            proof {
                assert forall|k: int| 0 <= k < ranges.len() implies -0x4_0000_0000_0000_0000 <= (
                #[trigger] ranges[k]).0 <= ranges[k].1 <= 0x4_0000_0000_0000_0000 by {
                    if ranges[k] != r {
                        let j = choose|j: int| 0 <= j < before.len() && before[j] == ranges[k];
                        assert(before[j].0 <= before[j].1);
                    }
                }
            }
        }
        proof {
            assert forall|x: int|
                covered(ranges@).contains(x) <==> cleared(more, y as int).contains(x) by {
                if cleared(more, y as int).contains(x) {
                    let k = choose|k: int| 0 <= k < more.len() && (#[trigger] more[k]).clears(x, y as int);
                    if k < i {
                        assert(seen[k].clears(x, y as int));
                    }
                }
                if cleared(seen, y as int).contains(x) {
                    let k = choose|k: int| 0 <= k < seen.len() && (#[trigger] seen[k]).clears(x, y as int);
                    assert(more[k].clears(x, y as int));
                }
                if sensors[i as int].clears(x, y as int) {
                    assert(more[i as int].clears(x, y as int));
                }
            }
        }
        i += 1;
    }
    assert(sensors@.take(sensors@.len() as int) =~= sensors@);
    let total = count_covered(&ranges);
    assert(covered(ranges@) =~= cleared(sensors@, y as int));
    if total > usize::MAX as i128 {
        Err(Error::Overflow)
    } else {
        Ok(total as usize)
    }
}

/// `a` divided by `d`, rounded towards zero.
pub open spec fn quotient(a: int, d: int) -> int {
    if (a >= 0) == (d > 0) {
        gap(a, 0) / gap(d, 0)
    } else {
        -(gap(a, 0) / gap(d, 0))
    }
}

/// What division by 2, rounded towards zero, leaves of `b`: 0, or 1 with
/// the sign of `b`.
pub open spec fn parity(b: int) -> int {
    if b >= 0 {
        b % 2
    } else {
        -((-b) % 2)
    }
}

impl Line {
    /// Whether slope and offset are small enough for two such lines to be
    /// intersected in whole numbers of 128 bits.
    pub open spec fn small(self) -> bool {
        &&& -0x4000_0000 <= self.m <= 0x4000_0000
        &&& -0x400_0000_0000_0000_0000_0000 <= self.b <= 0x400_0000_0000_0000_0000_0000
    }

    /// The places with whole coordinates around the point in which this
    /// line and `other` meet: the meeting point with its first coordinate
    /// rounded towards zero, and, unless `other.b` is what halving this
    /// line's `b` leaves, the three places right of, above, and right of
    /// and above it. None if the lines have the same slope.
    pub open spec fn meet(self, other: Line) -> Seq<(int, int)> {
        if self.m == other.m {
            Seq::empty()
        } else {
            let x = quotient(other.b - self.b, self.m - other.m);
            let y = self.m * x + self.b;
            if other.b - parity(self.b as int) != 0 {
                seq![(x, y), (x + 1, y), (x, y + 1), (x + 1, y + 1)]
            } else {
                seq![(x, y)]
            }
        }
    }

    /// The places with whole coordinates around the point in which this
    /// line and `other` meet.
    pub fn intersect(&self, other: &Line) -> (r: Vec<(i128, i128)>)
        requires
            self.small(),
            other.small(),
        ensures
            r@.map_values(|p: (i128, i128)| (p.0 as int, p.1 as int)) == self.meet(*other),
    {
        let mut res: Vec<(i128, i128)> = Vec::new();
        if self.m == other.m {
            assert(res@.map_values(|p: (i128, i128)| (p.0 as int, p.1 as int)) =~= self.meet(*other));
            return res;
        }
        let a = other.b - self.b;
        let d = self.m - other.m;
        let size = (if a >= 0 { a } else { -a }) as u128 / (if d >= 0 { d } else { -d }) as u128;
        let x = if (a >= 0) == (d > 0) {
            size as i128
        } else {
            -(size as i128)
        };
        assert(x == quotient(a as int, d as int));
        assert(-0x800_0000_0000_0000_0000_0000 <= x <= 0x800_0000_0000_0000_0000_0000);
        assert(-0x200_0000_0000_0000_0000_0000_0000_0000 <= self.m * x
            <= 0x200_0000_0000_0000_0000_0000_0000_0000) by (nonlinear_arith)
            requires
                -0x4000_0000 <= self.m <= 0x4000_0000,
                -0x800_0000_0000_0000_0000_0000 <= x <= 0x800_0000_0000_0000_0000_0000,
        ;
        let y = self.m * x + self.b;
        res.push((x, y));
        let rem = if self.b >= 0 {
            self.b % 2
        } else {
            -((-self.b) % 2)
        };
        if other.b - rem != 0 {
            res.push((x + 1, y));
            res.push((x, y + 1));
            res.push((x + 1, y + 1));
        }
        assert(res@.map_values(|p: (i128, i128)| (p.0 as int, p.1 as int)) =~= self.meet(*other));
        res
    }
}

impl Sensor {
    /// The four lines just outside what the sensor sees: the two that fall
    /// from left to right, then the two that rise; of each two the lower
    /// first.
    pub open spec fn border(self) -> Seq<Line> {
        let d = self.radius() + 1;
        seq![
            Line { m: -1i128, b: (self.pos.y + self.pos.x - d) as i128 },
            Line { m: -1i128, b: (self.pos.y + self.pos.x + d) as i128 },
            Line { m: 1i128, b: (self.pos.y - self.pos.x - d) as i128 },
            Line { m: 1i128, b: (self.pos.y - self.pos.x + d) as i128 },
        ]
    }

    /// The four lines just outside what the sensor sees.
    pub fn lines(&self) -> (r: Vec<Line>)
        ensures
            r@ == self.border(),
            forall|k: int| 0 <= k < 4 ==> (#[trigger] r[k]).small(),
    {
        let d = self.pos.distance(&self.beacon) + 1;
        let x = self.pos.x as i128;
        let y = self.pos.y as i128;
        let mut res: Vec<Line> = Vec::new();
        res.push(Line { m: -1, b: y + x - d });
        res.push(Line { m: -1, b: y + x + d });
        res.push(Line { m: 1, b: y - x - d });
        res.push(Line { m: 1, b: y - x + d });
        assert(res@ =~= self.border());
        res
    }
}

/// The places around the points in which a rising border line of `a`
/// meets a falling border line of `b`.
pub open spec fn pair_points(a: Sensor, b: Sensor) -> Seq<(int, int)> {
    a.border()[2].meet(b.border()[0]) + a.border()[2].meet(b.border()[1]) + a.border()[3].meet(
        b.border()[0],
    ) + a.border()[3].meet(b.border()[1])
}

/// Whether no sensor sees the place `p`.
pub open spec fn unseen(sensors: Seq<Sensor>, p: (int, int)) -> bool {
    forall|k: int| 0 <= k < sensors.len() ==> !(#[trigger] sensors[k]).sees(p.0, p.1)
}

/// Whether `p` is a place within the bounds that no sensor sees.
pub open spec fn open_place(sensors: Seq<Sensor>, lo: int, hi: int, p: (int, int)) -> bool {
    lo <= p.0 <= hi && lo <= p.1 <= hi && unseen(sensors, p)
}

/// Whether `p` is a place within the bounds that no sensor sees, around a
/// point in which a rising border line of sensor `i` meets a falling one
/// of sensor `j`.
#[verifier::opaque]
pub open spec fn hit(sensors: Seq<Sensor>, lo: int, hi: int, i: int, j: int, p: (int, int)) -> bool {
    &&& 0 <= i < sensors.len()
    &&& 0 <= j < sensors.len()
    &&& pair_points(sensors[i], sensors[j]).contains(p)
    &&& open_place(sensors, lo, hi, p)
}

/// Whether `p` comes before `q`, or is `q`, by first and then by second
/// coordinate.
pub open spec fn no_later(p: (int, int), q: (int, int)) -> bool {
    p.0 < q.0 || (p.0 == q.0 && p.1 <= q.1)
}

/// Whether `p` is the first of the places that are hit.
pub open spec fn first_hit(sensors: Seq<Sensor>, lo: int, hi: int, p: (int, int)) -> bool {
    &&& exists|i: int, j: int| hit(sensors, lo, hi, i, j, p)
    &&& forall|i: int, j: int, q: (int, int)| #[trigger]
        hit(sensors, lo, hi, i, j, q) ==> no_later(p, q)
}

/// Whether no sensor sees the place `x`, `y`.
pub fn is_unseen(sensors: &Vec<Sensor>, x: isize, y: isize) -> (r: bool)
    ensures
        r == unseen(sensors@, (x as int, y as int)),
{
    let p = Pos { x, y };
    let mut k: usize = 0;
    while k < sensors.len()
        invariant
            k <= sensors.len(),
            p == (Pos { x, y }),
            forall|m: int| 0 <= m < k ==> !(#[trigger] sensors[m]).sees(x as int, y as int),
        decreases sensors.len() - k,
    {
        if sensors[k].contains(&p) {
            return false;
        }
        k += 1;
    }
    true
}

/// The first of `best` and those of the places `points` that lie within
/// the bounds and that no sensor sees.
fn improve(
    sensors: &Vec<Sensor>,
    lo: isize,
    hi: isize,
    points: &Vec<(i128, i128)>,
    best: Option<(isize, isize)>,
) -> (r: Option<(isize, isize)>)
    ensures
        ({
            let pts = points@.map_values(|p: (i128, i128)| (p.0 as int, p.1 as int));
            match r {
                None => best is None && forall|k: int|
                    0 <= k < pts.len() ==> !open_place(sensors@, lo as int, hi as int, #[trigger] pts[k]),
                Some(q) => {
                    let q = (q.0 as int, q.1 as int);
                    &&& best matches Some(b) ==> no_later(q, (b.0 as int, b.1 as int))
                    &&& (best matches Some(b) && b.0 == q.0 && b.1 == q.1) || (pts.contains(q)
                        && open_place(sensors@, lo as int, hi as int, q))
                    &&& forall|k: int|
                        0 <= k < pts.len() && open_place(
                            sensors@,
                            lo as int,
                            hi as int,
                            #[trigger] pts[k],
                        ) ==> no_later(q, pts[k])
                },
            }
        }),
{
    let ghost pts = points@.map_values(|p: (i128, i128)| (p.0 as int, p.1 as int));
    let mut found = best;
    let mut k: usize = 0;
    while k < points.len()
        invariant
            k <= points.len(),
            pts == points@.map_values(|p: (i128, i128)| (p.0 as int, p.1 as int)),
            match found {
                None => best is None && forall|m: int|
                    0 <= m < k ==> !open_place(sensors@, lo as int, hi as int, #[trigger] pts[m]),
                Some(q) => {
                    let q = (q.0 as int, q.1 as int);
                    &&& best matches Some(b) ==> no_later(q, (b.0 as int, b.1 as int))
                    &&& (best matches Some(b) && b.0 == q.0 && b.1 == q.1) || (pts.contains(q)
                        && open_place(sensors@, lo as int, hi as int, q))
                    &&& forall|m: int|
                        0 <= m < k && open_place(
                            sensors@,
                            lo as int,
                            hi as int,
                            #[trigger] pts[m],
                        ) ==> no_later(q, pts[m])
                },
            },
        decreases points.len() - k,
    {
        let (x, y) = points[k];
        assert(pts[k as int] == (x as int, y as int));
        if lo as i128 <= x && x <= hi as i128 && lo as i128 <= y && y <= hi as i128 {
            let px = x as isize;
            let py = y as isize;
            if is_unseen(sensors, px, py) {
                let better = match found {
                    None => true,
                    Some(q) => px < q.0 || (px == q.0 && py < q.1),
                };
                if better {
                    found = Some((px, py));
                }
            }
        }
        k += 1;
    }
    found
}

/// Whether `r` is the first of `best` and the places that are hit for the
/// sensors `i` and `j`.
#[verifier::opaque]
pub open spec fn improved(
    sensors: Seq<Sensor>,
    lo: int,
    hi: int,
    i: int,
    j: int,
    best: Option<(isize, isize)>,
    r: Option<(isize, isize)>,
) -> bool {
    match r {
        None => best is None && forall|q: (int, int)| !#[trigger] hit(sensors, lo, hi, i, j, q),
        Some(p) => {
            let p = (p.0 as int, p.1 as int);
            &&& best matches Some(b) ==> no_later(p, (b.0 as int, b.1 as int))
            &&& (best matches Some(b) && b.0 == p.0 && b.1 == p.1) || hit(sensors, lo, hi, i, j, p)
            &&& forall|q: (int, int)| #[trigger] hit(sensors, lo, hi, i, j, q) ==> no_later(p, q)
        },
    }
}

/// Whether the pair of sensors `a` and `b` comes before the pair `i` and
/// `j` in the search.
pub open spec fn done(a: int, b: int, i: int, j: int) -> bool {
    a < i || (a == i && b < j)
}

/// What holds of the best place found when the search has come to the
/// pair of sensors `i` and `j`.
#[verifier::opaque]
pub open spec fn searched(
    sensors: Seq<Sensor>,
    lo: int,
    hi: int,
    best: Option<(isize, isize)>,
    i: int,
    j: int,
) -> bool {
    match best {
        None => forall|a: int, b: int, q: (int, int)|
            !(#[trigger] hit(sensors, lo, hi, a, b, q) && done(a, b, i, j)),
        Some(p) => {
            let p = (p.0 as int, p.1 as int);
            &&& exists|a: int, b: int| hit(sensors, lo, hi, a, b, p) && done(a, b, i, j)
            &&& forall|a: int, b: int, q: (int, int)| #[trigger]
                hit(sensors, lo, hi, a, b, q) && done(a, b, i, j) ==> no_later(p, q)
        },
    }
}

/// Searching one more pair of sensors keeps what holds of the best place.
pub proof fn lemma_search_step(
    sensors: Seq<Sensor>,
    lo: int,
    hi: int,
    before: Option<(isize, isize)>,
    after: Option<(isize, isize)>,
    i: int,
    j: int,
)
    requires
        0 <= i < sensors.len(),
        0 <= j < sensors.len(),
        searched(sensors, lo, hi, before, i, j),
        improved(sensors, lo, hi, i, j, before, after),
    ensures
        searched(sensors, lo, hi, after, i, j + 1),
{
    reveal(searched);
    reveal(improved);
    match after {
        Some(p) => {
            let p = (p.0 as int, p.1 as int);
            assert forall|a: int, b: int, q: (int, int)| #[trigger]
                hit(sensors, lo, hi, a, b, q) && done(a, b, i, j + 1) implies no_later(p, q) by {
                if done(a, b, i, j) {
                    let o = before->0;
                    assert(no_later((o.0 as int, o.1 as int), q));
                }
            }
            if before matches Some(o) && o.0 == p.0 && o.1 == p.1 {
                let (a, b) = choose|a: int, b: int|
                    hit(sensors, lo, hi, a, b, p) && done(a, b, i, j);
                assert(hit(sensors, lo, hi, a, b, p) && done(a, b, i, j + 1));
            } else {
                assert(hit(sensors, lo, hi, i, j, p) && done(i, j, i, j + 1));
            }
        },
        None => {
            assert forall|a: int, b: int, q: (int, int)|
                !(#[trigger] hit(sensors, lo, hi, a, b, q) && done(a, b, i, j + 1)) by {
                if hit(sensors, lo, hi, a, b, q) && done(a, b, i, j + 1) {
                    if !done(a, b, i, j) {
                        assert(a == i && b == j);
                    }
                }
            }
        },
    }
}

/// When all pairs with sensor `i` are searched, the search has come to the
/// first pair with the next sensor.
pub proof fn lemma_search_row(
    sensors: Seq<Sensor>,
    lo: int,
    hi: int,
    best: Option<(isize, isize)>,
    i: int,
)
    requires
        searched(sensors, lo, hi, best, i, sensors.len() as int),
    ensures
        searched(sensors, lo, hi, best, i + 1, 0),
{
    reveal(searched);
    reveal(hit);
    match best {
        Some(p) => {
            let p = (p.0 as int, p.1 as int);
            let (a, b) = choose|a: int, b: int|
                hit(sensors, lo, hi, a, b, p) && done(a, b, i, sensors.len() as int);
            assert(hit(sensors, lo, hi, a, b, p) && done(a, b, i + 1, 0));
            assert forall|a: int, b: int, q: (int, int)| #[trigger]
                hit(sensors, lo, hi, a, b, q) && done(a, b, i + 1, 0) implies no_later(p, q) by {
                assert(done(a, b, i, sensors.len() as int));
            }
        },
        None => {
            assert forall|a: int, b: int, q: (int, int)|
                !(#[trigger] hit(sensors, lo, hi, a, b, q) && done(a, b, i + 1, 0)) by {
                if hit(sensors, lo, hi, a, b, q) && done(a, b, i + 1, 0) {
                    assert(done(a, b, i, sensors.len() as int));
                }
            }
        },
    }
}

/// The first of `best` and the places that are hit for the sensors `i`
/// and `j`.
fn search_pair(
    sensors: &Vec<Sensor>,
    lo: isize,
    hi: isize,
    i: usize,
    j: usize,
    best: Option<(isize, isize)>,
) -> (r: Option<(isize, isize)>)
    requires
        i < sensors.len(),
        j < sensors.len(),
    ensures
        improved(sensors@, lo as int, hi as int, i as int, j as int, best, r),
{
    let rising = sensors[i].lines();
    let falling = sensors[j].lines();
    let first = rising[2].intersect(&falling[0]);
    let second = rising[2].intersect(&falling[1]);
    let third = rising[3].intersect(&falling[0]);
    let fourth = rising[3].intersect(&falling[1]);
    let ghost pts_a = first@.map_values(|p: (i128, i128)| (p.0 as int, p.1 as int));
    let ghost pts_b = second@.map_values(|p: (i128, i128)| (p.0 as int, p.1 as int));
    let ghost pts_c = third@.map_values(|p: (i128, i128)| (p.0 as int, p.1 as int));
    let ghost pts_d = fourth@.map_values(|p: (i128, i128)| (p.0 as int, p.1 as int));
    let ghost all = pair_points(sensors[i as int], sensors[j as int]);
    assert(all == pts_a + pts_b + pts_c + pts_d);
    let b1 = improve(sensors, lo, hi, &first, best);
    let b2 = improve(sensors, lo, hi, &second, b1);
    let b3 = improve(sensors, lo, hi, &third, b2);
    let b4 = improve(sensors, lo, hi, &fourth, b3);
    proof {
        reveal(improved);
        reveal(hit);
        assert forall|q: (int, int)| pts_a.contains(q) || pts_b.contains(q) || pts_c.contains(q)
            || pts_d.contains(q) implies all.contains(q) by {
            if pts_a.contains(q) {
                let k = choose|k: int| 0 <= k < pts_a.len() && pts_a[k] == q;
                assert(all[k] == q);
            } else if pts_b.contains(q) {
                let k = choose|k: int| 0 <= k < pts_b.len() && pts_b[k] == q;
                assert(all[pts_a.len() + k] == q);
            } else if pts_c.contains(q) {
                let k = choose|k: int| 0 <= k < pts_c.len() && pts_c[k] == q;
                assert(all[pts_a.len() + pts_b.len() + k] == q);
            } else {
                let k = choose|k: int| 0 <= k < pts_d.len() && pts_d[k] == q;
                assert(all[pts_a.len() + pts_b.len() + pts_c.len() + k] == q);
            }
        }
        assert forall|q: (int, int)| #[trigger]
            hit(sensors@, lo as int, hi as int, i as int, j as int, q) implies (b4 matches Some(p)
            && no_later((p.0 as int, p.1 as int), q)) by {
            let k = choose|k: int| 0 <= k < all.len() && all[k] == q;
            if k < pts_a.len() {
                assert(pts_a[k] == q);
            } else if k < pts_a.len() + pts_b.len() {
                assert(pts_b[k - pts_a.len()] == q);
            } else if k < pts_a.len() + pts_b.len() + pts_c.len() {
                assert(pts_c[k - pts_a.len() - pts_b.len()] == q);
            } else {
                assert(pts_d[k - pts_a.len() - pts_b.len() - pts_c.len()] == q);
            }
        }
    }
    b4
}

/// What the search for the first place that is hit returns: four million
/// times its first coordinate plus its second, `Overflow` if an `isize` does
/// not hold that, and `NotFound` if no place is hit.
pub open spec fn found(sensors: Seq<Sensor>, lo: int, hi: int, r: Result<isize, Error>) -> bool {
    match r {
        Ok(v) => exists|p: (int, int)| #[trigger]
            first_hit(sensors, lo, hi, p) && v == 4000000 * p.0 + p.1,
        Err(Error::NotFound) => forall|i: int, j: int, q: (int, int)|
            !#[trigger] hit(sensors, lo, hi, i, j, q),
        Err(Error::Overflow) => exists|p: (int, int)| #[trigger]
            first_hit(sensors, lo, hi, p) && !(isize::MIN <= 4000000 * p.0 + p.1 <= isize::MAX),
        Err(_) => false,
    }
}

/// Four million times the first coordinate plus the second of the first
/// place, by first and then by second coordinate, that lies within the
/// bounds `lo` and `hi`, that no sensor that `input` reports sees, and that
/// is one of the places around a point in which border lines of two
/// sensors meet.
pub fn compute2(input: &str, lo: isize, hi: isize) -> (r: Result<isize, Error>)
    ensures
        match sensors_of(lines(input@), lines(input@).len()) {
            Err(e) => r == Err::<isize, Error>(e),
            Ok(sensors) => found(sensors, lo as int, hi as int, r),
        },
{
    let sensors = match load(input) {
        Ok(ss) => ss,
        Err(e) => {
            return Err(e);
        },
    };
    let n = sensors.len();
    let mut best: Option<(isize, isize)> = None;
    let mut i: usize = 0;
    assert(searched(sensors@, lo as int, hi as int, best, 0, 0)) by {
        reveal(searched);
        reveal(hit);
    }
    while i < n
        invariant
            i <= n == sensors.len(),
            sensors_of(lines(input@), lines(input@).len()) == Ok::<Seq<Sensor>, Error>(sensors@),
            searched(sensors@, lo as int, hi as int, best, i as int, 0),
        decreases n - i,
    {
        let mut j: usize = 0;
        while j < n
            invariant
                i < n == sensors.len(),
                j <= n,
                searched(sensors@, lo as int, hi as int, best, i as int, j as int),
            decreases n - j,
        {
            let ghost before = best;
            best = search_pair(&sensors, lo, hi, i, j, best);
            proof {
                lemma_search_step(sensors@, lo as int, hi as int, before, best, i as int, j as int);
            }
            j += 1;
        }
        proof {
            lemma_search_row(sensors@, lo as int, hi as int, best, i as int);
        }
        i += 1;
    }
    proof {
        lemma_search_end(sensors@, lo as int, hi as int, best);
    }
    match best {
        None => {
            assert(found(sensors@, lo as int, hi as int, Err(Error::NotFound)));
            Err(Error::NotFound)
        },
        Some(p) => {
            let ghost place = (p.0 as int, p.1 as int);
            assert(first_hit(sensors@, lo as int, hi as int, place));
            let v = 4000000 * (p.0 as i128) + p.1 as i128;
            assert(v == 4000000 * place.0 + place.1);
            if v < isize::MIN as i128 || v > isize::MAX as i128 {
                assert(found(sensors@, lo as int, hi as int, Err(Error::Overflow)));
                Err(Error::Overflow)
            } else {
                assert(found(sensors@, lo as int, hi as int, Ok(v as isize)));
                Ok(v as isize)
            }
        },
    }
}

/// When all pairs are searched, the best place found is the first that is
/// hit at all.
pub proof fn lemma_search_end(sensors: Seq<Sensor>, lo: int, hi: int, best: Option<(isize, isize)>)
    requires
        searched(sensors, lo, hi, best, sensors.len() as int, 0),
    ensures
        match best {
            Some(p) => first_hit(sensors, lo, hi, (p.0 as int, p.1 as int)),
            None => forall|i: int, j: int, q: (int, int)| !#[trigger] hit(sensors, lo, hi, i, j, q),
        },
{
    reveal(searched);
    reveal(hit);
    match best {
        Some(p) => {
            let p = (p.0 as int, p.1 as int);
            assert forall|i: int, j: int, q: (int, int)| #[trigger]
                hit(sensors, lo, hi, i, j, q) implies no_later(p, q) by {
                assert(done(i, j, sensors.len() as int, 0));
            }
        },
        None => {
            assert forall|i: int, j: int, q: (int, int)| !#[trigger] hit(
                sensors,
                lo,
                hi,
                i,
                j,
                q,
            ) by {
                if hit(sensors, lo, hi, i, j, q) {
                    assert(done(i, j, sensors.len() as int, 0));
                }
            }
        },
    }
}

} // verus!
