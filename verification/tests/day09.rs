use raoc22::day09::{compute, parse, Error, Move, Point, Pos};

const EXAMPLE: &str = "R 4
U 4
L 3
D 1
R 4
D 1
L 5
R 2
";

const LARGER: &str = "R 5
U 8
L 8
D 3
R 17
D 10
L 25
U 20
";

#[test]
fn day09_part1_example() {
    assert_eq!(compute(EXAMPLE, 2).unwrap(), 13);
}

#[test]
fn day09_part2_example() {
    assert_eq!(compute(EXAMPLE, 10).unwrap(), 1);
}

#[test]
fn day9_part1_example() {
    assert_eq!(compute(EXAMPLE, 2).unwrap(), 13);
}

#[test]
fn day9_part2_example() {
    assert_eq!(compute(EXAMPLE, 10).unwrap(), 1);
}

#[test]
fn longer_rope_on_larger_motions() {
    assert_eq!(compute(LARGER, 10), Ok(36));
    // the head makes 96 steps and comes by one place twice
    assert_eq!(compute(LARGER, 1), Ok(95));
}

#[test]
fn steps_of_a_knot() {
    let mut p = Point(3, -2);
    p.apply(Move::Left);
    assert_eq!(p, Point(2, -2));
    p.apply(Move::Up);
    assert_eq!(p, Point(2, -1));
    p.apply(Move::Right);
    p.apply(Move::Right);
    assert_eq!(p, Point(4, -1));
    p.apply(Move::Down);
    assert_eq!(p, Point(4, -2));
}

#[test]
fn a_knot_follows_only_when_it_no_longer_touches() {
    for (dx, dy) in [(0, 0), (1, 0), (1, 1), (-1, 1), (0, -1), (-1, -1)] {
        let mut p = Point(5, 5);
        p.pull(Point(5 + dx, 5 + dy));
        assert_eq!(p, Point(5, 5));
    }
    let cases = [
        ((2, 0), (1, 0)),
        ((-2, 0), (-1, 0)),
        ((0, 2), (0, 1)),
        ((2, 1), (1, 1)),
        ((1, -2), (1, -1)),
        ((-2, -2), (-1, -1)),
        ((7, -3), (1, -1)),
    ];
    for ((dx, dy), (sx, sy)) in cases {
        let mut p = Point(5, 5);
        p.pull(Point(5 + dx, 5 + dy));
        assert_eq!(p, Point(5 + sx, 5 + sy));
    }
    let mut far = Point(isize::MIN, isize::MAX);
    far.pull(Point(isize::MAX, isize::MIN));
    assert_eq!(far, Point(isize::MIN + 1, isize::MAX - 1));
}

#[test]
fn the_rope_moves_knot_by_knot() {
    let mut pos = Pos { rope: vec![Point(0, 0); 3] };
    for _ in 0..4 {
        pos.apply(Move::Right);
    }
    assert_eq!(pos.rope, vec![Point(4, 0), Point(3, 0), Point(2, 0)]);
    pos.apply(Move::Up);
    pos.apply(Move::Up);
    assert_eq!(pos.rope, vec![Point(4, 2), Point(4, 1), Point(3, 1)]);
}

#[test]
fn reading_motions() {
    let chars = |s: &str| s.chars().collect::<Vec<char>>();
    assert_eq!(parse(&chars("R 3")), Ok((Move::Right, 3)));
    assert_eq!(parse(&chars(" L  1 ")), Ok((Move::Left, 1)));
    assert_eq!(parse(&chars("U 0")), Ok((Move::Up, 0)));
    assert_eq!(parse(&chars("D 18446744073709551615")), Ok((Move::Down, usize::MAX)));
    assert_eq!(parse(&chars("X 2")), Err(Error::InvalidMove));
    assert_eq!(parse(&chars("R")), Err(Error::InvalidMove));
    assert_eq!(parse(&chars("R -1")), Err(Error::InvalidMove));
    assert_eq!(parse(&chars("R 1 2")), Err(Error::InvalidMove));
}

#[test]
fn answers_at_the_edges() {
    assert_eq!(compute("", 2), Ok(0));
    assert_eq!(compute("R 1", 1), Ok(1));
    assert_eq!(compute("R 1\nL 1\n", 1), Ok(2));
    assert_eq!(compute("R 1", 0), Err(Error::NoKnots));
    assert_eq!(compute("U 0\nD 0\n", 3), Ok(0));
    // a line that describes nothing fails the list, wherever it stands
    assert_eq!(compute("R 18446744073709551615\nX 1\n", 2), Err(Error::InvalidMove));
    assert_eq!(compute("R 1\n\n", 2), Err(Error::InvalidMove));
}
