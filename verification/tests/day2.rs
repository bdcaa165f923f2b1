use raoc22::day2::{compute, decode1, decode2, Error, Move, Outcome, Reading};

const EXAMPLE: &str = "A Y\nB X\nC Z\n";

#[test]
fn day2_part1_example() {
    assert_eq!(compute(EXAMPLE, Reading::Move).unwrap(), 15);
}

#[test]
fn day2_part2_example() {
    assert_eq!(compute(EXAMPLE, Reading::Outcome).unwrap(), 12);
}

#[test]
fn rounds_by_move() {
    assert_eq!(decode1("A", "Y"), Ok(8));
    assert_eq!(decode1("B", "X"), Ok(1));
    assert_eq!(decode1("C", "Z"), Ok(6));
    assert_eq!(decode1("C", "X"), Ok(7));
    assert_eq!(decode1("A", "Z"), Ok(3));
    assert_eq!(decode1("D", "X"), Err(Error::InvalidMove));
    assert_eq!(decode1("A", "XX"), Err(Error::InvalidMove));
    assert_eq!(decode1("", ""), Err(Error::InvalidMove));
}

#[test]
fn rounds_by_outcome() {
    assert_eq!(decode2("A", "Y"), Ok(4));
    assert_eq!(decode2("B", "X"), Ok(1));
    assert_eq!(decode2("C", "Z"), Ok(7));
    assert_eq!(decode2("A", "X"), Ok(3));
    assert_eq!(decode2("A", "A"), Err(Error::InvalidOutcome));
    assert_eq!(decode2("X", "A"), Ok(0).and(Err(Error::InvalidOutcome)));
    assert_eq!(decode2("Q", "X"), Err(Error::InvalidMove));
}

#[test]
fn scores_and_names() {
    assert_eq!(Move::compute_score(Move::Rock, Move::Scissors), 7);
    assert_eq!(Move::compute_score(Move::Scissors, Move::Rock), 3);
    assert_eq!(Move::compute_score(Move::Paper, Move::Paper), 5);
    assert_eq!(Move::from_i64(0), Move::Rock);
    assert_eq!(Move::from_i64(1), Move::Paper);
    assert_eq!(Move::from_i64(2), Move::Scissors);
    assert_eq!(Move::from_str("B"), Ok(Move::Paper));
    assert_eq!(Move::from_str("Z"), Ok(Move::Scissors));
    assert_eq!(Move::from_str("b"), Err(Error::InvalidMove));
    assert_eq!(Outcome::from_str("X"), Ok(Outcome::Lose));
    assert_eq!(Outcome::from_str("Y"), Ok(Outcome::Draw));
    assert_eq!(Outcome::from_str("Z"), Ok(Outcome::Win));
    assert_eq!(Outcome::from_str("W"), Err(Error::InvalidOutcome));
}

#[test]
fn lines_need_a_space() {
    assert_eq!(compute("A Y\nBX\n", Reading::Move), Err(Error::InvalidLine));
    assert_eq!(compute("A Y\n\n", Reading::Move), Err(Error::InvalidLine));
    assert_eq!(compute("A  Y\n", Reading::Move), Err(Error::InvalidMove));
    assert_eq!(compute("", Reading::Outcome), Ok(0));
}
