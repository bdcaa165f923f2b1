use raoc22::day01::{compute, Error, Max};

const EXAMPLE: &str = "1000
2000
3000

4000

5000
6000

7000
8000
9000

10000
";

#[test]
fn day01_part1_example() {
    assert_eq!(compute(EXAMPLE, 1).unwrap(), 24000);
}

#[test]
fn day01_part2_example() {
    assert_eq!(compute(EXAMPLE, 3).unwrap(), 45000);
}

#[test]
fn max_keeps_the_largest() {
    let mut max = Max::new(3);
    assert_eq!(max.sum(), 0);
    for v in [5, 1, 9, 3, 7, -4, 9] {
        max.update(v);
    }
    assert_eq!(max.sum(), 9 + 9 + 7);
    assert_eq!(max.checked_sum(), Some(25));
    let mut none = Max::new(0);
    none.update(12);
    assert_eq!(none.sum(), 0);
}

#[test]
fn max_replaces_the_first_least() {
    let mut max = Max::new(2);
    max.update(4);
    max.update(4);
    max.update(6);
    max.update(5);
    assert_eq!(max.sum(), 11);
}

#[test]
fn checked_sum_reports_overflow() {
    let mut max = Max::new(2);
    max.update(i64::MAX);
    max.update(1);
    assert_eq!(max.checked_sum(), None);
}

#[test]
fn groups_and_errors() {
    assert_eq!(compute("", 3), Ok(0));
    assert_eq!(compute("5\n\n\n7", 1), Ok(7));
    assert_eq!(compute("5\n-7\n\n-2", 2), Ok(0));
    assert_eq!(compute("5\n7", 0), Ok(0));
    assert_eq!(compute("5\nx\n", 1), Err(Error::InvalidNumber));
    assert_eq!(compute("5\n 7\n", 1), Err(Error::InvalidNumber));
    assert_eq!(compute("9223372036854775807\n1\n", 1), Err(Error::Overflow));
    assert_eq!(compute("9223372036854775807\n\n1\n", 2), Err(Error::Overflow));
    assert_eq!(compute("9223372036854775807\n\n1\n", 1), Ok(i64::MAX));
}
