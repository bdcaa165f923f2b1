use raoc22::day3::{compute1, compute2, score, Error};

const EXAMPLE: &str = "vJrwpWtwJgWrhcsFMMfFFhFp
jqHRNqRjqzjGDLGLrsFMfFZSrLrFZsSL
PmmdzqPrVvPwwTWBwg
wMqvLMZHhHMvwLHjbvcjnnSBnvTQFn
ttgJtRGJQctTZtZT
CrZsJsPPZsGzwwsLwLmpwMDw
";

#[test]
fn day3_part1_example() {
    assert_eq!(compute1(EXAMPLE).unwrap(), 157);
}

#[test]
fn day3_part2_example() {
    assert_eq!(compute2(EXAMPLE).unwrap(), 70);
}

#[test]
fn priorities() {
    assert_eq!(score('a'), 1);
    assert_eq!(score('z'), 26);
    assert_eq!(score('A'), 27);
    assert_eq!(score('Z'), 52);
    assert_eq!(score('p'), 16);
    assert_eq!(score('L'), 38);
    assert_eq!(score('0'), 0);
    assert_eq!(score('['), 0);
    assert_eq!(score('é'), 0);
}

#[test]
fn shared_types_count_once() {
    assert_eq!(compute1("aaAaaA"), Ok(1 + 27));
    assert_eq!(compute1("abcde"), Ok(0));
    assert_eq!(compute1(""), Ok(0));
    assert_eq!(compute2("abab\nbaba\nabba"), Ok(3));
}

#[test]
fn groups_must_be_complete() {
    assert_eq!(compute2("a\na"), Err(Error::IncompleteGroup));
    assert_eq!(compute2("a\na\na\na"), Err(Error::IncompleteGroup));
    assert_eq!(compute2(""), Ok(0));
}
