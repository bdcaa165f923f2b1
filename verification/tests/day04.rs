use raoc22::day04::{compute, decode, decode_range, fully_contained, overlap, Error, Rule, Sections};

const EXAMPLE: &str = "2-4,6-8
2-3,4-5
5-7,7-9
2-8,3-7
6-6,4-6
2-6,4-8
";

fn pair(a: i64, b: i64, c: i64, d: i64) -> (Sections, Sections) {
    (Sections { start: a, end: b }, Sections { start: c, end: d })
}

#[test]
fn day04_part1_example() {
    assert_eq!(compute(EXAMPLE, Rule::FullyContained).unwrap(), 2);
}

#[test]
fn day04_part2_example() {
    assert_eq!(compute(EXAMPLE, Rule::Overlap).unwrap(), 4);
}

#[test]
fn containment_goes_both_ways() {
    assert!(fully_contained(&pair(2, 8, 3, 7)));
    assert!(fully_contained(&pair(6, 6, 4, 6)));
    assert!(fully_contained(&pair(1, 1, 1, 1)));
    assert!(!fully_contained(&pair(2, 4, 3, 5)));
    assert!(!fully_contained(&pair(2, 4, 6, 8)));
}

#[test]
fn overlap_needs_a_common_section() {
    assert!(overlap(&pair(5, 7, 7, 9)));
    assert!(overlap(&pair(7, 9, 5, 7)));
    assert!(overlap(&pair(2, 8, 3, 7)));
    assert!(!overlap(&pair(2, 4, 5, 8)));
    assert!(!overlap(&pair(5, 8, 2, 4)));
    assert!(!overlap(&pair(5, 1, 2, 4)));
}

#[test]
fn decoding() {
    let chars = |s: &str| s.chars().collect::<Vec<char>>();
    assert_eq!(decode(&chars("2-4,6-8")), Ok(pair(2, 4, 6, 8)));
    assert_eq!(decode(&chars("+2-40,6-08")), Ok(pair(2, 40, 6, 8)));
    assert_eq!(decode_range(&chars("12-7")), Ok(Sections { start: 12, end: 7 }));
    assert_eq!(decode(&chars("2-4")), Err(Error::InvalidLine));
    assert_eq!(decode(&chars("2-4,68")), Err(Error::InvalidRange));
    assert_eq!(decode(&chars("2-x,6-8")), Err(Error::InvalidNumber));
    assert_eq!(decode(&chars("-2-4,6-8")), Err(Error::InvalidNumber));
    assert_eq!(decode(&chars("2-4,6-99999999999999999999")), Err(Error::InvalidNumber));
    assert_eq!(decode_range(&chars("1-9223372036854775807")).map(|r| r.end), Ok(i64::MAX));
}

#[test]
fn first_bad_line_fails_the_count() {
    assert_eq!(compute("1-2,3-4\n\n1-2,2-3", Rule::Overlap), Err(Error::InvalidLine));
    assert_eq!(compute("1-2,3-4\n1-2,2-", Rule::Overlap), Err(Error::InvalidNumber));
    assert_eq!(compute("", Rule::Overlap), Ok(0));
    assert_eq!(compute("1-2,2-3\r\n1-5,2-3\r\n", Rule::FullyContained), Ok(1));
}
