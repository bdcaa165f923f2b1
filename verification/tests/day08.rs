use raoc22::day08::{compute, determine_score, fill_visibility, parse, part1, part2, Dir, Error, Matrix, Part};

const EXAMPLE: &str = "30373
25512
65332
33549
35390
";

#[test]
fn day08_part1_example() {
    assert_eq!(compute(EXAMPLE, Part::One).unwrap(), 21);
}

#[test]
fn day08_part2_example() {
    assert_eq!(compute(EXAMPLE, Part::Two).unwrap(), 8);
}

#[test]
fn day8_part1_example() {
    assert_eq!(compute(EXAMPLE, Part::One).unwrap(), 21);
}

#[test]
fn day8_part2_example() {
    assert_eq!(compute(EXAMPLE, Part::Two).unwrap(), 8);
}

#[test]
fn sights_along_rows_and_columns() {
    let m = parse(EXAMPLE).unwrap();
    assert_eq!((m.width(), m.height(), m.len()), (5, 5, 25));
    assert_eq!(m.idx(3, 2), 17);
    assert_eq!(m.get(3, 2), 5);
    // the middle 5 of the second row
    assert_eq!(m.sight(1, 2, Dir::Up), 1);
    assert_eq!(m.sight(1, 2, Dir::Left), 1);
    assert_eq!(m.sight(1, 2, Dir::Right), 2);
    assert_eq!(m.sight(1, 2, Dir::Down), 2);
    assert_eq!(determine_score(&m, 1, 2), 4);
    assert_eq!(determine_score(&m, 3, 2), 8);
    assert_eq!(determine_score(&m, 0, 0), 0);
    assert_eq!(m.reach(3, 1, Dir::Right), 3);
    assert_eq!(m.ahead(3, 1, Dir::Right, 3), 9);
    assert!(m.clear(1, 1, Dir::Left));
    assert!(m.clear(1, 1, Dir::Up));
    assert!(!m.clear(1, 1, Dir::Right));
    assert!(!m.clear(1, 1, Dir::Down));
    assert!(m.clear(4, 4, Dir::Down));
}

#[test]
fn visibility_of_every_tree() {
    let m = parse(EXAMPLE).unwrap();
    let v = fill_visibility(&m);
    let inner: Vec<bool> = vec![v[6], v[7], v[8], v[11], v[12], v[13], v[16], v[17], v[18]];
    assert_eq!(inner, vec![true, true, false, true, false, true, false, true, false]);
    assert_eq!(v.iter().filter(|b| **b).count(), 21);
    assert_eq!(part1(&m), 21);
    assert_eq!(part2(&m), Ok(8));
}

#[test]
fn forests_that_are_not_square() {
    assert_eq!(compute("123\n456", Part::One), Ok(6));
    assert_eq!(compute("19191\n10101\n19191\n", Part::One), Ok(12));
    assert_eq!(compute("19191\n10201\n19191\n", Part::One), Ok(13));
    assert_eq!(compute("19191\n10101\n19191\n", Part::Two), Ok(4));
    assert_eq!(compute("1111111\n1112111\n1111111\n", Part::Two), Ok(9));
    assert_eq!(compute("5", Part::One), Ok(1));
    assert_eq!(compute("5", Part::Two), Ok(0));
    assert_eq!(compute("55\n55\n", Part::Two), Ok(0));
}

#[test]
fn malformed_maps() {
    assert_eq!(compute("", Part::One), Err(Error::Empty));
    assert_eq!(compute("\n123", Part::Two), Err(Error::Empty));
    assert_eq!(compute("123\n45\n", Part::One), Err(Error::Ragged));
    assert!(Matrix::new(0, vec![]).is_none());
    assert!(Matrix::new(2, vec![1, 2, 3]).is_none());
    assert_eq!(Matrix::new(3, vec![]).map(|m| m.height()), Some(0));
    // any character is a tree; its height is its code less that of '0'
    assert_eq!(parse("a/").map(|m| (m.get(0, 0), m.get(0, 1))).ok(), Some((49, -1)));
}
