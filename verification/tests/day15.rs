use raoc22::day15::{
    compute1, compute2, count_covered, insert_by_start, is_unseen, load, parse_coordinate, parse_sensor,
    Error, Line, Pos, Sensor,
};

const EXAMPLE: &str = "Sensor at x=2, y=18: closest beacon is at x=-2, y=15
Sensor at x=9, y=16: closest beacon is at x=10, y=16
Sensor at x=13, y=2: closest beacon is at x=15, y=3
Sensor at x=12, y=14: closest beacon is at x=10, y=16
Sensor at x=10, y=20: closest beacon is at x=10, y=16
Sensor at x=14, y=17: closest beacon is at x=10, y=16
Sensor at x=8, y=7: closest beacon is at x=2, y=10
Sensor at x=2, y=0: closest beacon is at x=2, y=10
Sensor at x=0, y=11: closest beacon is at x=2, y=10
Sensor at x=20, y=14: closest beacon is at x=25, y=17
Sensor at x=17, y=20: closest beacon is at x=21, y=22
Sensor at x=16, y=7: closest beacon is at x=15, y=3
Sensor at x=14, y=3: closest beacon is at x=15, y=3
Sensor at x=20, y=1: closest beacon is at x=15, y=3
";

fn chars(s: &str) -> Vec<char> {
    s.chars().collect()
}

fn sensor(sx: isize, sy: isize, bx: isize, by: isize) -> Sensor {
    Sensor { pos: Pos { x: sx, y: sy }, beacon: Pos { x: bx, y: by } }
}

#[test]
fn day15_part1_example() {
    assert_eq!(compute1(EXAMPLE, 10).unwrap(), 26);
    assert_eq!(compute1(EXAMPLE, 10).unwrap(), 26);
}

#[test]
fn day15_part2_example() {
    assert_eq!(compute2(EXAMPLE, 0, 20).unwrap(), 56000011);
}

#[test]
fn other_rows_of_the_example() {
    assert_eq!(compute1(EXAMPLE, 9), Ok(25));
    assert_eq!(compute1(EXAMPLE, 11), Ok(28));
    assert_eq!(compute1(EXAMPLE, 1000), Ok(0));
    assert_eq!(compute1("", 10), Ok(0));
}

#[test]
fn the_row_of_a_sensor_without_its_beacon() {
    let s = sensor(8, 7, 2, 10);
    assert_eq!(s.pos.distance(&s.beacon), 9);
    assert_eq!(s.x_range_without_beacon(7), (-1, 17));
    assert_eq!(s.x_range_without_beacon(10), (3, 14));
    assert_eq!(s.x_range_without_beacon(-2), (8, 8));
    assert_eq!(s.x_range_without_beacon(16), (8, 8));
    assert_eq!(s.x_range_without_beacon(17), (9, 7));
    assert_eq!(sensor(0, 0, 3, 0).x_range_without_beacon(0), (-3, 2));
    assert_eq!(sensor(0, 0, 0, 2).x_range_without_beacon(2), (1, -1));
    assert!(s.contains(&Pos { x: 2, y: 10 }));
    assert!(s.contains(&Pos { x: 8, y: -2 }));
    assert!(!s.contains(&Pos { x: 8, y: -3 }));
    assert!(!s.contains(&Pos { x: 1, y: 10 }));
    let far = sensor(isize::MIN, isize::MIN, isize::MAX, isize::MAX);
    assert_eq!(far.pos.distance(&far.beacon), 2 * (usize::MAX as i128));
}

#[test]
fn ranges_are_counted_once_where_they_overlap() {
    let mut ranges = Vec::new();
    for r in [(5, 9), (-3, 1), (7, 12), (0, 0), (20, 20), (-3, 6)] {
        insert_by_start(&mut ranges, r);
    }
    assert_eq!(ranges, vec![(-3, 1), (-3, 6), (0, 0), (5, 9), (7, 12), (20, 20)]);
    assert_eq!(count_covered(&ranges), 17);
    assert_eq!(count_covered(&vec![]), 0);
    assert_eq!(count_covered(&vec![(4, 4)]), 1);
}

#[test]
fn border_lines_and_where_they_meet() {
    let s = sensor(8, 7, 2, 10);
    assert_eq!(
        s.lines(),
        vec![
            Line { m: -1, b: 5 },
            Line { m: -1, b: 25 },
            Line { m: 1, b: -11 },
            Line { m: 1, b: 9 },
        ]
    );
    let rising = Line { m: 1, b: -11 };
    assert_eq!(rising.intersect(&Line { m: 1, b: 9 }), vec![]);
    assert_eq!(
        rising.intersect(&Line { m: -1, b: 5 }),
        vec![(8, -3), (9, -3), (8, -2), (9, -2)]
    );
    assert_eq!(Line { m: 1, b: -3 }.intersect(&Line { m: -1, b: -1 }), vec![(1, -2)]);
    assert_eq!(
        Line { m: 1, b: 4 }.intersect(&Line { m: -1, b: -3 }),
        vec![(-3, 1), (-2, 1), (-3, 2), (-2, 2)]
    );
    assert_eq!(Line { m: 1, b: 3 }.intersect(&Line { m: -1, b: 1 }), vec![(-1, 2)]);
}

#[test]
fn places_that_no_sensor_sees() {
    let sensors = load(EXAMPLE).unwrap();
    assert_eq!(sensors.len(), 14);
    assert!(is_unseen(&sensors, 14, 11));
    assert!(!is_unseen(&sensors, 14, 10));
    assert!(!is_unseen(&sensors, 15, 11));
    assert_eq!(compute2(EXAMPLE, 0, 10), Err(Error::NotFound));
    assert_eq!(compute2(EXAMPLE, 14, 14), Err(Error::NotFound));
    assert_eq!(compute2(EXAMPLE, 11, 14), Ok(56000011));
    assert_eq!(compute2("", 0, 20), Err(Error::NotFound));
}

#[test]
fn reading_reports() {
    assert_eq!(
        parse_sensor(&chars("Sensor at x=2, y=18: closest beacon is at x=-2, y=15")),
        Ok(sensor(2, 18, -2, 15))
    );
    assert_eq!(
        parse_sensor(&chars("Sensor at 2 18 closest beacon is at -2 15")),
        Ok(sensor(2, 18, -2, 15))
    );
    assert_eq!(
        parse_sensor(&chars("Sensor at x=2, y=18: nearest beacon is at x=-2, y=15")),
        Err(Error::InvalidLine)
    );
    assert_eq!(parse_sensor(&chars("")), Err(Error::InvalidLine));
    assert_eq!(
        parse_sensor(&chars("Sensor at x=2, y=18: closest beacon is at x=, y=15")),
        Err(Error::InvalidCoordinate)
    );
    assert_eq!(compute1("Sensor at x=2\n", 10), Err(Error::InvalidLine));
    assert_eq!(compute2("Sensor at x=2\n", 0, 20), Err(Error::InvalidLine));
}

#[test]
fn coordinates_keep_numeric_characters_and_hyphens() {
    assert_eq!(parse_coordinate(&chars("x=2,")), Some(2));
    assert_eq!(parse_coordinate(&chars("y=-18:")), Some(-18));
    assert_eq!(parse_coordinate(&chars("a1b2c3")), Some(123));
    assert_eq!(parse_coordinate(&chars("x=")), None);
    assert_eq!(parse_coordinate(&chars("1-2")), None);
    assert_eq!(parse_coordinate(&chars("+5")), Some(5));
    // a superscript two is numeric, but no digit of a number
    assert_eq!(parse_coordinate(&chars("x=2²")), None);
    assert_eq!(parse_coordinate(&chars("99999999999999999999")), None);
}

#[test]
fn answers_out_of_range() {
    let text = format!(
        "Sensor at x={}, y={}: closest beacon is at x={}, y={}\n",
        isize::MAX - 3,
        isize::MAX - 3,
        isize::MAX - 3,
        isize::MAX - 2
    );
    assert_eq!(compute2(&text, isize::MAX - 10, isize::MAX), Err(Error::Overflow));
    assert_eq!(compute2(&text, 0, 10), Err(Error::NotFound));
    // every place of the row that the sensor sees, its beacon's row above it
    assert_eq!(compute1(&text, isize::MAX - 3), Ok(3));
    assert_eq!(compute1(&text, isize::MAX - 2), Ok(0));
}
