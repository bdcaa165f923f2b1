use raoc22::day18::{compute1, count_places, parse_point, Dimension, Error, Orientation, Point, Surface};

const EXAMPLE: &str = "2,2,2
1,2,2
3,2,2
2,1,2
2,3,2
2,2,1
2,2,3
2,2,4
2,2,6
1,2,5
3,2,5
2,1,5
2,3,5
";

#[test]
fn day18_part1_example() {
    assert_eq!(compute1(EXAMPLE).unwrap(), 64);
}

#[test]
fn cubes_share_faces_where_they_touch() {
    assert_eq!(compute1(""), Ok(0));
    assert_eq!(compute1("1,1,1"), Ok(6));
    assert_eq!(compute1("1,1,1\n2,1,1"), Ok(10));
    assert_eq!(compute1("1,1,1\n2,2,1"), Ok(12));
    assert_eq!(compute1("-1,0,0\n0,0,0\n0,1,0\n0,0,-1"), Ok(18));
    assert_eq!(compute1("1,1,1\n1,1,1"), Ok(0));
    assert_eq!(compute1("1,1,1\n1,1,1\n1,1,1"), Err(Error::Repeated));
}

#[test]
fn the_six_faces_of_a_cube() {
    let p = Point { x: 1, y: -2, z: 3 };
    let faces = p.faces();
    assert_eq!(faces.len(), 6);
    assert_eq!(
        faces[0],
        Surface { origin: p, dimension: Dimension::XY, orientation: Orientation::Minus }
    );
    assert_eq!(faces[1].dimension, Dimension::YZ);
    assert_eq!(faces[2].dimension, Dimension::XZ);
    assert_eq!(
        faces[3],
        Surface {
            origin: Point { x: 1, y: -2, z: 4 },
            dimension: Dimension::XY,
            orientation: Orientation::Plus
        }
    );
    assert_eq!(faces[4].origin, Point { x: 2, y: -2, z: 3 });
    assert_eq!(faces[5].origin, Point { x: 1, y: -1, z: 3 });
    assert_eq!(count_places(&faces), 6);
    let mut both = faces.clone();
    both.extend(Point { x: 1, y: -2, z: 4 }.faces());
    assert_eq!(count_places(&both), 11);
}

#[test]
fn reading_cubes() {
    let chars = |s: &str| s.chars().collect::<Vec<char>>();
    assert_eq!(parse_point(&chars("2,-3,+4")), Ok(Point { x: 2, y: -3, z: 4 }));
    assert_eq!(parse_point(&chars("2,3")), Err(Error::InvalidLine));
    assert_eq!(parse_point(&chars("")), Err(Error::InvalidLine));
    assert_eq!(parse_point(&chars("2,3,4,5")), Err(Error::InvalidNumber));
    assert_eq!(parse_point(&chars("2, 3,4")), Err(Error::InvalidNumber));
    assert_eq!(parse_point(&chars("2,,4")), Err(Error::InvalidNumber));
    assert_eq!(compute1("1,1,1\n\n"), Err(Error::InvalidLine));
    let edge = format!("1,{},1", isize::MAX);
    assert_eq!(compute1(&edge), Err(Error::Overflow));
}
