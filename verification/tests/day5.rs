use raoc22::day5::{compute1, compute2, parse_move, Error, Move, Stacks};

const EXAMPLE: &str = "    [D]    \n[N] [C]    \n[Z] [M] [P]\n 1   2   3 \n\nmove 1 from 2 to 1\nmove 3 from 1 to 3\nmove 2 from 2 to 1\nmove 1 from 1 to 2\n";

#[test]
fn day5_part1_example() {
    assert_eq!(compute1(EXAMPLE).unwrap(), "CMZ".to_string());
}

#[test]
fn day5_part2_example() {
    assert_eq!(compute2(EXAMPLE).unwrap(), "MCD".to_string());
}

fn stacks(contents: &[&str]) -> Stacks {
    let mut s = Stacks::new(contents.len());
    for (i, stack) in contents.iter().enumerate() {
        for c in stack.chars() {
            s.put(i, c);
        }
    }
    s
}

#[test]
fn moving_one_by_one_reverses() {
    let mut s = stacks(&["abc", "", "x"]);
    assert_eq!(s.apply(&Move { from: 0, to: 2, nbr: 2 }), Ok(()));
    assert_eq!(s.read_top(), "ab");
    assert_eq!(s.apply(&Move { from: 2, to: 1, nbr: 1 }), Ok(()));
    assert_eq!(s.read_top(), "abc");
    assert_eq!(s.apply(&Move { from: 2, to: 2, nbr: 2 }), Ok(()));
    assert_eq!(s.read_top(), "abx");
}

#[test]
fn moving_at_once_keeps_the_order() {
    let mut s = stacks(&["abc", "", "x"]);
    assert_eq!(s.apply2(&Move { from: 0, to: 2, nbr: 2 }), Ok(()));
    assert_eq!(s.read_top(), "ac");
    assert_eq!(s.apply2(&Move { from: 2, to: 1, nbr: 1 }), Ok(()));
    assert_eq!(s.read_top(), "acb");
    assert_eq!(s.apply2(&Move { from: 2, to: 2, nbr: 2 }), Ok(()));
    assert_eq!(s.read_top(), "acb");
    assert_eq!(s.apply2(&Move { from: 1, to: 0, nbr: 0 }), Ok(()));
    assert_eq!(s.read_top(), "acb");
}

#[test]
fn impossible_moves_change_nothing() {
    let mut s = stacks(&["ab", "c"]);
    assert_eq!(s.apply(&Move { from: 0, to: 1, nbr: 3 }), Err(Error::InvalidMove));
    assert_eq!(s.apply(&Move { from: 2, to: 1, nbr: 0 }), Err(Error::InvalidMove));
    assert_eq!(s.apply2(&Move { from: 0, to: 2, nbr: 1 }), Err(Error::InvalidMove));
    assert_eq!(s.read_top(), "bc");
    assert_eq!(s.len(), 2);
    assert_eq!(Stacks::new(3).read_top(), "");
    assert_eq!(stacks(&["", "q", ""]).top_crates(), vec!['q']);
}

#[test]
fn reading_moves() {
    let chars = |s: &str| s.chars().collect::<Vec<char>>();
    assert_eq!(parse_move(&chars("move 12 from 3 to 1")), Ok(Move { nbr: 12, from: 2, to: 0 }));
    assert_eq!(parse_move(&chars("  move\t1 from 1   to 9 ")), Ok(Move { nbr: 1, from: 0, to: 8 }));
    assert_eq!(parse_move(&chars("move 1 from 0 to 1")), Err(Error::InvalidLine));
    assert_eq!(parse_move(&chars("move 1 from 1 to")), Err(Error::InvalidLine));
    assert_eq!(parse_move(&chars("move one from 1 to 2")), Err(Error::InvalidLine));
    assert_eq!(parse_move(&chars("push 1 from 1 to 2")), Err(Error::InvalidLine));
    assert_eq!(parse_move(&chars("")), Err(Error::InvalidLine));
}

#[test]
fn drawings_and_their_errors() {
    assert_eq!(compute1(""), Err(Error::NoStacks));
    assert_eq!(compute1("\nmove 1 from 1 to 2"), Err(Error::NoStacks));
    assert_eq!(compute1("[A] [B]\n[C]\n"), Err(Error::ShortLine));
    assert_eq!(compute1("[A] [B]\n\nmove 2 from 1 to 2\n"), Err(Error::InvalidMove));
    assert_eq!(compute1("[A] [B]\n\nmove 1 from 1 to 3\n"), Err(Error::InvalidMove));
    assert_eq!(compute1("[A] [B]\n\nmove 1 from 1\n"), Err(Error::InvalidLine));
    assert_eq!(compute1("[A] [B]\n\nmove 1 from 1 to 2\n\n"), Err(Error::InvalidLine));
    assert_eq!(compute1("[A] [B]").unwrap(), "AB");
    assert_eq!(compute2("[A]    \n[B] [C]\n\nmove 2 from 1 to 2").unwrap(), "A");
    assert_eq!(compute1("[A]    \n[B] [C]\n\nmove 2 from 1 to 2").unwrap(), "B");
}
