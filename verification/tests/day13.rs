use raoc22::day13::{compare, compare_lists, compute1, compute2, parse_list, parse_packet, Error, Packet};

const EXAMPLE: &str = "[1,1,3,1,1]
[1,1,5,1,1]

[[1],[2,3,4]]
[[1],4]

[9]
[[8,7,6]]

[[4,4],4,4]
[[4,4],4,4,4]

[7,7,7,7]
[7,7,7]

[]
[3]

[[[]]]
[[]]

[1,[2,[3,[4,[5,6,7]]]],8,9]
[1,[2,[3,[4,[5,6,0]]]],8,9]
";

fn packet(s: &str) -> Packet {
    parse_packet(&s.chars().collect()).unwrap()
}

fn ints(v: &[isize]) -> Packet {
    Packet::List(v.iter().map(|i| Packet::Int(*i)).collect())
}

#[test]
fn day13_part1_example() {
    assert_eq!(compute1(EXAMPLE).unwrap(), 13);
}

#[test]
fn day13_part2_example() {
    assert_eq!(compute2(EXAMPLE).unwrap(), 140);
}

#[test]
fn packets_are_read_as_nested_lists() {
    assert_eq!(packet("[]"), Packet::List(vec![]));
    assert_eq!(packet("[1,1,3,1,1]"), ints(&[1, 1, 3, 1, 1]));
    assert_eq!(packet("[10,007]"), ints(&[10, 7]));
    assert_eq!(
        packet("[[1],[2,3,4]]"),
        Packet::List(vec![ints(&[1]), ints(&[2, 3, 4])])
    );
    assert_eq!(
        packet("[[[]],4]"),
        Packet::List(vec![Packet::List(vec![Packet::List(vec![])]), Packet::Int(4)])
    );
    let text: Vec<char> = "[1,[2]],3]".chars().collect();
    assert_eq!(
        parse_list(&text, 4),
        Some((vec![Packet::Int(2)], 6))
    );
}

#[test]
fn what_the_reader_lets_pass() {
    // a list may end with the text, a comma may stand before the bracket
    // that closes a list, and what follows the packet is not read
    assert_eq!(packet("["), Packet::List(vec![]));
    assert_eq!(packet("[[1],"), Packet::List(vec![ints(&[1])]));
    assert_eq!(packet("[1,]"), ints(&[1]));
    assert_eq!(packet("[1]]x"), ints(&[1]));
}

#[test]
fn what_is_no_packet() {
    let no = |s: &str| parse_packet(&s.chars().collect());
    assert_eq!(no(""), Err(Error::InvalidPacket));
    assert_eq!(no("1"), Err(Error::InvalidPacket));
    assert_eq!(no(" [1]"), Err(Error::InvalidPacket));
    assert_eq!(no("[1"), Err(Error::InvalidPacket));
    assert_eq!(no("[[1,2"), Err(Error::InvalidPacket));
    assert_eq!(no("[1 ,2]"), Err(Error::InvalidPacket));
    assert_eq!(no("[-1]"), Err(Error::InvalidPacket));
    assert_eq!(no("[a]"), Err(Error::InvalidPacket));
    assert_eq!(no("[,1]"), Err(Error::InvalidPacket));
    assert_eq!(no("[99999999999999999999]"), Err(Error::InvalidPacket));
    assert_eq!(no("[1٣]"), Err(Error::InvalidPacket));
    assert_eq!(compute1("[1]\nx\n"), Err(Error::InvalidPacket));
    assert_eq!(compute2("[1]\nx\n"), Err(Error::InvalidPacket));
}

#[test]
fn the_order_of_packets() {
    let pairs = [
        ("[1,1,3,1,1]", "[1,1,5,1,1]", -1),
        ("[[1],[2,3,4]]", "[[1],4]", -1),
        ("[9]", "[[8,7,6]]", 1),
        ("[[4,4],4,4]", "[[4,4],4,4,4]", -1),
        ("[7,7,7,7]", "[7,7,7]", 1),
        ("[]", "[3]", -1),
        ("[[[]]]", "[[]]", 1),
        ("[1,[2,[3,[4,[5,6,7]]]],8,9]", "[1,[2,[3,[4,[5,6,0]]]],8,9]", 1),
        ("[[2]]", "[2]", 0),
        ("[[2]]", "[[[2]]]", 0),
        ("[2,3]", "[[2]]", 1),
        ("[[2],3]", "[2,[3]]", 0),
        ("[[]]", "[0]", -1),
    ];
    for (a, b, want) in pairs {
        assert_eq!(compare(&packet(a), &packet(b)), want);
        assert_eq!(compare(&packet(b), &packet(a)), -want);
    }
    assert_eq!(compare(&Packet::Int(3), &Packet::Int(3)), 0);
    assert_eq!(compare(&Packet::Int(isize::MIN), &Packet::Int(isize::MAX)), -1);
    assert_eq!(compare(&Packet::Int(3), &ints(&[3, 0])), -1);
    assert_eq!(compare(&ints(&[]), &Packet::Int(-5)), -1);
    assert_eq!(compare_lists(&vec![Packet::Int(1)], &vec![]), 1);
}

#[test]
fn pairs_and_dividers() {
    assert_eq!(compute1(""), Ok(0));
    assert_eq!(compute2(""), Ok(2));
    // an odd packet at the end belongs to no pair
    assert_eq!(compute1("[1]\n[2]\n[3]\n[2]\n[0]"), Ok(1));
    // equal packets are in the right order
    assert_eq!(compute1("[1]\n[[1]]\n"), Ok(1));
    // a packet that is neither before nor after a divider comes after it
    assert_eq!(compute2("[2]\n[[6]]\n[1]\n[7]"), Ok(2 * 4));
    assert_eq!(compute2("[1]\n[3]\n[7]"), Ok(2 * 4));
}
