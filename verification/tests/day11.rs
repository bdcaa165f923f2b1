use raoc22::day11::{
    compute1, compute2, monkey_business, parse_items, parse_monkeys, play, take_turn, Error, Monkey, Op,
    Relief, Test, Throw,
};

const EXAMPLE: &str = "Monkey 0:
  Starting items: 79, 98
  Operation: new = old * 19
  Test: divisible by 23
    If true: throw to monkey 2
    If false: throw to monkey 3

Monkey 1:
  Starting items: 54, 65, 75, 74
  Operation: new = old + 6
  Test: divisible by 19
    If true: throw to monkey 2
    If false: throw to monkey 0

Monkey 2:
  Starting items: 79, 60, 97
  Operation: new = old * old
  Test: divisible by 13
    If true: throw to monkey 1
    If false: throw to monkey 3

Monkey 3:
  Starting items: 74
  Operation: new = old + 3
  Test: divisible by 17
    If true: throw to monkey 0
    If false: throw to monkey 1
";

fn rows(text: &str) -> Vec<Vec<char>> {
    text.lines().map(|l| l.chars().collect()).collect()
}

#[test]
fn day11_part1_example() {
    assert_eq!(compute1(EXAMPLE).unwrap(), 10605);
}

#[test]
fn day11_part2_example() {
    assert_eq!(compute2(EXAMPLE).unwrap(), 2713310158);
}

#[test]
fn notes_are_read_monkey_by_monkey() {
    let monkeys = parse_monkeys(&rows(EXAMPLE)).unwrap();
    assert_eq!(monkeys.len(), 4);
    assert_eq!(
        monkeys[2],
        Monkey {
            items: vec![79, 60, 97],
            operation: Op::Square,
            test: Test::DivisibleBy(13),
            if_true: 1,
            if_false: 3,
        }
    );
    assert_eq!(monkeys[0].operation, Op::Mul(19));
    assert_eq!(monkeys[3].operation, Op::Add(3));
    assert_eq!(Monkey::parse(&rows(EXAMPLE), 7).map(|m| m.items), Ok(vec![54, 65, 75, 74]));
}

#[test]
fn one_round_of_the_example() {
    let mut monkeys = parse_monkeys(&rows(EXAMPLE)).unwrap();
    let thrown = monkeys[0].inspect(Relief::Third).unwrap();
    assert_eq!(
        thrown,
        vec![Throw { item: 500, to_monkey: 3 }, Throw { item: 620, to_monkey: 3 }]
    );
    assert!(monkeys[0].items.is_empty());
    let mut monkeys = parse_monkeys(&rows(EXAMPLE)).unwrap();
    let mut counts = vec![0; 4];
    assert_eq!(play(&mut monkeys, &mut counts, Relief::Third, 1), Ok(()));
    let items: Vec<Vec<usize>> = monkeys.iter().map(|m| m.items.clone()).collect();
    assert_eq!(
        items,
        vec![vec![20, 23, 27, 26], vec![2080, 25, 167, 207, 401, 1046], vec![], vec![]]
    );
    assert_eq!(counts, vec![2, 4, 3, 5]);
    assert_eq!(take_turn(&mut monkeys, &mut counts, Relief::Modulo(7), 2), Ok(()));
    assert_eq!(counts, vec![2, 4, 3, 5]);
}

#[test]
fn relief_and_overflow() {
    let mut m = Monkey {
        items: vec![10, usize::MAX],
        operation: Op::Add(5),
        test: Test::DivisibleBy(5),
        if_true: 1,
        if_false: 2,
    };
    assert_eq!(m.inspect(Relief::Third), Err(Error::Overflow));
    assert_eq!(m.items, vec![10, usize::MAX]);
    m.items = vec![10, 11];
    assert_eq!(
        m.inspect(Relief::Modulo(7)),
        Ok(vec![Throw { item: 1, to_monkey: 2 }, Throw { item: 2, to_monkey: 2 }])
    );
    m.items = vec![10, 11];
    assert_eq!(
        m.inspect(Relief::Modulo(0)),
        Ok(vec![Throw { item: 15, to_monkey: 1 }, Throw { item: 16, to_monkey: 2 }])
    );
    m.items = vec![9];
    m.test = Test::DivisibleBy(0);
    assert_eq!(m.inspect(Relief::Third), Ok(vec![Throw { item: 4, to_monkey: 2 }]));
}

#[test]
fn the_two_busiest() {
    assert_eq!(monkey_business(&vec![]), Some(1));
    assert_eq!(monkey_business(&vec![7]), Some(7));
    assert_eq!(monkey_business(&vec![7, 0]), Some(0));
    assert_eq!(monkey_business(&vec![101, 95, 7, 105]), Some(10605));
    assert_eq!(monkey_business(&vec![5, 5, 5]), Some(25));
    assert_eq!(monkey_business(&vec![usize::MAX, 2, 1]), None);
}

#[test]
fn lists_of_items() {
    let chars = |s: &str| s.chars().collect::<Vec<char>>();
    assert_eq!(parse_items(&chars("79, 98")), Some(vec![79, 98]));
    assert_eq!(parse_items(&chars("5")), Some(vec![5]));
    assert_eq!(parse_items(&chars("")), None);
    assert_eq!(parse_items(&chars("5,6")), None);
    assert_eq!(parse_items(&chars("5, ")), None);
    assert_eq!(parse_items(&chars("5,  6")), None);
    assert_eq!(parse_items(&chars("5, x")), None);
}

fn notes(line: usize, with: &str) -> String {
    let first: Vec<&str> = EXAMPLE.lines().take(6).collect();
    let mut lines: Vec<String> = first.iter().map(|l| l.to_string()).collect();
    lines[4] = "    If true: throw to monkey 0".to_string();
    lines[5] = "    If false: throw to monkey 0".to_string();
    lines[line] = with.to_string();
    lines.join("\n")
}

#[test]
fn a_single_monkey_throws_to_itself() {
    assert_eq!(compute1(&notes(0, "Monkey 0:")), Ok(40));
    assert_eq!(compute2(&notes(0, "Monkey 0:")), Ok(20000));
}

#[test]
fn malformed_notes() {
    assert_eq!(compute1(""), Err(Error::Incomplete));
    assert_eq!(compute1(&format!("{}\n\n", EXAMPLE.trim_end())), Err(Error::Incomplete));
    assert_eq!(compute1(&notes(0, "Ape 0:")), Err(Error::InvalidHeader));
    assert_eq!(compute1(&notes(0, "Monkey")), Err(Error::InvalidHeader));
    assert_eq!(compute1(&notes(1, " Starting items: 1")), Err(Error::InvalidItems));
    assert_eq!(compute1(&notes(1, "  Starting items: ")), Err(Error::InvalidItems));
    assert_eq!(compute1(&notes(1, "  Starting items: 1,2")), Err(Error::InvalidItems));
    assert_eq!(compute1(&notes(2, "  Operation: new = old - 19")), Err(Error::InvalidOperation));
    assert_eq!(compute1(&notes(2, "  Operation: new = old + old")), Err(Error::InvalidOperation));
    assert_eq!(compute1(&notes(2, "  Operation: old * 19")), Err(Error::InvalidOperation));
    assert_eq!(compute1(&notes(3, "  Test: divisible by 0")), Err(Error::InvalidTest));
    assert_eq!(compute1(&notes(3, "  Test: divisible by")), Err(Error::InvalidTest));
    assert_eq!(compute1(&notes(4, "    If true: throw to monkey x")), Err(Error::InvalidTarget));
    assert_eq!(compute1(&notes(5, "    If false: throw to monkey 1")), Err(Error::InvalidTarget));
    assert_eq!(compute1(&notes(5, "    If true: throw to monkey 0")), Err(Error::InvalidTarget));
    let big = format!("  Starting items: {}", usize::MAX);
    assert_eq!(compute1(&notes(1, &big)), Err(Error::Overflow));
}
