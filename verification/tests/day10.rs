use raoc22::day10::{compute1, compute2, parse, Error, Inst, CPU};

const EXAMPLE: &str = "addx 15
addx -11
addx 6
addx -3
addx 5
addx -1
addx -8
addx 13
addx 4
noop
addx -1
addx 5
addx -1
addx 5
addx -1
addx 5
addx -1
addx 5
addx -1
addx -35
addx 1
addx 24
addx -19
addx 1
addx 16
addx -11
noop
noop
addx 21
addx -15
noop
noop
addx -3
addx 9
addx 1
addx -3
addx 8
addx 1
addx 5
noop
noop
noop
noop
noop
addx -36
noop
addx 1
addx 7
noop
noop
noop
addx 2
addx 6
noop
noop
noop
noop
noop
addx 1
noop
noop
addx 7
addx 1
noop
addx -13
addx 13
addx 7
noop
addx 1
addx -33
noop
noop
noop
addx 2
noop
noop
noop
addx 8
noop
addx -1
addx 2
addx 1
noop
addx 17
addx -9
addx 1
addx 1
addx -3
addx 11
noop
noop
addx 1
noop
addx 1
noop
noop
addx -13
addx -19
addx 1
addx 3
addx 26
addx -30
addx 12
addx -1
addx 3
addx 1
noop
noop
noop
addx -9
addx 18
addx 1
addx 2
noop
noop
addx 9
noop
noop
noop
addx -1
addx 2
addx -37
addx 1
addx 3
noop
addx 15
addx -21
addx 22
addx -6
addx 1
noop
addx 2
addx 1
noop
addx -10
noop
noop
addx 20
addx 1
addx 2
addx 2
addx -6
addx -11
noop
noop
noop
";

#[test]
fn day10_part1_example() {
    assert_eq!(compute1(EXAMPLE).unwrap(), 13140);
}

#[test]
fn day10_part2_example() {
    let want = "\
        ##..##..##..##..##..##..##..##..##..##..\n\
        ###...###...###...###...###...###...###.\n\
        ####....####....####....####....####....\n\
        #####.....#####.....#####.....#####.....\n\
        ######......######......######......####\n\
        #######.......#######.......#######.....\n";
    assert_eq!(compute2(EXAMPLE).unwrap(), want);
}

#[test]
fn the_register_changes_after_two_cycles() {
    let mut cpu = CPU::new(vec![Inst::NoOp, Inst::AddX(3), Inst::AddX(-5)]);
    assert_eq!((cpu.cycle, cpu.x, cpu.pc, cpu.cur), (0, 1, 0, None));
    let mut seen = Vec::new();
    for _ in 0..7 {
        assert!(cpu.can_tick());
        cpu.tick();
        seen.push((cpu.cycle, cpu.x, cpu.pc, cpu.icycles));
    }
    assert_eq!(
        seen,
        vec![
            (1, 1, 1, 0),
            (2, 1, 2, 0),
            (3, 1, 2, 1),
            (4, 4, 3, 0),
            (5, 4, 3, 1),
            (6, -1, 4, 0),
            (7, -1, 5, 0),
        ]
    );
    assert_eq!(cpu.cur, None);
    assert_eq!(cpu.display, "#####..");
}

#[test]
fn the_picture_has_forty_columns() {
    let picture = compute2("").unwrap();
    let lines: Vec<&str> = picture.lines().collect();
    assert_eq!(lines.len(), 6);
    for line in lines {
        assert_eq!(line, "###.....................................");
    }
    assert_eq!(compute1(""), Ok(20 + 60 + 100 + 140 + 180 + 220));
}

#[test]
fn reading_instructions() {
    let chars = |s: &str| s.chars().collect::<Vec<char>>();
    assert_eq!(parse(&chars("noop")), Ok(Inst::NoOp));
    assert_eq!(parse(&chars("addx -12")), Ok(Inst::AddX(-12)));
    assert_eq!(parse(&chars("  addx   +7 ")), Ok(Inst::AddX(7)));
    assert_eq!(parse(&chars("addx")), Err(Error::InvalidInstruction));
    assert_eq!(parse(&chars("addx x")), Err(Error::InvalidInstruction));
    assert_eq!(parse(&chars("noop 1")), Err(Error::InvalidInstruction));
    assert_eq!(parse(&chars("")), Err(Error::InvalidInstruction));
    assert_eq!(compute1("noop\njump 3\n"), Err(Error::InvalidInstruction));
    assert_eq!(compute2("noop\n\n").err(), Some(Error::InvalidInstruction));
}

#[test]
fn numbers_out_of_range() {
    let text = format!("addx {}\naddx 1\n", isize::MAX);
    assert_eq!(compute1(&text), Err(Error::Overflow));
    assert_eq!(compute2(&text).err(), Some(Error::Overflow));
    let big = format!("addx {}\n", isize::MAX / 20);
    assert_eq!(compute1(&big), Err(Error::Overflow));
    let mut cpu = CPU::new(vec![Inst::AddX(isize::MAX)]);
    cpu.tick();
    cpu.tick();
    assert!(!cpu.can_tick());
}
