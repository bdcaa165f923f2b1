use raoc22::day07::{compute1, compute2, join_path, traverse, Cmd, Error, Sizes};

const EXAMPLE: &str = "$ cd /
$ ls
dir a
14848514 b.txt
8504156 c.dat
dir d
$ cd a
$ ls
dir e
29116 f
2557 g
62596 h.lst
$ cd e
$ ls
584 i
$ cd ..
$ cd ..
$ cd d
$ ls
4060174 j
8033020 d.log
5626152 d.ext
7214296 k
";

fn chars(s: &str) -> Vec<char> {
    s.chars().collect()
}

#[test]
fn day07_part1_example() {
    assert_eq!(compute1(EXAMPLE).unwrap(), 95437)
}

#[test]
fn day07_part2_example() {
    assert_eq!(compute2(EXAMPLE).unwrap(), 24933642)
}

#[test]
fn test_day7_part1_example() {
    assert_eq!(compute1(EXAMPLE).unwrap(), 95437)
}

#[test]
fn test_day7_part2_example() {
    assert_eq!(compute2(EXAMPLE).unwrap(), 24933642)
}

#[test]
fn commands_are_read_by_their_words() {
    assert_eq!(Cmd::parse("$ cd .."), Ok(Cmd::CdUp));
    assert_eq!(Cmd::parse("$ cd /"), Ok(Cmd::Cd(chars("/"))));
    assert_eq!(Cmd::parse("  $   cd   abc "), Ok(Cmd::Cd(chars("abc"))));
    assert_eq!(Cmd::parse("$ ls"), Ok(Cmd::Ls));
    assert_eq!(Cmd::parse("dir e"), Ok(Cmd::DirInfo(chars("e"))));
    assert_eq!(Cmd::parse("62596 h.lst"), Ok(Cmd::FileInfo(chars("h.lst"), 62596)));
    assert_eq!(Cmd::parse("$ cd"), Err(Error::InvalidSize));
    assert_eq!(Cmd::parse("x h.lst"), Err(Error::InvalidSize));
    assert_eq!(Cmd::parse("-1 h.lst"), Err(Error::InvalidSize));
    assert_eq!(Cmd::parse(""), Err(Error::InvalidCommand));
    assert_eq!(Cmd::parse("ls"), Err(Error::InvalidCommand));
    assert_eq!(Cmd::parse("$ cd a b"), Err(Error::InvalidCommand));
    assert_eq!(Cmd::from_chars(&chars("dir dir")), Ok(Cmd::DirInfo(chars("dir"))));
}

#[test]
fn a_directory_entered_twice_keeps_its_last_size() {
    let text = "$ cd a\n10 x\n$ cd ..\n$ cd a\n3 y\n$ cd ..\n5 z\n";
    assert_eq!(compute1(text), Ok(3));
    // 18 are used in all, so nothing has to be freed: the smallest directory is the answer
    assert_eq!(compute2(text), Ok(3));
}

#[test]
fn leaving_the_outermost_directory_ends_the_walk() {
    assert_eq!(compute1("7 x\n$ cd ..\n$ cd a\n5 y\n"), Ok(0));
    assert_eq!(compute1(""), Ok(0));
    assert_eq!(compute2(""), Err(Error::NoDirectory));
}

#[test]
fn smallest_directory_that_frees_enough() {
    let text = "$ cd /\n$ cd big\n45000000 a\n$ cd ..\n$ cd small\n4000000 b\n$ cd ..\n$ cd mid\n9000001 c\n";
    // 58000001 used, 18000001 to free
    assert_eq!(compute2(text), Ok(45000000));
    let text = "$ cd /\n$ cd big\n45000000 a\n$ cd ..\n$ cd mid\n5000000 c\n";
    // 50000000 used, 10000000 to free
    assert_eq!(compute2(text), Ok(45000000));
    assert_eq!(compute1(text), Ok(0));
    assert_eq!(compute1("$ cd a\n100000 x\n$ cd ..\n$ cd b\n100001 y\n"), Ok(100000));
}

#[test]
fn errors_of_a_session() {
    assert_eq!(compute1("$ cd /\nnonsense\n"), Err(Error::InvalidCommand));
    assert_eq!(compute2("$ cd /\n\n"), Err(Error::InvalidCommand));
    assert_eq!(compute1("$ cd /\nbig file\n"), Err(Error::InvalidSize));
    let huge = format!("$ cd /\n{} a\n{} b\n", usize::MAX, 1);
    assert_eq!(compute1(&huge), Err(Error::Overflow));
    assert_eq!(compute2(&huge), Err(Error::Overflow));
}

#[test]
fn traverse_reports_sizes_and_position() {
    let cmds = vec![
        Cmd::Cd(chars("a")),
        Cmd::FileInfo(chars("f"), 4),
        Cmd::Cd(chars("b")),
        Cmd::FileInfo(chars("g"), 6),
        Cmd::CdUp,
        Cmd::Ls,
        Cmd::DirInfo(chars("b")),
        Cmd::CdUp,
        Cmd::FileInfo(chars("h"), 1),
        Cmd::CdUp,
        Cmd::FileInfo(chars("i"), 100),
    ];
    let mut pos = 0;
    let mut path = vec![chars("root")];
    let mut sizes = Sizes::new();
    assert_eq!(traverse(&cmds, &mut pos, &mut path, &mut sizes), Ok(11));
    assert_eq!(pos, 10);
    assert_eq!(path, vec![chars("root")]);
    assert_eq!(sizes.small_sum(100), Some(16));
    assert_eq!(sizes.small_sum(9), Some(6));
    assert_eq!(sizes.least_from(7), Some(10));
    assert_eq!(sizes.least_from(11), None);
    sizes.insert(chars("root/a/b"), 20);
    assert_eq!(sizes.small_sum(100), Some(30));
    assert_eq!(join_path(&vec![chars("/"), chars("a"), chars("b")]), chars("//a/b"));
    assert_eq!(join_path(&vec![]), chars(""));
}
