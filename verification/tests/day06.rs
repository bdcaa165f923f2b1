use raoc22::day06::{all_different, find_marker};

#[test]
fn day06_part1_example() {
    let tests = vec![
        ("mjqjpqmgbljsphdztnvjfqwrcgsmlb", Some(7)),
        ("bvwbjplbgvbhsrlpgdmjqwftvncz", Some(5)),
        ("nppdvjthqldpwncqszvftbrmjlhg", Some(6)),
        ("nznrnfrfntjfmvfwmzdfjlvtqnbhcprsg", Some(10)),
        ("zcfzfwzzqfrljwzlrfnpqdbhtmscgvjw", Some(11)),
    ];
    for (input, want) in tests {
        assert_eq!(find_marker(&input, 4), want)
    }
}

#[test]
fn day06_part2_example() {
    let tests = vec![
        ("mjqjpqmgbljsphdztnvjfqwrcgsmlb", Some(19)),
        ("bvwbjplbgvbhsrlpgdmjqwftvncz", Some(23)),
        ("nppdvjthqldpwncqszvftbrmjlhg", Some(23)),
        ("nznrnfrfntjfmvfwmzdfjlvtqnbhcprsg", Some(29)),
        ("zcfzfwzzqfrljwzlrfnpqdbhtmscgvjw", Some(26)),
    ];
    for (input, want) in tests {
        assert_eq!(find_marker(&input, 14), want)
    }
}

#[test]
fn day6_part1_example() {
    let tests = vec![
        ("mjqjpqmgbljsphdztnvjfqwrcgsmlb", Some(7)),
        ("bvwbjplbgvbhsrlpgdmjqwftvncz", Some(5)),
        ("nppdvjthqldpwncqszvftbrmjlhg", Some(6)),
        ("nznrnfrfntjfmvfwmzdfjlvtqnbhcprsg", Some(10)),
        ("zcfzfwzzqfrljwzlrfnpqdbhtmscgvjw", Some(11)),
    ];
    for (input, want) in tests {
        assert_eq!(find_marker(&input, 4), want)
    }
}

#[test]
fn day6_part2_example() {
    let tests = vec![
        ("mjqjpqmgbljsphdztnvjfqwrcgsmlb", Some(19)),
        ("bvwbjplbgvbhsrlpgdmjqwftvncz", Some(23)),
        ("nppdvjthqldpwncqszvftbrmjlhg", Some(23)),
        ("nznrnfrfntjfmvfwmzdfjlvtqnbhcprsg", Some(29)),
        ("zcfzfwzzqfrljwzlrfnpqdbhtmscgvjw", Some(26)),
    ];
    for (input, want) in tests {
        assert_eq!(find_marker(&input, 14), want)
    }
}

#[test]
fn marker_needs_more_than_n_characters() {
    assert_eq!(find_marker("abcd", 4), None);
    assert_eq!(find_marker("abcde", 4), Some(5));
    assert_eq!(find_marker("aabcd", 4), Some(5));
    assert_eq!(find_marker("", 0), None);
    assert_eq!(find_marker("x", 0), Some(1));
    assert_eq!(find_marker("aaaa", 1), Some(2));
    assert_eq!(find_marker("aaaa", 2), None);
    assert_eq!(find_marker("ab", 5), None);
}

#[test]
fn marker_counts_characters_not_bytes() {
    assert_eq!(find_marker("ééab", 2), Some(3));
}

#[test]
fn all_different_looks_at_the_window_only() {
    let s: Vec<char> = "abca".chars().collect();
    assert!(all_different(&s, 0, 3));
    assert!(all_different(&s, 1, 4));
    assert!(!all_different(&s, 0, 4));
    assert!(all_different(&s, 2, 2));
}
