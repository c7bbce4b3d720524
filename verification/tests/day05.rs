use aoc2018::polymer::{
    delete_type, have_opposite_polarity, invert_polarity, react_fully, react_once, solve_part2,
};

#[test]
fn test_react_once() {
    assert_eq!(react_once(&['a']), (vec!['a'], false));
    assert_eq!(react_once(&['a', 'a']), (vec!['a', 'a'], false));
    assert_eq!(react_once(&['a', 'A']), (vec![], true));
    assert_eq!(react_once(&['b', 'a', 'A']), (vec!['b'], true));
    assert_eq!(
        react_once(&['b', 'a', 'A', 'B']),
        (vec!['b', 'B'], true),
        "baAB should yield bB"
    );
    assert_eq!(react_once(&['b', 'B', 'a', 'A']), (vec![], true));
}

#[test]
fn test_react_fully() {
    assert_eq!(react_fully("baAB"), "");
    assert_eq!(&react_fully("a"), "a");
    assert_eq!(react_fully("aa"), "aa");
    assert_eq!(react_fully("aA"), "");
    assert_eq!(react_fully("baA"), "b");
    assert_eq!(react_fully("aAbB"), "");
}

#[test]
fn test_provided_example_part1() {
    assert_eq!(react_fully("dabAcCaCBAcCcaDA"), "dabCBAcaDA");
}

#[test]
fn test_provided_example_part2() {
    let best = solve_part2("dabAcCaCBAcCcaDA");
    match best {
        None => {
            panic!("failed to solve part 2 example");
        }
        Some((ch, len)) => {
            assert_eq!(ch, 'c');
            assert_eq!(len, 4);
        }
    }
}

#[test]
fn test_polarity_helpers() {
    assert_eq!(invert_polarity('a'), 'A');
    assert_eq!(invert_polarity('A'), 'a');
    assert_eq!(invert_polarity('!'), '!');
    assert!(have_opposite_polarity('a', 'A'));
    assert!(have_opposite_polarity('A', 'a'));
    assert!(!have_opposite_polarity('a', 'a'));
    assert!(!have_opposite_polarity('a', 'B'));
}

#[test]
fn test_delete_type() {
    assert_eq!(delete_type('a', 'A', "dabAcCaCBAcCcaDA"), "dbcCCBcCcD");
    assert_eq!(delete_type('z', 'Z', "abc"), "abc");
}

#[test]
fn test_solve_part2_empty_input() {
    assert_eq!(solve_part2(""), None);
}
