use aoc2018::inventory::{checksum, diffcount, find_id_pair, get_ids, solve_part2, two_or_three};

#[test]
fn test_two_or_three() {
    assert_eq!(two_or_three("abcdef"), (None, None));
    assert_eq!(two_or_three("bababc"), (Some(1), Some(1)));
    assert_eq!(two_or_three("abbcde"), (Some(1), None));
    assert_eq!(two_or_three("abcccd"), (None, Some(1)));
    assert_eq!(two_or_three("aabcdd"), (Some(2), None));
    assert_eq!(two_or_three("abcdee"), (Some(1), None));
    assert_eq!(two_or_three("ababab"), (None, Some(2)));
}

#[test]
fn test_checksum() {
    let ids = get_ids("abcdef\nbababc\nabbcde\nabcccd\naabcdd\nabcdee\nababab\n");
    assert_eq!(checksum(&ids), 12);
}

#[test]
fn test_diffcount() {
    assert_eq!(diffcount("abcde", "axcye"), 2);
    assert_eq!(diffcount("fghij", "fguij"), 1);
}

#[test]
fn test_id_pair() {
    let ids = vec![
        "abcde", "fghij", "klmno", "pqrst", "fguij", "axcye", "wvxyz",
    ];
    assert_eq!(find_id_pair(&ids), Some(("fghij", "fguij")));
}

#[test]
fn test_solve_part2() {
    let ids = vec![
        "abcde", "fghij", "klmno", "pqrst", "fguij", "axcye", "wvxyz",
    ];
    match solve_part2(&ids) {
        Ok(s) if &s == "fgij" => (),
        Ok(other) => {
            panic!("wrong solution: {other}");
        }
        Err(e) => {
            panic!("solution failed: {e:?}");
        }
    }
}

#[test]
fn test_solve_part2_no_pair() {
    let ids = vec!["abc", "xyz"];
    assert!(solve_part2(&ids).is_err());
}

#[test]
fn test_get_ids_drops_trailing_segment() {
    let ids = get_ids("one\ntwo\n");
    assert_eq!(ids, vec!["one", "two"]);
    let ids = get_ids("one\ntwo");
    assert_eq!(ids, vec!["one", "two"]);
}
