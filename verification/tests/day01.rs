use aoc2018::chronal::{first_repeat, get_input, ChronalError};

#[test]
fn test_part2() {
    assert_eq!(
        first_repeat(&get_input("+1\n-1\n").expect("wanted valid input")),
        Some(0)
    );
    assert_eq!(
        first_repeat(&get_input("+3\n+3\n+4\n-2\n-4\n").expect("wanted valid input")),
        Some(10)
    );
}

#[test]
fn test_get_input() {
    assert_eq!(get_input("1\n-2\n+3\n"), Ok(vec![1, -2, 3]));
    assert_eq!(get_input("five\n"), Err(ChronalError::BadLine));
    assert_eq!(get_input("1.5\n"), Err(ChronalError::BadLine));
    assert_eq!(get_input(""), Ok(vec![]));
    assert_eq!(
        get_input("-9223372036854775808\n9223372036854775807\n"),
        Ok(vec![i64::MIN, i64::MAX])
    );
    assert_eq!(get_input("9223372036854775808\n"), Err(ChronalError::BadLine));
}

#[test]
fn test_first_repeat_empty() {
    assert_eq!(first_repeat(&[]), None);
}

#[test]
fn test_first_repeat_immediate() {
    assert_eq!(first_repeat(&[0]), Some(0));
    assert_eq!(first_repeat(&[5, -5]), Some(0));
    assert_eq!(first_repeat(&[3, 3, -3]), Some(3));
}
