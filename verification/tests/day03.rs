use aoc2018::fabric::{
    count_overlap_squares, find_nonoverlapping_claim, get_claims, Claim, ClaimError, ClaimParser,
    Square,
};

#[test]
fn test_claim_parser() {
    let parser = ClaimParser::new().expect("should be able to instantiate a ClaimParser");
    assert!(parser.parse("#1 @ 1,3: 4x4").is_ok());
    assert!(parser.parse("1 @ 1,3: 4x4").is_err());
    assert!(parser.parse("#1@ 1,3: 4x4").is_err());
    assert!(parser.parse("#1 @ a,3: 4x4").is_err());
    assert!(parser.parse("#1 @ 3,a: 4x4").is_err());
    assert!(parser.parse("#1 @ 3,: 4x4").is_err());
    assert!(parser.parse("#1 @ ,3: 4x4").is_err());
    assert!(parser.parse("#1 @ 1,3: 4y4").is_err());
    assert!(parser.parse("#1 @ 1,3: x4").is_err());
    assert!(parser.parse("#1 @ 1,3: 4x").is_err());
    assert!(!parser.parse("#1 @ 1,3: 4x4z").is_ok());

    assert_eq!(
        parser.parse("#1 @ 1,3: 4x4").expect("test data is valid"),
        Claim {
            id: 1,
            left: 1,
            top: 3,
            width: 4,
            height: 4,
        }
    );
}

#[test]
fn test_claim_parser_number_too_big() {
    let parser = ClaimParser::new().expect("parser");
    assert_eq!(
        parser.parse("#1 @ 1,3: 4294967296x4"),
        Err(ClaimError::BadNumber)
    );
    assert_eq!(
        parser.parse("#1 % 1,3: 4x4"),
        Err(ClaimError::BadSyntax)
    );
}

#[test]
fn test_claim_squares() {
    let claim = Claim {
        id: 7,
        left: 2,
        top: 5,
        width: 2,
        height: 3,
    };
    let squares = claim.squares();
    assert_eq!(
        squares,
        vec![
            Square { left: 2, top: 5 },
            Square { left: 2, top: 6 },
            Square { left: 2, top: 7 },
            Square { left: 3, top: 5 },
            Square { left: 3, top: 6 },
            Square { left: 3, top: 7 },
        ]
    );
}

#[test]
fn test_count_overlap_squares() {
    let claims = get_claims("#1 @ 1,3: 4x4\n#2 @ 3,1: 4x4\n#3 @ 5,5: 2x2\n")
        .expect("valid test input");
    assert_eq!(count_overlap_squares(&claims), 4);
}

#[test]
fn test_find_nonoverlapping_claim() {
    let claims = get_claims("#1 @ 1,3: 4x4\n#2 @ 3,1: 4x4\n#3 @ 5,5: 2x2\n")
        .expect("valid test input");
    match find_nonoverlapping_claim(&claims) {
        Some(3) => (),
        Some(n) => {
            panic!("wrong non-overlap id, expected 3 but got {n}");
        }
        None => {
            panic!("failed to find non-overlap");
        }
    }
}

#[test]
fn test_find_nonoverlapping_claim_ambiguous() {
    let claims = get_claims("#1 @ 0,0: 2x2\n#2 @ 10,10: 2x2\n").expect("valid test input");
    assert_eq!(find_nonoverlapping_claim(&claims), None);
}
