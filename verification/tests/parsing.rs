use diceroll::notation::{parse_notation, DieSides, DieSpec, ParseError};

#[test]
fn parses_plain_standard_notation() {
    let d = parse_notation("2d6").unwrap();
    assert_eq!(
        d,
        DieSpec { count: 2, sides: DieSides::Standard(6), modifier: 0 }
    );
    let d = parse_notation("10d20").unwrap();
    assert_eq!(
        d,
        DieSpec { count: 10, sides: DieSides::Standard(20), modifier: 0 }
    );
    let d = parse_notation("1d1").unwrap();
    assert_eq!(
        d,
        DieSpec { count: 1, sides: DieSides::Standard(1), modifier: 0 }
    );
}

#[test]
fn parses_positive_modifier() {
    let d = parse_notation("1d20+5").unwrap();
    assert_eq!(d.count, 1);
    assert_eq!(d.sides, DieSides::Standard(20));
    assert_eq!(d.modifier, 5);
}

#[test]
fn parses_negative_modifier() {
    let d = parse_notation("3d6-2").unwrap();
    assert_eq!(d.count, 3);
    assert_eq!(d.sides, DieSides::Standard(6));
    assert_eq!(d.modifier, -2);
}

#[test]
fn parses_fudge_notation() {
    let d = parse_notation("4dF").unwrap();
    assert_eq!(d.count, 4);
    assert_eq!(d.sides, DieSides::Fudge);
    assert_eq!(d.modifier, 0);
}

#[test]
fn parses_fudge_with_modifier() {
    let d = parse_notation("2dF+1").unwrap();
    assert_eq!(d.count, 2);
    assert_eq!(d.sides, DieSides::Fudge);
    assert_eq!(d.modifier, 1);
}

#[test]
fn rejects_text_without_notation() {
    assert_eq!(parse_notation("abc"), Err(ParseError));
    assert_eq!(parse_notation(""), Err(ParseError));
    assert_eq!(parse_notation("dF"), Err(ParseError));
}

#[test]
fn rejects_missing_count() {
    assert_eq!(parse_notation("d6"), Err(ParseError));
}

#[test]
fn rejects_zero_sides() {
    assert_eq!(parse_notation("2d0"), Err(ParseError));
}

#[test]
fn finds_notation_inside_longer_text() {
    // The leftmost occurrence of the pattern is the one parsed.
    let d = parse_notation("roll 2d6 now").unwrap();
    assert_eq!(
        d,
        DieSpec { count: 2, sides: DieSides::Standard(6), modifier: 0 }
    );
    let d = parse_notation("1d2d3").unwrap();
    assert_eq!(
        d,
        DieSpec { count: 1, sides: DieSides::Standard(2), modifier: 0 }
    );
}

#[test]
fn sign_without_digits_is_no_modifier() {
    let d = parse_notation("2d6+").unwrap();
    assert_eq!(d.modifier, 0);
}

#[test]
fn count_too_large_for_u32_falls_back_to_one() {
    let d = parse_notation("99999999999d6").unwrap();
    assert_eq!(d.count, 1);
    assert_eq!(d.sides, DieSides::Standard(6));
}

#[test]
fn sides_too_large_for_u32_is_rejected() {
    assert_eq!(parse_notation("2d99999999999"), Err(ParseError));
}

#[test]
fn modifier_out_of_range_is_rejected() {
    assert_eq!(parse_notation("2d6+99999999999"), Err(ParseError));
    assert_eq!(parse_notation("2d6+2147483648"), Err(ParseError));
    assert_eq!(parse_notation("2d6-2147483648").unwrap().modifier, -2147483648);
}

#[test]
fn error_message_names_the_expected_shape() {
    let e = parse_notation("nope").unwrap_err();
    assert_eq!(e.message(), "Invalid dice format! Use XdX or XdF");
}
