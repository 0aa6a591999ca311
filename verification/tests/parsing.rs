use fractal::parsing::DiceParseError;
use fractal::parsing::DiceType;
use fractal::parsing::parse_dice_string;

#[test]
fn parses_plain_rolls() {
    assert_eq!(parse_dice_string("1d20"), Ok(DiceType::new(1, 20, 0)));
    assert_eq!(parse_dice_string("12d34"), Ok(DiceType::new(12, 34, 0)));
}

#[test]
fn parses_bonuses() {
    assert_eq!(parse_dice_string("1d6+3"), Ok(DiceType::new(1, 6, 3)));
    assert_eq!(parse_dice_string("3d8-4"), Ok(DiceType::new(3, 8, -4)));
}

#[test]
fn finds_rolls_anywhere_in_the_string() {
    assert_eq!(parse_dice_string("xx3d6yy"), Ok(DiceType::new(3, 6, 0)));
}

#[test]
fn last_roll_wins_but_bonus_survives() {
    // Each expression found overrides the count and sides; the bonus is only
    // overridden where the later expression has one of its own.
    assert_eq!(parse_dice_string("1d6+2 3d8"), Ok(DiceType::new(3, 8, 2)));
    assert_eq!(parse_dice_string("1d6+2 3d8-1"), Ok(DiceType::new(3, 8, -1)));
}

#[test]
fn rejects_rolls_that_are_not_there() {
    assert_eq!(parse_dice_string(""), Err(DiceParseError));
    assert_eq!(parse_dice_string("nope"), Err(DiceParseError));
    assert_eq!(parse_dice_string("d6"), Err(DiceParseError));
    assert_eq!(parse_dice_string("3d"), Err(DiceParseError));
    assert_eq!(parse_dice_string("+3"), Err(DiceParseError));
}

#[test]
fn number_range_limits() {
    assert_eq!(
        parse_dice_string("2147483647d1"),
        Ok(DiceType::new(i32::MAX, 1, 0))
    );
    assert_eq!(parse_dice_string("99999999999d6"), Err(DiceParseError));
    assert_eq!(parse_dice_string("1d99999999999"), Err(DiceParseError));
    assert_eq!(
        parse_dice_string("1d6-2147483648"),
        Ok(DiceType::new(1, 6, i32::MIN))
    );
    assert_eq!(parse_dice_string("1d6+2147483648"), Err(DiceParseError));
    assert_eq!(parse_dice_string("1d6-2147483649"), Err(DiceParseError));
}

#[test]
fn leading_zeros_are_values() {
    assert_eq!(parse_dice_string("007d010"), Ok(DiceType::new(7, 10, 0)));
}
