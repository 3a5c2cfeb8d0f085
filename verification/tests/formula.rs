//! Formula parsing, validity, formatting and averages.

use battleforge::{Dice, Formula};

#[test]
fn from() {
    let f = Formula::from_text("-31").unwrap();
    assert_eq!(f.fixed(), -31);
    assert_eq!(f.dice().dice_count(), 0);
    let f = Formula::from_text("7").unwrap();
    assert_eq!(f.fixed(), 7);
    assert_eq!(f.dice().dice_count(), 0);
    let f = Formula::from_text("3d6").unwrap();
    assert_eq!(f.fixed(), 0);
    assert_eq!(f.dice().face_count(), 6);
    assert_eq!(f.dice().dice_count(), 3);
    let f = Formula::from_text("2d7+8").unwrap();
    assert_eq!(f.fixed(), 8);
    assert_eq!(f.dice().face_count(), 7);
    assert_eq!(f.dice().dice_count(), 2);
    let f = Formula::from_text("30d20-10").unwrap();
    assert_eq!(f.fixed(), -10);
    assert_eq!(f.dice().face_count(), 20);
    assert_eq!(f.dice().dice_count(), 30);
}

#[test]
fn is_formula() {
    assert!(Formula::is_formula("27"));
    assert!(Formula::is_formula("3d6"));
    assert!(Formula::is_formula("123d6"));
    assert!(Formula::is_formula("1d234"));
    assert!(Formula::is_formula("23d4-1"));
    assert!(Formula::is_formula("23d4-10"));
    assert!(Formula::is_formula("23d4+17"));
    assert!(Formula::is_formula("23d6+7"));
    assert!(Formula::is_formula("06d6+7"));
    assert!(Formula::is_formula("6d4+0"));
    assert!(Formula::is_formula("0d6+7"));
    assert!(Formula::is_formula("0d6+0"));
    assert!(!Formula::is_formula("6d0+7"));
}

#[test]
fn from_text_rejects_garbage() {
    assert!(Formula::from_text("").is_none());
    assert!(Formula::from_text("abc").is_none());
    assert!(Formula::from_text("3d").is_none());
    assert!(Formula::from_text("d6").is_none());
    assert!(Formula::from_text("3d6+").is_none());
    assert!(Formula::from_text("3d6-x").is_none());
    assert!(Formula::from_text("+").is_none());
}

#[test]
fn from_text_rejects_oversized_values() {
    // syntactically valid, but the values do not fit the formula limits
    assert!(Formula::is_formula("99999999999"));
    assert!(Formula::from_text("99999999999").is_none());
    assert!(Formula::is_formula("999999d6"));
    assert!(Formula::from_text("999999d6").is_none());
}

#[test]
fn to_text_round_trip() {
    for text in ["-31", "7", "0", "3d6", "2d7+8", "30d20-10", "0d6+7", "5d1", "6d4+0"] {
        let f = Formula::from_text(text).unwrap();
        let printed = f.to_text();
        let g = Formula::from_text(&printed).unwrap();
        assert_eq!(f.dice().dice_count(), g.dice().dice_count());
        assert_eq!(f.dice().face_count(), g.dice().face_count());
        assert_eq!(f.fixed(), g.fixed());
    }
}

#[test]
fn to_text_canonical() {
    assert_eq!(Formula::from_text("-31").unwrap().to_text(), "-31");
    assert_eq!(Formula::from_text("2d6+3").unwrap().to_text(), "2d6+3");
    assert_eq!(Formula::from_text("2d6-3").unwrap().to_text(), "2d6-3");
    assert_eq!(Formula::from_text("3d6").unwrap().to_text(), "3d6");
    assert_eq!(Formula::from_text("+31").unwrap().to_text(), "31");
}

#[test]
fn average_is_exact() {
    // average = count * faces / 2 + fixed, reported doubled to stay integral
    let f = Formula::from_text("2d6+3").unwrap();
    assert_eq!(f.average_roll_x2(), 2 * 6 + 2 * 3);
    let f = Formula::from_text("1d5").unwrap();
    assert_eq!(f.average_roll_x2(), 5);
    let f = Formula::from_text("-4").unwrap();
    assert_eq!(f.average_roll_x2(), -8);
}

#[test]
fn is_dice_finds_die_notation_anywhere() {
    assert!(Dice::is_dice("3d6"));
    assert!(Dice::is_dice("roll 3d6 now"));
    assert!(Dice::is_dice("12d20"));
    assert!(!Dice::is_dice("3d"));
    assert!(!Dice::is_dice("d6"));
    assert!(!Dice::is_dice("3d0"));
    assert!(!Dice::is_dice("dragon"));
    assert!(!Dice::is_dice(""));
}

#[test]
fn formula_subtraction_floors_the_dice_at_zero() {
    let mut f = Formula::from_text("3d6+5").unwrap();
    f.sub_formula(&Formula::from_text("1d6+2").unwrap());
    assert_eq!(f.dice().dice_count(), 2);
    assert_eq!(f.dice().face_count(), 6);
    assert_eq!(f.fixed(), 3);
    f.sub_formula(&Formula::from_text("5d6").unwrap());
    assert_eq!(f.dice().dice_count(), 0);
    assert_eq!(f.fixed(), 3);
    // a dice-free right side never touches the die size
    f.sub_formula(&Formula::from_text("7").unwrap());
    assert_eq!(f.fixed(), -4);
    assert_eq!(f.dice().face_count(), 6);
}
