use dicer::{
    dice_content, find_dice, Dice, DiceError, Die, ParsingError, Roll, StructureError,
};

fn terms_of(text: &str) -> Vec<Die> {
    Dice::parse(text).unwrap().terms().clone()
}

#[test]
fn plain_die_stays_in_range() {
    let d20 = Dice::new(20).unwrap();
    for _ in 0..200 {
        let roll = d20.roll();
        assert!((1..=20).contains(&roll.result));
        assert_eq!(roll.dice_rolls.len(), 1);
        assert!((1..=20).contains(&roll.dice_rolls[0]));
    }
}

#[test]
fn added_die_stays_in_range() {
    let d6_minus_3 = Dice::new_added(6, -3).unwrap();
    for _ in 0..200 {
        assert!((1..=3).contains(&d6_minus_3.roll().result));
    }
    let d6_minus_10 = Dice::new_added(6, -10).unwrap();
    for _ in 0..50 {
        assert_eq!(d6_minus_10.roll().result, 1);
    }
}

#[test]
fn overwhelmed_term_gives_one() {
    let d6_minus_10 = Dice::new_subbed(6, 10).unwrap();
    let two_d4_minus_8 = Dice::new_full(4, 2, -8).unwrap();
    for _ in 0..100 {
        let roll = d6_minus_10.roll();
        assert_eq!(roll.dice_rolls, vec![1]);
        assert_eq!(roll.result, 1);
        assert_eq!(two_d4_minus_8.roll().result, 1);
    }
}

#[test]
fn roll_with_given_faces() {
    let five_d20_plus_3 = Dice::new_full(20, 5, 3).unwrap();
    let roll = five_d20_plus_3.roll_with(&vec![4]);
    assert_eq!(roll.dice_rolls, vec![23]);
    assert_eq!(roll.result, 23);
    assert_eq!(roll.dice, five_d20_plus_3);

    let mixed = Dice::parse("1d6-1d4").unwrap();
    let roll = mixed.roll_with(&vec![3, 4]);
    assert_eq!(roll.dice_rolls, vec![3, -4]);
    assert_eq!(roll.result, 1);
    assert_eq!(roll.to_string(), "[3-4]: 1");
}

#[test]
fn die_roll_with_clamps_and_negates() {
    assert_eq!(Die::new_subbed(6, 10).roll_with(6), 1);
    assert_eq!(Die::new_internal(4, 2, -1, true).roll_with(3), -5);
    assert_eq!(Die::new_full(20, 5, 69).roll_with(20), 169);
}

#[test]
fn large_count_rolls_without_overflow() {
    let big = Dice::parse("1337d420").unwrap();
    let roll = big.roll();
    assert!((1337..=561540).contains(&roll.result));
    assert_eq!(big.roll_with(&vec![420]).result, 561540);
}

#[test]
fn roll_text_keeps_leading_minus() {
    let roll = Roll {
        dice: Dice::parse("-1d20+1d20").unwrap(),
        dice_rolls: vec![-10, 10],
        result: 1,
    };
    assert_eq!(roll.to_string(), "[-10+10]: 1");
}

#[test]
fn parses_several_terms() {
    let d = Dice::parse("2d6+4+3d20").unwrap();
    assert_eq!(
        d.terms(),
        &vec![Die::new_full(6, 2, 4), Die::new_counted(20, 3)]
    );
    assert_eq!(d.to_string(), "2d6+4+3d20");

    let crazy = Dice::parse("420d69+1337-1d20+1337d420").unwrap();
    assert_eq!(
        crazy.terms(),
        &vec![
            Die::new_full(69, 420, 1337),
            Die::new_internal(20, 1, 0, true),
            Die::new_counted(420, 1337),
        ]
    );
    assert_eq!(crazy.to_string(), "420d69+1337-1d20+1337d420");
}

#[test]
fn leading_sign_is_dropped_in_text() {
    let d = Dice::parse("-1d4+1d6").unwrap();
    assert_eq!(
        d.terms(),
        &vec![Die::new_internal(4, 1, 0, true), Die::new(6)]
    );
    assert_eq!(d.to_string(), "1d4+1d6");
}

#[test]
fn blanks_are_ignored() {
    assert_eq!(terms_of(" 6d20\t-\n1d4 "), terms_of("6d20-1d4"));
    assert_eq!(terms_of("1 d 2 0"), terms_of("1d20"));
}

#[test]
fn field_defaults() {
    assert_eq!(terms_of("D8"), vec![Die::new(8)]);
    assert_eq!(terms_of("1d6!2+3"), vec![Die::new_added(6, 3)]);
    assert_eq!(terms_of("d70000"), vec![Die::new(6)]);
    assert_eq!(terms_of("70000d6"), vec![Die::new(6)]);
    assert_eq!(terms_of("1d6+99999999999"), vec![Die::new(6)]);
    assert_eq!(terms_of("1d6+2147483648"), vec![Die::new(6)]);
    assert_eq!(terms_of("1d6-2147483648"), vec![Die::new_added(6, i32::MIN)]);
    assert_eq!(terms_of("1d%5"), vec![Die::new(6)]);
    assert_eq!(terms_of("1d6+"), vec![Die::new(6)]);
    assert_eq!(terms_of("3d007"), vec![Die::new_counted(7, 3)]);
}

#[test]
fn each_error_kind() {
    let wrong = Err(DiceError::Parsing(ParsingError::WrongFormat));
    assert_eq!(Dice::parse(""), wrong);
    assert_eq!(Dice::parse("hello"), wrong);
    assert_eq!(Dice::parse("3d"), wrong);
    assert_eq!(Dice::parse("dd100"), wrong);
    assert_eq!(
        Dice::parse("1d0"),
        Err(DiceError::Structure(StructureError::ZeroEyes))
    );
    assert_eq!(
        Dice::parse("0d60"),
        Err(DiceError::Structure(StructureError::ZeroCount))
    );
    assert_eq!(
        Dice::parse("0d0"),
        Err(DiceError::Structure(StructureError::ZeroCount))
    );
    assert_eq!(
        Dice::parse("1d6+0d4"),
        Err(DiceError::Structure(StructureError::ZeroCount))
    );
    assert_eq!(Dice::new_counted(0, 0), Err(StructureError::ZeroEyes));
    assert_eq!(Dice::new_full(6, 0, 1), Err(StructureError::ZeroCount));
    assert_eq!(Dice::new_added(0, 1), Err(StructureError::ZeroEyes));
    assert_eq!(Dice::new_subbed(0, 1), Err(StructureError::ZeroEyes));
    assert_eq!(Dice::new_subbed(0, i32::MIN), Err(StructureError::ZeroEyes));
}

#[test]
fn error_messages() {
    assert_eq!(
        ParsingError::WrongFormat.message(),
        "The dice format is not correct."
    );
    assert_eq!(
        StructureError::ZeroEyes.message(),
        "One of the dice has zero eyes"
    );
    assert_eq!(
        DiceError::Structure(StructureError::ZeroCount).message(),
        "One of the dice has a count of zero"
    );
}

#[test]
fn marker_positions_in_text() {
    assert_eq!(find_dice("12D3"), vec![0]);
    assert_eq!(find_dice("x"), Vec::<usize>::new());
    assert_eq!(find_dice("1d62d6"), vec![0, 2]);
}

#[test]
fn leftmost_term_fields() {
    let caps = dice_content("x+3d6!2-1").unwrap();
    assert_eq!(caps.pre.as_deref(), Some("+"));
    assert_eq!(caps.count.as_deref(), Some("3"));
    assert_eq!(caps.eyes.as_str(), "6");
    assert_eq!(caps.explode.as_deref(), Some("!2"));
    assert_eq!(caps.add.as_deref(), Some("-1"));
    assert!(dice_content("abc").is_none());
}
