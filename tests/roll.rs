use dicer::{Dice, Roll};

#[test]
fn roll_printing() {
    let roll = Roll {
        dice: Dice::new(20).unwrap(),
        dice_rolls: vec![10],
        result: 10,
    };
    assert_eq!(roll.to_string(), "[10]: 10");

    let roll = Roll {
        dice: "d20+d20".parse::<Dice>().unwrap(),
        dice_rolls: vec![10, -10],
        result: 1,
    };
    assert_eq!(roll.to_string(), "[10-10]: 1");
}
