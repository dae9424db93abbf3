use dicer::Dice;

#[test]
fn lib_basic_dice() {
    let d6 = Dice::new(6).unwrap();
    let num = d6.roll().result;
    assert!((1..=6).contains(&num));
}

#[test]
fn lib_invalid_eyes() {
    let d = Dice::new(0);
    assert!(d.is_err());
}

#[test]
fn lib_basic_counted_dice() {
    let d6 = Dice::new_counted(6, 1).unwrap();
    let num = d6.roll().result;
    assert!((1..=6).contains(&num));
}

#[test]
fn lib_invalid_count() {
    let d = Dice::new_counted(20, 0);
    assert!(d.is_err());
}
