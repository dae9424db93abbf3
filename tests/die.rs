use dicer::Die;

#[test]
fn basic_die() {
    let d6 = Die::new(6);
    let num = d6.roll();
    assert!((1..=6).contains(&num));
}

#[test]
fn basic_counted_die() {
    let d6 = Die::new_counted(6, 1);
    let num = d6.roll();
    assert!((1..=6).contains(&num));
}

#[test]
fn basic_added_die() {
    let d20_plus_69 = Die::new_added(20, 69);
    let num = d20_plus_69.roll();
    assert!((21..=89).contains(&num));
}

#[test]
fn basic_subbed_die() {
    let d20_minus_5 = Die::new_subbed(20, 5);
    let num = d20_minus_5.roll();
    assert!((-4..=15).contains(&num));
}

#[test]
fn die_display() {
    let d20 = Die::new(20);
    assert_eq!(d20.to_string(), "+1d20");

    let d20_plus_1 = Die::new_added(20, 1);
    assert_eq!(d20_plus_1.to_string(), "+1d20+1");

    let five_d20_plus_69 = Die::new_full(20, 5, 69);
    assert_eq!(five_d20_plus_69.to_string(), "+5d20+69");

    let five_d20_minus_69 = Die::new_full(20, 5, -69);
    assert_eq!(five_d20_minus_69.to_string(), "+5d20-69");
}
