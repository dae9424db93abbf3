use dicer::{dice_content, find_dice, Dice, Die};

#[test]
fn dice_basic_dice() {
    let d6 = Dice::new(6).unwrap();
    let num = d6.roll().result;
    assert!((1..=6).contains(&num));
}

#[test]
fn dice_invalid_eyes() {
    let d = Dice::new(0);
    assert!(d.is_err());
}

#[test]
fn dice_basic_counted_dice() {
    let d6 = Dice::new_counted(6, 1).unwrap();
    let num = d6.roll().result;
    assert!((1..=6).contains(&num));
}

#[test]
fn dice_invalid_count() {
    let d = Dice::new_counted(20, 0);
    assert!(d.is_err());
}

#[test]
fn basic_added_dice() {
    let d20_plus_69 = Dice::new_added(20, 69).unwrap();
    let num = d20_plus_69.roll().result;
    assert!((21..=89).contains(&num));
}

#[test]
fn basic_subbed_dice() {
    let d20_minus_5 = Dice::new_subbed(20, 5).unwrap();
    let num = d20_minus_5.roll().result;
    assert!((1..=15).contains(&num));
}

#[test]
fn negative_roll() {
    let d6_minus_10 = Dice::new_subbed(6, 10).unwrap();
    let num = d6_minus_10.roll().result;
    assert_eq!(&num, &1_u128);
}

#[test]
fn dice_display() {
    let d20 = Dice::new(20).unwrap();
    assert_eq!(d20.to_string(), "1d20");

    let d20_plus_1 = Dice::new_added(20, 1).unwrap();
    assert_eq!(d20_plus_1.to_string(), "1d20+1");

    let five_d20_plus_69 = Dice::new_full(20, 5, 69).unwrap();
    assert_eq!(five_d20_plus_69.to_string(), "5d20+69");

    let five_d20_minus_69 = Dice::new_full(20, 5, -69).unwrap();
    assert_eq!(five_d20_minus_69.to_string(), "5d20-69");
}

#[test]
fn regex_find_dice() {
    let caps = find_dice("1d10+d69+420d69+1337");
    let mut d1_start = 0;
    let mut d2_start = 0;
    let mut d3_start = 0;

    for (i, find) in caps.iter().enumerate() {
        match i {
            0 => d1_start = *find,
            1 => d2_start = *find,
            2 => d3_start = *find,
            _ => panic!("Too many finds"),
        }
    }

    assert_eq!(d1_start, 0);
    assert_eq!(d2_start, 5);
    assert_eq!(d3_start, 9);
}

#[test]
fn regex_dice_content() {
    let caps1 = dice_content("1d10").unwrap();
    assert_eq!(caps1.count.as_deref().unwrap(), "1");
    assert_eq!(caps1.eyes.as_str(), "10");
    assert!(caps1.add.is_none());
    assert!(caps1.pre.is_none());

    let caps2 = dice_content("420d69+1337").unwrap();
    assert_eq!(caps2.count.as_deref().unwrap(), "420");
    assert_eq!(caps2.eyes.as_str(), "69");
    assert_eq!(caps2.add.as_deref().unwrap(), "+1337");
    assert!(caps2.pre.is_none());

    let caps3 = dice_content("-420d69-1337").unwrap();
    assert_eq!(caps3.count.as_deref().unwrap(), "420");
    assert_eq!(caps3.eyes.as_str(), "69");
    assert_eq!(caps3.add.as_deref().unwrap(), "-1337");
    assert_eq!(caps3.pre.as_deref().unwrap(), "-");

    let caps4 = dice_content("d%").unwrap();
    assert!(caps4.count.is_none());
    assert_eq!(caps4.eyes.as_str(), "%");
    assert!(caps4.add.is_none());
    assert!(caps4.pre.is_none());
}

#[test]
fn dice_parsing() {
    let d20 = "1d20".parse::<Dice>().unwrap();
    assert_eq!(d20, Dice::new(20).unwrap());

    let d100 = "d%".parse::<Dice>().unwrap();
    assert_eq!(d100, Dice::new(100).unwrap());

    let dd100 = "dd100".parse::<Dice>();
    assert!(dd100.is_err());

    let six_d20_minus_1d4_parse = "6d20 - 1d4".parse::<Dice>().unwrap();
    let six_d20_minus_1d4_built = vec![Die::new_counted(20, 6), Die::new_internal(4, 1, 0, true)];
    assert_eq!(&six_d20_minus_1d4_built, six_d20_minus_1d4_parse.terms());

    let d0 = "1d0".parse::<Dice>();
    assert!(d0.is_err());

    let zero_d60 = "0d60".parse::<Dice>();
    assert!(zero_d60.is_err());
}
