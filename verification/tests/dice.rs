use std::str::FromStr;

use die_oxide::dice::{DiceTray, Die};
use die_oxide::error::{IntErrorKind, ParseError};

#[test]
fn die_new_and_default() {
    assert_eq!(Die::new(20), Die(20));
    assert_eq!(Die::default(), Die(6));
}

#[test]
fn die_display() {
    assert_eq!(Die(20).to_display_string(), "d20");
    assert_eq!(Die(0).to_display_string(), "d0");
    assert_eq!(Die::default().to_display_string(), "d6");
}

#[test]
fn die_from_str() {
    assert_eq!(Die::from_str("d20"), Ok(Die(20)));
    assert_eq!(Die::from_str("d+4"), Ok(Die(4)));
    assert_eq!(Die::from_str("20"), Err(ParseError::MissingDiePrefix));
    assert_eq!(Die::from_str(""), Err(ParseError::MissingDiePrefix));
    assert_eq!(Die::from_str("d"), Err(ParseError::InvalidDie(IntErrorKind::Empty)));
    assert_eq!(Die::from_str("d256"), Err(ParseError::InvalidDie(IntErrorKind::PosOverflow)));
    assert_eq!(Die::from_str("dd6"), Err(ParseError::InvalidDie(IntErrorKind::InvalidDigit)));
    assert_eq!(Die::from_str("d+"), Err(ParseError::InvalidDie(IntErrorKind::InvalidDigit)));
    assert_eq!(Die::from_str("d-4"), Err(ParseError::InvalidDie(IntErrorKind::InvalidDigit)));
    assert_eq!(Die::from_str("d300x"), Err(ParseError::InvalidDie(IntErrorKind::PosOverflow)));
    assert_eq!(Die::from_str("d30x0"), Err(ParseError::InvalidDie(IntErrorKind::InvalidDigit)));
    let die: Die = "d12".parse().unwrap();
    assert_eq!(die, Die(12));
    assert_eq!(Die::from_str(&Die(255).to_display_string()), Ok(Die(255)));
}

#[test]
fn die_rolls_stay_on_the_die() {
    for faces in [1u8, 2, 6, 20, 255] {
        for _ in 0..200 {
            let r = Die(faces).roll();
            assert!(1 <= r && r <= faces);
        }
    }
    assert_eq!(Die(1).roll(), 1);
}

#[test]
fn die_rolls_vary() {
    let mut seen = [false; 7];
    for _ in 0..600 {
        seen[Die(6).roll() as usize] = true;
    }
    let distinct = seen.iter().filter(|&&b| b).count();
    assert!(distinct > 1);
}

#[test]
fn dice_tray_adds_up() {
    let tray = DiceTray::new(Die(6), 10);
    assert_eq!(tray.die, Die(6));
    assert_eq!(tray.count, 10);
    assert_eq!(tray.rolls.len(), 10);
    assert!(tray.rolls.iter().all(|&r| 1 <= r && r <= 6));
    let total: u32 = tray.rolls.iter().map(|&r| r as u32).sum();
    assert_eq!(tray.sum, Some(total));
    assert!(10 <= total && total <= 60);
}

#[test]
fn dice_tray_edges() {
    let tray = DiceTray::new(Die(0), 0);
    assert!(tray.rolls.is_empty());
    assert_eq!(tray.sum, Some(0));
    let tray = DiceTray::new(Die(255), 255);
    assert_eq!(tray.rolls.len(), 255);
    let total: u32 = tray.rolls.iter().map(|&r| r as u32).sum();
    assert_eq!(tray.sum, Some(total));
    assert!(255 <= total && total <= 255 * 255);
}

#[test]
fn dice_tray_display() {
    let tray = DiceTray { die: Die(6), count: 2, rolls: vec![3, 4], sum: Some(7) };
    assert_eq!(tray.to_display_string(), "d6: 7 [3, 4]");
    let tray = DiceTray { die: Die(6), count: 0, rolls: vec![], sum: None };
    assert_eq!(tray.to_display_string(), "d6: OVERFLOW! []");
}
