use std::str::FromStr;

use die_oxide::cli::RollString;
use die_oxide::dice::Die;
use die_oxide::error::{IntErrorKind, ParseError};
use die_oxide::roll::roll_flags::RollFlags;
use die_oxide::roll::RollCommand;

#[test]
fn roll_roll_cmd_from_string() {
    let new_cmd = |count: u8, die: Die, mods: &[i8]| RollCommand::new(count, die, mods, RollFlags::default());
    let ok_strs: Vec<(&str, RollCommand)> = vec![
        ("", RollCommand::default()),
        ("2d3", new_cmd(2, Die(3), &[])),
        ("4d5+6", new_cmd(4, Die(5), &[6])),
        ("d7", new_cmd(1, Die(7), &[])),
        ("d8+9", new_cmd(1, Die(8), &[9])),
        ("-0", new_cmd(1, Die::default(), &[0])),
        ("1-2", new_cmd(1, Die::default(), &[-2])),
        (
            "150d200+10-20+30-40",
            new_cmd(150, Die(200), &[10, -20, 30, -40]),
        ),
    ];
    for (s, cmd) in ok_strs {
        assert_eq!(RollCommand::from_str(s).unwrap(), cmd);
    }
    let err_strs: Vec<&str> = vec![
        "gibberish",
        "1d6+-1",
        "1d6-+1",
        "1d6d6",
        "d",
        "+",
        "d-",
        "-1d6",
    ];
    for s in err_strs {
        assert!(RollCommand::from_str(s).is_err())
    }
}

#[test]
fn roll_command_roll_cmd_from_string() {
    let new_cmd = RollCommand::new;
    let ok_strs: Vec<(&str, RollCommand)> = vec![
        ("", RollCommand::default()),
        ("2d3", new_cmd(2, Die(3), &[], RollFlags::default())),
        ("4d5+6", new_cmd(4, Die(5), &[6], RollFlags::default())),
        ("d7", new_cmd(1, Die(7), &[], RollFlags::default())),
        ("d8+9", new_cmd(1, Die(8), &[9], RollFlags::default())),
        ("-0", new_cmd(1, Die::default(), &[0], RollFlags::default())),
        (
            "1-2",
            new_cmd(1, Die::default(), &[-2], RollFlags::default()),
        ),
        (
            "150d200+10-20+30-40",
            new_cmd(150, Die(200), &[10, -20, 30, -40], RollFlags::default()),
        ),
    ];
    for (s, cmd) in ok_strs {
        assert!(matches!(RollCommand::from_str(s), Ok(parsed_s) if parsed_s == cmd));
    }
    let err_strs: Vec<&str> = vec![
        "gibberish",
        "1d6+-1",
        "1d6-+1",
        "1d6d6",
        "d",
        "+",
        "d-",
        "-1d6",
    ];
    for s in err_strs {
        assert!(RollCommand::from_str(s).is_err());
    }
}

fn unrecognized(input: &str, count: &str, die: &str, mods: &str) -> ParseError {
    ParseError::Unrecognized {
        input: input.to_string(),
        count: count.to_string(),
        die: die.to_string(),
        mods: mods.to_string(),
    }
}

#[test]
fn parse_errors_name_the_failing_part() {
    assert_eq!(RollCommand::from_str("gibberish"), Err(unrecognized("gibberish", "", "", "")));
    assert_eq!(RollCommand::from_str("1d6+-1"), Err(unrecognized("1d6+-1", "1", "d6", "+")));
    assert_eq!(RollCommand::from_str("1d6d6"), Err(unrecognized("1d6d6", "1", "d6", "")));
    assert_eq!(RollCommand::from_str("-1d6"), Err(unrecognized("-1d6", "", "", "-1")));
    assert_eq!(RollCommand::from_str("256"), Err(ParseError::InvalidCount(IntErrorKind::PosOverflow)));
    assert_eq!(
        RollCommand::from_str("256d300"),
        Err(ParseError::InvalidCount(IntErrorKind::PosOverflow))
    );
    assert_eq!(RollCommand::from_str("d"), Err(ParseError::InvalidDie(IntErrorKind::Empty)));
    assert_eq!(RollCommand::from_str("d-"), Err(ParseError::InvalidDie(IntErrorKind::Empty)));
    assert_eq!(
        RollCommand::from_str("2d256"),
        Err(ParseError::InvalidDie(IntErrorKind::PosOverflow))
    );
    assert_eq!(
        RollCommand::from_str("+"),
        Err(ParseError::InvalidModifier(IntErrorKind::InvalidDigit))
    );
    assert_eq!(
        RollCommand::from_str("d6+128"),
        Err(ParseError::InvalidModifier(IntErrorKind::PosOverflow))
    );
    assert_eq!(
        RollCommand::from_str("d6-129"),
        Err(ParseError::InvalidModifier(IntErrorKind::NegOverflow))
    );
    assert_eq!(
        RollCommand::from_str("d6+1-"),
        Err(ParseError::InvalidModifier(IntErrorKind::InvalidDigit))
    );
    assert_eq!(
        RollCommand::from_str("d6+300-"),
        Err(ParseError::InvalidModifier(IntErrorKind::PosOverflow))
    );
}

#[test]
fn parse_edge_values() {
    let cmd = RollCommand::from_str("255d255+127-128").unwrap();
    assert_eq!(cmd.count, 255);
    assert_eq!(cmd.die, Die(255));
    assert_eq!(cmd.modifiers, vec![127, -128]);
    let cmd = RollCommand::from_str("0d0").unwrap();
    assert_eq!(cmd.count, 0);
    assert_eq!(cmd.die, Die(0));
    let cmd = RollCommand::from_str("007d010+0005").unwrap();
    assert_eq!(cmd, RollCommand::new(7, Die(10), &[5], RollFlags::default()));
    let cmd: RollCommand = "3d8+2-1".parse().unwrap();
    assert_eq!(cmd, RollCommand::new(3, Die(8), &[2, -1], RollFlags::default()));
}

#[test]
fn display_of_commands() {
    let cmd = RollCommand::new(3, Die(8), &[2, -1, 0], RollFlags::default());
    assert_eq!(cmd.to_display_string(), "3d8+2-1+0");
    assert_eq!(RollCommand::default().to_display_string(), "1d6");
    let cmd = RollCommand::new(150, Die(200), &[-128, 127], RollFlags::default());
    assert_eq!(cmd.to_display_string(), "150d200-128+127");
}

#[test]
fn parsing_undoes_displaying() {
    let cmds = vec![
        RollCommand::new(0, Die(0), &[], RollFlags::default()),
        RollCommand::new(1, Die(6), &[0], RollFlags::default()),
        RollCommand::new(255, Die(255), &[-128, 127, 0, -1], RollFlags::default()),
        RollCommand::new(12, Die(20), &[5, 5, -3], RollFlags::default()),
    ];
    for cmd in cmds {
        let text = cmd.to_display_string();
        assert_eq!(RollCommand::from_str(&text), Ok(cmd));
    }
}

#[test]
fn roll_string_splits_then_parses() {
    let rs = RollString::from_str("3d8+2-1").unwrap();
    assert_eq!(rs.parse(), Ok(RollCommand::new(3, Die(8), &[2, -1], RollFlags::default())));
    let rs = RollString::from_str("d-").unwrap();
    assert_eq!(rs.parse(), Err(ParseError::InvalidDie(IntErrorKind::Empty)));
    assert!(matches!(
        RollString::from_str("1d6d6"),
        Err(ParseError::Unrecognized { .. })
    ));
}
