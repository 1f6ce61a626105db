use die_oxide::cli::Cli;
use die_oxide::dice::{DiceTray, Die};
use die_oxide::roll::roll_flags::RollFlags;
use die_oxide::roll::{RollCommand, RollResult};

#[test]
fn assembled_result() {
    let cmd = RollCommand::new(2, Die(6), &[2, -1], RollFlags::default());
    let tray = DiceTray { die: Die(6), count: 2, rolls: vec![3, 4], sum: Some(7) };
    let result = RollResult::assemble(&cmd, tray);
    assert_eq!(result.modifiers, vec![2, -1]);
    assert_eq!(result.net_modifier, Some(1));
    assert_eq!(result.result, Some(8));
    assert_eq!(result.to_display_string(), "8\n> Rolled 7: [3, 4]\n> +1: [2, -1]");
    assert_eq!(
        cmd.report(&result),
        "Rolling 2d6+2-1...\n8\n> Rolled 7: [3, 4]\n> +1: [2, -1]\n"
    );
}

#[test]
fn negative_and_overflowing_results_are_displayed() {
    let cmd = RollCommand::new(1, Die(4), &[-10], RollFlags::default());
    let tray = DiceTray { die: Die(4), count: 1, rolls: vec![2], sum: Some(2) };
    let result = RollResult::assemble(&cmd, tray);
    assert_eq!(result.result, Some(-8));
    assert_eq!(result.to_display_string(), "-8\n> Rolled 2: [2]\n> -10: [-10]");

    let cmd = RollCommand::new(0, Die(4), &[], RollFlags::default());
    let tray = DiceTray { die: Die(4), count: 0, rolls: vec![], sum: None };
    let result = RollResult::assemble(&cmd, tray);
    assert_eq!(result.net_modifier, Some(0));
    assert_eq!(result.result, None);
    assert_eq!(result.to_display_string(), "OVERFLOW!\n> Rolled OVERFLOW!: []\n> +0: []");
}

#[test]
fn net_modifier_overflow() {
    let mods = vec![127i8; 16_909_321];
    let cmd = RollCommand::new(0, Die(6), &mods, RollFlags::default());
    let result = cmd.roll();
    assert_eq!(result.net_modifier, None);
    assert_eq!(result.result, None);
    let cmd = RollCommand::new(0, Die(6), &mods[..16_909_320], RollFlags::default());
    let result = cmd.roll();
    assert_eq!(result.net_modifier, Some(2_147_483_640));
}

#[test]
fn rolled_result_is_within_bounds() {
    let cmd = RollCommand::from_str("5d6+2").unwrap();
    for _ in 0..100 {
        let result = cmd.roll();
        assert_eq!(result.dice_tray.rolls.len(), 5);
        assert!(result.dice_tray.rolls.iter().all(|&r| 1 <= r && r <= 6));
        let total: i64 = result.dice_tray.rolls.iter().map(|&r| r as i64).sum();
        assert_eq!(result.dice_tray.sum, Some(total as u32));
        assert_eq!(result.net_modifier, Some(2));
        assert_eq!(result.result, Some(total + 2));
        let r = result.result.unwrap();
        assert!(5 + 2 <= r && r <= 30 + 2);
    }
}

#[test]
fn cli_runs_default_when_no_command() {
    let cli = Cli { roll_cmds: None };
    let out = cli.run();
    assert!(out.starts_with("Rolling 1d6...\n"));
    assert!(out.contains("\n> Rolled "));
    assert!(out.ends_with(": []\n"));
    assert_eq!(out.matches("Rolling ").count(), 1);
}

#[test]
fn cli_runs_each_command() {
    let cmds = vec![
        RollCommand::new(0, Die(6), &[3], RollFlags::default()),
        RollCommand::new(2, Die(1), &[], RollFlags::default()),
    ];
    let cli = Cli { roll_cmds: Some(cmds) };
    let out = cli.run();
    assert_eq!(
        out,
        "Rolling 0d6+3...\n3\n> Rolled 0: []\n> +3: [3]\nRolling 2d1...\n2\n> Rolled 2: [1, 1]\n> +0: []\n"
    );
    let cli = Cli { roll_cmds: Some(vec![]) };
    assert_eq!(cli.run(), "");
}
