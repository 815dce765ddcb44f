use keypad_calc::keypad::{advance, key_4x3, key_4x4, press_action, PressAction, LONG_MS_4X4};

#[test]
fn keymaps() {
    assert_eq!(key_4x4(0, 0), Some('b'));
    assert_eq!(key_4x4(0, 3), Some('A'));
    assert_eq!(key_4x4(1, 1), Some('r'));
    assert_eq!(key_4x4(3, 2), Some('!'));
    assert_eq!(key_4x4(4, 0), None);
    assert_eq!(key_4x3(0, 0), Some('1'));
    assert_eq!(key_4x3(3, 0), Some('a'));
    assert_eq!(key_4x3(3, 1), Some('0'));
    assert_eq!(key_4x3(3, 2), Some('#'));
    assert_eq!(key_4x3(0, 3), None);
}

#[test]
fn presses() {
    assert_eq!(press_action(true, 0, LONG_MS_4X4), PressAction::Short);
    assert_eq!(press_action(true, 5000, LONG_MS_4X4), PressAction::Short);
    assert_eq!(press_action(false, 950, LONG_MS_4X4), PressAction::Wait);
    assert_eq!(press_action(false, 1000, LONG_MS_4X4), PressAction::Long);
}

#[test]
fn a_held_key_becomes_long_after_twenty_samples() {
    let mut elapsed = 0;
    let mut samples = 0;
    while press_action(false, elapsed, LONG_MS_4X4) == PressAction::Wait {
        elapsed = advance(elapsed);
        samples += 1;
    }
    assert_eq!(samples, 20);
    assert_eq!(advance(u64::MAX - 10), u64::MAX);
}
