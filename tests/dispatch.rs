use toonmux::bindings::Slot;
use toonmux::dispatch::{KeySend, SendKind};
use toonmux::key::{KEY_DELETE, KEY_INSERT, KEY_RETURN, KEY_SHIFT_L, KEY_UP};
use toonmux::state::State;

const KEY_W: u32 = 0x77;
const KEY_I: u32 = 0x69;
const KEY_X: u32 = 0x78;
const KEY_F1: u32 = 0xffbe;
const KEY_F2: u32 = 0xffbf;

fn send(window: u64, key: u32, kind: SendKind) -> KeySend {
    KeySend { window, key, kind }
}

/// Three controllers on windows 10, 20 and 30; controllers 1 and 2 moved to
/// other physical keys for forward and talk, so only controller 0 is on the
/// arrow key and on Return.
fn three_controllers() -> State {
    let mut state = State::new();
    state.controllers[0].window = 10;
    state.controllers[1].window = 20;
    state.controllers[2].window = 30;
    assert!(state.set_binding(1, Slot::Forward, KEY_W));
    assert!(state.set_binding(2, Slot::Forward, KEY_I));
    assert!(state.set_binding(1, Slot::Talk, KEY_F1));
    assert!(state.set_binding(2, Slot::Talk, KEY_F2));
    state
}

#[test]
fn press_reaches_only_the_routed_controller_then_its_mirror() {
    let mut state = three_controllers();
    assert_eq!(state.press(KEY_UP), vec![send(10, KEY_UP, SendKind::Down)]);
    state.set_mirror(1, 0);
    assert_eq!(
        state.press(KEY_UP),
        vec![send(10, KEY_UP, SendKind::Down), send(20, KEY_UP, SendKind::Down)]
    );
    assert_eq!(
        state.release(KEY_UP),
        vec![send(10, KEY_UP, SendKind::Up), send(20, KEY_UP, SendKind::Up)]
    );
}

#[test]
fn mirroring_is_one_level_only() {
    let mut state = three_controllers();
    state.set_mirror(1, 0);
    state.set_mirror(2, 1);
    assert_eq!(
        state.press(KEY_UP),
        vec![send(10, KEY_UP, SendKind::Down), send(20, KEY_UP, SendKind::Down)]
    );
}

#[test]
fn toggle_key_switches_mirroring_off_and_on() {
    let mut state = three_controllers();
    state.set_mirror(1, 0);
    assert_eq!(state.press(KEY_SHIFT_L), vec![]);
    assert!(!state.mirroring);
    assert_eq!(state.press(KEY_UP), vec![send(10, KEY_UP, SendKind::Down)]);
    assert_eq!(state.release(KEY_UP), vec![send(10, KEY_UP, SendKind::Up)]);
    state.press(KEY_SHIFT_L);
    assert!(state.mirroring);
}

#[test]
fn talk_key_opens_and_closes_the_talk_state() {
    let mut state = three_controllers();
    assert_eq!(state.press(KEY_RETURN), vec![send(10, KEY_RETURN, SendKind::Press)]);
    assert!(!state.talking.is_empty());
    assert_eq!(state.talking.iter().next(), Some(0));
    assert_eq!(state.release(KEY_RETURN), vec![send(10, KEY_RETURN, SendKind::Up)]);

    // While talking, other keys go through raw and are not routed.
    assert_eq!(state.press(KEY_X), vec![send(10, KEY_X, SendKind::Down)]);
    assert_eq!(state.release(KEY_X), vec![send(10, KEY_X, SendKind::Up)]);
    assert_eq!(state.press(KEY_UP), vec![send(10, KEY_UP, SendKind::Down)]);
    assert_eq!(state.press(KEY_W), vec![send(10, KEY_W, SendKind::Down)]);

    // The talk key again: the raw key-down, then only a key-up to close.
    assert_eq!(
        state.press(KEY_RETURN),
        vec![send(10, KEY_RETURN, SendKind::Down), send(10, KEY_RETURN, SendKind::Up)]
    );
    assert!(state.talking.is_empty());
    assert_eq!(state.press(KEY_UP), vec![send(10, KEY_UP, SendKind::Down)]);
}

#[test]
fn talk_toggles_each_mirror_on_its_own() {
    let mut state = three_controllers();
    state.set_mirror(1, 0);
    // Controller 0 has no mirror of its own, so it toggles too.
    assert_eq!(
        state.press(KEY_RETURN),
        vec![send(10, KEY_RETURN, SendKind::Press), send(20, KEY_RETURN, SendKind::Press)]
    );
    let mut it = state.talking.iter();
    assert_eq!(it.next(), Some(0));
    assert_eq!(it.next(), Some(1));
    assert_eq!(it.next(), None);
}

#[test]
fn a_controller_with_a_mirror_skips_its_own_talk_toggle() {
    let mut state = three_controllers();
    state.set_mirror(0, 2);
    assert_eq!(state.press(KEY_RETURN), vec![]);
    assert!(state.talking.is_empty());
}

#[test]
fn low_throw_is_a_full_press_and_nothing_on_release() {
    let mut state = three_controllers();
    assert_eq!(
        state.press(KEY_INSERT),
        vec![
            send(10, KEY_DELETE, SendKind::Press),
            send(20, KEY_DELETE, SendKind::Press),
            send(30, KEY_DELETE, SendKind::Press),
        ]
    );
    assert_eq!(state.release(KEY_INSERT), vec![]);
}

#[test]
fn unrouted_key_sends_nothing() {
    let mut state = three_controllers();
    assert_eq!(state.press(KEY_X), vec![]);
    assert_eq!(state.release(KEY_X), vec![]);
}

#[test]
fn talking_windows_get_raw_keys_in_ascending_order() {
    let mut state = three_controllers();
    state.talking.insert(2);
    state.talking.insert(0);
    assert_eq!(
        state.press(KEY_X),
        vec![send(10, KEY_X, SendKind::Down), send(30, KEY_X, SendKind::Down)]
    );
    assert_eq!(
        state.release(KEY_X),
        vec![send(10, KEY_X, SendKind::Up), send(30, KEY_X, SendKind::Up)]
    );
}

#[test]
fn mirrors_get_routed_keys_in_ascending_order() {
    let mut state = three_controllers();
    state.set_mirror(2, 0);
    state.set_mirror(1, 0);
    assert_eq!(
        state.press(KEY_UP),
        vec![
            send(10, KEY_UP, SendKind::Down),
            send(20, KEY_UP, SendKind::Down),
            send(30, KEY_UP, SendKind::Down),
        ]
    );
}
