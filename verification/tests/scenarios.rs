use evremap::engine::{Engine, SinkEvent};
use evremap::keys::{KEY_CAPSLOCK, KEY_ESC, KEY_LEFTCTRL, KEY_LEFTSHIFT};
use evremap::keyset::{KeyCode, KeySet};
use evremap::mapping::{Mapping, MappingTable};

const KEY_A: KeyCode = 30;
const KEY_B: KeyCode = 48;
const KEY_C: KeyCode = 46;
const KEY_J: KeyCode = 36;
const KEY_K: KeyCode = 37;
const KEY_X: KeyCode = 45;
const KEY_HOME: KeyCode = 102;

const RELEASE: i32 = 0;
const PRESS: i32 = 1;
const REPEAT: i32 = 2;

fn keys(codes: &[KeyCode]) -> KeySet {
    KeySet::from_codes(&codes.to_vec())
}

fn remap(input: &[KeyCode], output: &[KeyCode]) -> Mapping {
    Mapping::Remap { input: keys(input), output: keys(output) }
}

fn dual_role(input: KeyCode, hold: &[KeyCode], tap: &[KeyCode]) -> Mapping {
    Mapping::DualRole { input, hold: keys(hold), tap: keys(tap) }
}

fn engine(rules: Vec<Mapping>) -> Engine {
    Engine::new(MappingTable::new(rules))
}

#[test]
fn simple_remap() {
    let mut e = engine(vec![remap(&[KEY_CAPSLOCK], &[KEY_LEFTCTRL])]);
    assert_eq!(
        e.update_with_event(KEY_CAPSLOCK, PRESS),
        vec![SinkEvent::Press(KEY_LEFTCTRL), SinkEvent::Sync]
    );
    assert_eq!(
        e.update_with_event(KEY_CAPSLOCK, RELEASE),
        vec![SinkEvent::Release(KEY_LEFTCTRL), SinkEvent::Sync]
    );
    assert!(e.output_keys().is_empty());
}

#[test]
fn chord_remap() {
    let mut e = engine(vec![remap(&[KEY_LEFTCTRL, KEY_A], &[KEY_HOME])]);
    assert_eq!(
        e.update_with_event(KEY_LEFTCTRL, PRESS),
        vec![SinkEvent::Press(KEY_LEFTCTRL), SinkEvent::Sync]
    );
    assert_eq!(
        e.update_with_event(KEY_A, PRESS),
        vec![SinkEvent::Release(KEY_LEFTCTRL), SinkEvent::Press(KEY_HOME), SinkEvent::Sync]
    );
    // With A up the chord no longer holds: HOME goes up, and LCTRL, which
    // is still held, is what the held keys call for.
    assert_eq!(
        e.update_with_event(KEY_A, RELEASE),
        vec![SinkEvent::Release(KEY_HOME), SinkEvent::Press(KEY_LEFTCTRL), SinkEvent::Sync]
    );
    assert_eq!(
        e.update_with_event(KEY_LEFTCTRL, RELEASE),
        vec![SinkEvent::Release(KEY_LEFTCTRL), SinkEvent::Sync]
    );
    assert!(e.output_keys().is_empty());
}

#[test]
fn dual_role_tap() {
    let mut e = engine(vec![dual_role(KEY_CAPSLOCK, &[KEY_LEFTCTRL], &[KEY_ESC])]);
    assert_eq!(
        e.update_with_event(KEY_CAPSLOCK, PRESS),
        vec![SinkEvent::Press(KEY_LEFTCTRL), SinkEvent::Sync]
    );
    assert_eq!(e.tapping(), Some(KEY_CAPSLOCK));
    assert_eq!(
        e.update_with_event(KEY_CAPSLOCK, RELEASE),
        vec![
            SinkEvent::Release(KEY_LEFTCTRL),
            SinkEvent::Sync,
            SinkEvent::Press(KEY_ESC),
            SinkEvent::Sync,
            SinkEvent::Release(KEY_ESC),
            SinkEvent::Sync,
        ]
    );
    assert_eq!(e.tapping(), None);
    assert!(e.output_keys().is_empty());
}

#[test]
fn dual_role_hold() {
    let mut e = engine(vec![dual_role(KEY_CAPSLOCK, &[KEY_LEFTCTRL], &[KEY_ESC])]);
    assert_eq!(
        e.update_with_event(KEY_CAPSLOCK, PRESS),
        vec![SinkEvent::Press(KEY_LEFTCTRL), SinkEvent::Sync]
    );
    assert_eq!(
        e.update_with_event(KEY_X, PRESS),
        vec![SinkEvent::Press(KEY_X), SinkEvent::Sync]
    );
    assert_eq!(e.tapping(), None);
    assert_eq!(
        e.update_with_event(KEY_X, RELEASE),
        vec![SinkEvent::Release(KEY_X), SinkEvent::Sync]
    );
    let last = e.update_with_event(KEY_CAPSLOCK, RELEASE);
    assert_eq!(last, vec![SinkEvent::Release(KEY_LEFTCTRL), SinkEvent::Sync]);
    assert!(!last.contains(&SinkEvent::Press(KEY_ESC)));
    assert!(e.output_keys().is_empty());
}

#[test]
fn repeat_pass_through() {
    let mut e = engine(vec![]);
    assert_eq!(
        e.update_with_event(KEY_A, PRESS),
        vec![SinkEvent::Press(KEY_A), SinkEvent::Sync]
    );
    assert_eq!(
        e.update_with_event(KEY_A, REPEAT),
        vec![SinkEvent::Repeat(KEY_A), SinkEvent::Sync]
    );
    assert_eq!(
        e.update_with_event(KEY_A, REPEAT),
        vec![SinkEvent::Repeat(KEY_A), SinkEvent::Sync]
    );
    assert_eq!(
        e.update_with_event(KEY_A, RELEASE),
        vec![SinkEvent::Release(KEY_A), SinkEvent::Sync]
    );
}

#[test]
fn overlapping_presses_with_chord() {
    let mut e = engine(vec![remap(&[KEY_J, KEY_K], &[KEY_ESC])]);
    assert_eq!(
        e.update_with_event(KEY_J, PRESS),
        vec![SinkEvent::Press(KEY_J), SinkEvent::Sync]
    );
    assert_eq!(
        e.update_with_event(KEY_K, PRESS),
        vec![SinkEvent::Release(KEY_J), SinkEvent::Press(KEY_ESC), SinkEvent::Sync]
    );
    // K is still held once J is up, and nothing consumes it any more.
    assert_eq!(
        e.update_with_event(KEY_J, RELEASE),
        vec![SinkEvent::Release(KEY_ESC), SinkEvent::Press(KEY_K), SinkEvent::Sync]
    );
    assert_eq!(
        e.update_with_event(KEY_K, RELEASE),
        vec![SinkEvent::Release(KEY_K), SinkEvent::Sync]
    );
    assert!(e.output_keys().is_empty());
}

#[test]
fn chord_round_trip() {
    let mut e = engine(vec![remap(&[KEY_A, KEY_B], &[KEY_C])]);
    assert_eq!(
        e.update_with_event(KEY_A, PRESS),
        vec![SinkEvent::Press(KEY_A), SinkEvent::Sync]
    );
    assert_eq!(
        e.update_with_event(KEY_B, PRESS),
        vec![SinkEvent::Release(KEY_A), SinkEvent::Press(KEY_C), SinkEvent::Sync]
    );
    let up = e.update_with_event(KEY_B, RELEASE);
    assert_eq!(up[0], SinkEvent::Release(KEY_C));
    e.update_with_event(KEY_A, RELEASE);
    assert!(e.input_keys().is_empty());
    assert!(e.output_keys().is_empty());
}

#[test]
fn modifiers_are_pressed_first_and_released_last() {
    let mut e = engine(vec![remap(&[KEY_X], &[KEY_A, KEY_LEFTSHIFT, KEY_LEFTCTRL])]);
    assert_eq!(
        e.update_with_event(KEY_X, PRESS),
        vec![
            SinkEvent::Press(KEY_LEFTCTRL),
            SinkEvent::Press(KEY_LEFTSHIFT),
            SinkEvent::Press(KEY_A),
            SinkEvent::Sync,
        ]
    );
    assert_eq!(
        e.update_with_event(KEY_X, REPEAT),
        vec![
            SinkEvent::Repeat(KEY_LEFTCTRL),
            SinkEvent::Repeat(KEY_LEFTSHIFT),
            SinkEvent::Repeat(KEY_A),
            SinkEvent::Sync,
        ]
    );
    assert_eq!(
        e.update_with_event(KEY_X, RELEASE),
        vec![
            SinkEvent::Release(KEY_A),
            SinkEvent::Release(KEY_LEFTSHIFT),
            SinkEvent::Release(KEY_LEFTCTRL),
            SinkEvent::Sync,
        ]
    );
}
