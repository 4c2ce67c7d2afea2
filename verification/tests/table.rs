use evremap::keys::{
    is_conventional_modifier, KeyEventType, KEY_CAPSLOCK, KEY_ESC, KEY_LEFTALT, KEY_LEFTCTRL,
    KEY_LEFTMETA, KEY_LEFTSHIFT, KEY_RIGHTALT, KEY_RIGHTCTRL, KEY_RIGHTMETA, KEY_RIGHTSHIFT,
};
use evremap::keyset::{KeyCode, KeySet};
use evremap::mapping::{Mapping, MappingTable};

const KEY_A: KeyCode = 30;
const KEY_B: KeyCode = 48;
const KEY_C: KeyCode = 46;
const KEY_D: KeyCode = 32;
const KEY_F13: KeyCode = 183;
const KEY_SPACE: KeyCode = 57;

fn set(codes: &[KeyCode]) -> KeySet {
    KeySet::from_codes(&codes.to_vec())
}

fn remap_rule(input: &[KeyCode], output: &[KeyCode]) -> Mapping {
    Mapping::Remap { input: set(input), output: set(output) }
}

fn dual_rule(input: KeyCode, hold: &[KeyCode], tap: &[KeyCode]) -> Mapping {
    Mapping::DualRole { input, hold: set(hold), tap: set(tap) }
}

#[test]
fn key_event_values() {
    assert_eq!(KeyEventType::from_value(0), KeyEventType::Release);
    assert_eq!(KeyEventType::from_value(1), KeyEventType::Press);
    assert_eq!(KeyEventType::from_value(2), KeyEventType::Repeat);
    assert_eq!(KeyEventType::from_value(3), KeyEventType::Unknown(3));
    assert_eq!(KeyEventType::from_value(-1), KeyEventType::Unknown(-1));
    assert_eq!(KeyEventType::Release.value(), 0);
    assert_eq!(KeyEventType::Press.value(), 1);
    assert_eq!(KeyEventType::Repeat.value(), 2);
    assert_eq!(KeyEventType::Unknown(7).value(), 7);
}

#[test]
fn conventional_modifiers() {
    for code in [
        KEY_LEFTCTRL,
        KEY_RIGHTCTRL,
        KEY_LEFTSHIFT,
        KEY_RIGHTSHIFT,
        KEY_LEFTALT,
        KEY_RIGHTALT,
        KEY_LEFTMETA,
        KEY_RIGHTMETA,
    ] {
        assert!(is_conventional_modifier(code));
    }
    assert!(!is_conventional_modifier(KEY_A));
    assert!(!is_conventional_modifier(KEY_CAPSLOCK));
    assert!(!is_conventional_modifier(KEY_ESC));
}

#[test]
fn longest_remap_wins() {
    let rules = vec![
        remap_rule(&[KEY_A], &[KEY_B]),
        remap_rule(&[KEY_A, KEY_C, KEY_D], &[KEY_ESC]),
        remap_rule(&[KEY_A, KEY_C], &[KEY_SPACE]),
    ];
    let table = MappingTable::new(rules.clone());
    assert_eq!(table.remap_for(&set(&[KEY_A])), Some(&rules[0]));
    assert_eq!(table.remap_for(&set(&[KEY_A, KEY_C])), Some(&rules[2]));
    assert_eq!(table.remap_for(&set(&[KEY_A, KEY_C, KEY_D])), Some(&rules[1]));
    assert_eq!(table.remap_for(&set(&[KEY_A, KEY_C, KEY_D, KEY_B])), Some(&rules[1]));
    assert_eq!(table.remap_for(&set(&[KEY_C, KEY_D])), None);
    assert_eq!(table.remap_for(&set(&[])), None);
    assert_eq!(table.rules(), &rules);
}

#[test]
fn equally_long_remaps_go_by_declaration() {
    let rules = vec![
        remap_rule(&[KEY_C, KEY_D], &[KEY_ESC]),
        remap_rule(&[KEY_A, KEY_B], &[KEY_SPACE]),
        remap_rule(&[KEY_A, KEY_B], &[KEY_F13]),
    ];
    let table = MappingTable::new(rules.clone());
    assert_eq!(table.remap_for(&set(&[KEY_A, KEY_B])), Some(&rules[1]));
    assert_eq!(table.remap_for(&set(&[KEY_A, KEY_B, KEY_C, KEY_D])), Some(&rules[0]));
}

#[test]
fn dual_role_lookup() {
    let rules = vec![
        remap_rule(&[KEY_CAPSLOCK], &[KEY_B]),
        dual_rule(KEY_CAPSLOCK, &[KEY_LEFTCTRL], &[KEY_ESC]),
        dual_rule(KEY_SPACE, &[KEY_F13], &[KEY_SPACE]),
        dual_rule(KEY_CAPSLOCK, &[KEY_LEFTALT], &[KEY_A]),
    ];
    let table = MappingTable::new(rules.clone());
    assert_eq!(table.dual_role_for(KEY_CAPSLOCK), Some(&rules[1]));
    assert_eq!(table.dual_role_for(KEY_SPACE), Some(&rules[2]));
    assert_eq!(table.dual_role_for(KEY_A), None);
    assert_eq!(table.dual_role_for(KEY_B), None);
}

#[test]
fn hold_codes_count_as_modifiers() {
    let table = MappingTable::new(vec![
        dual_rule(KEY_SPACE, &[KEY_F13], &[KEY_SPACE]),
        remap_rule(&[KEY_A], &[KEY_B]),
    ]);
    assert!(table.is_modifier(KEY_F13));
    assert!(table.is_modifier(KEY_LEFTSHIFT));
    assert!(table.is_modifier(KEY_RIGHTMETA));
    assert!(!table.is_modifier(KEY_SPACE));
    assert!(!table.is_modifier(KEY_B));
    assert_eq!(table.modifiers().len(), 9);
}

#[test]
fn output_codes_and_capabilities() {
    let table = MappingTable::new(vec![
        dual_rule(KEY_CAPSLOCK, &[KEY_LEFTCTRL], &[KEY_ESC]),
        remap_rule(&[KEY_A], &[KEY_B]),
        remap_rule(&[KEY_C, KEY_D], &[KEY_F13]),
    ]);
    assert_eq!(
        table.output_codes().to_vec(),
        vec![KEY_ESC, KEY_LEFTCTRL, KEY_B, KEY_F13]
    );
    // The source has CAPSLOCK, A, C, D and SPACE. CAPSLOCK and A are each
    // the whole left-hand side of a rule; C and D are not.
    let source = set(&[KEY_CAPSLOCK, KEY_A, KEY_C, KEY_D, KEY_SPACE]);
    let caps = table.capabilities(&source);
    assert_eq!(
        caps.to_vec(),
        vec![KEY_ESC, KEY_LEFTCTRL, KEY_D, KEY_C, KEY_B, KEY_SPACE, KEY_F13]
    );
    assert!(!caps.contains(KEY_CAPSLOCK));
    assert!(!caps.contains(KEY_A));
}

#[test]
fn a_sole_input_that_a_rule_emits_stays_declared() {
    let table = MappingTable::new(vec![
        remap_rule(&[KEY_A], &[KEY_B]),
        remap_rule(&[KEY_B], &[KEY_A]),
    ]);
    let caps = table.capabilities(&set(&[KEY_A, KEY_B, KEY_C]));
    assert_eq!(caps.to_vec(), vec![KEY_A, KEY_C, KEY_B]);
    assert_eq!(MappingTable::new(vec![]).capabilities(&set(&[KEY_A])).to_vec(), vec![KEY_A]);
}
