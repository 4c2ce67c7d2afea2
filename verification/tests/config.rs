use evremap::config::{
    resolve_dual_role, resolve_keys, resolve_remap, ConfigError, KeyRef, MappingConfig, RawConfig,
    RawDualRole, RawRemap,
};
use evremap::keyset::KeySet;
use evremap::mapping::Mapping;
use evremap::names::{bytes_le, list_keys};

fn known(name: &str, code: u16) -> KeyRef {
    KeyRef { name: name.to_string(), code: Some(code) }
}

fn unknown(name: &str) -> KeyRef {
    KeyRef { name: name.to_string(), code: None }
}

fn raw(dual_role: Vec<RawDualRole>, remap: Vec<RawRemap>) -> RawConfig {
    RawConfig {
        device_name: Some("Keychron K2".to_string()),
        phys: None,
        path: Some("/dev/input/event4".to_string()),
        dual_role,
        remap,
    }
}

#[test]
fn known_keys_resolve_to_their_codes() {
    let keys = vec![known("KEY_LEFTCTRL", 29), known("KEY_A", 30), known("KEY_LEFTCTRL", 29)];
    assert_eq!(resolve_keys(&keys), Ok(KeySet::from_codes(&vec![29, 30])));
    assert_eq!(resolve_keys(&vec![]), Ok(KeySet::new()));
}

#[test]
fn the_first_unknown_key_is_reported() {
    let keys = vec![known("KEY_A", 30), unknown("KEY_NOPE"), unknown("KEY_NEITHER")];
    assert_eq!(resolve_keys(&keys), Err(ConfigError::UnknownKey("KEY_NOPE".to_string())));
}

#[test]
fn rules_of_entries() {
    let d = RawDualRole {
        input: known("KEY_CAPSLOCK", 58),
        hold: vec![known("KEY_LEFTCTRL", 29)],
        tap: vec![known("KEY_ESC", 1)],
    };
    assert_eq!(
        resolve_dual_role(&d),
        Ok(Mapping::DualRole {
            input: 58,
            hold: KeySet::from_codes(&vec![29]),
            tap: KeySet::from_codes(&vec![1]),
        })
    );
    let r = RawRemap {
        input: vec![known("KEY_K", 37), known("KEY_J", 36)],
        output: vec![known("KEY_ESC", 1)],
    };
    assert_eq!(
        resolve_remap(&r),
        Ok(Mapping::Remap {
            input: KeySet::from_codes(&vec![36, 37]),
            output: KeySet::from_codes(&vec![1]),
        })
    );
}

#[test]
fn unknown_keys_in_entries() {
    let d = RawDualRole {
        input: unknown("KEY_CAPS"),
        hold: vec![unknown("KEY_CTRL")],
        tap: vec![known("KEY_ESC", 1)],
    };
    assert_eq!(resolve_dual_role(&d), Err(ConfigError::UnknownKey("KEY_CAPS".to_string())));
    let d = RawDualRole {
        input: known("KEY_CAPSLOCK", 58),
        hold: vec![known("KEY_LEFTCTRL", 29)],
        tap: vec![unknown("KEY_ESCAPE")],
    };
    assert_eq!(resolve_dual_role(&d), Err(ConfigError::UnknownKey("KEY_ESCAPE".to_string())));
    let r = RawRemap { input: vec![known("KEY_K", 37)], output: vec![unknown("KEY_OUT")] };
    assert_eq!(resolve_remap(&r), Err(ConfigError::UnknownKey("KEY_OUT".to_string())));
    let r = RawRemap { input: vec![unknown("KEY_IN")], output: vec![unknown("KEY_OUT")] };
    assert_eq!(resolve_remap(&r), Err(ConfigError::UnknownKey("KEY_IN".to_string())));
}

#[test]
fn a_configuration_lists_dual_roles_before_remaps() {
    let config = MappingConfig::from_raw(raw(
        vec![RawDualRole {
            input: known("KEY_CAPSLOCK", 58),
            hold: vec![known("KEY_LEFTCTRL", 29)],
            tap: vec![known("KEY_ESC", 1)],
        }],
        vec![
            RawRemap { input: vec![known("KEY_F1", 59)], output: vec![known("KEY_BACK", 158)] },
            RawRemap { input: vec![known("KEY_F2", 60)], output: vec![] },
        ],
    ))
    .unwrap();
    assert_eq!(config.device_name, Some("Keychron K2".to_string()));
    assert_eq!(config.phys, None);
    assert_eq!(config.path, Some("/dev/input/event4".to_string()));
    assert_eq!(
        config.mappings,
        vec![
            Mapping::DualRole {
                input: 58,
                hold: KeySet::from_codes(&vec![29]),
                tap: KeySet::from_codes(&vec![1]),
            },
            Mapping::Remap {
                input: KeySet::from_codes(&vec![59]),
                output: KeySet::from_codes(&vec![158]),
            },
            Mapping::Remap { input: KeySet::from_codes(&vec![60]), output: KeySet::new() },
        ]
    );
    let empty = MappingConfig::from_raw(raw(vec![], vec![])).unwrap();
    assert!(empty.mappings.is_empty());
}

#[test]
fn a_configuration_with_an_unknown_key_is_refused() {
    let r = MappingConfig::from_raw(raw(
        vec![RawDualRole {
            input: known("KEY_CAPSLOCK", 58),
            hold: vec![known("KEY_LEFTCTRL", 29)],
            tap: vec![unknown("KEY_TAP")],
        }],
        vec![RawRemap { input: vec![unknown("KEY_F0")], output: vec![] }],
    ));
    assert_eq!(r, Err(ConfigError::UnknownKey("KEY_TAP".to_string())));
    let r = MappingConfig::from_raw(raw(
        vec![],
        vec![
            RawRemap { input: vec![known("KEY_F1", 59)], output: vec![] },
            RawRemap { input: vec![known("KEY_F2", 60)], output: vec![unknown("KEY_F0")] },
        ],
    ));
    assert_eq!(r, Err(ConfigError::UnknownKey("KEY_F0".to_string())));
}

#[test]
fn the_command_line_overrides_the_file() {
    let mut config = MappingConfig::from_raw(raw(vec![], vec![])).unwrap();
    config.apply_overrides(None, Some("usb-1".to_string()), None);
    assert_eq!(config.device_name, Some("Keychron K2".to_string()));
    assert_eq!(config.phys, Some("usb-1".to_string()));
    assert_eq!(config.path, Some("/dev/input/event4".to_string()));
    config.apply_overrides(Some("other".to_string()), None, Some("/dev/input/event9".to_string()));
    assert_eq!(config.device_name, Some("other".to_string()));
    assert_eq!(config.phys, Some("usb-1".to_string()));
    assert_eq!(config.path, Some("/dev/input/event9".to_string()));
}

#[test]
fn names_are_listed_in_the_order_of_their_bytes() {
    let names = vec!["KEY_B", "KEY_A", "BTN_0", "KEY_10", "KEY_1", "KEY_A", "KEY_a", "KEY_Z"]
        .into_iter()
        .map(String::from)
        .collect();
    assert_eq!(
        list_keys(names),
        vec!["BTN_0", "KEY_1", "KEY_10", "KEY_A", "KEY_A", "KEY_B", "KEY_Z", "KEY_a"]
    );
    assert_eq!(list_keys(vec![]), Vec::<String>::new());
}

#[test]
fn the_order_of_byte_strings() {
    assert!(bytes_le(b"", b""));
    assert!(bytes_le(b"", b"a"));
    assert!(!bytes_le(b"a", b""));
    assert!(bytes_le(b"abc", b"abc"));
    assert!(bytes_le(b"ab", b"abc"));
    assert!(!bytes_le(b"abc", b"ab"));
    assert!(bytes_le(b"abc", b"abd"));
    assert!(!bytes_le(b"abd", b"abc"));
    assert!(bytes_le(b"Z", b"a"));
    assert!(!bytes_le(&[200], &[100, 255]));
}
