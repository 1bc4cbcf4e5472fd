use sith::keys::{is_modifier_key, Binding, Command, Key, Keymap, Modifiers};

#[test]
fn a_binding_survives_a_round_trip() {
    for c in Command::all() {
        let b = c.default_binding();
        let text = b.display(false);
        assert_eq!(Binding::parse(&text), Some(b), "{} -> {text}", c.id());
    }
}

#[test]
fn the_defaults_do_not_collide() {
    let map = Keymap::default();
    for c in Command::all() {
        assert_eq!(map.conflict(c, &map.binding(c)), None, "{} collides", c.id());
    }
}

#[test]
fn every_command_has_its_own_id() {
    let mut ids: Vec<&str> = Command::all().iter().map(|c| c.id()).collect();
    ids.sort_unstable();
    let before = ids.len();
    ids.dedup();
    assert_eq!(ids.len(), before);
}

#[test]
fn an_id_maps_back_to_its_command() {
    for c in Command::all() {
        assert_eq!(Command::from_id(c.id()), Some(c));
    }
    assert_eq!(Command::from_id("no-such-command"), None);
}

#[test]
fn a_key_two_commands_want_is_a_conflict_across_scopes() {
    let mut map = Keymap::default();
    map.bind(Command::SelectDown, &Binding { mods: Modifiers::none(), key: Key::new("N") });
    assert_eq!(
        map.conflict(Command::Rename, &Binding { mods: Modifiers::none(), key: Key::new("N") }),
        Some(Command::SelectDown)
    );
}

#[test]
fn only_changed_bindings_are_written() {
    let mut map = Keymap::default();
    assert!(map.is_default(Command::Open));
    map.bind(Command::Open, &Binding { mods: Modifiers::command_key(), key: Key::new("K") });
    assert!(!map.is_default(Command::Open));
    map.reset(Command::Open);
    assert!(map.is_default(Command::Open));
}

#[test]
fn a_modifier_is_not_a_binding() {
    for name in ["ControlLeft", "ControlRight", "ShiftLeft", "AltLeft", "MetaLeft", "SuperRight"] {
        if let Some(k) = Key::from_name(name) {
            assert!(is_modifier_key(&k), "{name} should not be bindable");
        }
    }
    for name in ["O", "Enter", "F5", "Num1", "ArrowLeft"] {
        if let Some(k) = Key::from_name(name) {
            assert!(!is_modifier_key(&k), "{name} should be bindable");
        }
    }
}

#[test]
fn a_raw_ctrl_press_is_the_same_key_as_the_default() {
    let pressed = Binding {
        mods: Modifiers { alt: false, ctrl: true, shift: false, mac_cmd: false, command: true },
        key: Key::new("O"),
    };
    let declared = Binding { mods: Modifiers::command_key(), key: Key::new("O") };
    assert_ne!(pressed, declared);
    assert_eq!(pressed.normalized(), declared.normalized());

    let map = Keymap::default();
    assert_eq!(map.conflict(Command::Palette, &pressed), Some(Command::Open));
}

#[test]
fn digits_read_the_way_they_are_printed() {
    let b = Binding { mods: Modifiers::command_key(), key: Key::new("Num1") };
    assert!(b.display(false).ends_with("+1"));
    assert_eq!(Binding::parse(&b.display(false)), Some(b));
}

#[test]
fn resetting_a_rebound_command_restores_the_keymap() {
    let mut map = Keymap::default();
    map.bind(Command::Goto, &Binding { mods: Modifiers::alt_key(), key: Key::new("G") });
    assert_eq!(map.saved(false).len(), 1);
    map.reset(Command::Goto);
    assert!(map.saved(false).is_empty());
    for c in Command::all() {
        assert!(map.is_default(c));
    }
}
