//! Keyboard shortcuts.

use mockterm::keymap::{keymap, Chord, Command, Key};
use mockterm::layout::{Axis, Dir};

/// What pressing a chord asks for: the first shortcut that it matches, where
/// further modifiers are ignored.
fn press(shift: bool, alt: bool, key: Key) -> Option<Command> {
    keymap()
        .into_iter()
        .find(|(c, _)| c.key == key && (!c.shift || shift) && (!c.alt || alt))
        .map(|(_, command)| command)
}

#[test]
fn every_shortcut_is_reached_by_what_it_asks_for() {
    let table = keymap();
    assert_eq!(table.len(), 17);
    for (chord, command) in table {
        assert_eq!(press(chord.shift, chord.alt, chord.key), Some(command));
    }
}

#[test]
fn split_shortcuts_tell_right_from_down() {
    assert_eq!(press(false, false, Key::D), Some(Command::Split(Axis::Horizontal)));
    assert_eq!(press(true, false, Key::D), Some(Command::Split(Axis::Vertical)));
}

#[test]
fn number_keys_count_tabs_from_one() {
    let keys = [
        Key::Num1,
        Key::Num2,
        Key::Num3,
        Key::Num4,
        Key::Num5,
        Key::Num6,
        Key::Num7,
        Key::Num8,
        Key::Num9,
    ];
    for (i, key) in keys.iter().enumerate() {
        assert_eq!(press(false, false, *key), Some(Command::SelectTab(i)));
    }
}

#[test]
fn arrows_need_alt() {
    assert_eq!(press(false, false, Key::ArrowLeft), None);
    assert_eq!(press(false, true, Key::ArrowLeft), Some(Command::Move(Dir::Left)));
    assert_eq!(press(false, true, Key::ArrowRight), Some(Command::Move(Dir::Right)));
    assert_eq!(press(false, true, Key::ArrowUp), Some(Command::Move(Dir::Up)));
    assert_eq!(press(false, true, Key::ArrowDown), Some(Command::Move(Dir::Down)));
}

#[test]
fn tab_and_close_shortcuts() {
    assert_eq!(press(false, false, Key::T), Some(Command::NewTab));
    assert_eq!(press(false, false, Key::W), Some(Command::ClosePane));
    let first = keymap()[0];
    assert_eq!(first, (Chord { shift: false, alt: false, key: Key::T }, Command::NewTab));
}
