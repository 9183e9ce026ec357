//! The keyboard shortcuts and what they ask for.

use crate::layout::{Axis, Dir};
use vstd::prelude::*;

verus! {

/// A key that some shortcut uses.
#[derive(Clone, Copy, PartialEq, Eq, Structural, Debug)]
pub enum Key {
    T,
    D,
    W,
    Num1,
    Num2,
    Num3,
    Num4,
    Num5,
    Num6,
    Num7,
    Num8,
    Num9,
    ArrowLeft,
    ArrowRight,
    ArrowUp,
    ArrowDown,
}

/// A key pressed together with the command key, and with shift or alt if set.
#[derive(Clone, Copy, PartialEq, Eq, Structural, Debug)]
pub struct Chord {
    pub shift: bool,
    pub alt: bool,
    pub key: Key,
}

/// What a shortcut asks for.
#[derive(Clone, Copy, PartialEq, Eq, Structural, Debug)]
pub enum Command {
    /// Open a new tab.
    NewTab,
    /// Jump to a tab, counted from zero.
    SelectTab(usize),
    /// Split the focused pane.
    Split(Axis),
    /// Close the focused pane (and its tab when it was the last).
    ClosePane,
    /// Move the focus within the active tab.
    Move(Dir),
}

impl Chord {
    /// Whether pressing `self` also triggers a shortcut on `pattern`: keys match
    /// if shift and alt are down wherever the pattern asks for them, and further
    /// modifiers are ignored.
    pub open spec fn triggers(self, pattern: Chord) -> bool {
        self.key == pattern.key && (pattern.shift ==> self.shift) && (pattern.alt ==> self.alt)
    }
}

/// The command key with `key`.
pub open spec fn plain(key: Key) -> Chord {
    Chord { shift: false, alt: false, key }
}

/// The shortcuts in the order in which they are tried.
pub open spec fn bindings() -> Seq<(Chord, Command)> {
    seq![
        (plain(Key::T), Command::NewTab),
        (plain(Key::Num1), Command::SelectTab(0)),
        (plain(Key::Num2), Command::SelectTab(1)),
        (plain(Key::Num3), Command::SelectTab(2)),
        (plain(Key::Num4), Command::SelectTab(3)),
        (plain(Key::Num5), Command::SelectTab(4)),
        (plain(Key::Num6), Command::SelectTab(5)),
        (plain(Key::Num7), Command::SelectTab(6)),
        (plain(Key::Num8), Command::SelectTab(7)),
        (plain(Key::Num9), Command::SelectTab(8)),
        (Chord { shift: true, alt: false, key: Key::D }, Command::Split(Axis::Vertical)),
        (plain(Key::D), Command::Split(Axis::Horizontal)),
        (plain(Key::W), Command::ClosePane),
        (Chord { shift: false, alt: true, key: Key::ArrowLeft }, Command::Move(Dir::Left)),
        (Chord { shift: false, alt: true, key: Key::ArrowRight }, Command::Move(Dir::Right)),
        (Chord { shift: false, alt: true, key: Key::ArrowUp }, Command::Move(Dir::Up)),
        (Chord { shift: false, alt: true, key: Key::ArrowDown }, Command::Move(Dir::Down)),
    ]
}

/// The shortcuts in the order in which they are to be tried. One that asks for
/// more modifiers stands before one that asks for fewer, since a key press with
/// extra modifiers matches both.
pub fn keymap() -> (table: Vec<(Chord, Command)>)
    ensures
        table@ == bindings(),
{
    let table = vec![
        (Chord { shift: false, alt: false, key: Key::T }, Command::NewTab),
        (Chord { shift: false, alt: false, key: Key::Num1 }, Command::SelectTab(0)),
        (Chord { shift: false, alt: false, key: Key::Num2 }, Command::SelectTab(1)),
        (Chord { shift: false, alt: false, key: Key::Num3 }, Command::SelectTab(2)),
        (Chord { shift: false, alt: false, key: Key::Num4 }, Command::SelectTab(3)),
        (Chord { shift: false, alt: false, key: Key::Num5 }, Command::SelectTab(4)),
        (Chord { shift: false, alt: false, key: Key::Num6 }, Command::SelectTab(5)),
        (Chord { shift: false, alt: false, key: Key::Num7 }, Command::SelectTab(6)),
        (Chord { shift: false, alt: false, key: Key::Num8 }, Command::SelectTab(7)),
        (Chord { shift: false, alt: false, key: Key::Num9 }, Command::SelectTab(8)),
        (Chord { shift: true, alt: false, key: Key::D }, Command::Split(Axis::Vertical)),
        (Chord { shift: false, alt: false, key: Key::D }, Command::Split(Axis::Horizontal)),
        (Chord { shift: false, alt: false, key: Key::W }, Command::ClosePane),
        (Chord { shift: false, alt: true, key: Key::ArrowLeft }, Command::Move(Dir::Left)),
        (Chord { shift: false, alt: true, key: Key::ArrowRight }, Command::Move(Dir::Right)),
        (Chord { shift: false, alt: true, key: Key::ArrowUp }, Command::Move(Dir::Up)),
        (Chord { shift: false, alt: true, key: Key::ArrowDown }, Command::Move(Dir::Down)),
    ];
    assert(table@ =~= bindings());
    table
}

} // verus!
