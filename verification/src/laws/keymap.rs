//! Laws of the keyboard shortcuts.

use crate::keymap::{bindings, Chord, Command, Key};
use crate::layout::{Axis, Dir};
use vstd::prelude::*;

verus! {

/// No shortcut hides a later one: pressing what a shortcut asks for triggers none
/// that is tried before it.
pub proof fn law_no_shortcut_is_hidden(i: int, j: int)
    requires
        0 <= i < j < bindings().len(),
    ensures
        !bindings()[j].0.triggers(bindings()[i].0),
{
}

/// No two shortcuts ask for the same.
pub proof fn law_shortcuts_differ(i: int, j: int)
    requires
        0 <= i < j < bindings().len(),
    ensures
        bindings()[i].1 != bindings()[j].1,
{
}

/// Whether pressing `pressed` calls for shortcut `j`: it is the first one whose key
/// is pressed with at least the modifiers that it asks for.
pub open spec fn calls_for(pressed: Chord, j: int) -> bool {
    &&& 0 <= j < bindings().len()
    &&& bindings()[j].0.key == pressed.key
    &&& bindings()[j].0.shift ==> pressed.shift
    &&& bindings()[j].0.alt ==> pressed.alt
    &&& forall|i: int|
        0 <= i < j && (#[trigger] bindings()[i]).0.key == pressed.key ==> bindings()[i].0.shift
            && !pressed.shift || bindings()[i].0.alt && !pressed.alt
}

/// What each key press calls for, with the command key down: T a new tab, a number
/// the tab of that number, D a split to the right, or down with shift, W the closing
/// of the focused pane, and an arrow, with alt, a move in its direction. An arrow
/// without alt calls for nothing.
pub proof fn law_key_presses(pressed: Chord)
    ensures
        forall|j: int| #[trigger]
            calls_for(pressed, j) ==> bindings()[j].1 == match pressed.key {
                Key::T => Command::NewTab,
                Key::Num1 => Command::SelectTab(0),
                Key::Num2 => Command::SelectTab(1),
                Key::Num3 => Command::SelectTab(2),
                Key::Num4 => Command::SelectTab(3),
                Key::Num5 => Command::SelectTab(4),
                Key::Num6 => Command::SelectTab(5),
                Key::Num7 => Command::SelectTab(6),
                Key::Num8 => Command::SelectTab(7),
                Key::Num9 => Command::SelectTab(8),
                Key::D => if pressed.shift {
                    Command::Split(Axis::Vertical)
                } else {
                    Command::Split(Axis::Horizontal)
                },
                Key::W => Command::ClosePane,
                Key::ArrowLeft => Command::Move(Dir::Left),
                Key::ArrowRight => Command::Move(Dir::Right),
                Key::ArrowUp => Command::Move(Dir::Up),
                Key::ArrowDown => Command::Move(Dir::Down),
            },
        ({
            let arrow = match pressed.key {
                Key::ArrowLeft | Key::ArrowRight | Key::ArrowUp | Key::ArrowDown => true,
                _ => false,
            };
            (exists|j: int| #[trigger] calls_for(pressed, j)) <==> !arrow || pressed.alt
        }),
{
    let b = bindings();
    let j: int = match pressed.key {
        Key::T => 0,
        Key::Num1 => 1,
        Key::Num2 => 2,
        Key::Num3 => 3,
        Key::Num4 => 4,
        Key::Num5 => 5,
        Key::Num6 => 6,
        Key::Num7 => 7,
        Key::Num8 => 8,
        Key::Num9 => 9,
        Key::D => if pressed.shift {
            10
        } else {
            11
        },
        Key::W => 12,
        Key::ArrowLeft => 13,
        Key::ArrowRight => 14,
        Key::ArrowUp => 15,
        Key::ArrowDown => 16,
    };
    assert(b[j].0.key == pressed.key);
    assert(b[10].0.key == Key::D && b[10].0.shift);
    let arrow = match pressed.key {
        Key::ArrowLeft | Key::ArrowRight | Key::ArrowUp | Key::ArrowDown => true,
        _ => false,
    };
    if !arrow || pressed.alt {
        assert(calls_for(pressed, j));
    }
}

} // verus!
