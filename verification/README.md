# mockterm

A terminal emulator with native, draggable pane splitting. Each tab is a binary
tree of panes; panes are split, closed, focused and resized by keyboard or by
mouse, and each one runs a real shell.

What decides is a library verified with Verus, under `src/`. What draws, starts
terminals and computes with floating-point numbers is ordinary Rust around it,
under `app/`.

## The library

- `layout`: `Tree`, the tree of panes of a tab, stored in an arena. Splitting
  turns a leaf into a split; closing a leaf collapses its parent into the
  surviving sibling; merging copies one tree into another.
- `shape`: what a `Tree` stands for, a mathematical tree together with the arena
  slots that are free. The contracts of `Tree` say how each operation changes it.
- `geometry`: the rects of panes and dividers. The arithmetic of a single split
  is handed in as a function; which pane gets which part is decided here.
- `navigation`: the nearest pane in a direction. Distances and centres are handed
  in; comparisons are made here.
- `scalar`: single-precision numbers by their encodings, compared and clamped as
  IEEE 754 has it.
- `keymap`: the keyboard shortcuts, in the order in which they are tried.
- `text`: titles and tab labels.
- `app`: `MockTerm`, the tabs, the focus, and what keys, clicks, drags and
  terminal events do. An operation that needs a terminal says so in its result.
- `session`: what a `MockTerm` stands for.
- `laws`: what holds of all of this together, such as that a pane is alive
  exactly if one tab shows it, whatever is done in whatever order. `laws::locality`
  says what each change leaves alone on the screen; `laws::exact` says what follows
  where the arithmetic handed in is exact, or rounds to nearest.

## The program

`mockterm [COMMAND [ARGS...]]` runs `COMMAND`, or `$SHELL`, in every pane.

| Shortcut | Action |
|---|---|
| `Cmd+T` | New tab |
| `Cmd+1` to `Cmd+9` | Switch to a tab |
| `Cmd+D` | Split right |
| `Cmd+Shift+D` | Split down |
| `Cmd+W` | Close the focused pane |
| `Cmd+Alt+Arrow` | Move the focus to the neighbouring pane |
| drag a border | Resize the two adjacent panes |
| click a pane | Focus it |

Closing the last pane quits. The terminal widget takes keyboard input for the
focused pane only while the pointer is over that pane.
