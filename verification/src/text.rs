//! The titles that tabs and the status bar show.

use vstd::prelude::*;
use vstd::string::{StrSliceExecFns, StringExecFns};

verus! {

/// The longest end of `s` without a slash.
pub open spec fn behind_last_slash(s: Seq<char>) -> Seq<char>
    decreases s.len(),
{
    if s.len() == 0 || s.last() == '/' {
        Seq::empty()
    } else {
        behind_last_slash(s.drop_last()).push(s.last())
    }
}

/// What names a shell: the last component of its path, or the whole path where
/// that component is empty.
pub open spec fn basename(s: Seq<char>) -> Seq<char> {
    if behind_last_slash(s).len() == 0 {
        s
    } else {
        behind_last_slash(s)
    }
}

/// `s` as it is shown in at most `max` characters, the last of which is an
/// ellipsis where some had to go.
pub open spec fn truncated(s: Seq<char>, max: int) -> Seq<char> {
    if s.len() <= max {
        s
    } else if max >= 1 {
        s.take(max - 1).push('…')
    } else {
        seq!['…']
    }
}

/// The character of a decimal digit.
pub open spec fn digit(d: nat) -> char {
    ('0' as int + d) as char
}

/// A number in decimal notation.
pub open spec fn decimal(n: nat) -> Seq<char>
    decreases n,
{
    if n < 10 {
        seq![digit(n)]
    } else {
        decimal(n / 10).push(digit(n % 10))
    }
}

/// The end of `s` from the last slash on is found by walking back to it.
proof fn lemma_behind_last_slash(s: Seq<char>, i: int)
    requires
        0 <= i <= s.len(),
        i == 0 || s[i - 1] == '/',
        forall|j: int| i <= j < s.len() ==> s[j] != '/',
    ensures
        behind_last_slash(s) == s.skip(i),
    decreases s.len(),
{
    if i < s.len() {
        lemma_behind_last_slash(s.drop_last(), i);
        assert(s.drop_last().skip(i).push(s.last()) =~= s.skip(i));
    } else {
        assert(s.skip(i) =~= Seq::empty());
    }
}

/// The name of a shell, from its path.
pub fn shell_basename(shell: &str) -> (name: String)
    ensures
        name@ == basename(shell@),
{
    let len = shell.unicode_len();
    let mut start: usize = len;
    while start > 0 && shell.get_char(start - 1) != '/'
        invariant
            len == shell@.len(),
            start <= len,
            forall|j: int| start <= j < len ==> shell@[j] != '/',
        decreases start,
    {
        start = start - 1;
    }
    proof {
        lemma_behind_last_slash(shell@, start as int);
    }
    if start == len {
        shell.to_owned()
    } else {
        shell.substring_char(start, len).to_owned()
    }
}

/// Shorten a title for the tab strip, appending an ellipsis when clipped.
pub fn truncate(s: &str, max: usize) -> (r: String)
    ensures
        r@ == truncated(s@, max as int),
{
    if s.unicode_len() <= max {
        s.to_owned()
    } else {
        let keep: usize = max.saturating_sub(1);
        let mut kept = s.substring_char(0, keep).to_owned();
        kept.append("…");
        proof {
            reveal_strlit("…");
            assert(kept@ =~= truncated(s@, max as int));
        }
        kept
    }
}

fn digit_text(d: usize) -> (r: &'static str)
    requires
        d < 10,
    ensures
        r@ == seq![digit(d as nat)],
{
    proof {
        reveal_strlit("0");
        reveal_strlit("1");
        reveal_strlit("2");
        reveal_strlit("3");
        reveal_strlit("4");
        reveal_strlit("5");
        reveal_strlit("6");
        reveal_strlit("7");
        reveal_strlit("8");
        reveal_strlit("9");
    }
    let text = match d {
        0 => "0",
        1 => "1",
        2 => "2",
        3 => "3",
        4 => "4",
        5 => "5",
        6 => "6",
        7 => "7",
        8 => "8",
        _ => "9",
    };
    assert(text@ =~= seq![digit(d as nat)]);
    text
}

fn decimal_text(n: usize) -> (r: String)
    ensures
        r@ == decimal(n as nat),
    decreases n,
{
    if n < 10 {
        digit_text(n).to_owned()
    } else {
        let mut text = decimal_text(n / 10);
        text.append(digit_text(n % 10));
        assert(text@ =~= decimal(n as nat));
        text
    }
}

/// What the tab strip shows of tab `i`: its number, counted from one, and as
/// much of its title as there is room for.
pub open spec fn label(i: int, title: Seq<char>) -> Seq<char> {
    decimal((i + 1) as nat) + seq![' ', ' '] + truncated(title, 18)
}

/// The label of tab `i` in the tab strip.
pub fn tab_label(i: usize, title: &str) -> (r: String)
    requires
        i < usize::MAX,
    ensures
        r@ == label(i as int, title@),
{
    let mut text = decimal_text(i + 1);
    text.append("  ");
    text.append(truncate(title, 18).as_str());
    proof {
        reveal_strlit("  ");
        assert("  "@ =~= seq![' ', ' ']);
    }
    text
}

} // verus!
