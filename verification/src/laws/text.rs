//! Laws of titles.

use crate::text::{basename, behind_last_slash, decimal, digit, label, truncated};
use vstd::prelude::*;

verus! {

/// A shortened title fits, keeps the start of the title, and is the title itself
/// where that fits.
pub proof fn law_truncated_fits(s: Seq<char>, max: int)
    requires
        max >= 1,
    ensures
        truncated(s, max).len() <= max,
        truncated(s, 0) == (if s.len() == 0 {
            s
        } else {
            seq!['…']
        }),
        s.len() <= max ==> truncated(s, max) == s,
        s.len() > max ==> truncated(s, max).len() == max && truncated(s, max).drop_last()
            == s.take(max - 1) && truncated(s, max).last() == '…',
{
    if s.len() > max {
        assert(truncated(s, max).drop_last() =~= s.take(max - 1));
    }
}

/// The name of a shell is never empty unless its path is; it is an end of the
/// path, and holds no slash unless it is the whole path. It starts right behind a
/// slash, or is the whole path; and it is that only where the path has no slash or
/// ends in one.
pub proof fn law_basename(s: Seq<char>)
    ensures
        s.len() > 0 ==> basename(s).len() > 0,
        basename(s).len() <= s.len(),
        basename(s) == s.skip(s.len() - basename(s).len()),
        basename(s) == s || !basename(s).contains('/'),
        basename(s).len() < s.len() ==> s[s.len() - basename(s).len() - 1] == '/',
        basename(s).len() == s.len() ==> !s.contains('/') || s.last() == '/',
{
    lemma_behind(s);
    assert(s.skip(0) =~= s);
}

proof fn lemma_behind(s: Seq<char>)
    ensures
        behind_last_slash(s).len() <= s.len(),
        behind_last_slash(s) == s.skip(s.len() - behind_last_slash(s).len()),
        !behind_last_slash(s).contains('/'),
        behind_last_slash(s).len() < s.len() ==> s[s.len() - behind_last_slash(s).len() - 1]
            == '/',
        behind_last_slash(s).len() == 0 ==> s.len() == 0 || s.last() == '/',
    decreases s.len(),
{
    if s.len() == 0 || s.last() == '/' {
        assert(s.skip(s.len() as int) =~= Seq::empty());
    } else {
        let init = s.drop_last();
        lemma_behind(init);
        let end = behind_last_slash(init);
        assert(end.push(s.last()) =~= s.skip(s.len() - (end.len() + 1)));
        assert forall|k: int| 0 <= k < end.push(s.last()).len() implies end.push(s.last())[k]
            != '/' by {
            if k < end.len() {
                assert(end[k] != '/');
            }
        }
    }
}

/// The number that decimal digits stand for.
pub open spec fn reads(s: Seq<char>) -> int
    decreases s.len(),
{
    if s.len() == 0 {
        0
    } else {
        10 * reads(s.drop_last()) + (s.last() as int - '0' as int)
    }
}

/// Decimal notation consists of digits, without a leading zero, that stand for the
/// number.
pub proof fn law_decimal(n: nat)
    ensures
        decimal(n).len() > 0,
        forall|k: int| 0 <= k < decimal(n).len() ==> '0' <= #[trigger] decimal(n)[k] <= '9',
        reads(decimal(n)) == n,
        decimal(n)[0] == '0' ==> n == 0,
        n < 10 ==> decimal(n).len() == 1,
    decreases n,
{
    if n < 10 {
        assert(decimal(n).drop_last() =~= Seq::empty());
        assert(reads(Seq::<char>::empty()) == 0);
    } else {
        law_decimal(n / 10);
        let (init, last) = (decimal(n / 10), digit(n % 10));
        assert(decimal(n).drop_last() =~= init);
        assert(decimal(n)[0] == init[0]);
        assert forall|k: int| 0 <= k < decimal(n).len() implies '0' <= #[trigger] decimal(n)[k]
            <= '9' by {
            if k < init.len() {
                assert(decimal(n)[k] == init[k]);
            }
        }
    }
}

/// The label of a tab starts with its number, counted from one, and ends with its
/// title, cut to eighteen characters the last of which is then an ellipsis; two
/// spaces stand between them.
pub proof fn law_label(i: int, title: Seq<char>)
    requires
        0 <= i,
    ensures
        ({
            let shown = if title.len() <= 18 {
                title
            } else {
                title.take(17).push('…')
            };
            let text = label(i, title);
            let n = text.len() - shown.len() - 2;
            &&& n > 0
            &&& forall|k: int| 0 <= k < n ==> '0' <= #[trigger] text[k] <= '9'
            &&& text[0] != '0'
            &&& reads(text.take(n)) == i + 1
            &&& text[n] == ' ' && text[n + 1] == ' '
            &&& text.skip(n + 2) == shown
        }),
{
    law_decimal((i + 1) as nat);
    let shown = truncated(title, 18);
    let number = decimal((i + 1) as nat);
    let text = label(i, title);
    let n = number.len() as int;
    assert(text.take(n) =~= number);
    assert(text.skip(n + 2) =~= shown);
    assert forall|k: int| 0 <= k < n implies '0' <= #[trigger] text[k] <= '9' by {
        assert(text[k] == number[k]);
    }
    assert(text[0] == number[0]);
}

} // verus!
