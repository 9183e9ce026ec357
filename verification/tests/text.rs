//! Titles and labels.

use mockterm::text::{shell_basename, tab_label, truncate};

#[test]
fn basename_is_what_follows_the_last_slash() {
    assert_eq!(shell_basename("/bin/zsh"), "zsh");
    assert_eq!(shell_basename("bash"), "bash");
    assert_eq!(shell_basename("/usr/local/bin/fish"), "fish");
    assert_eq!(shell_basename("a/ünï"), "ünï");
}

#[test]
fn basename_of_a_path_that_ends_in_a_slash_is_the_path() {
    assert_eq!(shell_basename("/bin/"), "/bin/");
    assert_eq!(shell_basename("/"), "/");
    assert_eq!(shell_basename(""), "");
}

#[test]
fn truncate_keeps_what_fits() {
    assert_eq!(truncate("", 0), "");
    assert_eq!(truncate("zsh", 3), "zsh");
    assert_eq!(truncate("exactly eighteen!!", 18), "exactly eighteen!!");
}

#[test]
fn truncate_ends_in_an_ellipsis_where_it_clips() {
    assert_eq!(truncate("zsh", 2), "z…");
    assert_eq!(truncate("zsh", 1), "…");
    assert_eq!(truncate("zsh", 0), "…");
    assert_eq!(truncate("more than eighteen.", 18), "more than eightee…");
    // Characters count, not bytes.
    assert_eq!(truncate("äöüß", 4), "äöüß");
    assert_eq!(truncate("äöüßé", 4), "äöü…");
}

#[test]
fn labels_count_tabs_from_one() {
    assert_eq!(tab_label(0, "zsh"), "1  zsh");
    assert_eq!(tab_label(8, ""), "9  ");
    assert_eq!(tab_label(9, "vim"), "10  vim");
    assert_eq!(tab_label(1233, "~/src/some/very/deep/path"), "1234  ~/src/some/very/d…");
}
