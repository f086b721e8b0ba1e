use pandt::saved_games::{has_separator, is_dots};

#[test]
fn plain_names_have_no_separator() {
    assert!(!has_separator("samplegame.yaml"));
    assert!(!has_separator(""));
    assert!(!has_separator(".."));
    assert!(!has_separator("caf\u{e9} game"));
}

#[test]
fn separators_are_found_anywhere() {
    assert!(has_separator("/etc/passwd"));
    assert!(has_separator("a/b"));
    assert!(has_separator("games/"));
    assert!(has_separator("C:game"));
    assert!(has_separator("..\\game"));
    assert!(has_separator("\u{e9}\u{e9}:"));
}

#[test]
fn dots_are_the_two_special_pieces() {
    assert!(is_dots("."));
    assert!(is_dots(".."));
    assert!(!is_dots(""));
    assert!(!is_dots("..."));
    assert!(!is_dots(".a"));
    assert!(!is_dots("a."));
    assert!(!is_dots("a"));
    assert!(!is_dots("\u{e9}."));
}
