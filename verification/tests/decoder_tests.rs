use ctrl_space::decoder::{
    KeyboardMap, keysym_to_char, action_of_key, KEYSYM_RETURN, KEYSYM_ESCAPE, KEYSYM_LEFT,
    KEYSYM_RIGHT, KEYSYM_BACKSPACE, KEYSYM_TAB, KEYSYM_DELETE, KEYSYM_KP_ENTER,
};
use ctrl_space::session::Action;

fn map() -> KeyboardMap {
    // keycode 8: letter a; keycode 9: digit 1 with shifted !; keycode 10: unmapped
    KeyboardMap {
        keysyms: vec![0x61, 0x41, 0x31, 0x21, 0, 0],
        keysyms_per_keycode: 2,
        min_keycode: 8,
    }
}

#[test]
fn letters_compose_shift_and_caps() {
    let m = map();
    assert_eq!(m.lookup(8, 0), Some((0x61, Some('a'))));
    assert_eq!(m.lookup(8, 1), Some((0x61, Some('A'))));  // shift
    assert_eq!(m.lookup(8, 2), Some((0x61, Some('A'))));  // caps
    assert_eq!(m.lookup(8, 3), Some((0x61, Some('a'))));  // both cancel
}

#[test]
fn punctuation_ignores_caps_but_takes_shift() {
    let m = map();
    assert_eq!(m.lookup(9, 0), Some((0x31, Some('1'))));
    assert_eq!(m.lookup(9, 1), Some((0x21, Some('!'))));
    assert_eq!(m.lookup(9, 2), Some((0x31, Some('1'))));
}

#[test]
fn unmapped_keys_yield_nothing() {
    let m = map();
    assert_eq!(m.lookup(7, 0), None);  // below min_keycode
    assert_eq!(m.lookup(10, 0), None);  // zero keysym
    assert_eq!(m.lookup(200, 0), None);  // beyond the table
}

#[test]
fn keysym_chars_cover_ascii_and_latin1() {
    assert_eq!(keysym_to_char(0x20, false), Some(' '));
    assert_eq!(keysym_to_char(0x7e, false), Some('~'));
    assert_eq!(keysym_to_char(0x7a, true), Some('Z'));
    assert_eq!(keysym_to_char(0x41, true), Some('A'));
    assert_eq!(keysym_to_char(0xe9, false), Some('\u{e9}'));
    assert_eq!(keysym_to_char(0xff0d, false), None);
    assert_eq!(keysym_to_char(0x9f, false), None);
}

#[test]
fn keys_map_to_actions() {
    assert!(matches!(action_of_key(KEYSYM_ESCAPE, None), Some(Action::Escape)));
    assert!(matches!(action_of_key(KEYSYM_RETURN, None), Some(Action::Enter)));
    assert!(matches!(action_of_key(KEYSYM_KP_ENTER, None), Some(Action::Enter)));
    assert!(matches!(action_of_key(KEYSYM_TAB, None), Some(Action::Tab)));
    assert!(matches!(action_of_key(KEYSYM_DELETE, None), Some(Action::Delete)));
    assert!(matches!(action_of_key(KEYSYM_BACKSPACE, None), Some(Action::Backspace)));
    assert!(matches!(action_of_key(KEYSYM_LEFT, None), Some(Action::Left)));
    assert!(matches!(action_of_key(KEYSYM_RIGHT, None), Some(Action::Right)));
    assert!(matches!(action_of_key(0x61, Some('a')), Some(Action::Insert('a'))));
    assert!(action_of_key(0x1b, Some('\u{1b}')).is_none());
    assert!(action_of_key(0xffab, None).is_none());
}
