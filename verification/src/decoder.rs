//! The input decoder: raw platform keycodes plus modifier bits become logical
//! keysyms and characters, with shift/caps-lock interaction for letters.

use vstd::prelude::*;

verus! {

pub const KEYSYM_BACKSPACE: u32 = 0xff08;

pub const KEYSYM_TAB: u32 = 0xff09;

pub const KEYSYM_RETURN: u32 = 0xff0d;

pub const KEYSYM_ESCAPE: u32 = 0xff1b;

pub const KEYSYM_DELETE: u32 = 0xffff;

pub const KEYSYM_LEFT: u32 = 0xff51;

pub const KEYSYM_RIGHT: u32 = 0xff53;

pub const KEYSYM_KP_ENTER: u32 = 0xff8d;

/// The character a keysym denotes: printable ASCII directly (uppercased for
/// letters when shift applies), Latin-1 for the high range, nothing else.
pub open spec fn keysym_char(keysym: u32, apply_shift: bool) -> Option<char> {
    if 0x20 <= keysym && keysym <= 0x7e {
        let ch = (keysym as u8) as char;
        if apply_shift && 'a' <= ch && ch <= 'z' {
            Some((((keysym as u8) - 32) as u8) as char)
        } else {
            Some(ch)
        }
    } else if 0xa0 <= keysym && keysym <= 0xff {
        Some((keysym as u8) as char)
    } else {
        None
    }
}

/// Maps a keysym to its character, applying shift to lowercase letters.
pub fn keysym_to_char(keysym: u32, apply_shift: bool) -> (r: Option<char>)
    ensures
        r == keysym_char(keysym, apply_shift),
{
    if 0x20 <= keysym && keysym <= 0x7e {
        let ch = (keysym as u8) as char;
        if apply_shift && 'a' <= ch && ch <= 'z' {
            Some(((keysym as u8) - 32) as char)
        } else {
            Some(ch)
        }
    } else if 0xa0 <= keysym && keysym <= 0xff {
        Some((keysym as u8) as char)
    } else {
        None
    }
}

/// The keyboard mapping a display connection reports: for each keycode from
/// `min_keycode` up, `keysyms_per_keycode` keysyms, flattened.
pub struct KeyboardMap {
    pub keysyms: Vec<u32>,
    pub keysyms_per_keycode: u8,
    pub min_keycode: u8,
}

/// The decoder's whole rule, over the mapping table: the unshifted keysym
/// decides whether the key is a letter; letters compose shift and caps-lock
/// (they cancel), other keys take the shifted keysym only under shift.
pub open spec fn decode_spec(
    keysyms: Seq<u32>,
    kpk: u8,
    minkc: u8,
    keycode: u8,
    state: u16,
) -> Option<(u32, Option<char>)> {
    if keycode < minkc {
        None
    } else {
        let idx = (keycode - minkc) * kpk;
        if idx >= keysyms.len() {
            None
        } else {
            let shift = (state & 1u16) != 0;
            let caps = (state & 2u16) != 0;
            let base = keysyms[idx as int];
            let shifted = if idx + 1 < keysyms.len() {
                keysyms[idx + 1]
            } else {
                0
            };
            if base == 0 {
                None
            } else {
                let is_letter = (0x61 <= base && base <= 0x7a) || (0x41 <= base && base <= 0x5a);
                if is_letter {
                    Some((base, keysym_char(base, shift != caps)))
                } else if shift && shifted != 0 {
                    Some((shifted, keysym_char(shifted, false)))
                } else {
                    Some((base, keysym_char(base, false)))
                }
            }
        }
    }
}

impl KeyboardMap {
    /// Decodes one key event into its keysym and optional character.
    pub fn lookup(&self, keycode: u8, state: u16) -> (r: Option<(u32, Option<char>)>)
        ensures
            r == decode_spec(self.keysyms@, self.keysyms_per_keycode, self.min_keycode, keycode, state),
    {
        if keycode < self.min_keycode {
            return None;
        }
        let kd: usize = (keycode - self.min_keycode) as usize;
        let kp: usize = self.keysyms_per_keycode as usize;
        proof {
            assert(kd * kp <= 255 * 255) by (nonlinear_arith)
                requires
                    kd <= 255,
                    kp <= 255,
                    0 <= kd,
                    0 <= kp,
            ;
        }
        let idx: usize = kd * kp;
        if idx >= self.keysyms.len() {
            proof {
                assert((keycode - self.min_keycode) * self.keysyms_per_keycode == idx);
            }
            return None;
        }
        proof {
            assert((keycode - self.min_keycode) * self.keysyms_per_keycode == idx);
        }
        let shift = (state & 1u16) != 0;
        let caps = (state & 2u16) != 0;
        let base = self.keysyms[idx];
        let shifted = if idx + 1 < self.keysyms.len() {
            self.keysyms[idx + 1]
        } else {
            0
        };
        if base == 0 {
            return None;
        }
        let is_letter = (0x61 <= base && base <= 0x7a) || (0x41 <= base && base <= 0x5a);
        if is_letter {
            let apply_upper = shift != caps;
            Some((base, keysym_to_char(base, apply_upper)))
        } else if shift && shifted != 0 {
            Some((shifted, keysym_to_char(shifted, false)))
        } else {
            Some((base, keysym_to_char(base, false)))
        }
    }
}

/// Turns a decoded key event into the session's logical action: navigation
/// and editing keys map to their actions, printable characters insert, and
/// anything else does nothing.
pub fn action_of_key(keysym: u32, ch: Option<char>) -> (r: Option<crate::session::Action>)
    ensures
        r == (if keysym == KEYSYM_ESCAPE {
            Some(crate::session::Action::Escape)
        } else if keysym == KEYSYM_RETURN || keysym == KEYSYM_KP_ENTER {
            Some(crate::session::Action::Enter)
        } else if keysym == KEYSYM_TAB {
            Some(crate::session::Action::Tab)
        } else if keysym == KEYSYM_DELETE {
            Some(crate::session::Action::Delete)
        } else if keysym == KEYSYM_BACKSPACE {
            Some(crate::session::Action::Backspace)
        } else if keysym == KEYSYM_LEFT {
            Some(crate::session::Action::Left)
        } else if keysym == KEYSYM_RIGHT {
            Some(crate::session::Action::Right)
        } else {
            match ch {
                Some(c) => if !is_control_char(c) {
                    Some(crate::session::Action::Insert(c))
                } else {
                    None
                },
                None => None,
            }
        }),
{
    if keysym == KEYSYM_ESCAPE {
        Some(crate::session::Action::Escape)
    } else if keysym == KEYSYM_RETURN || keysym == KEYSYM_KP_ENTER {
        Some(crate::session::Action::Enter)
    } else if keysym == KEYSYM_TAB {
        Some(crate::session::Action::Tab)
    } else if keysym == KEYSYM_DELETE {
        Some(crate::session::Action::Delete)
    } else if keysym == KEYSYM_BACKSPACE {
        Some(crate::session::Action::Backspace)
    } else if keysym == KEYSYM_LEFT {
        Some(crate::session::Action::Left)
    } else if keysym == KEYSYM_RIGHT {
        Some(crate::session::Action::Right)
    } else {
        match ch {
            Some(c) => {
                if !(c < ' ' || ('\u{7f}' <= c && c <= '\u{9f}')) {
                    Some(crate::session::Action::Insert(c))
                } else {
                    None
                }
            },
            None => None,
        }
    }
}

/// A control character: the C0 and C1 ranges and delete.
pub open spec fn is_control_char(c: char) -> bool {
    c < ' ' || ('\u{7f}' <= c && c <= '\u{9f}')
}

} // verus!
