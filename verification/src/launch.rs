//! Launch preparation: whitespace-splitting a command line, the detection of
//! Windows executables, and the frequency bookkeeping after a spawn.

use vstd::prelude::*;

use crate::filter::{query_tokens, join_tokens, split_whitespace, join_with_spaces, views_of};
use crate::frequency::{Frequency, freq_get};
use crate::text::{chars_of, string_of, lower_seq, to_lower};

verus! {

/// What a spawn attempt reported.
pub struct LaunchResult {
    pub success: bool,
    pub command: String,
    pub needs_delay: bool,
}

/// Splits a raw command line: the program is its first whitespace token, the
/// normalized command the tokens rejoined with single spaces; a blank line
/// yields nothing.
pub fn normalize_command(input: &String) -> (r: Option<(String, String)>)
    ensures
        ({
            let tokens = query_tokens(input@);
            match r {
                Some((program, normalized)) => tokens.len() > 0 && program@ == tokens[0]
                    && normalized@ == join_tokens(tokens),
                None => tokens.len() == 0,
            }
        }),
{
    let cs = chars_of(input.as_str());
    let tokens = split_whitespace(&cs);
    if tokens.len() == 0 {
        return None;
    }
    proof {
        assert(views_of(tokens@)[0] == tokens@[0]@);
    }
    let program = string_of(&tokens[0]);
    let joined = join_with_spaces(&tokens);
    let normalized = string_of(&joined);
    Some((program, normalized))
}

/// A Windows executable: the path ends in `.exe`, compared case-insensitively.
pub open spec fn is_windows_exe_spec(path: Seq<char>) -> bool {
    path.len() >= 4 && lower_seq(path).skip(path.len() - 4) == seq!['.', 'e', 'x', 'e']
}

/// Tests whether a resolved program path names a Windows executable.
pub fn is_windows_exe(path: &String) -> (r: bool)
    ensures
        r == is_windows_exe_spec(path@),
{
    let cs = chars_of(path.as_str());
    if cs.len() < 4 {
        return false;
    }
    let n = cs.len();
    let c0 = to_lower(cs[n - 4]);
    let c1 = to_lower(cs[n - 3]);
    let c2 = to_lower(cs[n - 2]);
    let c3 = to_lower(cs[n - 1]);
    let r = c0 == '.' && c1 == 'e' && c2 == 'x' && c3 == 'e';
    proof {
        let tail = lower_seq(path@).skip(path@.len() - 4);
        assert(tail.len() == 4);
        assert(tail[0] == crate::text::lower_char(path@[path@.len() - 4]));
        assert(tail[1] == crate::text::lower_char(path@[path@.len() - 3]));
        assert(tail[2] == crate::text::lower_char(path@[path@.len() - 2]));
        assert(tail[3] == crate::text::lower_char(path@[path@.len() - 1]));
        if r {
            assert(tail =~= seq!['.', 'e', 'x', 'e']);
        } else {
            assert(tail != seq!['.', 'e', 'x', 'e']);
        }
    }
    r
}

/// Books a launch outcome: a successful spawn of a non-empty command records
/// one more use of it; anything else leaves the table untouched.
pub fn record_launch(freq: &mut Frequency, result: &LaunchResult)
    requires
        old(freq).wf(),
        result.success && result.command@.len() > 0 ==> freq_get(old(freq)@, result.command@)
            < u32::MAX,
    ensures
        final(freq).wf(),
        final(freq)@ == (if result.success && result.command@.len() > 0 {
            old(freq)@.insert(
                result.command@,
                (freq_get(old(freq)@, result.command@) + 1) as u32,
            )
        } else {
            old(freq)@
        }),
{
    if result.success && result.command.as_str().unicode_len() > 0 {
        freq.increment(&result.command);
    }
}

} // verus!
