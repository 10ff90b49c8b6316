//! Appearance configuration: the color/font settings, their built-in
//! defaults, and the `"#RRGGBB"` color parser.

use vstd::prelude::*;

use crate::compositor::Rgb;
use crate::text::chars_of;

verus! {

/// Appearance settings, as the configuration file supplies them.
pub struct Appearance {
    pub foreground: String,
    pub background: String,
    pub selection_fg: String,
    pub selection_bg: String,
    pub match_highlight: String,
    pub prompt_color: String,
    pub font_family: String,
    pub font_size: u8,
    pub dpi: u16,
}

/// The whole configuration.
pub struct Config {
    pub appearance: Appearance,
}

impl Default for Appearance {
    /// The built-in appearance: used whenever the configuration file is
    /// missing or unreadable.
    fn default() -> (r: Appearance)
        ensures
            r.foreground@ == "#F8F8F2"@,
            r.background@ == "#21222C"@,
            r.selection_fg@ == "#F8F8F2"@,
            r.selection_bg@ == "#6272A4"@,
            r.match_highlight@ == "#8be9fd"@,
            r.prompt_color@ == "#BD93F9"@,
            r.font_family@ == "Monospace"@,
            r.font_size == 10,
            r.dpi == 96,
    {
        Appearance {
            foreground: "#F8F8F2".to_owned(),
            background: "#21222C".to_owned(),
            selection_fg: "#F8F8F2".to_owned(),
            selection_bg: "#6272A4".to_owned(),
            match_highlight: "#8be9fd".to_owned(),
            prompt_color: "#BD93F9".to_owned(),
            font_family: "Monospace".to_owned(),
            font_size: 10,
            dpi: 96,
        }
    }
}

impl Default for Config {
    fn default() -> (r: Config)
        ensures
            r.appearance.foreground@ == "#F8F8F2"@,
            r.appearance.background@ == "#21222C"@,
            r.appearance.selection_fg@ == "#F8F8F2"@,
            r.appearance.selection_bg@ == "#6272A4"@,
            r.appearance.match_highlight@ == "#8be9fd"@,
            r.appearance.prompt_color@ == "#BD93F9"@,
            r.appearance.font_family@ == "Monospace"@,
            r.appearance.font_size == 10,
            r.appearance.dpi == 96,
    {
        Config { appearance: Appearance::default() }
    }
}

/// Whether an arriving configuration write may proceed: an existing file with
/// different content needs confirmation first.
pub enum CreateConfigResult {
    Created(String),
    NeedsConfirmation(String),
}

/// Decides a configuration-write request: overwrite goes ahead when nothing
/// would be lost (no file, identical content) or when forced.
pub fn decide_config_create(path: String, exists: bool, same_content: bool, force: bool) -> (r:
    CreateConfigResult)
    ensures
        r == (if exists && !same_content && !force {
            CreateConfigResult::NeedsConfirmation(path)
        } else {
            CreateConfigResult::Created(path)
        }),
{
    if exists && !same_content && !force {
        CreateConfigResult::NeedsConfirmation(path)
    } else {
        CreateConfigResult::Created(path)
    }
}

/// Value of one hex digit, 16 when the character is no hex digit.
pub open spec fn hex_val(c: char) -> int {
    if '0' <= c && c <= '9' {
        c as int - 48
    } else if 'a' <= c && c <= 'f' {
        c as int - 87
    } else if 'A' <= c && c <= 'F' {
        c as int - 55
    } else {
        16
    }
}

/// The color a `"#RRGGBB"` string denotes, if well-formed.
pub open spec fn hex_color_spec(s: Seq<char>) -> Option<Rgb> {
    if s.len() == 7 && s[0] == '#' && (forall|i: int| 1 <= i < 7 ==> hex_val(#[trigger] s[i])
        < 16) {
        Some(
            Rgb {
                r: (hex_val(s[1]) * 16 + hex_val(s[2])) as u8,
                g: (hex_val(s[3]) * 16 + hex_val(s[4])) as u8,
                b: (hex_val(s[5]) * 16 + hex_val(s[6])) as u8,
            },
        )
    } else {
        None
    }
}

/// Value of one hex digit.
fn hex_digit(c: char) -> (r: u8)
    ensures
        r as int == hex_val(c),
{
    if '0' <= c && c <= '9' {
        (c as u8) - 48
    } else if 'a' <= c && c <= 'f' {
        (c as u8) - 87
    } else if 'A' <= c && c <= 'F' {
        (c as u8) - 55
    } else {
        16
    }
}

/// Parses a `"#RRGGBB"` color; anything else yields nothing, so callers fall
/// back to their defaults.
pub fn parse_hex_color(hex: &str) -> (r: Option<Rgb>)
    ensures
        r == hex_color_spec(hex@),
{
    let cs = chars_of(hex);
    if cs.len() != 7 {
        return None;
    }
    if cs[0] != '#' {
        return None;
    }
    let d1 = hex_digit(cs[1]);
    let d2 = hex_digit(cs[2]);
    let d3 = hex_digit(cs[3]);
    let d4 = hex_digit(cs[4]);
    let d5 = hex_digit(cs[5]);
    let d6 = hex_digit(cs[6]);
    if d1 >= 16 || d2 >= 16 || d3 >= 16 || d4 >= 16 || d5 >= 16 || d6 >= 16 {
        return None;
    }
    Some(Rgb { r: d1 * 16 + d2, g: d3 * 16 + d4, b: d5 * 16 + d6 })
}

/// The configuration file below a configuration directory.
pub fn config_path(dir: &str) -> (r: String)
    ensures
        r@ == dir@ + "/config.toml"@,
{
    let mut s = dir.to_owned();
    s.append("/config.toml");
    s
}

/// The frequency file below a configuration directory.
pub fn data_path(dir: &str) -> (r: String)
    ensures
        r@ == dir@ + "/freq.txt"@,
{
    let mut s = dir.to_owned();
    s.append("/freq.txt");
    s
}

} // verus!
