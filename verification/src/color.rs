//! The colour codes that a localisation text may hold.

use vstd::prelude::*;
use vstd::std_specs::convert::FromSpecImpl;
use crate::text::{chars_of, string_of};

verus! {

/// The character that announces a colour code.
pub const MARKER: char = '\u{a7}';

/// A colour of a text, or `Default` for the colour that was in force before
/// the last change.
#[derive(Clone, Copy, Debug, PartialEq, Eq, Structural)]
pub enum ColorCode {
    White,
    LightGrey,
    Brown,
    LightRed,
    Red,
    DarkOrange,
    Orange,
    Yellow,
    Green,
    Teal,
    Blue,
    Purple,
    Default,
}

/// The colour that the letter `c` stands for; `Default` for any other
/// character.
pub open spec fn color_of(c: char) -> ColorCode {
    if c == 'W' {
        ColorCode::White
    } else if c == 'T' {
        ColorCode::LightGrey
    } else if c == 'L' {
        ColorCode::Brown
    } else if c == 'P' {
        ColorCode::LightRed
    } else if c == 'R' {
        ColorCode::Red
    } else if c == 'S' {
        ColorCode::DarkOrange
    } else if c == 'H' {
        ColorCode::Orange
    } else if c == 'Y' {
        ColorCode::Yellow
    } else if c == 'G' {
        ColorCode::Green
    } else if c == 'E' {
        ColorCode::Teal
    } else if c == 'B' {
        ColorCode::Blue
    } else if c == 'M' {
        ColorCode::Purple
    } else {
        ColorCode::Default
    }
}

/// The letter that stands for `color`; `!` for `Default`.
pub open spec fn letter_of(color: ColorCode) -> char {
    match color {
        ColorCode::White => 'W',
        ColorCode::LightGrey => 'T',
        ColorCode::Brown => 'L',
        ColorCode::LightRed => 'P',
        ColorCode::Red => 'R',
        ColorCode::DarkOrange => 'S',
        ColorCode::Orange => 'H',
        ColorCode::Yellow => 'Y',
        ColorCode::Green => 'G',
        ColorCode::Teal => 'E',
        ColorCode::Blue => 'B',
        ColorCode::Purple => 'M',
        ColorCode::Default => '!',
    }
}

/// Whether `c` is the letter of one of the twelve colours.
pub open spec fn is_color_letter(c: char) -> bool {
    color_of(c) != ColorCode::Default
}

/// The colour that the two characters of `s` name, a marker and a letter or
/// `!`, if they name one.
pub open spec fn color_of_code(s: Seq<char>) -> Option<ColorCode> {
    if s.len() == 2 && s[0] == MARKER && (is_color_letter(s[1]) || s[1] == '!') {
        Some(color_of(s[1]))
    } else {
        None
    }
}

/// The two characters that name `color`: the marker and its letter.
pub open spec fn code_of(color: ColorCode) -> Seq<char> {
    seq![MARKER, letter_of(color)]
}

/// The letter of a colour stands for that colour.
pub proof fn lemma_letter_names_color(color: ColorCode)
    ensures
        color_of(letter_of(color)) == color,
        color_of_code(code_of(color)) == Some(color),
{
}

impl From<char> for ColorCode {
    fn from(value: char) -> (r: ColorCode) {
        match value {
            'W' => ColorCode::White,
            'T' => ColorCode::LightGrey,
            'L' => ColorCode::Brown,
            'P' => ColorCode::LightRed,
            'R' => ColorCode::Red,
            'S' => ColorCode::DarkOrange,
            'H' => ColorCode::Orange,
            'Y' => ColorCode::Yellow,
            'G' => ColorCode::Green,
            'E' => ColorCode::Teal,
            'B' => ColorCode::Blue,
            'M' => ColorCode::Purple,
            _ => ColorCode::Default,
        }
    }
}

impl FromSpecImpl<char> for ColorCode {
    open spec fn obeys_from_spec() -> bool {
        true
    }

    open spec fn from_spec(value: char) -> ColorCode {
        color_of(value)
    }
}

impl From<ColorCode> for char {
    fn from(value: ColorCode) -> (r: char) {
        match value {
            ColorCode::White => 'W',
            ColorCode::LightGrey => 'T',
            ColorCode::Brown => 'L',
            ColorCode::LightRed => 'P',
            ColorCode::Red => 'R',
            ColorCode::DarkOrange => 'S',
            ColorCode::Orange => 'H',
            ColorCode::Yellow => 'Y',
            ColorCode::Green => 'G',
            ColorCode::Teal => 'E',
            ColorCode::Blue => 'B',
            ColorCode::Purple => 'M',
            ColorCode::Default => '!',
        }
    }
}

impl FromSpecImpl<ColorCode> for char {
    open spec fn obeys_from_spec() -> bool {
        true
    }

    open spec fn from_spec(value: ColorCode) -> char {
        letter_of(value)
    }
}

/// A text that names no colour.
#[derive(Clone, Copy, Debug, PartialEq, Eq, Structural)]
pub struct InvalidColorCode;

/// Whether `c` is the letter of one of the twelve colours.
pub fn is_color_char(c: char) -> (r: bool)
    ensures
        r == is_color_letter(c),
{
    c == 'W' || c == 'T' || c == 'L' || c == 'P' || c == 'R' || c == 'S' || c == 'H' || c == 'Y'
        || c == 'G' || c == 'E' || c == 'B' || c == 'M'
}

impl ColorCode {
    /// The colour that `s` names: the marker followed by the letter of a
    /// colour, or by `!` for `Default`.
    pub fn from_str(s: &str) -> (r: Result<ColorCode, InvalidColorCode>)
        ensures
            r == match color_of_code(s@) {
                Some(color) => Ok::<ColorCode, InvalidColorCode>(color),
                None => Err::<ColorCode, InvalidColorCode>(InvalidColorCode),
            },
    {
        let chars = chars_of(s);
        if chars.len() == 2 && chars[0] == MARKER && (is_color_char(chars[1]) || chars[1] == '!') {
            Ok(ColorCode::from(chars[1]))
        } else {
            Err(InvalidColorCode)
        }
    }

    /// The colour that `s` names; `Default` where it names none.
    pub fn from_code(s: &str) -> (r: ColorCode)
        ensures
            r == match color_of_code(s@) {
                Some(color) => color,
                None => ColorCode::Default,
            },
    {
        match ColorCode::from_str(s) {
            Ok(color) => color,
            Err(_) => ColorCode::Default,
        }
    }

    /// The two characters that name this colour.
    pub fn code(self) -> (r: String)
        ensures
            r@ == code_of(self),
    {
        let mut chars: Vec<char> = Vec::new();
        chars.push(MARKER);
        chars.push(char::from(self));
        string_of(chars.as_slice())
    }
}

} // verus!
