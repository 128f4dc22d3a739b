//! Character classes that the miner tells apart.

use vstd::prelude::*;

verus! {

/// Whether the Unicode tables give a character beyond ASCII the
/// `White_Space` property.
pub uninterp spec fn unicode_whitespace(c: char) -> bool;

/// Whether the Unicode tables give a character beyond ASCII the `Alphabetic`
/// property.
pub uninterp spec fn unicode_alphabetic(c: char) -> bool;

/// Whether `c` is one of the 128 characters of ASCII.
pub open spec fn is_ascii(c: char) -> bool {
    c as u32 <= 0x7F
}

/// The letters of ASCII.
pub open spec fn is_ascii_letter(c: char) -> bool {
    ('a' <= c && c <= 'z') || ('A' <= c && c <= 'Z')
}

/// The whitespace of ASCII: the space, and the controls from the horizontal
/// tab to the carriage return.
pub open spec fn is_ascii_blank(c: char) -> bool {
    c == ' ' || ('\t' <= c && c <= '\r')
}

/// Whitespace: within ASCII the six blanks, beyond it what the Unicode tables
/// call whitespace.
pub open spec fn whitespace(c: char) -> bool {
    if is_ascii(c) {
        is_ascii_blank(c)
    } else {
        unicode_whitespace(c)
    }
}

/// Alphabetic characters: within ASCII the letters, beyond it what the
/// Unicode tables call alphabetic.
pub open spec fn alphabetic(c: char) -> bool {
    if is_ascii(c) {
        is_ascii_letter(c)
    } else {
        unicode_alphabetic(c)
    }
}

/// `char::is_whitespace` of std answers by the `White_Space` property of the
/// character. Not proved. Assumed: within ASCII the property holds of the
/// space and of U+0009 to U+000D and of nothing else; beyond ASCII the answer
/// depends on the character alone.
pub assume_specification[ char::is_whitespace ](c: char) -> (b: bool)
    ensures
        b == (if is_ascii(c) {
            is_ascii_blank(c)
        } else {
            unicode_whitespace(c)
        }),
;

/// `char::is_alphabetic` of std answers by the `Alphabetic` property of the
/// character. Not proved. Assumed: within ASCII the property holds of the
/// letters and of nothing else; beyond ASCII the answer depends on the
/// character alone.
pub assume_specification[ char::is_alphabetic ](c: char) -> (b: bool)
    ensures
        b == (if is_ascii(c) {
            is_ascii_letter(c)
        } else {
            unicode_alphabetic(c)
        }),
;

/// The characters trimmed from the edges of an extracted literal: the double
/// quote, the comma, the space and the backslash.
pub open spec fn is_noise(c: char) -> bool {
    c == '"' || c == ',' || c == ' ' || c == '\\'
}

/// Tells whether `ch` is one of the noise characters.
pub fn trim_dummy_chars(ch: char) -> (b: bool)
    ensures
        b == is_noise(ch),
{
    ch == '"' || ch == ',' || ch == ' ' || ch == '\\'
}

/// A set of characters that can be trimmed from a text or tested for.
#[derive(Clone, Copy, Debug)]
pub enum CharClass {
    /// Unicode whitespace.
    Whitespace,
    /// The noise characters, see [`is_noise`].
    Noise,
}

impl CharClass {
    /// Whether `c` belongs to the class.
    pub open spec fn has(self, c: char) -> bool {
        match self {
            CharClass::Whitespace => whitespace(c),
            CharClass::Noise => is_noise(c),
        }
    }

    /// Tests whether `c` belongs to the class.
    pub fn holds(&self, c: char) -> (b: bool)
        ensures
            b == self.has(c),
    {
        match self {
            CharClass::Whitespace => c.is_whitespace(),
            CharClass::Noise => trim_dummy_chars(c),
        }
    }
}

} // verus!
