//! The injected mapping from key names to key codes. Names are the
//! lowercase aliases the language accepts; codes are the kernel
//! input-event scancodes. Lookup is exact (case folding happens at lex
//! time, before this table is consulted).

use vstd::prelude::*;

use crate::errors::ParseError;
use crate::text::chars_of_str;
use crate::text::chars_eq_str;

verus! {

/// Key code of a single-character key name.
pub open spec fn spec_char_code(c: char) -> Option<u16> {
    match c {
        'q' => Some(16u16),
        'w' => Some(17u16),
        'e' => Some(18u16),
        'r' => Some(19u16),
        't' => Some(20u16),
        'y' => Some(21u16),
        'u' => Some(22u16),
        'i' => Some(23u16),
        'o' => Some(24u16),
        'p' => Some(25u16),
        'a' => Some(30u16),
        's' => Some(31u16),
        'd' => Some(32u16),
        'f' => Some(33u16),
        'g' => Some(34u16),
        'h' => Some(35u16),
        'j' => Some(36u16),
        'k' => Some(37u16),
        'l' => Some(38u16),
        'z' => Some(44u16),
        'x' => Some(45u16),
        'c' => Some(46u16),
        'v' => Some(47u16),
        'b' => Some(48u16),
        'n' => Some(49u16),
        'm' => Some(50u16),
        '1' => Some(2u16),
        '2' => Some(3u16),
        '3' => Some(4u16),
        '4' => Some(5u16),
        '5' => Some(6u16),
        '6' => Some(7u16),
        '7' => Some(8u16),
        '8' => Some(9u16),
        '9' => Some(10u16),
        '0' => Some(11u16),
        '-' => Some(12u16),
        '=' => Some(13u16),
        '`' => Some(41u16),
        ',' => Some(51u16),
        '.' => Some(52u16),
        '/' => Some(53u16),
        '\\' => Some(43u16),
        '[' => Some(26u16),
        ']' => Some(27u16),
        ';' => Some(39u16),
        '\'' => Some(40u16),
        _ => None,
    }
}

/// Exec counterpart of `spec_char_code`.
pub fn char_code(c: char) -> (r: Option<u16>)
    ensures
        r == spec_char_code(c),
{
    match c {
        'q' => Some(16u16),
        'w' => Some(17u16),
        'e' => Some(18u16),
        'r' => Some(19u16),
        't' => Some(20u16),
        'y' => Some(21u16),
        'u' => Some(22u16),
        'i' => Some(23u16),
        'o' => Some(24u16),
        'p' => Some(25u16),
        'a' => Some(30u16),
        's' => Some(31u16),
        'd' => Some(32u16),
        'f' => Some(33u16),
        'g' => Some(34u16),
        'h' => Some(35u16),
        'j' => Some(36u16),
        'k' => Some(37u16),
        'l' => Some(38u16),
        'z' => Some(44u16),
        'x' => Some(45u16),
        'c' => Some(46u16),
        'v' => Some(47u16),
        'b' => Some(48u16),
        'n' => Some(49u16),
        'm' => Some(50u16),
        '1' => Some(2u16),
        '2' => Some(3u16),
        '3' => Some(4u16),
        '4' => Some(5u16),
        '5' => Some(6u16),
        '6' => Some(7u16),
        '7' => Some(8u16),
        '8' => Some(9u16),
        '9' => Some(10u16),
        '0' => Some(11u16),
        '-' => Some(12u16),
        '=' => Some(13u16),
        '`' => Some(41u16),
        ',' => Some(51u16),
        '.' => Some(52u16),
        '/' => Some(53u16),
        '\\' => Some(43u16),
        '[' => Some(26u16),
        ']' => Some(27u16),
        ';' => Some(39u16),
        '\'' => Some(40u16),
        _ => None,
    }
}

/// Key code of a multi-character key name.
pub open spec fn spec_name_code(s: Seq<char>) -> Option<u16> {
    if s == "escape"@ {
        Some(1u16)
    } else if s == "backspace"@ {
        Some(14u16)
    } else if s == "capslock"@ {
        Some(58u16)
    } else if s == "return"@ || s == "enter"@ {
        Some(28u16)
    } else if s == "tab"@ {
        Some(15u16)
    } else if s == "space"@ {
        Some(57u16)
    } else if s == "plus"@ {
        Some(78u16)
    } else if s == "minus"@ {
        Some(12u16)
    } else if s == "equal"@ {
        Some(13u16)
    } else if s == "grave"@ {
        Some(41u16)
    } else if s == "print"@ {
        Some(99u16)
    } else if s == "volumeup"@ {
        Some(115u16)
    } else if s == "volumedown"@ {
        Some(114u16)
    } else if s == "mute"@ {
        Some(113u16)
    } else if s == "brightnessup"@ {
        Some(225u16)
    } else if s == "brightnessdown"@ {
        Some(224u16)
    } else if s == "comma"@ {
        Some(51u16)
    } else if s == "dot"@ || s == "period"@ {
        Some(52u16)
    } else if s == "slash"@ {
        Some(53u16)
    } else if s == "backslash"@ {
        Some(43u16)
    } else if s == "leftbrace"@ {
        Some(26u16)
    } else if s == "rightbrace"@ {
        Some(27u16)
    } else if s == "semicolon"@ {
        Some(39u16)
    } else if s == "apostrophe"@ {
        Some(40u16)
    } else if s == "left"@ {
        Some(105u16)
    } else if s == "right"@ {
        Some(106u16)
    } else if s == "up"@ {
        Some(103u16)
    } else if s == "down"@ {
        Some(108u16)
    } else if s == "pause"@ {
        Some(119u16)
    } else if s == "home"@ {
        Some(102u16)
    } else if s == "delete"@ {
        Some(111u16)
    } else if s == "insert"@ {
        Some(110u16)
    } else if s == "end"@ {
        Some(107u16)
    } else if s == "pagedown"@ {
        Some(109u16)
    } else if s == "pageup"@ {
        Some(104u16)
    } else if s == "f1"@ {
        Some(59u16)
    } else if s == "f2"@ {
        Some(60u16)
    } else if s == "f3"@ {
        Some(61u16)
    } else if s == "f4"@ {
        Some(62u16)
    } else if s == "f5"@ {
        Some(63u16)
    } else if s == "f6"@ {
        Some(64u16)
    } else if s == "f7"@ {
        Some(65u16)
    } else if s == "f8"@ {
        Some(66u16)
    } else if s == "f9"@ {
        Some(67u16)
    } else if s == "f10"@ {
        Some(68u16)
    } else if s == "f11"@ {
        Some(87u16)
    } else if s == "f12"@ {
        Some(88u16)
    } else {
        None
    }
}

/// Key code of a key name: single characters through the character
/// table, longer names through the name table.
pub open spec fn spec_key_code(s: Seq<char>) -> Option<u16> {
    if s.len() == 1 {
        spec_char_code(s[0])
    } else {
        spec_name_code(s)
    }
}

fn name_code(v: &Vec<char>) -> (r: Option<u16>)
    ensures
        r == spec_name_code(v@),
{
    if chars_eq_str(v, "escape") {
        Some(1u16)
    } else if chars_eq_str(v, "backspace") {
        Some(14u16)
    } else if chars_eq_str(v, "capslock") {
        Some(58u16)
    } else if chars_eq_str(v, "return") || chars_eq_str(v, "enter") {
        Some(28u16)
    } else if chars_eq_str(v, "tab") {
        Some(15u16)
    } else if chars_eq_str(v, "space") {
        Some(57u16)
    } else if chars_eq_str(v, "plus") {
        Some(78u16)
    } else if chars_eq_str(v, "minus") {
        Some(12u16)
    } else if chars_eq_str(v, "equal") {
        Some(13u16)
    } else if chars_eq_str(v, "grave") {
        Some(41u16)
    } else if chars_eq_str(v, "print") {
        Some(99u16)
    } else if chars_eq_str(v, "volumeup") {
        Some(115u16)
    } else if chars_eq_str(v, "volumedown") {
        Some(114u16)
    } else if chars_eq_str(v, "mute") {
        Some(113u16)
    } else if chars_eq_str(v, "brightnessup") {
        Some(225u16)
    } else if chars_eq_str(v, "brightnessdown") {
        Some(224u16)
    } else if chars_eq_str(v, "comma") {
        Some(51u16)
    } else if chars_eq_str(v, "dot") || chars_eq_str(v, "period") {
        Some(52u16)
    } else if chars_eq_str(v, "slash") {
        Some(53u16)
    } else if chars_eq_str(v, "backslash") {
        Some(43u16)
    } else if chars_eq_str(v, "leftbrace") {
        Some(26u16)
    } else if chars_eq_str(v, "rightbrace") {
        Some(27u16)
    } else if chars_eq_str(v, "semicolon") {
        Some(39u16)
    } else if chars_eq_str(v, "apostrophe") {
        Some(40u16)
    } else if chars_eq_str(v, "left") {
        Some(105u16)
    } else if chars_eq_str(v, "right") {
        Some(106u16)
    } else if chars_eq_str(v, "up") {
        Some(103u16)
    } else if chars_eq_str(v, "down") {
        Some(108u16)
    } else if chars_eq_str(v, "pause") {
        Some(119u16)
    } else if chars_eq_str(v, "home") {
        Some(102u16)
    } else if chars_eq_str(v, "delete") {
        Some(111u16)
    } else if chars_eq_str(v, "insert") {
        Some(110u16)
    } else if chars_eq_str(v, "end") {
        Some(107u16)
    } else if chars_eq_str(v, "pagedown") {
        Some(109u16)
    } else if chars_eq_str(v, "pageup") {
        Some(104u16)
    } else if chars_eq_str(v, "f1") {
        Some(59u16)
    } else if chars_eq_str(v, "f2") {
        Some(60u16)
    } else if chars_eq_str(v, "f3") {
        Some(61u16)
    } else if chars_eq_str(v, "f4") {
        Some(62u16)
    } else if chars_eq_str(v, "f5") {
        Some(63u16)
    } else if chars_eq_str(v, "f6") {
        Some(64u16)
    } else if chars_eq_str(v, "f7") {
        Some(65u16)
    } else if chars_eq_str(v, "f8") {
        Some(66u16)
    } else if chars_eq_str(v, "f9") {
        Some(67u16)
    } else if chars_eq_str(v, "f10") {
        Some(68u16)
    } else if chars_eq_str(v, "f11") {
        Some(87u16)
    } else if chars_eq_str(v, "f12") {
        Some(88u16)
    } else {
        None
    }
}

/// Key names are resolved case-insensitively: texts that differ only
/// in ASCII letter case name the same key code once both are folded,
/// which is how the grammar submits them.
pub proof fn lemma_key_name_case_insensitive(s: Seq<char>, t: Seq<char>)
    requires
        crate::text::case_variant(s, t),
    ensures
        spec_key_code(crate::text::lower_seq(s)) == spec_key_code(crate::text::lower_seq(t)),
{
    crate::text::lemma_case_variant_same_lower(s, t);
}

/// Whether this name is one of the multi-character names of the table.
pub fn known_name(v: &Vec<char>) -> (r: bool)
    ensures
        r == (spec_name_code(v@) is Some),
{
    name_code(v).is_some()
}

/// Resolves a key name to its key code; an unknown name is the
/// `InvalidKey` error carrying that name.
pub fn convert(s: &str) -> (r: Result<u16, ParseError>)
    ensures
        match r {
            Ok(c) => spec_key_code(s@) == Some(c),
            Err(e) => spec_key_code(s@) is None && (e matches ParseError::InvalidKey(m) && m@
                == s@),
        },
{
    let v = chars_of_str(s);
    let code: Option<u16> = if v.len() == 1 {
        char_code(v[0])
    } else {
        name_code(&v)
    };
    match code {
        Some(c) => Ok(c),
        None => Err(ParseError::InvalidKey(String::from_str(s))),
    }
}

} // verus!
