//! The tokens a chord is made of: modifiers, key attributes, and keys.

use vstd::prelude::*;

use crate::text::case_variant;
use crate::text::lemma_case_variant_same_lower;
use crate::text::lower_seq;
use crate::text::lower_range;
use crate::text::chars_eq_str;

verus! {

/// The closed set of chord modifiers. `Omission` stands for the `_`
/// shorthand alternative that contributes no modifier; it is kept
/// through shorthand compilation and stripped from every finished
/// binding.
#[derive(Debug, Clone, Copy, PartialEq, Eq, Structural)]
pub enum Modifier {
    Super,
    Alt,
    Altgr,
    Control,
    Shift,
    Any,
    Omission,
}

/// Position of a modifier in the fixed display order. A definition
/// keeps its modifier set sorted by this rank, so that equal sets are
/// equal sequences.
pub open spec fn spec_rank(m: Modifier) -> int {
    match m {
        Modifier::Super => 0,
        Modifier::Alt => 1,
        Modifier::Altgr => 2,
        Modifier::Control => 3,
        Modifier::Shift => 4,
        Modifier::Any => 5,
        Modifier::Omission => 6,
    }
}

impl Modifier {
    /// Exec counterpart of `spec_rank`.
    pub fn rank(self) -> (r: u8)
        ensures
            r as int == spec_rank(self),
    {
        match self {
            Modifier::Super => 0,
            Modifier::Alt => 1,
            Modifier::Altgr => 2,
            Modifier::Control => 3,
            Modifier::Shift => 4,
            Modifier::Any => 5,
            Modifier::Omission => 6,
        }
    }
}

/// The modifier named by a lowercase alias, if any.
pub open spec fn spec_classify(name: Seq<char>) -> Option<Modifier> {
    if name == "ctrl"@ || name == "control"@ {
        Some(Modifier::Control)
    } else if name == "super"@ || name == "mod4"@ || name == "meta"@ {
        Some(Modifier::Super)
    } else if name == "alt"@ || name == "mod1"@ {
        Some(Modifier::Alt)
    } else if name == "altgr"@ || name == "mod5"@ {
        Some(Modifier::Altgr)
    } else if name == "shift"@ {
        Some(Modifier::Shift)
    } else if name == "any"@ {
        Some(Modifier::Any)
    } else if name == "_"@ {
        Some(Modifier::Omission)
    } else {
        None
    }
}

/// Exec counterpart of `spec_classify`.
pub fn classify(name: &Vec<char>) -> (r: Option<Modifier>)
    ensures
        r == spec_classify(name@),
{
    if chars_eq_str(name, "ctrl") || chars_eq_str(name, "control") {
        Some(Modifier::Control)
    } else if chars_eq_str(name, "super") || chars_eq_str(name, "mod4") || chars_eq_str(
        name,
        "meta",
    ) {
        Some(Modifier::Super)
    } else if chars_eq_str(name, "alt") || chars_eq_str(name, "mod1") {
        Some(Modifier::Alt)
    } else if chars_eq_str(name, "altgr") || chars_eq_str(name, "mod5") {
        Some(Modifier::Altgr)
    } else if chars_eq_str(name, "shift") {
        Some(Modifier::Shift)
    } else if chars_eq_str(name, "any") {
        Some(Modifier::Any)
    } else if chars_eq_str(name, "_") {
        Some(Modifier::Omission)
    } else {
        None
    }
}

/// Modifier names are classified case-insensitively: texts that differ
/// only in ASCII letter case name the same modifier once both are
/// folded, which is how the grammar submits them.
pub proof fn lemma_classify_case_insensitive(s: Seq<char>, t: Seq<char>)
    requires
        case_variant(s, t),
    ensures
        spec_classify(lower_seq(s)) == spec_classify(lower_seq(t)),
{
    lemma_case_variant_same_lower(s, t);
}

/// Textual form of a modifier, as written in a configuration.
#[derive(Debug, PartialEq, Eq)]
pub struct ModifierRepr(pub String);

impl ModifierRepr {
    /// The modifier this text names, compared case-insensitively.
    pub fn modifier(&self) -> (r: Option<Modifier>)
        ensures
            r == spec_classify(lower_seq(self.0@)),
    {
        let v = crate::text::chars_of_str(self.0.as_str());
        let n = v.len();
        proof {
            assert(v@.subrange(0, n as int) =~= self.0@);
        }
        let lowered = lower_range(&v, 0, n);
        classify(&lowered)
    }
}

/// Timing flags of a key: `send` (the `~` prefix) passes the press
/// through, `on_release` (the `@` prefix) fires on release.
#[derive(Debug, Clone, Copy, PartialEq, Eq, Structural)]
pub struct KeyAttribute {
    pub send: bool,
    pub on_release: bool,
}

impl KeyAttribute {
    /// Neither flag set.
    pub fn empty() -> (a: KeyAttribute)
        ensures
            a == (KeyAttribute { send: false, on_release: false }),
    {
        KeyAttribute { send: false, on_release: false }
    }

    /// Union of the flags of `self` and `other`.
    pub fn union(self, other: KeyAttribute) -> (r: KeyAttribute)
        ensures
            r.send == (self.send || other.send),
            r.on_release == (self.on_release || other.on_release),
    {
        KeyAttribute { send: self.send || other.send, on_release: self.on_release || other.on_release }
    }
}

/// A concrete key: its key code together with its timing attribute.
/// Key codes are the kernel input-event scancodes.
#[derive(Debug, Clone, Copy, PartialEq, Eq, Structural)]
pub struct Key {
    pub key: u16,
    pub attribute: KeyAttribute,
}

impl Key {
    pub fn new(key: u16, attribute: KeyAttribute) -> (k: Key)
        ensures
            k == (Key { key, attribute }),
    {
        Key { key, attribute }
    }
}

/// Textual form of a key before its name is resolved to a key code.
#[derive(Debug, PartialEq, Eq)]
pub struct KeyRepr {
    pub key: String,
    pub attribute: KeyAttribute,
}

impl Clone for KeyRepr {
    fn clone(&self) -> (r: Self)
        ensures
            r == *self,
    {
        KeyRepr { key: self.key.clone(), attribute: self.attribute }
    }
}

} // verus!
