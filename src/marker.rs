//! Classification of the four structural characters.

use vstd::prelude::*;

verus! {

/// `{` and `[`: the characters that open a structure.
pub open spec fn is_opener(c: char) -> bool {
    c == '{' || c == '['
}

/// `}` and `]`: the characters that close a structure.
pub open spec fn is_closer(c: char) -> bool {
    c == '}' || c == ']'
}

/// The characters the extractor reacts to.
pub open spec fn is_structural(c: char) -> bool {
    is_opener(c) || is_closer(c)
}

/// The closer that balances an opener.
pub open spec fn closer_for(c: char) -> char
    recommends
        is_opener(c),
{
    if c == '{' {
        '}'
    } else {
        ']'
    }
}

/// An open structure, remembered by the character that will close it.
#[derive(Debug, Clone, Copy, PartialEq, Eq, Structural)]
pub struct Marker {
    expected_counterpart: char,
}

impl View for Marker {
    type V = char;

    /// The closer this marker waits for.
    closed spec fn view(&self) -> char {
        self.expected_counterpart
    }
}

impl Marker {
    /// The marker for `marker` if it opens a structure, `None` otherwise.
    pub fn new(marker: &char) -> (r: Option<Self>)
        ensures
            r is Some <==> is_opener(*marker),
            r matches Some(m) ==> m@ == closer_for(*marker),
    {
        if *marker == '{' {
            Some(Marker { expected_counterpart: '}' })
        } else if *marker == '[' {
            Some(Marker { expected_counterpart: ']' })
        } else {
            None
        }
    }

    /// Whether `marker` is the character that closes this structure.
    pub fn is_counter_part(&self, marker: &char) -> (r: bool)
        ensures
            r == (self@ == *marker),
    {
        self.expected_counterpart == *marker
    }

    /// The character that closes this structure.
    pub fn expected_counterpart(&self) -> (r: char)
        ensures
            r == self@,
    {
        self.expected_counterpart
    }
}

} // verus!
