//! The 1-bit value domain: a pirate is either a barbary ('0') or a
//! bucaneer ('1').

use vstd::prelude::*;

verus! {

/// One element of the bit sequence. `Bucaneer` stands for a one bit,
/// `Barbary` for a zero bit.
#[derive(Clone, Copy, PartialEq, Eq, Structural, Debug)]
pub enum Pirate {
    Barbary,
    Bucaneer,
}

impl Pirate {
    /// The bit this pirate stands for: `true` exactly for a bucaneer.
    pub open spec fn is_bucaneer(self) -> bool {
        self matches Pirate::Bucaneer
    }

    /// Parses one character of a run: '1' is a bucaneer, '0' a barbary,
    /// and anything else is malformed input, reported as `None`.
    pub fn from_char(c: char) -> (r: Option<Pirate>)
        ensures
            c == '1' ==> r == Some(Pirate::Bucaneer),
            c == '0' ==> r == Some(Pirate::Barbary),
            c != '0' && c != '1' ==> r is None,
    {
        match c {
            '1' => Some(Pirate::Bucaneer),
            '0' => Some(Pirate::Barbary),
            _ => None,
        }
    }

    /// The other pirate: the complement of the bit this one stands for.
    pub fn complement(self) -> (r: Pirate)
        ensures
            r.is_bucaneer() == !self.is_bucaneer(),
    {
        match self {
            Pirate::Barbary => Pirate::Bucaneer,
            Pirate::Bucaneer => Pirate::Barbary,
        }
    }

    /// The character encoding this pirate parses from and renders to.
    pub fn to_char(self) -> (r: char)
        ensures
            r == if self.is_bucaneer() {
                '1'
            } else {
                '0'
            },
    {
        match self {
            Pirate::Barbary => '0',
            Pirate::Bucaneer => '1',
        }
    }
}

} // verus!
