//! Canonical nucleotides and the classification of alignment bytes.
use vstd::prelude::*;

verus! {

/// The class of one alignment byte: a canonical base, or anything else.
#[derive(Clone, Copy, Debug, PartialEq, Eq, Structural)]
pub enum Base {
    A,
    C,
    G,
    T,
    Other,
}

/// The class of a byte; upper- and lower-case letters of a base are the same base.
pub open spec fn base_of(b: u8) -> Base {
    if b == 65 || b == 97 {
        Base::A
    } else if b == 67 || b == 99 {
        Base::C
    } else if b == 71 || b == 103 {
        Base::G
    } else if b == 84 || b == 116 {
        Base::T
    } else {
        Base::Other
    }
}

/// Whether a byte is one of A, C, G, T in either case.
pub open spec fn is_canonical(b: u8) -> bool {
    base_of(b) != Base::Other
}

/// Classifies one alignment byte.
pub fn classify_base(b: u8) -> (r: Base)
    ensures
        r == base_of(b),
{
    match b {
        65 | 97 => Base::A,
        67 | 99 => Base::C,
        71 | 103 => Base::G,
        84 | 116 => Base::T,
        _ => Base::Other,
    }
}

/// The number of true flags among four.
pub open spec fn flags_set(a: bool, c: bool, g: bool, t: bool) -> int {
    (if a { 1int } else { 0 }) + (if c { 1int } else { 0 }) + (if g { 1int } else { 0 }) + (if t {
        1int
    } else {
        0
    })
}

/// A column varies when more than one distinct canonical base was seen in it.
pub fn has_variation(a: bool, c: bool, g: bool, t: bool) -> (r: bool)
    ensures
        r == (flags_set(a, c, g, t) > 1),
{
    let total: u32 = a as u32 + c as u32 + g as u32 + t as u32;
    total > 1
}

} // verus!
