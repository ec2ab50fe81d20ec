//! Scanner status flags packed into one machine word.
//!
//! The scanner itself keeps its mode bits in plain local booleans; this
//! type offers the same set of bits as one `u32` word for callers that
//! want to carry a whole flag set around as a single value.

use vstd::prelude::*;

verus! {

/// A set of scanner status bits, one bit per flag.
#[derive(Debug, Clone, Copy, PartialEq, Eq)]
pub struct Flags {
    pub bits: u32,
}

impl Flags {
    /// The empty flag set.
    pub const NONE: u32 = 0;

    /// Inside a comment body.
    pub const IS_ANNOTATION: u32 = 1u32 << 1;

    /// Inside a tag, between `<` and `>`.
    pub const IS_TAG: u32 = 1u32 << 2;

    /// Inside a closing tag, after `</` or a self-close `/`.
    pub const IS_TAG_END: u32 = 1u32 << 3;

    /// Past the tag name, inside the attribute region.
    pub const IS_ATTRIBUTE: u32 = 1u32 << 4;

    /// Inside a quoted string.
    pub const IS_STRING: u32 = 1u32 << 5;

    /// Some bytes of a pending slice have been seen.
    pub const HAS_TEXT: u32 = 1u32 << 6;

    /// Suppress the next synthetic empty closing token once.
    pub const IGNORE_ONCE: u32 = 1u32 << 7;

    /// Resets every bit of the set.
    pub fn clear(&mut self)
        ensures
            final(self).bits == 0,
    {
        self.bits = 0;
    }
}

} // verus!
