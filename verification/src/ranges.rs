//! Plain value types for source positions and ranges.
//!
//! These carry exactly what the state/effect core reads of a source
//! location: byte offsets, line/column positions, and the address that
//! identifies which source text a code range belongs to.

use vstd::prelude::*;

verus! {

/// A 1-based line/column position in a source file.
#[derive(Debug, Clone, Copy, PartialEq, Eq, Hash, Structural)]
pub struct Position {
    pub line: u32,
    pub column: u32,
}

/// A source range, with both line/column endpoints and byte offsets.
#[derive(Debug, Clone, Copy, PartialEq, Eq, Hash, Structural)]
pub struct Range {
    pub start: Position,
    pub end: Position,
    pub start_byte: u32,
    pub end_byte: u32,
}

/// A byte range `[start, end)` in a specific source text, identified by the
/// address of that text.
#[derive(Debug, Clone, Copy, PartialEq, Eq, Hash, Structural)]
pub struct CodeRange {
    /// Start byte of the range.
    pub start: u32,
    /// End byte of the range.
    pub end: u32,
    /// Address identifying the source text to which the range applies.
    pub address: usize,
}

impl CodeRange {
    pub fn new(start: u32, end: u32, address: usize) -> (r: Self)
        ensures
            r == (CodeRange { start, end, address }),
    {
        Self { start, end, address }
    }

    /// Whether the code range applies to the source text at the given
    /// address.
    pub fn applies_to(&self, source_address: usize) -> (r: bool)
        ensures
            r == (self.address == source_address),
    {
        self.address == source_address
    }

    /// Whether the given byte index is contained within the range.
    pub fn contains(&self, index: u32) -> (r: bool)
        ensures
            r == (self.start <= index && self.end > index),
    {
        self.start <= index && self.end > index
    }
}

} // verus!
