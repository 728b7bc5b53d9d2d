//! Hard errors raised by the state/effect core.
//!
//! These are the recoverable failures: everything else that can go wrong
//! here is a programmer-invariant violation and is excluded by `requires`
//! clauses instead.

use vstd::prelude::*;

verus! {

/// A recoverable failure of the state/effect core.
#[derive(Debug, Clone, Copy, PartialEq, Eq, Structural)]
pub enum StateError {
    /// The absolute path of a file was requested before the file was loaded.
    AbsolutePathBeforeLoad,
    /// Two candidate effects overlap without one being nested in the other.
    OverlappingEffects,
    /// A binding selected for rewriting has no resolvable byte range.
    BindingWithoutRange,
}

pub open spec fn absolute_path_message() -> Seq<char> {
    "Absolute file path accessed before file was loaded."@
}

pub open spec fn overlapping_effects_message() -> Seq<char> {
    "effects have overlapping ranges"@
}

pub open spec fn binding_without_range_message() -> Seq<char> {
    "binding has no range"@
}

pub open spec fn message_of(e: StateError) -> Seq<char> {
    match e {
        StateError::AbsolutePathBeforeLoad => absolute_path_message(),
        StateError::OverlappingEffects => overlapping_effects_message(),
        StateError::BindingWithoutRange => binding_without_range_message(),
    }
}

impl StateError {
    /// The human-readable description of this error.
    pub fn message(&self) -> (s: String)
        ensures
            s@ == message_of(*self),
    {
        match self {
            StateError::AbsolutePathBeforeLoad => {
                "Absolute file path accessed before file was loaded.".to_owned()
            },
            StateError::OverlappingEffects => "effects have overlapping ranges".to_owned(),
            StateError::BindingWithoutRange => "binding has no range".to_owned(),
        }
    }
}

} // verus!
