//! Variable identifiers and per-variable binding slots.
//!
//! A `Variable` addresses one binding slot by `(scope, index)`; a
//! `VariableScope` has the same shape and is used during registration.
//! A `VariableContent` is one slot: its name, an optional alias pattern,
//! the current bound value, the append-only history of every value ever
//! bound, and the non-owning mirror back-references.

use vstd::prelude::*;

use crate::ranges::Range;

verus! {

/// Identifies a binding slot by `(scope, index)`. Immutable once created.
#[derive(Debug, Clone, Copy, PartialEq, Eq, Structural)]
pub struct Variable {
    pub scope: usize,
    pub index: usize,
}

impl Variable {
    pub fn new(scope: usize, index: usize) -> (r: Self)
        ensures
            r == (Variable { scope, index }),
    {
        Self { scope, index }
    }
}

/// The address of a slot at registration time, before promotion to a
/// `Variable`.
#[derive(Debug, Clone, Copy, PartialEq, Eq, Structural)]
pub struct VariableScope {
    pub scope: usize,
    pub index: usize,
}

impl VariableScope {
    pub fn new(scope: usize, index: usize) -> (r: Self)
        ensures
            r == (VariableScope { scope, index }),
    {
        Self { scope, index }
    }
}

/// What the state core reads of a pattern handed to it: either a reference
/// to another variable (making the receiving slot a pure indirection) or
/// some other construct whose semantics the pattern layer owns.
#[derive(Debug, Clone, Copy, PartialEq, Eq, Structural)]
pub enum Pattern {
    Variable(Variable),
    Other,
}

/// What the state core reads of one concrete binding inside a resolved
/// value: whether the language layer suppresses it for the current pattern
/// name, and the source position it binds to, if any.
#[derive(Debug, Clone, Copy, PartialEq, Eq)]
pub struct HistoryBinding {
    pub suppressed: bool,
    pub position: Option<Range>,
}

/// A value bound to a variable, as the state core reads it: the concrete
/// bindings it carries, if it carries any.
#[derive(Debug, Clone, PartialEq, Eq)]
pub struct ResolvedValue {
    pub bindings: Option<Vec<HistoryBinding>>,
}

/// One reported variable: its name, its scoped display name, and the
/// source ranges its history binds to.
#[derive(Debug, Clone, PartialEq, Eq)]
pub struct VariableMatch {
    pub name: String,
    pub scoped_name: String,
    pub ranges: Vec<Range>,
}

impl VariableMatch {
    pub fn new(name: String, scoped_name: String, ranges: Vec<Range>) -> (r: Self)
        ensures
            r.name@ == name@,
            r.scoped_name@ == scoped_name@,
            r.ranges@ == ranges@,
    {
        Self { name, scoped_name, ranges }
    }
}

/// One binding slot within a frame.
#[derive(Debug, Clone)]
pub struct VariableContent {
    /// The slot's name, unique within its frame at creation time.
    pub name: String,
    /// Optional alias: if this names another variable, the slot is a pure
    /// indirection to it.
    pub pattern: Option<Pattern>,
    /// The value currently bound to the slot.
    pub value: Option<ResolvedValue>,
    /// Every value ever bound to this slot, in binding order.
    pub value_history: Vec<ResolvedValue>,
    /// The slots aliased to this one: recorded when a scope is entered
    /// with an argument naming this variable. Informational only, never
    /// traversed for ownership or cleanup.
    pub mirrors: Vec<Variable>,
}

impl VariableContent {
    /// A fresh, unbound slot with the given name.
    pub fn new(name: String) -> (r: Self)
        ensures
            r.name@ == name@,
            r.pattern is None,
            r.value is None,
            r.value_history@.len() == 0,
            r.mirrors@.len() == 0,
    {
        Self {
            name,
            pattern: None,
            value: None,
            value_history: Vec::new(),
            mirrors: Vec::new(),
        }
    }
}

} // verus!
