//! The plain data that the scanner, the scope stack and the query share.

use vstd::prelude::*;

verus! {

/// A place in a document: a line (counted from zero) and the half-open
/// range of character columns `[start, end)` on that line. Columns count
/// Unicode scalar values, not bytes.
#[derive(Clone, Copy, Debug, PartialEq, Eq, Structural)]
pub struct Location {
    pub line: usize,
    pub start: usize,
    pub end: usize,
}

/// What a variable holds. Nothing is ever evaluated here, so every variable
/// stays unresolved.
#[derive(Clone, Copy, Debug, PartialEq, Eq, Structural)]
pub enum Value {
    Null,
}

/// A bound name: where it was declared, and its value placeholder.
#[derive(Clone, Copy, Debug, PartialEq, Eq, Structural)]
pub struct Var {
    pub value: Value,
    pub location: Location,
}

/// The block that a scope belongs to, and where that block opened.
#[derive(Clone, Copy, Debug, PartialEq, Eq, Structural)]
pub enum Statement {
    Global,
    If(Location),
    Else(Location),
    With(Location),
    Range(Location),
}

/// Why a query could not be answered.
#[derive(Clone, Copy, Debug, PartialEq, Eq, Structural)]
pub enum ResolveError {
    /// The block statements do not nest: an `end` or `else` with no open
    /// block, or an `else` that closes a block other than an `if`. Carries
    /// the place of the offending statement.
    MalformedTemplate(Location),
}

impl Var {
    /// A variable declared at `location`, not yet resolved to a value.
    pub fn declared_at(location: Location) -> (var: Var)
        ensures
            var == (Var { value: Value::Null, location }),
    {
        Var { value: Value::Null, location }
    }
}

} // verus!
