use vstd::prelude::*;

verus! {

/// Why a path expression was rejected.
#[derive(Debug, Clone, Copy, PartialEq, Eq, Structural)]
pub enum ParseError {
    /// A filter was closed or separated before a complete `name=value` pair.
    EmptyAttributeError,
    /// Reserved for a path without segments; the grammar accepts the empty path.
    EmptyPathError,
    /// A character is not allowed where it stands.
    SyntaxError,
    /// The input ends inside an unfinished filter.
    StateError,
}

} // verus!
