use vstd::prelude::*;

verus! {

/// Why processing stopped.
#[derive(Debug, Clone, Copy, PartialEq, Eq, Structural)]
pub enum GroupByError {
    /// A group-by or argument column is absent from the block.
    MissingColumn,
    /// An argument value does not have the type the aggregate function takes.
    ArgumentMismatch,
    /// A running count or sum left the range of its state.
    Overflow,
}

} // verus!
