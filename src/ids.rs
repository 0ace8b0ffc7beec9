use vstd::prelude::*;

verus! {

/// A position in a function's control-flow graph. A statement index equal to
/// the block's statement count denotes the block's terminator.
#[derive(Clone, Copy, PartialEq, Eq, Structural, Debug, Hash, PartialOrd, Ord)]
pub struct Location {
    pub block: usize,
    pub statement_index: usize,
}

/// One definition-site occurrence of a value: a local of a function at a
/// program point, optionally narrowed to a field of a capture tuple.
#[derive(Clone, Copy, PartialEq, Eq, Structural, Debug, Hash, PartialOrd, Ord)]
pub struct UniqueId {
    pub def_id: usize,
    pub local: usize,
    pub location: Location,
    pub field: Option<usize>,
}

/// One critical section, identified by its lock and unlock call sites.
#[derive(Clone, Copy, PartialEq, Eq, Structural, Debug, Hash, PartialOrd, Ord)]
pub struct Transaction {
    pub lock: UniqueId,
    pub unlock: UniqueId,
    pub is_write: bool,
}

/// The fact that a transaction uses a shared object with the given access kind.
#[derive(Clone, Copy, PartialEq, Eq, Structural, Debug, Hash, PartialOrd, Ord)]
pub struct TransactionUse {
    pub shared_object: UniqueId,
    pub is_write: bool,
}

/// The shared objects that one transaction uses.
#[derive(Clone, Debug)]
pub struct AllocationSet {
    pub lock: UniqueId,
    pub unlock: UniqueId,
    pub allocations: Vec<TransactionUse>,
}

impl UniqueId {
    /// The identity of `local` of function `def_id` at `location`.
    pub fn new(def_id: usize, local: usize, location: Location, field: Option<usize>) -> (r: UniqueId)
        ensures
            r == (UniqueId { def_id, local, location, field }),
    {
        UniqueId { def_id, local, location, field }
    }
}

} // verus!
