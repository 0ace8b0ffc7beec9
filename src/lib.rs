//! Static analysis of critical sections over a control-flow-graph IR.
//!
//! For every function of a compilation unit the library finds the
//! transactions (matched lock and unlock calls), traces shared objects from
//! their allocation sites through moves, borrows, closure captures and calls
//! to the accessors that read or write them, partitions the transactions into
//! conflict sets (the classes of transactions linked by shared objects), and
//! produces the edits that specialise each lock and unlock call for its
//! conflict set.
//!
//! - `ir`: the IR the analysis reads.
//! - `traversal`: reverse post-order of a function's blocks.
//! - `transaction_map`: which transaction encloses each call.
//! - `use_def`: tracing shared objects to their uses.
//! - `conflict`: conflict sets as connected components.
//! - `analysis`: the whole-unit analysis.
//! - `patch`: specialising lock and unlock calls.
//! - `pretty`, `passes`: printing-mode selection and pass names.

use vstd::prelude::*;

pub mod analysis;
pub mod conflict;
pub mod idmap;
pub mod ids;
pub mod ir;
pub mod passes;
pub mod patch;
pub mod pretty;
pub mod transaction_map;
pub mod traversal;
pub mod use_def;

verus! {

} // verus!
