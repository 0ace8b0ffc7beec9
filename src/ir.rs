use vstd::prelude::*;
use crate::ids::Location;

verus! {

/// A local, optionally narrowed to one field of it (a capture tuple's field).
#[derive(Clone, Copy, PartialEq, Eq, Structural, Debug)]
pub struct Place {
    pub local: usize,
    pub field: Option<usize>,
}

#[derive(Clone, Copy, PartialEq, Eq, Structural, Debug)]
pub enum Operand {
    Copy(Place),
    Move(Place),
    Constant(usize),
}

/// The right-hand side of an assignment.
#[derive(Clone, Debug)]
pub enum Rvalue {
    Use(Operand),
    /// A shared borrow.
    Ref(Place),
    /// A mutable borrow: a mutating use of the place.
    RefMut(Place),
    /// A closure value built from its captured operands, in order.
    Closure(Vec<Operand>),
    /// Any other computation over the operands.
    Other(Vec<Operand>),
}

#[derive(Clone, Debug)]
pub enum Statement {
    Assign(Place, Rvalue),
    Nop,
}

/// The identity a call resolves to.
#[derive(Clone, Copy, PartialEq, Eq, Structural, Debug)]
pub struct Callee {
    pub def_id: usize,
    /// A closure type among the callee's generic arguments: the closure that
    /// the call invokes.
    pub closure: Option<usize>,
}

#[derive(Clone, Debug)]
pub enum Terminator {
    /// A call whose result is written to the local `destination`; `target`
    /// is the block that follows it, if the call returns.
    Call { func: Callee, args: Vec<Operand>, destination: usize, target: Option<usize> },
    Goto(usize),
    SwitchInt(Vec<usize>),
    Return,
}

#[derive(Clone, Debug)]
pub struct BasicBlockData {
    pub statements: Vec<Statement>,
    pub terminator: Terminator,
}

/// A function's control-flow graph. Block 0 is the entry; locals
/// `1..=arg_count` are the arguments.
#[derive(Clone, Debug)]
pub struct Body {
    pub blocks: Vec<BasicBlockData>,
    pub arg_count: usize,
}

/// The role of a function that the analysis recognises.
#[derive(Clone, Copy, PartialEq, Eq, Structural, Debug)]
pub enum ApiKind {
    /// Opens a transaction.
    Lock,
    /// Closes a transaction.
    Unlock,
    /// Constructs a new shared-object wrapper.
    Allocate,
    /// A borrowing accessor returning a read view.
    Read,
    /// A borrowing accessor returning a mutable view.
    Write,
    /// Preserves object identity (shared-pointer construction or clone,
    /// dereference, indexing).
    Passthrough,
    /// Anything else.
    Opaque,
}

/// A function of the program, with its body when it belongs to the
/// compilation unit under analysis.
#[derive(Clone, Debug)]
pub struct FnDef {
    pub kind: ApiKind,
    pub body: Option<Body>,
    pub is_const: bool,
}

/// A compilation unit: its functions, indexed by definition id.
#[derive(Clone, Debug)]
pub struct Program {
    pub functions: Vec<FnDef>,
}

/// The role of function `def_id`; an unknown id is opaque.
pub open spec fn kind_of(prog: Program, def_id: usize) -> ApiKind {
    if def_id < prog.functions@.len() {
        prog.functions@[def_id as int].kind
    } else {
        ApiKind::Opaque
    }
}

/// The location of block `b`'s terminator.
pub open spec fn terminator_location(body: Body, b: usize) -> Location {
    Location { block: b, statement_index: body.blocks@[b as int].statements@.len() as usize }
}

/// The blocks that block `b`'s terminator may pass control to.
pub open spec fn successors(body: Body, b: int) -> Seq<usize> {
    match body.blocks@[b].terminator {
        Terminator::Call { target, .. } => match target {
            Some(t) => seq![t],
            None => Seq::empty(),
        },
        Terminator::Goto(t) => seq![t],
        Terminator::SwitchInt(ts) => ts@,
        Terminator::Return => Seq::empty(),
    }
}

impl Program {
    pub fn kind_of(&self, def_id: usize) -> (r: ApiKind)
        ensures
            r == kind_of(*self, def_id),
    {
        if def_id < self.functions.len() {
            self.functions[def_id].kind
        } else {
            ApiKind::Opaque
        }
    }
}

impl Body {
    pub fn terminator_location(&self, b: usize) -> (r: Location)
        requires
            b < self.blocks@.len(),
        ensures
            r == terminator_location(*self, b),
    {
        Location { block: b, statement_index: self.blocks[b].statements.len() }
    }

    pub fn successors(&self, b: usize) -> (r: Vec<usize>)
        requires
            b < self.blocks@.len(),
        ensures
            r@ == successors(*self, b as int),
    {
        match &self.blocks[b].terminator {
            Terminator::Call { target, .. } => match target {
                Some(t) => vec![*t],
                None => Vec::new(),
            },
            Terminator::Goto(t) => vec![*t],
            Terminator::SwitchInt(ts) => ts.clone(),
            Terminator::Return => Vec::new(),
        }
    }
}

} // verus!
