use vstd::prelude::*;
use crate::idmap::IdMap;
use crate::ids::{Location, TransactionUse, UniqueId};
use crate::ir::{kind_of, terminator_location, ApiKind, Body, FnDef, Operand, Program, Rvalue, Statement, Terminator};
use crate::transaction_map::{empty_state, is_boundary, join, marker_id, markers, scan, Marker, ScanState, TransactionMap};
use crate::traversal::{is_traversal, reverse_postorder, rpo};

verus! {

/// How a traced value is used at one location.
#[derive(Clone, Copy, PartialEq, Eq, Structural, Debug)]
pub enum UseKind {
    /// Passed to function `.1` as its argument `.2`; the call's result is `.0`.
    Function(usize, usize, usize),
    /// Flows into local `.0`.
    Local(usize),
    /// Captured by the closure value built in local `.0`.
    ClosureArg(usize),
    /// Read through an accessor whose result is `.0`.
    Read(usize),
    /// Written through an accessor whose result is `.0`.
    Write(usize),
}

/// The local an operand names as a whole, if any.
pub open spec fn local_of_operand(op: Operand) -> Option<usize> {
    match op {
        Operand::Copy(p) => if p.field is None { Some(p.local) } else { None },
        Operand::Move(p) => if p.field is None { Some(p.local) } else { None },
        Operand::Constant(_) => None,
    }
}

/// The operand carries value `v`: it names `v`'s local, or moves out the
/// very field of it that `v` stands for.
pub open spec fn carries_value(op: Operand, v: UniqueId) -> bool {
    local_of_operand(op) == Some(v.local) || (match (op, v.field) {
        (Operand::Move(p), Some(f)) => p.local == v.local && p.field == Some(f),
        _ => false,
    })
}

/// The first argument, from position `k` on, that names `local` as a whole.
pub open spec fn arg_index_from(args: Seq<Operand>, local: usize, k: int) -> Option<usize>
    decreases args.len() - k,
{
    if k < 0 || k >= args.len() {
        None
    } else if local_of_operand(args[k]) == Some(local) {
        Some(k as usize)
    } else {
        arg_index_from(args, local, k + 1)
    }
}

/// What the statement or terminator at `loc` does with value `v`.
pub open spec fn use_kind_at(prog: Program, body: Body, loc: Location, v: UniqueId) -> Option<UseKind> {
    if loc.block >= body.blocks@.len() {
        None
    } else {
        let bb = body.blocks@[loc.block as int];
        let n = bb.statements@.len();
        if loc.statement_index > n {
            None
        } else if loc.statement_index < n {
            match bb.statements@[loc.statement_index as int] {
                Statement::Assign(place, rv) => if place.field is Some {
                    None
                } else {
                    let d = place.local;
                    match v.field {
                        Some(f) => match rv {
                            Rvalue::Use(Operand::Move(p)) => if p.field == Some(f) { Some(UseKind::Local(d)) } else { None },
                            Rvalue::Ref(p) => if p.field == Some(f) { Some(UseKind::Local(d)) } else { None },
                            Rvalue::RefMut(p) => if p.field == Some(f) { Some(UseKind::Local(d)) } else { None },
                            Rvalue::Closure(_) => Some(UseKind::ClosureArg(d)),
                            _ => None,
                        },
                        None => match rv {
                            Rvalue::Closure(_) => Some(UseKind::ClosureArg(d)),
                            _ => Some(UseKind::Local(d)),
                        },
                    }
                },
                Statement::Nop => None,
            }
        } else {
            match bb.terminator {
                Terminator::Call { func, args, destination, .. } => match kind_of(prog, func.def_id) {
                    ApiKind::Read => Some(UseKind::Read(destination)),
                    ApiKind::Write => Some(UseKind::Write(destination)),
                    ApiKind::Passthrough => Some(UseKind::Local(destination)),
                    _ => if func.closure is Some && v.field is Some {
                        Some(UseKind::Function(destination, func.closure->Some_0, v.field->Some_0))
                    } else {
                        match arg_index_from(args@, v.local, 0) {
                            Some(i) => Some(UseKind::Function(destination, func.def_id, i)),
                            None => None,
                        }
                    },
                },
                _ => None,
            }
        }
    }
}

pub fn operand_local(op: &Operand) -> (r: Option<usize>)
    ensures
        r == local_of_operand(*op),
{
    match op {
        Operand::Copy(p) => if p.field.is_none() { Some(p.local) } else { None },
        Operand::Move(p) => if p.field.is_none() { Some(p.local) } else { None },
        Operand::Constant(_) => None,
    }
}

fn carries(op: &Operand, v: &UniqueId) -> (r: bool)
    ensures
        r == carries_value(*op, *v),
{
    if operand_local(op) == Some(v.local) {
        return true;
    }
    match (op, v.field) {
        (Operand::Move(p), Some(f)) => p.local == v.local && p.field == Some(f),
        _ => false,
    }
}

fn arg_index(args: &Vec<Operand>, local: usize) -> (r: Option<usize>)
    ensures
        r == arg_index_from(args@, local, 0),
{
    let mut k: usize = 0;
    while k < args.len()
        invariant
            k <= args@.len(),
            arg_index_from(args@, local, 0) == arg_index_from(args@, local, k as int),
        decreases args@.len() - k,
    {
        if operand_local(&args[k]) == Some(local) {
            return Some(k);
        }
        k = k + 1;
    }
    None
}

/// Resolves what the statement or terminator at `loc` does with `v`.
pub fn location_to_use_kind(prog: &Program, body: &Body, loc: Location, v: &UniqueId) -> (r: Option<UseKind>)
    requires
        loc.block < body.blocks@.len(),
        loc.statement_index <= body.blocks@[loc.block as int].statements@.len(),
    ensures
        r == use_kind_at(*prog, *body, loc, *v),
{
    let bb = &body.blocks[loc.block];
    let n = bb.statements.len();
    if loc.statement_index < n {
        match &bb.statements[loc.statement_index] {
            Statement::Assign(place, rv) => {
                if place.field.is_some() {
                    return None;
                }
                let d = place.local;
                match v.field {
                    Some(f) => match rv {
                        Rvalue::Use(Operand::Move(p)) => if p.field == Some(f) { Some(UseKind::Local(d)) } else { None },
                        Rvalue::Ref(p) => if p.field == Some(f) { Some(UseKind::Local(d)) } else { None },
                        Rvalue::RefMut(p) => if p.field == Some(f) { Some(UseKind::Local(d)) } else { None },
                        Rvalue::Closure(_) => Some(UseKind::ClosureArg(d)),
                        _ => None,
                    },
                    None => match rv {
                        Rvalue::Closure(_) => Some(UseKind::ClosureArg(d)),
                        _ => Some(UseKind::Local(d)),
                    },
                }
            },
            Statement::Nop => None,
        }
    } else {
        match &bb.terminator {
            Terminator::Call { func, args, destination, .. } => match prog.kind_of(func.def_id) {
                ApiKind::Read => Some(UseKind::Read(*destination)),
                ApiKind::Write => Some(UseKind::Write(*destination)),
                ApiKind::Passthrough => Some(UseKind::Local(*destination)),
                _ => {
                    if func.closure.is_some() && v.field.is_some() {
                        Some(UseKind::Function(*destination, func.closure.unwrap(), v.field.unwrap()))
                    } else {
                        match arg_index(args, v.local) {
                            Some(i) => Some(UseKind::Function(*destination, func.def_id, i)),
                            None => None,
                        }
                    }
                },
            },
            _ => None,
        }
    }
}

/// The lock and unlock of the transaction that encloses a call.
#[derive(Clone, Copy, PartialEq, Eq, Structural, Debug, Hash)]
pub struct Enclosing {
    pub lock: UniqueId,
    pub unlock: UniqueId,
}

/// A point of a trace: a value being followed (`access` is `None`), or the
/// result of a read (`Some(false)`) or write (`Some(true)`) accessor, where
/// the trace ends. `context` is the transaction enclosing the call through
/// which the trace entered the value's function, if any.
#[derive(Clone, Copy, PartialEq, Eq, Structural, Debug)]
pub struct TraceNode {
    pub id: UniqueId,
    pub context: Option<Enclosing>,
    pub access: Option<bool>,
}

/// The fact that a transaction uses a shared object.
#[derive(Clone, Copy, PartialEq, Eq, Structural, Debug)]
pub struct Access {
    pub transaction: Enclosing,
    pub object: TransactionUse,
}

/// The body of function `f`, when it belongs to the compilation unit.
pub open spec fn body_of(prog: Program, f: usize) -> Option<Body> {
    if f < prog.functions@.len() {
        prog.functions@[f as int].body
    } else {
        None
    }
}

pub open spec fn mentions(op: Operand, local: usize) -> bool {
    match op {
        Operand::Copy(p) => p.local == local,
        Operand::Move(p) => p.local == local,
        Operand::Constant(_) => false,
    }
}

pub open spec fn any_mentions(ops: Seq<Operand>, local: usize) -> bool {
    exists|i: int| 0 <= i < ops.len() && #[trigger] mentions(ops[i], local)
}

/// The statement or terminator at `loc` uses `local` without mutating it.
pub open spec fn reads_local_at(body: Body, loc: Location, local: usize) -> bool {
    loc.block < body.blocks@.len() && ({
        let bb = body.blocks@[loc.block as int];
        let n = bb.statements@.len();
        if loc.statement_index < n {
            match bb.statements@[loc.statement_index as int] {
                Statement::Assign(_, rv) => match rv {
                    Rvalue::Use(op) => mentions(op, local),
                    Rvalue::Ref(p) => p.local == local,
                    Rvalue::RefMut(_) => false,
                    Rvalue::Closure(ops) => any_mentions(ops@, local),
                    Rvalue::Other(ops) => any_mentions(ops@, local),
                },
                Statement::Nop => false,
            }
        } else if loc.statement_index == n {
            match bb.terminator {
                Terminator::Call { args, .. } => any_mentions(args@, local),
                _ => false,
            }
        } else {
            false
        }
    })
}

/// The mapper's starting state in a function entered from a call inside
/// transaction `ctx`, or from outside any.
pub open spec fn init_state(ctx: Option<Enclosing>) -> ScanState {
    match ctx {
        Some(e) => (Some(e.lock), Map::empty(), Map::empty().insert(e.lock, e.unlock)),
        None => empty_state(),
    }
}

/// The transaction enclosing call `id` of function `f`, when `f` is walked in
/// `orders[f]` starting inside `ctx`.
pub open spec fn enclosing(prog: Program, orders: Seq<Seq<usize>>, f: usize, ctx: Option<Enclosing>, id: UniqueId) -> Option<Enclosing> {
    let st = scan(init_state(ctx), markers(prog, f, body_of(prog, f)->Some_0, orders[f as int]));
    let m = join(st.1, st.2);
    if m.contains_key(id) {
        Some(Enclosing { lock: m[id].0, unlock: m[id].1 })
    } else {
        None
    }
}

pub open spec fn flow_node(f: usize, d: usize, loc: Location, field: Option<usize>, ctx: Option<Enclosing>) -> TraceNode {
    TraceNode { id: UniqueId { def_id: f, local: d, location: loc, field }, context: ctx, access: None }
}

pub open spec fn access_node(f: usize, d: usize, loc: Location, ctx: Option<Enclosing>, is_write: bool) -> TraceNode {
    TraceNode { id: UniqueId { def_id: f, local: d, location: loc, field: None }, context: ctx, access: Some(is_write) }
}

/// The operands captured by the closure value built at `loc`.
pub open spec fn closure_ops(body: Body, loc: Location) -> Seq<Operand> {
    match body.blocks@[loc.block as int].statements@[loc.statement_index as int] {
        Statement::Assign(_, Rvalue::Closure(ops)) => ops@,
        _ => Seq::empty(),
    }
}

/// Where value `v`, passed as argument `idx` (or, narrowed to a capture
/// field, as a closure's environment), enters callee `g`.
pub open spec fn entry_node(g: usize, v: UniqueId, idx: usize, ctx: Option<Enclosing>) -> TraceNode {
    TraceNode {
        id: UniqueId {
            def_id: g,
            local: if v.field is Some { 1 } else { (idx + 1) as usize },
            location: Location { block: 0, statement_index: 0 },
            field: v.field,
        },
        context: ctx,
        access: None,
    }
}

/// `t` is where the use of `u` at `loc` leads.
pub open spec fn outcome(prog: Program, orders: Seq<Seq<usize>>, u: TraceNode, loc: Location, t: TraceNode) -> bool {
    let f = u.id.def_id;
    let body = body_of(prog, f)->Some_0;
    match use_kind_at(prog, body, loc, u.id) {
        Some(UseKind::Local(d)) => t == flow_node(f, d, loc, None, u.context),
        Some(UseKind::Read(d)) => t == access_node(f, d, loc, u.context, false),
        Some(UseKind::Write(d)) => t == access_node(f, d, loc, u.context, true),
        Some(UseKind::ClosureArg(d)) => exists|i: int| 0 <= i < closure_ops(body, loc).len()
            && carries_value(#[trigger] closure_ops(body, loc)[i], u.id) && t == flow_node(f, d, loc, Some(i as usize), u.context),
        Some(UseKind::Function(d, g, idx)) => body_of(prog, g) is Some && t == entry_node(
            g,
            u.id,
            idx,
            enclosing(prog, orders, f, u.context, UniqueId { def_id: f, local: d, location: loc, field: None }),
        ),
        None => false,
    }
}

/// One step of a trace: `t` is where some use of the followed value `u`
/// leads.
pub open spec fn steps_to(prog: Program, orders: Seq<Seq<usize>>, u: TraceNode, t: TraceNode) -> bool {
    &&& u.access is None
    &&& body_of(prog, u.id.def_id) is Some
    &&& exists|loc: Location| #[trigger] reads_local_at(body_of(prog, u.id.def_id)->Some_0, loc, u.id.local)
        && outcome(prog, orders, u, loc, t)
}

/// The trace points reachable from `s` in at most `n` steps.
pub open spec fn reach(prog: Program, orders: Seq<Seq<usize>>, s: TraceNode, n: nat) -> Set<TraceNode>
    decreases n,
{
    if n == 0 {
        set![s]
    } else {
        let r = reach(prog, orders, s, (n - 1) as nat);
        r.union(Set::new(|t: TraceNode| exists|u: TraceNode| r.contains(u) && #[trigger] steps_to(prog, orders, u, t)))
    }
}

/// Block `b` of `body` ends in a call that allocates a shared object.
pub open spec fn allocation_at(prog: Program, body: Body, b: int) -> bool {
    match body.blocks@[b].terminator {
        Terminator::Call { func, .. } => kind_of(prog, func.def_id) == ApiKind::Allocate,
        _ => false,
    }
}

/// The shared object that block `b`'s allocation call creates.
pub open spec fn seed_node(f: usize, body: Body, b: int) -> TraceNode {
    match body.blocks@[b].terminator {
        Terminator::Call { destination, .. } => flow_node(f, destination, terminator_location(body, b as usize), None, None),
        _ => flow_node(f, 0, terminator_location(body, b as usize), None, None),
    }
}

/// A trace leads from `s` to `t` in some number of steps.
pub open spec fn traced(prog: Program, orders: Seq<Seq<usize>>, s: TraceNode, t: TraceNode) -> bool {
    exists|n: nat| #[trigger] reach(prog, orders, s, n).contains(t)
}

/// `a` is a use of a shared object allocated in a block before `nb` of
/// function `f`: a trace leads from the allocation to an accessor inside
/// transaction `a.transaction`.
pub open spec fn is_access_before(prog: Program, orders: Seq<Seq<usize>>, f: usize, a: Access, nb: int) -> bool {
    exists|b: int, t: TraceNode| 0 <= b < nb && allocation_at(prog, body_of(prog, f)->Some_0, b)
        && #[trigger] traced(prog, orders, seed_node(f, body_of(prog, f)->Some_0, b), t)
        && t.access == Some(a.object.is_write)
        && a.object.shared_object == seed_node(f, body_of(prog, f)->Some_0, b).id
        && enclosing(prog, orders, t.id.def_id, t.context, t.id) == Some(a.transaction)
}

fn mentions_any(ops: &Vec<Operand>, local: usize) -> (r: bool)
    ensures
        r == any_mentions(ops@, local),
{
    let mut i: usize = 0;
    while i < ops.len()
        invariant
            i <= ops@.len(),
            forall|m: int| 0 <= m < i ==> !#[trigger] mentions(ops@[m], local),
        decreases ops@.len() - i,
    {
        let hit = match &ops[i] {
            Operand::Copy(p) => p.local == local,
            Operand::Move(p) => p.local == local,
            Operand::Constant(_) => false,
        };
        if hit {
            assert(mentions(ops@[i as int], local));
            return true;
        }
        i = i + 1;
    }
    false
}

fn reads_local(body: &Body, loc: Location, local: usize) -> (r: bool)
    ensures
        r == reads_local_at(*body, loc, local),
{
    if loc.block >= body.blocks.len() {
        return false;
    }
    let bb = &body.blocks[loc.block];
    let n = bb.statements.len();
    if loc.statement_index < n {
        match &bb.statements[loc.statement_index] {
            Statement::Assign(_, rv) => match rv {
                Rvalue::Use(op) => match op {
                    Operand::Copy(p) => p.local == local,
                    Operand::Move(p) => p.local == local,
                    Operand::Constant(_) => false,
                },
                Rvalue::Ref(p) => p.local == local,
                Rvalue::RefMut(_) => false,
                Rvalue::Closure(ops) => mentions_any(ops, local),
                Rvalue::Other(ops) => mentions_any(ops, local),
            },
            Statement::Nop => false,
        }
    } else if loc.statement_index == n {
        match &bb.terminator {
            Terminator::Call { args, .. } => mentions_any(args, local),
            _ => false,
        }
    } else {
        false
    }
}

/// Adds `t` to `v` unless it is there already.
fn push_node(v: &mut Vec<TraceNode>, t: TraceNode)
    ensures
        forall|x: TraceNode| #[trigger] final(v)@.contains(x) <==> old(v)@.contains(x) || x == t,
        old(v)@.contains(t) ==> final(v)@ == old(v)@,
        !old(v)@.contains(t) ==> final(v)@ == old(v)@.push(t),
{
    let mut i: usize = 0;
    while i < v.len()
        invariant
            i <= v@.len(),
            v@ == old(v)@,
            forall|m: int| 0 <= m < i ==> v@[m] != t,
        decreases v@.len() - i,
    {
        if v[i] == t {
            assert(old(v)@.contains(t));
            return;
        }
        i = i + 1;
    }
    v.push(t);
    proof {
        assert forall|x: TraceNode| #[trigger] v@.contains(x) <==> old(v)@.contains(x) || x == t by {
            if v@.contains(x) && x != t {
                let k = choose|k: int| 0 <= k < v@.len() && v@[k] == x;
                assert(old(v)@[k] == x);
            }
            if old(v)@.contains(x) {
                let k = choose|k: int| 0 <= k < old(v)@.len() && old(v)@[k] == x;
                assert(v@[k] == x);
            }
            if x == t {
                assert(v@[v@.len() - 1] == t);
            }
        }
    }
}

/// Adds `t` to `v` unless it is there already.
pub(crate) fn push_access(v: &mut Vec<Access>, t: Access)
    ensures
        forall|x: Access| #[trigger] final(v)@.contains(x) <==> old(v)@.contains(x) || x == t,
{
    let mut i: usize = 0;
    while i < v.len()
        invariant
            i <= v@.len(),
            v@ == old(v)@,
            forall|m: int| 0 <= m < i ==> v@[m] != t,
        decreases v@.len() - i,
    {
        if v[i] == t {
            return;
        }
        i = i + 1;
    }
    v.push(t);
    proof {
        assert forall|x: Access| #[trigger] v@.contains(x) <==> old(v)@.contains(x) || x == t by {
            if v@.contains(x) && x != t {
                let k = choose|k: int| 0 <= k < v@.len() && v@[k] == x;
                assert(old(v)@[k] == x);
            }
            if old(v)@.contains(x) {
                let k = choose|k: int| 0 <= k < old(v)@.len() && old(v)@[k] == x;
                assert(v@[k] == x);
            }
            if x == t {
                assert(v@[v@.len() - 1] == t);
            }
        }
    }
}

/// Adds `t` to `v` unless it is there already.
pub(crate) fn push_enclosing(v: &mut Vec<Enclosing>, t: Enclosing)
    requires
        old(v)@.no_duplicates(),
    ensures
        final(v)@.no_duplicates(),
        forall|x: Enclosing| #[trigger] final(v)@.contains(x) <==> old(v)@.contains(x) || x == t,
{
    let mut i: usize = 0;
    while i < v.len()
        invariant
            i <= v@.len(),
            v@ == old(v)@,
            old(v)@.no_duplicates(),
            forall|m: int| 0 <= m < i ==> v@[m] != t,
        decreases v@.len() - i,
    {
        if v[i] == t {
            return;
        }
        i = i + 1;
    }
    v.push(t);
    proof {
        assert forall|x: Enclosing| #[trigger] v@.contains(x) <==> old(v)@.contains(x) || x == t by {
            if v@.contains(x) && x != t {
                let k = choose|k: int| 0 <= k < v@.len() && v@[k] == x;
                assert(old(v)@[k] == x);
            }
            if old(v)@.contains(x) {
                let k = choose|k: int| 0 <= k < old(v)@.len() && old(v)@[k] == x;
                assert(v@[k] == x);
            }
            if x == t {
                assert(v@[v@.len() - 1] == t);
            }
        }
        assert forall|a: int, b: int| 0 <= a < v@.len() && 0 <= b < v@.len() && a != b implies v@[a] != v@[b] by {
            if a == v@.len() - 1 {
                assert(v@[b] == old(v)@[b]);
            } else if b == v@.len() - 1 {
                assert(v@[a] == old(v)@[a]);
            }
        }
    }
}

/// The order in which each function of the unit is walked: the reverse
/// post-order of its body; nothing for a function without one.
pub open spec fn unit_orders(prog: Program) -> Seq<Seq<usize>> {
    prog.functions@.map_values(|fd: FnDef| match fd.body {
        Some(b) => rpo(b),
        None => Seq::<usize>::empty(),
    })
}

/// Transaction `e` closes in the walk of function `f` from outside any
/// transaction: `e.unlock` is the unlock that closed lock `e.lock`.
pub open spec fn closes_in(prog: Program, orders: Seq<Seq<usize>>, f: usize, e: Enclosing) -> bool {
    let st = scan(empty_state(), markers(prog, f, body_of(prog, f)->Some_0, orders[f as int]));
    st.2.contains_key(e.lock) && st.2[e.lock] == e.unlock
}

/// Every lock of `m` is paired with an unlock of the same function.
pub open spec fn pairs_in_one_function(m: Map<UniqueId, UniqueId>) -> bool {
    forall|l: UniqueId| #[trigger] m.contains_key(l) ==> l.def_id == m[l].def_id
}

proof fn lemma_scan_one_function(prog: Program, f: usize, body: Body, order: Seq<usize>, init: ScanState, k: int)
    requires
        0 <= k <= order.len(),
        pairs_in_one_function(init.2),
        init.0 matches Some(l) ==> l.def_id == f || init.2.contains_key(l),
    ensures
        ({
            let st = scan(init, markers(prog, f, body, order).take(k));
            &&& pairs_in_one_function(st.2)
            &&& st.0 matches Some(l) ==> l.def_id == f || st.2.contains_key(l)
        }),
    decreases k,
{
    let ms = markers(prog, f, body, order);
    if k > 0 {
        lemma_scan_one_function(prog, f, body, order, init, k - 1);
        assert(ms.take(k).drop_last() == ms.take(k - 1));
        assert(ms.take(k).last() == ms[k - 1]);
        assert(ms[k - 1] == crate::transaction_map::marker_of(prog, f, body, order[k - 1]));
    }
}

/// A transaction that `enclosing` finds has its lock and unlock in one
/// function, when the transaction the walk starts inside has.
pub proof fn lemma_enclosing_one_function(prog: Program, orders: Seq<Seq<usize>>, f: usize, ctx: Option<Enclosing>, id: UniqueId)
    requires
        ctx matches Some(e) ==> e.lock.def_id == e.unlock.def_id,
    ensures
        enclosing(prog, orders, f, ctx, id) matches Some(e) ==> e.lock.def_id == e.unlock.def_id,
{
    let order = orders[f as int];
    let body = body_of(prog, f)->Some_0;
    let ms = markers(prog, f, body, order);
    lemma_scan_one_function(prog, f, body, order, init_state(ctx), order.len() as int);
    assert(ms.take(order.len() as int) == ms);
}

/// The transaction a trace point was entered in, if any, has its lock and
/// unlock in one function.
pub open spec fn context_in_one_function(t: TraceNode) -> bool {
    t.context matches Some(e) ==> e.lock.def_id == e.unlock.def_id
}

proof fn lemma_reach_contexts(prog: Program, orders: Seq<Seq<usize>>, s: TraceNode, n: nat)
    requires
        context_in_one_function(s),
    ensures
        forall|t: TraceNode| #[trigger] reach(prog, orders, s, n).contains(t) ==> context_in_one_function(t),
    decreases n,
{
    if n > 0 {
        lemma_reach_contexts(prog, orders, s, (n - 1) as nat);
        let r = reach(prog, orders, s, (n - 1) as nat);
        assert forall|t: TraceNode| #[trigger] reach(prog, orders, s, n).contains(t) implies context_in_one_function(t) by {
            if !r.contains(t) {
                let u = choose|u: TraceNode| r.contains(u) && #[trigger] steps_to(prog, orders, u, t);
                let loc = choose|loc: Location| #[trigger] reads_local_at(body_of(prog, u.id.def_id)->Some_0, loc, u.id.local)
                    && outcome(prog, orders, u, loc, t);
                let f = u.id.def_id;
                let body = body_of(prog, f)->Some_0;
                if let Some(UseKind::Function(d, g, idx)) = use_kind_at(prog, body, loc, u.id) {
                    lemma_enclosing_one_function(prog, orders, f, u.context,
                        UniqueId { def_id: f, local: d, location: loc, field: None });
                }
            }
        }
    }
}

/// A use that a trace from an allocation records lies in a transaction
/// whose lock and unlock are calls of one function.
pub proof fn lemma_access_one_function(prog: Program, orders: Seq<Seq<usize>>, f: usize, a: Access, nb: int)
    requires
        is_access_before(prog, orders, f, a, nb),
    ensures
        a.transaction.lock.def_id == a.transaction.unlock.def_id,
{
    let (b, t) = choose|b: int, t: TraceNode| 0 <= b < nb && allocation_at(prog, body_of(prog, f)->Some_0, b)
        && #[trigger] traced(prog, orders, seed_node(f, body_of(prog, f)->Some_0, b), t)
        && t.access == Some(a.object.is_write)
        && a.object.shared_object == seed_node(f, body_of(prog, f)->Some_0, b).id
        && enclosing(prog, orders, t.id.def_id, t.context, t.id) == Some(a.transaction);
    let seed = seed_node(f, body_of(prog, f)->Some_0, b);
    let n = choose|n: nat| #[trigger] reach(prog, orders, seed, n).contains(t);
    lemma_reach_contexts(prog, orders, seed, n);
    lemma_enclosing_one_function(prog, orders, t.id.def_id, t.context, t.id);
}

proof fn lemma_scan_inside(ms: Seq<Marker>, e: Enclosing, m: int)
    requires
        0 <= m <= ms.len(),
        forall|j: int| 0 <= j < ms.len() ==> !is_boundary(#[trigger] ms[j]),
    ensures
        ({
            let st = scan(init_state(Some(e)), ms.take(m));
            &&& st.0 == Some(e.lock)
            &&& st.2 == init_state(Some(e)).2
            &&& forall|j: int| 0 <= j < m && (#[trigger] ms[j]) is Call
                ==> st.1.contains_key(marker_id(ms[j])->Some_0) && st.1[marker_id(ms[j])->Some_0] == e.lock
        }),
    decreases m,
{
    if m > 0 {
        lemma_scan_inside(ms, e, m - 1);
        assert(ms.take(m).drop_last() == ms.take(m - 1));
        assert(ms.take(m).last() == ms[m - 1]);
        assert(!is_boundary(ms[m - 1]));
    }
}

/// A function with no lock or unlock call, entered inside transaction `e`
/// (as a closure or helper called inside `e` is), maps each of its calls to
/// `e`. So an accessor called there is recorded against the transaction
/// that encloses the call of the function, as if it were called directly at
/// that call site: the call boundary is transparent to tracing.
pub proof fn lemma_callee_inside_transaction(prog: Program, orders: Seq<Seq<usize>>, g: usize, e: Enclosing, k: int)
    requires
        body_of(prog, g) is Some,
        0 <= k < orders[g as int].len(),
        forall|j: int| 0 <= j < orders[g as int].len()
            ==> !is_boundary(#[trigger] markers(prog, g, body_of(prog, g)->Some_0, orders[g as int])[j]),
        markers(prog, g, body_of(prog, g)->Some_0, orders[g as int])[k] is Call,
    ensures
        enclosing(prog, orders, g, Some(e), marker_id(markers(prog, g, body_of(prog, g)->Some_0, orders[g as int])[k])->Some_0)
            == Some(e),
{
    let ms = markers(prog, g, body_of(prog, g)->Some_0, orders[g as int]);
    lemma_scan_inside(ms, e, ms.len() as int);
    assert(ms.take(ms.len() as int) == ms);
}

/// `t` reached from allocation `seed` gives fact `a`.
pub open spec fn gives_access(prog: Program, orders: Seq<Seq<usize>>, seed: TraceNode, t: TraceNode, a: Access) -> bool {
    &&& t.access == Some(a.object.is_write)
    &&& a.object.shared_object == seed.id
    &&& enclosing(prog, orders, t.id.def_id, t.context, t.id) == Some(a.transaction)
}

/// Some use at a location before position (`b`, `i`) of `u`'s function leads
/// from `u` to `t`.
pub open spec fn leads_before(prog: Program, orders: Seq<Seq<usize>>, u: TraceNode, t: TraceNode, b: int, i: int) -> bool {
    exists|loc: Location| (loc.block < b || loc.block == b && loc.statement_index < i)
        && #[trigger] reads_local_at(body_of(prog, u.id.def_id)->Some_0, loc, u.id.local)
        && outcome(prog, orders, u, loc, t)
}

proof fn lemma_arg_index_bound(args: Seq<Operand>, local: usize, k: int)
    ensures
        arg_index_from(args, local, k) matches Some(i) ==> i < args.len(),
    decreases args.len() - k,
{
    if 0 <= k < args.len() && local_of_operand(args[k]) != Some(local) {
        lemma_arg_index_bound(args, local, k + 1);
    }
}

proof fn lemma_function_index(prog: Program, body: Body, loc: Location, v: UniqueId)
    ensures
        v.field is None ==> (use_kind_at(prog, body, loc, v) matches Some(UseKind::Function(_, _, idx)) ==> loc.block
            < body.blocks@.len() && match body.blocks@[loc.block as int].terminator {
            Terminator::Call { args, .. } => idx < args@.len(),
            _ => false,
        }),
{
    if loc.block < body.blocks@.len() {
        if let Terminator::Call { args, .. } = body.blocks@[loc.block as int].terminator {
            lemma_arg_index_bound(args@, v.local, 0);
        }
    }
}

proof fn lemma_leads_next(prog: Program, orders: Seq<Seq<usize>>, u: TraceNode, b: usize, i: usize)
    ensures
        forall|t: TraceNode| #[trigger] leads_before(prog, orders, u, t, b as int, i + 1) <==> leads_before(prog, orders, u, t, b as int, i as int)
            || reads_local_at(body_of(prog, u.id.def_id)->Some_0, Location { block: b, statement_index: i }, u.id.local)
            && outcome(prog, orders, u, Location { block: b, statement_index: i }, t),
{
    let loc = Location { block: b, statement_index: i };
    assert forall|t: TraceNode| #[trigger] leads_before(prog, orders, u, t, b as int, i + 1) <==> leads_before(prog, orders, u, t, b as int, i as int)
        || reads_local_at(body_of(prog, u.id.def_id)->Some_0, loc, u.id.local) && outcome(prog, orders, u, loc, t) by {
        if leads_before(prog, orders, u, t, b as int, i + 1) {
            let l = choose|l: Location| (l.block < b || l.block == b && l.statement_index < i + 1)
                && #[trigger] reads_local_at(body_of(prog, u.id.def_id)->Some_0, l, u.id.local)
                && outcome(prog, orders, u, l, t);
            if l != loc {
                assert(leads_before(prog, orders, u, t, b as int, i as int));
            }
        }
        if reads_local_at(body_of(prog, u.id.def_id)->Some_0, loc, u.id.local) && outcome(prog, orders, u, loc, t) {
            assert(leads_before(prog, orders, u, t, b as int, i + 1));
        }
        if leads_before(prog, orders, u, t, b as int, i as int) {
            let l = choose|l: Location| (l.block < b || l.block == b && l.statement_index < i)
                && #[trigger] reads_local_at(body_of(prog, u.id.def_id)->Some_0, l, u.id.local)
                && outcome(prog, orders, u, l, t);
            assert(leads_before(prog, orders, u, t, b as int, i + 1));
        }
    }
}

/// A trace point reached within `n` steps is reached within any more.
proof fn lemma_reach_grows(prog: Program, orders: Seq<Seq<usize>>, s: TraceNode, n: nat, m: nat)
    requires
        n <= m,
    ensures
        reach(prog, orders, s, n).subset_of(reach(prog, orders, s, m)),
    decreases m - n,
{
    if n < m {
        lemma_reach_grows(prog, orders, s, n, (m - 1) as nat);
    }
}

/// Once a round of steps adds nothing, no later round does.
proof fn lemma_reach_stable(prog: Program, orders: Seq<Seq<usize>>, s: TraceNode, r: nat, m: nat)
    requires
        r <= m,
        reach(prog, orders, s, r + 1) == reach(prog, orders, s, r),
    ensures
        reach(prog, orders, s, m) == reach(prog, orders, s, r),
    decreases m - r,
{
    if m > r {
        lemma_reach_stable(prog, orders, s, r, (m - 1) as nat);
        assert(reach(prog, orders, s, m) == reach(prog, orders, s, r + 1));
    }
}

/// Follows shared objects from their allocation sites, through moves,
/// borrows, closure captures and calls into the unit's own functions, to the
/// read and write accessors that use them, and records each use against the
/// transaction that encloses the accessor.
///
/// A trace that enters a callee carries the transaction enclosing the call
/// site, and the callee's calls are mapped to transactions starting inside
/// it. Each allocation's trace grows its set of reached trace points round by
/// round until a round adds none; a point is
/// never followed twice, so recursion, also into a function already on the
/// trace, ends. Calls into functions outside the unit end their trace.
pub struct UseDefVisitor<'a> {
    prog: &'a Program,
    def_id: usize,
    orders: Vec<Vec<usize>>,
}

impl<'a> UseDefVisitor<'a> {
    pub closed spec fn program(&self) -> Program {
        *self.prog
    }

    pub closed spec fn def_id(&self) -> usize {
        self.def_id
    }

    /// The order in which each function's blocks are walked.
    pub closed spec fn orders(&self) -> Seq<Seq<usize>> {
        self.orders@.map_values(|o: Vec<usize>| o@)
    }

    pub closed spec fn wf(&self) -> bool {
        &&& self.orders@.len() == self.prog.functions@.len()
        &&& forall|f: int| 0 <= f < self.orders@.len() && (#[trigger] self.prog.functions@[f]).body is Some
            ==> is_traversal(self.prog.functions@[f].body->Some_0, self.orders@[f]@)
    }

    /// A tracer for function `def_id` of `prog`; each function's blocks are
    /// walked in reverse post-order.
    pub fn new(prog: &'a Program, def_id: usize) -> (r: UseDefVisitor<'a>)
        ensures
            r.wf(),
            r.program() == *prog,
            r.def_id() == def_id,
            r.orders() == unit_orders(*prog),
    {
        let mut orders: Vec<Vec<usize>> = Vec::new();
        let mut f: usize = 0;
        while f < prog.functions.len()
            invariant
                f <= prog.functions@.len(),
                orders@.len() == f,
                forall|g: int| 0 <= g < f && (#[trigger] prog.functions@[g]).body is Some
                    ==> is_traversal(prog.functions@[g].body->Some_0, orders@[g]@),
                forall|g: int| 0 <= g < f ==> (#[trigger] orders@[g])@ == unit_orders(*prog)[g],
            decreases prog.functions@.len() - f,
        {
            match &prog.functions[f].body {
                Some(body) => {
                    orders.push(reverse_postorder(body));
                },
                None => {
                    orders.push(Vec::new());
                },
            }
            f = f + 1;
        }
        let r = UseDefVisitor { prog, def_id, orders };
        assert(r.orders() =~= unit_orders(*prog));
        r
    }

    /// Points the tracer at function `def_id`.
    pub fn set_function(&mut self, def_id: usize)
        ensures
            final(self).wf() == old(self).wf(),
            final(self).program() == old(self).program(),
            final(self).orders() == old(self).orders(),
            final(self).def_id() == def_id,
    {
        self.def_id = def_id;
    }

    /// The transaction enclosing call `id` of function `f`, entered inside
    /// transaction `ctx`.
    fn enclosing_call(&self, f: usize, ctx: Option<Enclosing>, id: UniqueId) -> (r: Option<Enclosing>)
        requires
            self.wf(),
            body_of(*self.prog, f) is Some,
        ensures
            r == enclosing(*self.prog, self.orders(), f, ctx, id),
    {
        match &self.prog.functions[f].body {
            Some(body) => {
                let ids = match ctx {
                    Some(e) => Some((e.lock, e.unlock)),
                    None => None,
                };
                let mut map = TransactionMap::new_child(f, ids, IdMap::new());
                assert(map.state() == init_state(ctx));
                assert(self.orders()[f as int] == self.orders@[f as int]@);
                assert(self.prog.functions@[f as int].body is Some);
                map.scan_blocks(self.prog, body, &self.orders[f]);
                assert(map.terminator_to_tx@ =~= join(map.state().1, map.state().2));
                match map.terminator_to_tx.get(&id) {
                    Some(p) => Some(Enclosing { lock: p.0, unlock: p.1 }),
                    None => None,
                }
            },
            None => None,
        }
    }

    /// The transactions that close in function `f`'s own walk, each lock
    /// with the unlock that closed it.
    pub fn transactions_of(&self, f: usize) -> (r: Vec<Enclosing>)
        requires
            self.wf(),
            body_of(self.program(), f) is Some,
        ensures
            r@.no_duplicates(),
            forall|e: Enclosing| #[trigger] r@.contains(e) <==> closes_in(self.program(), self.orders(), f, e),
    {
        let mut r: Vec<Enclosing> = Vec::new();
        let body = match &self.prog.functions[f].body {
            Some(body) => body,
            None => {
                return r;
            },
        };
        let mut map = TransactionMap::new(f);
        assert(self.orders()[f as int] == self.orders@[f as int]@);
        assert(self.prog.functions@[f as int].body is Some);
        map.scan_blocks(self.prog, body, &self.orders[f]);
        let ghost l2u = map.lock_to_unlock@;
        let ghost keys = map.lock_to_unlock.key_list();
        assert(l2u == scan(empty_state(), markers(*self.prog, f, *body, self.orders()[f as int])).2);
        let n = map.lock_to_unlock.key_count();
        let mut i: usize = 0;
        while i < n
            invariant
                n == keys.len(),
                i <= n,
                l2u == map.lock_to_unlock@,
                keys == map.lock_to_unlock.key_list(),
                r@.no_duplicates(),
                forall|e: Enclosing| #[trigger] r@.contains(e) <==> exists|m: int| 0 <= m < i && keys[m] == e.lock
                    && l2u.contains_key(e.lock) && l2u[e.lock] == e.unlock,
            decreases n - i,
        {
            let l = map.lock_to_unlock.key_at(i);
            proof {
                map.lock_to_unlock.lemma_keys(l);
                assert(keys.contains(l));
            }
            let ghost r0 = r@;
            if let Some(u) = map.lock_to_unlock.get(&l) {
                push_enclosing(&mut r, Enclosing { lock: l, unlock: u });
            }
            proof {
                assert forall|e: Enclosing| #[trigger] r@.contains(e) <==> exists|m: int| 0 <= m < i + 1 && keys[m] == e.lock
                    && l2u.contains_key(e.lock) && l2u[e.lock] == e.unlock by {
                    if exists|m: int| 0 <= m < i + 1 && keys[m] == e.lock && l2u.contains_key(e.lock) && l2u[e.lock] == e.unlock {
                        let m = choose|m: int| 0 <= m < i + 1 && keys[m] == e.lock && l2u.contains_key(e.lock) && l2u[e.lock] == e.unlock;
                        if m < i {
                            assert(exists|m2: int| 0 <= m2 < i && keys[m2] == e.lock && l2u.contains_key(e.lock) && l2u[e.lock] == e.unlock);
                        }
                    }
                }
            }
            i = i + 1;
        }
        proof {
            assert forall|e: Enclosing| #[trigger] r@.contains(e) <==> closes_in(*self.prog, self.orders(), f, e) by {
                map.lock_to_unlock.lemma_keys(e.lock);
                if l2u.contains_key(e.lock) {
                    let m = choose|m: int| 0 <= m < keys.len() && keys[m] == e.lock;
                }
            }
        }
        r
    }

    /// Where the use of `u` at `loc` leads.
    fn outcomes(&self, u: &TraceNode, loc: Location) -> (r: Vec<TraceNode>)
        requires
            self.wf(),
            body_of(*self.prog, u.id.def_id) is Some,
            reads_local_at(body_of(*self.prog, u.id.def_id)->Some_0, loc, u.id.local),
        ensures
            forall|t: TraceNode| #[trigger] r@.contains(t) <==> outcome(*self.prog, self.orders(), *u, loc, t),
            forall|t: TraceNode| #[trigger] r@.contains(t) ==> body_of(*self.prog, t.id.def_id) is Some,
    {
        let f = u.id.def_id;
        let mut r: Vec<TraceNode> = Vec::new();
        let body = match &self.prog.functions[f].body {
            Some(body) => body,
            None => {
                return r;
            },
        };
        match location_to_use_kind(self.prog, body, loc, &u.id) {
            Some(UseKind::Local(d)) => {
                r.push(TraceNode { id: UniqueId::new(f, d, loc, None), context: u.context, access: None });
            },
            Some(UseKind::Read(d)) => {
                r.push(TraceNode { id: UniqueId::new(f, d, loc, None), context: u.context, access: Some(false) });
            },
            Some(UseKind::Write(d)) => {
                r.push(TraceNode { id: UniqueId::new(f, d, loc, None), context: u.context, access: Some(true) });
            },
            Some(UseKind::ClosureArg(d)) => {
                if let Statement::Assign(_, Rvalue::Closure(ops)) = &body.blocks[loc.block].statements[loc.statement_index] {
                    assert(closure_ops(*body, loc) == ops@);
                    let mut i: usize = 0;
                    while i < ops.len()
                        invariant
                            i <= ops@.len(),
                            closure_ops(*body, loc) == ops@,
                            forall|t: TraceNode| #[trigger] r@.contains(t) <==> exists|k: int| 0 <= k < i
                                && carries_value(#[trigger] ops@[k], u.id) && t == flow_node(f, d, loc, Some(k as usize), u.context),
                            forall|t: TraceNode| #[trigger] r@.contains(t) ==> t.id.def_id == f,
                        decreases ops@.len() - i,
                    {
                        if carries(&ops[i], &u.id) {
                            push_node(&mut r, TraceNode { id: UniqueId::new(f, d, loc, Some(i)), context: u.context, access: None });
                        }
                        proof {
                            assert forall|t: TraceNode| #[trigger] r@.contains(t) <==> exists|k: int| 0 <= k < i + 1
                                && carries_value(#[trigger] ops@[k], u.id) && t == flow_node(f, d, loc, Some(k as usize), u.context) by {
                                if exists|k: int| 0 <= k < i + 1 && carries_value(#[trigger] ops@[k], u.id) && t == flow_node(f, d, loc, Some(k as usize), u.context) {
                                    let k = choose|k: int| 0 <= k < i + 1 && carries_value(#[trigger] ops@[k], u.id) && t == flow_node(f, d, loc, Some(k as usize), u.context);
                                    if k < i {
                                        assert(exists|k2: int| 0 <= k2 < i && carries_value(#[trigger] ops@[k2], u.id) && t == flow_node(f, d, loc, Some(k2 as usize), u.context));
                                    }
                                }
                            }
                        }
                        i = i + 1;
                    }
                }
            },
            Some(UseKind::Function(d, g, idx)) => {
                if g < self.prog.functions.len() && self.prog.functions[g].body.is_some() {
                    let ctx = self.enclosing_call(f, u.context, UniqueId::new(f, d, loc, None));
                    let local: usize = if u.id.field.is_some() {
                        1
                    } else {
                        proof {
                            lemma_function_index(*self.prog, *body, loc, u.id);
                        }
                        match &body.blocks[loc.block].terminator {
                            Terminator::Call { args, .. } => {
                                let arg_count = args.len();
                                assert(idx < arg_count);
                                idx + 1
                            },
                            _ => 0,
                        }
                    };
                    r.push(TraceNode {
                        id: UniqueId::new(g, local, Location { block: 0, statement_index: 0 }, u.id.field),
                        context: ctx,
                        access: None,
                    });
                }
            },
            None => {},
        }
        proof {
            assert forall|t: TraceNode| #[trigger] r@.contains(t) <==> outcome(*self.prog, self.orders(), *u, loc, t) by {
                if r@.len() == 1 {
                    assert(r@.contains(t) <==> r@[0] == t);
                }
            }
        }
        r
    }

    /// Adds the outcomes of the use of `u` at `loc`, if `loc` uses `u`.
    fn add_outcomes(&self, u: &TraceNode, loc: Location, r: &mut Vec<TraceNode>)
        requires
            self.wf(),
            body_of(*self.prog, u.id.def_id) is Some,
            forall|t: TraceNode| #[trigger] old(r)@.contains(t) ==> body_of(*self.prog, t.id.def_id) is Some,
        ensures
            forall|t: TraceNode| #[trigger] final(r)@.contains(t) <==> old(r)@.contains(t)
                || reads_local_at(body_of(*self.prog, u.id.def_id)->Some_0, loc, u.id.local)
                && outcome(*self.prog, self.orders(), *u, loc, t),
            forall|t: TraceNode| #[trigger] final(r)@.contains(t) ==> body_of(*self.prog, t.id.def_id) is Some,
    {
        let body = match &self.prog.functions[u.id.def_id].body {
            Some(body) => body,
            None => {
                return;
            },
        };
        assert(body_of(*self.prog, u.id.def_id)->Some_0 == *body);
        if reads_local(body, loc, u.id.local) {
            let outs = self.outcomes(u, loc);
            let mut k: usize = 0;
            while k < outs.len()
                invariant
                    k <= outs@.len(),
                    forall|t: TraceNode| #[trigger] r@.contains(t) <==> old(r)@.contains(t)
                        || exists|m: int| 0 <= m < k && outs@[m] == t,
                    forall|t: TraceNode| #[trigger] r@.contains(t) ==> body_of(*self.prog, t.id.def_id) is Some,
                    forall|t: TraceNode| #[trigger] outs@.contains(t) ==> body_of(*self.prog, t.id.def_id) is Some,
                decreases outs@.len() - k,
            {
                assert(outs@.contains(outs@[k as int]));
                push_node(r, outs[k]);
                proof {
                    assert forall|t: TraceNode| #[trigger] r@.contains(t) <==> old(r)@.contains(t)
                        || exists|m: int| 0 <= m < k + 1 && outs@[m] == t by {
                        if exists|m: int| 0 <= m < k + 1 && outs@[m] == t {
                            let m = choose|m: int| 0 <= m < k + 1 && outs@[m] == t;
                            if m < k {
                                assert(exists|m2: int| 0 <= m2 < k && outs@[m2] == t);
                            }
                        }
                    }
                }
                k = k + 1;
            }
            proof {
                assert forall|t: TraceNode| #[trigger] r@.contains(t) <==> old(r)@.contains(t)
                    || reads_local_at(body_of(*self.prog, u.id.def_id)->Some_0, loc, u.id.local)
                    && outcome(*self.prog, self.orders(), *u, loc, t) by {
                    if outs@.contains(t) {
                        let m = choose|m: int| 0 <= m < outs@.len() && outs@[m] == t;
                    }
                    if exists|m: int| 0 <= m < outs@.len() && outs@[m] == t {
                        let m = choose|m: int| 0 <= m < outs@.len() && outs@[m] == t;
                        assert(outs@.contains(outs@[m]));
                    }
                }
            }
        }
    }

    /// Every trace point one step from `u`.
    pub fn successors(&self, u: &TraceNode) -> (r: Vec<TraceNode>)
        requires
            self.wf(),
            body_of(self.program(), u.id.def_id) is Some,
        ensures
            forall|t: TraceNode| #[trigger] r@.contains(t) <==> steps_to(self.program(), self.orders(), *u, t),
            forall|t: TraceNode| #[trigger] r@.contains(t) ==> body_of(self.program(), t.id.def_id) is Some,
    {
        let mut r: Vec<TraceNode> = Vec::new();
        if u.access.is_some() {
            return r;
        }
        let body = match &self.prog.functions[u.id.def_id].body {
            Some(body) => body,
            None => {
                return r;
            },
        };
        let ghost prog = *self.prog;
        let ghost orders = self.orders();
        let mut b: usize = 0;
        while b < body.blocks.len()
            invariant
                self.wf(),
                prog == *self.prog,
                orders == self.orders(),
                body_of(prog, u.id.def_id) == Some(*body),
                u.access is None,
                b <= body.blocks@.len(),
                forall|t: TraceNode| #[trigger] r@.contains(t) <==> leads_before(prog, orders, *u, t, b as int, 0),
                forall|t: TraceNode| #[trigger] r@.contains(t) ==> body_of(prog, t.id.def_id) is Some,
            decreases body.blocks@.len() - b,
        {
            let n = body.blocks[b].statements.len();
            let mut i: usize = 0;
            while i < n
                invariant
                    self.wf(),
                    prog == *self.prog,
                    orders == self.orders(),
                    body_of(prog, u.id.def_id) == Some(*body),
                    b < body.blocks@.len(),
                    n == body.blocks@[b as int].statements@.len(),
                    i <= n,
                    forall|t: TraceNode| #[trigger] r@.contains(t) <==> leads_before(prog, orders, *u, t, b as int, i as int),
                    forall|t: TraceNode| #[trigger] r@.contains(t) ==> body_of(prog, t.id.def_id) is Some,
                decreases n - i,
            {
                self.add_outcomes(u, Location { block: b, statement_index: i }, &mut r);
                proof {
                    lemma_leads_next(prog, orders, *u, b, i);
                }
                i = i + 1;
            }
            self.add_outcomes(u, Location { block: b, statement_index: n }, &mut r);
            proof {
                lemma_leads_next(prog, orders, *u, b, n);
                assert forall|t: TraceNode| #[trigger] r@.contains(t) <==> leads_before(prog, orders, *u, t, b + 1, 0) by {
                    if leads_before(prog, orders, *u, t, b + 1, 0) {
                        let l = choose|l: Location| (l.block < b + 1 || l.block == b + 1 && l.statement_index < 0)
                            && #[trigger] reads_local_at(body_of(prog, u.id.def_id)->Some_0, l, u.id.local)
                            && outcome(prog, orders, *u, l, t);
                        assert(leads_before(prog, orders, *u, t, b as int, n + 1));
                    }
                    if leads_before(prog, orders, *u, t, b as int, n + 1) {
                        let l = choose|l: Location| (l.block < b || l.block == b && l.statement_index < n + 1)
                            && #[trigger] reads_local_at(body_of(prog, u.id.def_id)->Some_0, l, u.id.local)
                            && outcome(prog, orders, *u, l, t);
                        assert(leads_before(prog, orders, *u, t, b + 1, 0));
                    }
                }
            }
            b = b + 1;
        }
        proof {
            assert forall|t: TraceNode| #[trigger] r@.contains(t) <==> steps_to(prog, orders, *u, t) by {
                if steps_to(prog, orders, *u, t) {
                    let l = choose|l: Location| #[trigger] reads_local_at(body_of(prog, u.id.def_id)->Some_0, l, u.id.local)
                        && outcome(prog, orders, *u, l, t);
                    assert(leads_before(prog, orders, *u, t, b as int, 0));
                }
            }
        }
        r
    }

    /// Every trace point that a trace from `seed` reaches. Rounds of steps
    /// run until one adds no point; each other round adds one, so the rounds
    /// end before a vector of points could outgrow `usize`.
    pub fn reachable(&self, seed: TraceNode) -> (r: Vec<TraceNode>)
        requires
            self.wf(),
            body_of(self.program(), seed.id.def_id) is Some,
        ensures
            forall|t: TraceNode| #[trigger] r@.contains(t) <==> traced(self.program(), self.orders(), seed, t),
            forall|t: TraceNode| #[trigger] r@.contains(t) ==> body_of(self.program(), t.id.def_id) is Some,
    {
        let ghost prog = self.program();
        let ghost orders = self.orders();
        let mut visited: Vec<TraceNode> = Vec::new();
        visited.push(seed);
        proof {
            assert forall|t: TraceNode| #[trigger] visited@.contains(t) <==> reach(prog, orders, seed, 0).contains(t) by {
                if visited@.contains(t) {
                    let k = choose|k: int| 0 <= k < visited@.len() && visited@[k] == t;
                }
                if t == seed {
                    assert(visited@[0] == seed);
                }
            }
        }
        let mut round: usize = 0;
        while round < usize::MAX
            invariant
                self.wf(),
                prog == self.program(),
                orders == self.orders(),
                visited@.len() >= round + 1,
                forall|t: TraceNode| #[trigger] visited@.contains(t) <==> reach(prog, orders, seed, round as nat).contains(t),
                forall|t: TraceNode| #[trigger] visited@.contains(t) ==> body_of(prog, t.id.def_id) is Some,
            decreases usize::MAX - round,
        {
            let mut next: Vec<TraceNode> = Vec::new();
            let mut k: usize = 0;
            while k < visited.len()
                invariant
                    k <= visited@.len(),
                    next@ == visited@.take(k as int),
                decreases visited@.len() - k,
            {
                next.push(visited[k]);
                proof {
                    assert(visited@.take(k as int + 1) == visited@.take(k as int).push(visited@[k as int]));
                }
                k = k + 1;
            }
            assert(visited@.take(visited@.len() as int) == visited@);
            k = 0;
            while k < visited.len()
                invariant
                    self.wf(),
                    prog == self.program(),
                    orders == self.orders(),
                    k <= visited@.len(),
                    next@.len() >= visited@.len(),
                    next@.len() == visited@.len() ==> next@ == visited@,
                    forall|t: TraceNode| #[trigger] visited@.contains(t) ==> body_of(prog, t.id.def_id) is Some,
                    forall|t: TraceNode| #[trigger] next@.contains(t) ==> body_of(prog, t.id.def_id) is Some,
                    forall|t: TraceNode| #[trigger] next@.contains(t) <==> visited@.contains(t)
                        || exists|m: int| 0 <= m < k && #[trigger] steps_to(prog, orders, visited@[m], t),
                decreases visited@.len() - k,
            {
                assert(visited@.contains(visited@[k as int]));
                let succ = self.successors(&visited[k]);
                let ghost next0 = next@;
                let mut j: usize = 0;
                while j < succ.len()
                    invariant
                        j <= succ@.len(),
                        next@.len() >= visited@.len(),
                        next@.len() == visited@.len() ==> next@ == visited@,
                        forall|t: TraceNode| #[trigger] visited@.contains(t) ==> next@.contains(t),
                        forall|t: TraceNode| #[trigger] next@.contains(t) <==> next0.contains(t)
                            || exists|m: int| 0 <= m < j && succ@[m] == t,
                        forall|t: TraceNode| #[trigger] succ@.contains(t) ==> body_of(prog, t.id.def_id) is Some,
                        forall|t: TraceNode| #[trigger] next0.contains(t) ==> body_of(prog, t.id.def_id) is Some,
                        forall|t: TraceNode| #[trigger] next@.contains(t) ==> body_of(prog, t.id.def_id) is Some,
                    decreases succ@.len() - j,
                {
                    assert(succ@.contains(succ@[j as int]));
                    push_node(&mut next, succ[j]);
                    proof {
                        assert forall|t: TraceNode| #[trigger] next@.contains(t) <==> next0.contains(t)
                            || exists|m: int| 0 <= m < j + 1 && succ@[m] == t by {
                            if exists|m: int| 0 <= m < j + 1 && succ@[m] == t {
                                let m = choose|m: int| 0 <= m < j + 1 && succ@[m] == t;
                                if m < j {
                                    assert(exists|m2: int| 0 <= m2 < j && succ@[m2] == t);
                                }
                            }
                        }
                    }
                    j = j + 1;
                }
                proof {
                    assert forall|t: TraceNode| #[trigger] next@.contains(t) <==> visited@.contains(t)
                        || exists|m: int| 0 <= m < k + 1 && #[trigger] steps_to(prog, orders, visited@[m], t) by {
                        if exists|m: int| 0 <= m < succ@.len() && succ@[m] == t {
                            let m = choose|m: int| 0 <= m < succ@.len() && succ@[m] == t;
                            assert(succ@.contains(t));
                            assert(steps_to(prog, orders, visited@[k as int], t));
                        }
                        if steps_to(prog, orders, visited@[k as int], t) {
                            assert(succ@.contains(t));
                            let m = choose|m: int| 0 <= m < succ@.len() && succ@[m] == t;
                        }
                        if exists|m: int| 0 <= m < k + 1 && #[trigger] steps_to(prog, orders, visited@[m], t) {
                            let m = choose|m: int| 0 <= m < k + 1 && #[trigger] steps_to(prog, orders, visited@[m], t);
                            if m < k {
                                assert(exists|m2: int| 0 <= m2 < k && #[trigger] steps_to(prog, orders, visited@[m2], t));
                            }
                        }
                    }
                }
                k = k + 1;
            }
            proof {
                let r0 = reach(prog, orders, seed, round as nat);
                assert(reach(prog, orders, seed, (round + 1) as nat) == r0.union(
                    Set::new(|t: TraceNode| exists|u: TraceNode| r0.contains(u) && #[trigger] steps_to(prog, orders, u, t)),
                ));
                assert forall|t: TraceNode| #[trigger] next@.contains(t) <==> reach(prog, orders, seed, (round + 1) as nat).contains(t) by {
                    if exists|m: int| 0 <= m < visited@.len() && #[trigger] steps_to(prog, orders, visited@[m], t) {
                        let m = choose|m: int| 0 <= m < visited@.len() && #[trigger] steps_to(prog, orders, visited@[m], t);
                        assert(visited@.contains(visited@[m]));
                        assert(r0.contains(visited@[m]));
                    }
                    if exists|u: TraceNode| r0.contains(u) && #[trigger] steps_to(prog, orders, u, t) {
                        let u = choose|u: TraceNode| r0.contains(u) && #[trigger] steps_to(prog, orders, u, t);
                        assert(visited@.contains(u));
                        let m = choose|m: int| 0 <= m < visited@.len() && visited@[m] == u;
                        assert(steps_to(prog, orders, visited@[m], t));
                    }
                }
            }
            if next.len() == visited.len() {
                proof {
                    assert forall|t: TraceNode| reach(prog, orders, seed, (round + 1) as nat).contains(t)
                        <==> #[trigger] reach(prog, orders, seed, round as nat).contains(t) by {
                        assert(next@.contains(t) <==> reach(prog, orders, seed, (round + 1) as nat).contains(t));
                    }
                    assert(reach(prog, orders, seed, (round + 1) as nat) =~= reach(prog, orders, seed, round as nat));
                    assert forall|t: TraceNode| #[trigger] visited@.contains(t) <==> traced(prog, orders, seed, t) by {
                        if traced(prog, orders, seed, t) {
                            let n = choose|n: nat| #[trigger] reach(prog, orders, seed, n).contains(t);
                            if n <= round {
                                lemma_reach_grows(prog, orders, seed, n, round as nat);
                            } else {
                                lemma_reach_stable(prog, orders, seed, round as nat, n);
                            }
                        }
                        if visited@.contains(t) {
                            assert(reach(prog, orders, seed, round as nat).contains(t));
                        }
                    }
                }
                return visited;
            }
            visited = next;
            round = round + 1;
        }
        let count = visited.len();
        assert(count >= round + 1);
        visited
    }

    /// Every use of a shared object allocated in this function: for each
    /// allocation, the transactions whose accessors a trace from it reaches,
    /// with the access kind. An accessor outside any transaction adds nothing.
    pub fn perform(&self) -> (r: Vec<Access>)
        requires
            self.wf(),
        ensures
            forall|a: Access| #[trigger] r@.contains(a) <==> body_of(self.program(), self.def_id()) is Some
                && is_access_before(
                self.program(),
                self.orders(),
                self.def_id(),
                a,
                body_of(self.program(), self.def_id())->Some_0.blocks@.len() as int,
            ),
    {
        let mut facts: Vec<Access> = Vec::new();
        let f = self.def_id;
        if f >= self.prog.functions.len() {
            return facts;
        }
        let body = match &self.prog.functions[f].body {
            Some(body) => body,
            None => {
                return facts;
            },
        };
        let ghost prog = self.program();
        let ghost orders = self.orders();
        assert(body_of(prog, f) == Some(*body));
        let mut b: usize = 0;
        while b < body.blocks.len()
            invariant
                self.wf(),
                prog == self.program(),
                orders == self.orders(),
                f == self.def_id(),
                body_of(prog, f) == Some(*body),
                b <= body.blocks@.len(),
                forall|a: Access| #[trigger] facts@.contains(a) <==> is_access_before(prog, orders, f, a, b as int),
            decreases body.blocks@.len() - b,
        {
            let ghost facts0 = facts@;
            if let Terminator::Call { func, destination, .. } = &body.blocks[b].terminator {
                if self.prog.kind_of(func.def_id) == ApiKind::Allocate {
                    let seed = TraceNode {
                        id: UniqueId::new(f, *destination, body.terminator_location(b), None),
                        context: None,
                        access: None,
                    };
                    assert(seed == seed_node(f, *body, b as int));
                    let nodes = self.reachable(seed);
                    let mut k: usize = 0;
                    while k < nodes.len()
                        invariant
                            self.wf(),
                            prog == self.program(),
                            orders == self.orders(),
                            k <= nodes@.len(),
                            forall|t: TraceNode| #[trigger] nodes@.contains(t) ==> body_of(prog, t.id.def_id) is Some,
                            forall|a: Access| #[trigger] facts@.contains(a) <==> facts0.contains(a)
                                || exists|m: int| 0 <= m < k && #[trigger] gives_access(prog, orders, seed, nodes@[m], a),
                        decreases nodes@.len() - k,
                    {
                        let t = nodes[k];
                        assert(nodes@.contains(t));
                        let ghost facts1 = facts@;
                        if let Some(w) = t.access {
                            if let Some(e) = self.enclosing_call(t.id.def_id, t.context, t.id) {
                                let a_new = Access { transaction: e, object: TransactionUse { shared_object: seed.id, is_write: w } };
                                push_access(&mut facts, a_new);
                                proof {
                                    assert(gives_access(prog, orders, seed, t, a_new));
                                    assert forall|a: Access| gives_access(prog, orders, seed, t, a) implies a == a_new by {
                                        assert(a.object == a_new.object);
                                    }
                                }
                            } else {
                                assert(forall|a: Access| !gives_access(prog, orders, seed, t, a));
                            }
                        } else {
                            assert(forall|a: Access| !gives_access(prog, orders, seed, t, a));
                        }
                        proof {
                            assert forall|a: Access| #[trigger] facts@.contains(a) <==> facts0.contains(a)
                                || exists|m: int| 0 <= m < k + 1 && #[trigger] gives_access(prog, orders, seed, nodes@[m], a) by {
                                if exists|m: int| 0 <= m < k + 1 && #[trigger] gives_access(prog, orders, seed, nodes@[m], a) {
                                    let m = choose|m: int| 0 <= m < k + 1 && #[trigger] gives_access(prog, orders, seed, nodes@[m], a);
                                    if m < k {
                                        assert(exists|m2: int| 0 <= m2 < k && #[trigger] gives_access(prog, orders, seed, nodes@[m2], a));
                                    }
                                }
                                if facts1.contains(a) && !facts0.contains(a) {
                                    let m = choose|m: int| 0 <= m < k && #[trigger] gives_access(prog, orders, seed, nodes@[m], a);
                                    assert(exists|m2: int| 0 <= m2 < k + 1 && #[trigger] gives_access(prog, orders, seed, nodes@[m2], a));
                                }
                            }
                        }
                        k = k + 1;
                    }
                    proof {
                        assert forall|a: Access| #[trigger] facts@.contains(a) <==> is_access_before(prog, orders, f, a, b + 1) by {
                            if exists|m: int| 0 <= m < nodes@.len() && #[trigger] gives_access(prog, orders, seed, nodes@[m], a) {
                                let m = choose|m: int| 0 <= m < nodes@.len() && #[trigger] gives_access(prog, orders, seed, nodes@[m], a);
                                assert(nodes@.contains(nodes@[m]));
                                assert(allocation_at(prog, *body, b as int));
                                assert(traced(prog, orders, seed_node(f, *body, b as int), nodes@[m]));
                            }
                            if is_access_before(prog, orders, f, a, b + 1) {
                                let (b2, t) = choose|b2: int, t: TraceNode| 0 <= b2 < b + 1 && allocation_at(prog, body_of(prog, f)->Some_0, b2)
                                    && #[trigger] traced(prog, orders, seed_node(f, body_of(prog, f)->Some_0, b2), t)
                                    && t.access == Some(a.object.is_write)
                                    && a.object.shared_object == seed_node(f, body_of(prog, f)->Some_0, b2).id
                                    && enclosing(prog, orders, t.id.def_id, t.context, t.id) == Some(a.transaction);
                                if b2 == b {
                                    assert(nodes@.contains(t));
                                    let m = choose|m: int| 0 <= m < nodes@.len() && nodes@[m] == t;
                                    assert(gives_access(prog, orders, seed, nodes@[m], a));
                                } else {
                                    assert(is_access_before(prog, orders, f, a, b as int));
                                }
                            }
                            if is_access_before(prog, orders, f, a, b as int) {
                                let (b2, t) = choose|b2: int, t: TraceNode| 0 <= b2 < b && allocation_at(prog, body_of(prog, f)->Some_0, b2)
                                    && #[trigger] traced(prog, orders, seed_node(f, body_of(prog, f)->Some_0, b2), t)
                                    && t.access == Some(a.object.is_write)
                                    && a.object.shared_object == seed_node(f, body_of(prog, f)->Some_0, b2).id
                                    && enclosing(prog, orders, t.id.def_id, t.context, t.id) == Some(a.transaction);
                                assert(is_access_before(prog, orders, f, a, b + 1));
                            }
                        }
                    }
                }
            }
            proof {
                if !allocation_at(prog, *body, b as int) {
                    assert forall|a: Access| #[trigger] facts@.contains(a) <==> is_access_before(prog, orders, f, a, b + 1) by {
                        if is_access_before(prog, orders, f, a, b + 1) {
                            let (b2, t) = choose|b2: int, t: TraceNode| 0 <= b2 < b + 1 && allocation_at(prog, body_of(prog, f)->Some_0, b2)
                                && #[trigger] traced(prog, orders, seed_node(f, body_of(prog, f)->Some_0, b2), t)
                                && t.access == Some(a.object.is_write)
                                && a.object.shared_object == seed_node(f, body_of(prog, f)->Some_0, b2).id
                                && enclosing(prog, orders, t.id.def_id, t.context, t.id) == Some(a.transaction);
                            assert(is_access_before(prog, orders, f, a, b as int));
                        }
                        if is_access_before(prog, orders, f, a, b as int) {
                            let (b2, t) = choose|b2: int, t: TraceNode| 0 <= b2 < b && allocation_at(prog, body_of(prog, f)->Some_0, b2)
                                && #[trigger] traced(prog, orders, seed_node(f, body_of(prog, f)->Some_0, b2), t)
                                && t.access == Some(a.object.is_write)
                                && a.object.shared_object == seed_node(f, body_of(prog, f)->Some_0, b2).id
                                && enclosing(prog, orders, t.id.def_id, t.context, t.id) == Some(a.transaction);
                            assert(is_access_before(prog, orders, f, a, b + 1));
                        }
                    }
                }
            }
            b = b + 1;
        }
        facts
    }
}

} // verus!
