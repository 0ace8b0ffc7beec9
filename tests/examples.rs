use stm_analysis::analysis::{conflict_analysis, get_shared_objects, group_by_transaction};
use stm_analysis::ids::{Location, Transaction, TransactionUse, UniqueId};
use stm_analysis::ir::{ApiKind, BasicBlockData, Body, Callee, FnDef, Operand, Place, Program, Rvalue, Statement, Terminator};
use stm_analysis::transaction_map::TransactionMap;
use stm_analysis::use_def::{location_to_use_kind, Access, Enclosing, TraceNode, UseDefVisitor, UseKind};

const LOCK: usize = 0;
const UNLOCK: usize = 1;
const ALLOC: usize = 2;
const READ: usize = 3;
const WRITE: usize = 4;

fn api() -> Vec<FnDef> {
    [ApiKind::Lock, ApiKind::Unlock, ApiKind::Allocate, ApiKind::Read, ApiKind::Write]
        .iter()
        .map(|&kind| FnDef { kind, body: None, is_const: false })
        .collect()
}

fn user(blocks: Vec<BasicBlockData>, arg_count: usize) -> FnDef {
    FnDef { kind: ApiKind::Opaque, body: Some(Body { blocks, arg_count }), is_const: false }
}

fn call(def_id: usize, args: Vec<Operand>, destination: usize, target: usize) -> BasicBlockData {
    BasicBlockData {
        statements: vec![],
        terminator: Terminator::Call { func: Callee { def_id, closure: None }, args, destination, target: Some(target) },
    }
}

fn ret() -> BasicBlockData {
    BasicBlockData { statements: vec![], terminator: Terminator::Return }
}

fn copy(local: usize) -> Operand {
    Operand::Copy(Place { local, field: None })
}

fn id(def_id: usize, local: usize, block: usize, statement_index: usize) -> UniqueId {
    UniqueId::new(def_id, local, Location { block, statement_index }, None)
}

/// main (5) allocates x and y and calls f(x, y) and g(y);
/// f (6): lock; write(x); read(y); unlock.  g (7): lock; write(y); unlock.
fn two_functions() -> Program {
    let mut functions = api();
    functions.push(user(
        vec![
            call(ALLOC, vec![], 1, 1),
            call(ALLOC, vec![], 2, 2),
            call(6, vec![copy(1), copy(2)], 3, 3),
            call(7, vec![copy(2)], 4, 4),
            ret(),
        ],
        0,
    ));
    functions.push(user(
        vec![
            call(LOCK, vec![Operand::Constant(0)], 3, 1),
            call(WRITE, vec![copy(1)], 4, 2),
            call(READ, vec![copy(2)], 5, 3),
            call(UNLOCK, vec![Operand::Constant(0)], 6, 4),
            ret(),
        ],
        2,
    ));
    functions.push(user(
        vec![
            call(LOCK, vec![Operand::Constant(0)], 2, 1),
            call(WRITE, vec![copy(1)], 3, 2),
            call(UNLOCK, vec![Operand::Constant(0)], 4, 3),
            ret(),
        ],
        1,
    ));
    Program { functions }
}

fn tx_f() -> Transaction {
    Transaction { lock: id(6, 3, 0, 0), unlock: id(6, 6, 3, 0), is_write: true }
}

fn tx_g() -> Transaction {
    Transaction { lock: id(7, 2, 0, 0), unlock: id(7, 4, 2, 0), is_write: true }
}

#[test]
fn transactions_sharing_an_object_form_one_conflict_set() {
    let prog = two_functions();
    let r = conflict_analysis(&prog);
    assert_eq!(r.len(), 1);
    assert_eq!(r[0].len(), 2);
    assert!(r[0].contains(&tx_f()));
    assert!(r[0].contains(&tx_g()));
}

#[test]
fn uses_are_recorded_per_transaction() {
    let prog = two_functions();
    let x = id(5, 1, 0, 0);
    let y = id(5, 2, 1, 0);
    let sets = get_shared_objects(&prog, 5);
    assert_eq!(sets.len(), 2);
    let f = sets.iter().find(|s| s.lock == tx_f().lock).unwrap();
    assert_eq!(f.unlock, tx_f().unlock);
    assert_eq!(f.allocations.len(), 2);
    assert!(f.allocations.contains(&TransactionUse { shared_object: x, is_write: true }));
    assert!(f.allocations.contains(&TransactionUse { shared_object: y, is_write: false }));
    let g = sets.iter().find(|s| s.lock == tx_g().lock).unwrap();
    assert_eq!(g.allocations, vec![TransactionUse { shared_object: y, is_write: true }]);
    // f and g allocate nothing themselves.
    assert!(get_shared_objects(&prog, 6).is_empty());
    assert!(get_shared_objects(&prog, 7).is_empty());
}

#[test]
fn object_used_only_inside_one_function_gives_a_singleton() {
    let mut functions = api();
    functions.push(user(
        vec![
            call(ALLOC, vec![], 1, 1),
            call(LOCK, vec![Operand::Constant(0)], 2, 2),
            call(WRITE, vec![copy(1)], 3, 3),
            call(UNLOCK, vec![Operand::Constant(0)], 4, 4),
            ret(),
        ],
        0,
    ));
    let prog = Program { functions };
    let r = conflict_analysis(&prog);
    let h = Transaction { lock: id(5, 2, 1, 0), unlock: id(5, 4, 3, 0), is_write: true };
    assert_eq!(r, vec![vec![h]]);
}

#[test]
fn transaction_without_shared_objects_is_its_own_set() {
    // h (5): x = alloc; lock; write(x); unlock; lock; other(); unlock.
    let mut functions = api();
    functions.push(user(
        vec![
            call(ALLOC, vec![], 1, 1),
            call(LOCK, vec![Operand::Constant(0)], 2, 2),
            call(WRITE, vec![copy(1)], 3, 3),
            call(UNLOCK, vec![Operand::Constant(0)], 4, 4),
            call(LOCK, vec![Operand::Constant(0)], 5, 5),
            call(6, vec![], 6, 6),
            call(UNLOCK, vec![Operand::Constant(0)], 7, 7),
            ret(),
        ],
        0,
    ));
    functions.push(FnDef { kind: ApiKind::Opaque, body: None, is_const: false });
    let prog = Program { functions };
    let r = conflict_analysis(&prog);
    let busy = Transaction { lock: id(5, 2, 1, 0), unlock: id(5, 4, 3, 0), is_write: true };
    let quiet = Transaction { lock: id(5, 5, 4, 0), unlock: id(5, 7, 6, 0), is_write: false };
    assert_eq!(r.len(), 2);
    assert!(r.contains(&vec![busy]));
    assert!(r.contains(&vec![quiet]));
}

#[test]
fn unlock_without_lock_records_nothing() {
    let mut functions = api();
    let body = Body { blocks: vec![call(UNLOCK, vec![Operand::Constant(0)], 1, 1), ret()], arg_count: 0 };
    functions.push(FnDef { kind: ApiKind::Opaque, body: Some(body.clone()), is_const: false });
    let prog = Program { functions };
    let mut map = TransactionMap::new(5);
    map.perform(&prog, &body);
    assert_eq!(map.lock_to_unlock.key_count(), 0);
    assert_eq!(map.terminator_to_lock.key_count(), 0);
    assert_eq!(map.terminator_to_tx.key_count(), 0);
    assert!(map.transaction_id.is_none());
    assert!(conflict_analysis(&prog).is_empty());
}

#[test]
fn unlock_without_lock_leaves_later_transaction_intact() {
    let mut functions = api();
    functions.push(user(
        vec![
            call(UNLOCK, vec![Operand::Constant(0)], 1, 1),
            call(ALLOC, vec![], 2, 2),
            call(LOCK, vec![Operand::Constant(0)], 3, 3),
            call(READ, vec![copy(2)], 4, 4),
            call(UNLOCK, vec![Operand::Constant(0)], 5, 5),
            ret(),
        ],
        0,
    ));
    let prog = Program { functions };
    let r = conflict_analysis(&prog);
    let t = Transaction { lock: id(5, 3, 2, 0), unlock: id(5, 5, 4, 0), is_write: false };
    assert_eq!(r, vec![vec![t]]);
}

/// main (5): x = alloc; c = closure capturing x; lock; call_with(c); unlock.
/// The closure (7) reads its captured x. call_with (6) is an opaque generic
/// helper whose generic argument is the closure.
fn closure_program() -> Program {
    let mut functions = api();
    let capture = Statement::Assign(Place { local: 2, field: None }, Rvalue::Closure(vec![copy(1)]));
    functions.push(user(
        vec![
            call(ALLOC, vec![], 1, 1),
            BasicBlockData {
                statements: vec![capture],
                terminator: Terminator::Call {
                    func: Callee { def_id: LOCK, closure: None },
                    args: vec![Operand::Constant(0)],
                    destination: 3,
                    target: Some(2),
                },
            },
            BasicBlockData {
                statements: vec![],
                terminator: Terminator::Call {
                    func: Callee { def_id: 6, closure: Some(7) },
                    args: vec![Operand::Move(Place { local: 2, field: None })],
                    destination: 4,
                    target: Some(3),
                },
            },
            call(UNLOCK, vec![Operand::Constant(0)], 5, 4),
            ret(),
        ],
        0,
    ));
    functions.push(FnDef { kind: ApiKind::Opaque, body: None, is_const: false });
    let unpack = Statement::Assign(Place { local: 2, field: None }, Rvalue::Use(Operand::Move(Place { local: 1, field: Some(0) })));
    functions.push(user(
        vec![
            BasicBlockData {
                statements: vec![unpack],
                terminator: Terminator::Call {
                    func: Callee { def_id: READ, closure: None },
                    args: vec![copy(2)],
                    destination: 3,
                    target: Some(1),
                },
            },
            ret(),
        ],
        1,
    ));
    Program { functions }
}

#[test]
fn read_inside_closure_counts_for_enclosing_transaction() {
    let prog = closure_program();
    let x = id(5, 1, 0, 0);
    let tx = Enclosing { lock: id(5, 3, 1, 1), unlock: id(5, 5, 3, 0) };
    let facts = UseDefVisitor::new(&prog, 5).perform();
    assert_eq!(facts, vec![Access { transaction: tx, object: TransactionUse { shared_object: x, is_write: false } }]);
    let r = conflict_analysis(&prog);
    assert_eq!(r, vec![vec![Transaction { lock: tx.lock, unlock: tx.unlock, is_write: false }]]);
}

#[test]
fn closure_trace_passes_through_capture_and_entry() {
    let prog = closure_program();
    let visitor = UseDefVisitor::new(&prog, 5);
    let seed = TraceNode { id: id(5, 1, 0, 0), context: None, access: None };
    let nodes = visitor.reachable(seed);
    let captured = UniqueId::new(5, 2, Location { block: 1, statement_index: 0 }, Some(0));
    assert!(nodes.iter().any(|n| n.id == captured));
    let entry = UniqueId::new(7, 1, Location { block: 0, statement_index: 0 }, Some(0));
    let tx = Enclosing { lock: id(5, 3, 1, 1), unlock: id(5, 5, 3, 0) };
    assert!(nodes.contains(&TraceNode { id: entry, context: Some(tx), access: None }));
    assert!(nodes.contains(&TraceNode { id: id(7, 3, 0, 1), context: Some(tx), access: Some(false) }));
}

#[test]
fn read_outside_any_transaction_is_dropped() {
    let mut functions = api();
    functions.push(user(vec![call(ALLOC, vec![], 1, 1), call(READ, vec![copy(1)], 2, 2), ret()], 0));
    let prog = Program { functions };
    assert!(UseDefVisitor::new(&prog, 5).perform().is_empty());
    assert!(conflict_analysis(&prog).is_empty());
}

#[test]
fn passthrough_and_moves_keep_object_identity() {
    let mut functions = api();
    functions.push(FnDef { kind: ApiKind::Passthrough, body: None, is_const: false });
    let mv = Statement::Assign(Place { local: 3, field: None }, Rvalue::Use(Operand::Move(Place { local: 2, field: None })));
    functions.push(user(
        vec![
            call(ALLOC, vec![], 1, 1),
            call(5, vec![copy(1)], 2, 2),
            BasicBlockData {
                statements: vec![mv],
                terminator: Terminator::Call {
                    func: Callee { def_id: LOCK, closure: None },
                    args: vec![Operand::Constant(0)],
                    destination: 4,
                    target: Some(3),
                },
            },
            call(WRITE, vec![copy(3)], 5, 4),
            call(UNLOCK, vec![Operand::Constant(0)], 6, 5),
            ret(),
        ],
        0,
    ));
    let prog = Program { functions };
    let facts = UseDefVisitor::new(&prog, 6).perform();
    let tx = Enclosing { lock: id(6, 4, 2, 1), unlock: id(6, 6, 4, 0) };
    assert_eq!(facts, vec![Access { transaction: tx, object: TransactionUse { shared_object: id(6, 1, 0, 0), is_write: true } }]);
}

#[test]
fn const_functions_are_not_analysed() {
    let mut prog = two_functions();
    prog.functions[5].is_const = true;
    // Nothing traces x and y any more, so f and g use no shared object.
    let r = conflict_analysis(&prog);
    assert_eq!(r.len(), 2);
    assert!(r.contains(&vec![Transaction { is_write: false, ..tx_f() }]));
    assert!(r.contains(&vec![Transaction { is_write: false, ..tx_g() }]));
}

#[test]
fn grouping_gathers_uses_by_transaction() {
    let a = Enclosing { lock: id(1, 1, 0, 0), unlock: id(1, 2, 1, 0) };
    let b = Enclosing { lock: id(2, 1, 0, 0), unlock: id(2, 2, 1, 0) };
    let u1 = TransactionUse { shared_object: id(0, 1, 0, 0), is_write: false };
    let u2 = TransactionUse { shared_object: id(0, 2, 0, 0), is_write: true };
    let facts = vec![
        Access { transaction: a, object: u1 },
        Access { transaction: b, object: u1 },
        Access { transaction: a, object: u2 },
        Access { transaction: a, object: u1 },
    ];
    let quiet = Enclosing { lock: id(3, 1, 0, 0), unlock: id(3, 2, 1, 0) };
    let sets = group_by_transaction(&facts, &vec![a, quiet]);
    assert_eq!(sets.len(), 3);
    assert_eq!(sets[2].lock, quiet.lock);
    assert!(sets[2].allocations.is_empty());
    assert_eq!(sets[0].lock, a.lock);
    assert_eq!(sets[0].allocations, vec![u1, u2]);
    assert_eq!(sets[1].lock, b.lock);
    assert_eq!(sets[1].allocations, vec![u1]);
}

#[test]
fn mutable_borrow_of_a_captured_field_is_followed() {
    let prog = Program { functions: api() };
    let borrow = Statement::Assign(Place { local: 4, field: None }, Rvalue::RefMut(Place { local: 1, field: Some(2) }));
    let body = Body { blocks: vec![BasicBlockData { statements: vec![borrow], terminator: Terminator::Return }], arg_count: 1 };
    let field = UniqueId::new(9, 1, Location { block: 0, statement_index: 0 }, Some(2));
    let other = UniqueId::new(9, 1, Location { block: 0, statement_index: 0 }, Some(0));
    let at = Location { block: 0, statement_index: 0 };
    assert_eq!(location_to_use_kind(&prog, &body, at, &field), Some(UseKind::Local(4)));
    assert_eq!(location_to_use_kind(&prog, &body, at, &other), None);
}

#[test]
fn callee_unlock_ends_the_callers_transaction_there() {
    // main (5): x = alloc; lock; h(x); unlock.  h (6): read(x); unlock; write(x).
    let mut functions = api();
    functions.push(user(
        vec![
            call(ALLOC, vec![], 1, 1),
            call(LOCK, vec![Operand::Constant(0)], 2, 2),
            call(6, vec![copy(1)], 3, 3),
            call(UNLOCK, vec![Operand::Constant(0)], 4, 4),
            ret(),
        ],
        0,
    ));
    functions.push(user(
        vec![
            call(READ, vec![copy(1)], 2, 1),
            call(UNLOCK, vec![Operand::Constant(0)], 3, 2),
            call(WRITE, vec![copy(1)], 4, 3),
            ret(),
        ],
        1,
    ));
    let prog = Program { functions };
    let facts = UseDefVisitor::new(&prog, 5).perform();
    let tx = Enclosing { lock: id(5, 2, 1, 0), unlock: id(5, 4, 3, 0) };
    assert_eq!(facts, vec![Access { transaction: tx, object: TransactionUse { shared_object: id(5, 1, 0, 0), is_write: false } }]);
}
