use stm_analysis::ids::{Location, Transaction, UniqueId};
use stm_analysis::ir::{ApiKind, BasicBlockData, Body, Callee, FnDef, Operand, Place, Program, Statement, Rvalue, Terminator};
use stm_analysis::patch::{apply_patches, local_from_dest, make_patches, patch_call, transaction_call, LockItems, TerminatorPatch};

fn items() -> LockItems {
    LockItems { lock: 0, unlock: 1, read_lock: 10, write_lock: 11, read_unlock: 12, write_unlock: 13 }
}

fn call(def_id: usize, args: Vec<Operand>, destination: usize, target: usize) -> BasicBlockData {
    BasicBlockData {
        statements: vec![],
        terminator: Terminator::Call { func: Callee { def_id, closure: None }, args, destination, target: Some(target) },
    }
}

fn id(def_id: usize, local: usize, block: usize, statement_index: usize) -> UniqueId {
    UniqueId::new(def_id, local, Location { block, statement_index }, None)
}

/// Function 2: x = a; lock(0); b(x); unlock(0); return.
fn body() -> Body {
    let assign = Statement::Assign(Place { local: 5, field: None }, Rvalue::Use(Operand::Constant(4)));
    Body {
        blocks: vec![
            BasicBlockData {
                statements: vec![assign],
                terminator: Terminator::Call {
                    func: Callee { def_id: 0, closure: None },
                    args: vec![Operand::Constant(0)],
                    destination: 1,
                    target: Some(1),
                },
            },
            call(3, vec![Operand::Copy(Place { local: 5, field: None })], 2, 2),
            call(1, vec![Operand::Constant(0)], 3, 3),
            BasicBlockData { statements: vec![], terminator: Terminator::Return },
        ],
        arg_count: 0,
    }
}

fn program() -> Program {
    let mut functions: Vec<FnDef> = [ApiKind::Lock, ApiKind::Unlock]
        .iter()
        .map(|&kind| FnDef { kind, body: None, is_const: false })
        .collect();
    functions.push(FnDef { kind: ApiKind::Opaque, body: Some(body()), is_const: false });
    functions.push(FnDef { kind: ApiKind::Opaque, body: None, is_const: false });
    Program { functions }
}

fn tx(is_write: bool) -> Transaction {
    Transaction { lock: id(2, 1, 0, 1), unlock: id(2, 3, 2, 0), is_write }
}

#[test]
fn specialisation_by_level() {
    assert_eq!(transaction_call(1, &items(), true, true), 0);
    assert_eq!(transaction_call(1, &items(), false, false), 1);
    assert_eq!(transaction_call(2, &items(), true, false), 10);
    assert_eq!(transaction_call(2, &items(), true, true), 11);
    assert_eq!(transaction_call(2, &items(), false, false), 12);
    assert_eq!(transaction_call(2, &items(), false, true), 13);
}

#[test]
fn lock_call_gets_new_callee_and_set_index() {
    let p = patch_call(&body(), &tx(true).lock, 2, &items(), 7, true, true);
    assert_eq!(p, TerminatorPatch { def_id: 2, block: 0, func: Callee { def_id: 11, closure: None }, arg: Operand::Constant(7) });
}

#[test]
fn non_constant_argument_is_kept() {
    let mut b = body();
    b.blocks[2] = call(1, vec![Operand::Copy(Place { local: 9, field: None })], 3, 3);
    let p = patch_call(&b, &tx(false).unlock, 1, &items(), 4, false, false);
    assert_eq!(p.func, Callee { def_id: 1, closure: None });
    assert_eq!(p.arg, Operand::Copy(Place { local: 9, field: None }));
}

#[test]
fn patches_number_conflict_sets_by_index() {
    let other = Transaction { lock: id(2, 1, 0, 1), unlock: id(2, 3, 2, 0), is_write: false };
    let sets = vec![vec![tx(true)], vec![other]];
    let r = make_patches(2, &program(), &sets, 2, &items());
    assert_eq!(r.len(), 4);
    assert_eq!(r[0], TerminatorPatch { def_id: 2, block: 0, func: Callee { def_id: 11, closure: None }, arg: Operand::Constant(0) });
    assert_eq!(r[1], TerminatorPatch { def_id: 2, block: 2, func: Callee { def_id: 13, closure: None }, arg: Operand::Constant(0) });
    assert_eq!(r[2].func.def_id, 10);
    assert_eq!(r[2].arg, Operand::Constant(1));
    assert_eq!(r[3].func.def_id, 12);
}

#[test]
fn no_patches_for_a_function_outside_the_unit() {
    let sets = vec![vec![tx(true)]];
    assert!(make_patches(3, &program(), &sets, 1, &items()).is_empty());
}

#[test]
fn applying_patches_keeps_blocks_statements_and_edges() {
    let sets = vec![vec![tx(true)]];
    let patches = make_patches(2, &program(), &sets, 2, &items());
    let old = body();
    let new = apply_patches(body(), 2, &patches);
    assert_eq!(new.blocks.len(), old.blocks.len());
    assert_eq!(new.arg_count, old.arg_count);
    for b in 0..old.blocks.len() {
        assert_eq!(format!("{:?}", new.blocks[b].statements), format!("{:?}", old.blocks[b].statements));
    }
    match &new.blocks[0].terminator {
        Terminator::Call { func, args, destination, target } => {
            assert_eq!(func.def_id, 11);
            assert_eq!(args, &vec![Operand::Constant(0)]);
            assert_eq!(*destination, 1);
            assert_eq!(*target, Some(1));
        },
        _ => panic!("lock call lost"),
    }
    match &new.blocks[2].terminator {
        Terminator::Call { func, destination, target, .. } => {
            assert_eq!(func.def_id, 13);
            assert_eq!(*destination, 3);
            assert_eq!(*target, Some(3));
        },
        _ => panic!("unlock call lost"),
    }
    assert_eq!(format!("{:?}", new.blocks[1].terminator), format!("{:?}", old.blocks[1].terminator));
    assert_eq!(format!("{:?}", new.blocks[3].terminator), format!("{:?}", old.blocks[3].terminator));
}

#[test]
fn patches_of_another_function_change_nothing() {
    let other = vec![TerminatorPatch { def_id: 7, block: 0, func: Callee { def_id: 11, closure: None }, arg: Operand::Constant(3) }];
    let new = apply_patches(body(), 2, &other);
    assert_eq!(format!("{:?}", new), format!("{:?}", body()));
}

#[test]
fn destination_local() {
    assert_eq!(local_from_dest(&Some((Place { local: 4, field: None }, 1))), Some(4));
    assert_eq!(local_from_dest(&Some((Place { local: 4, field: Some(0) }, 1))), None);
    assert_eq!(local_from_dest(&None), None);
}
