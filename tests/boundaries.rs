use stm_analysis::idmap::IdMap;
use stm_analysis::ids::{Location, UniqueId};
use stm_analysis::ir::{ApiKind, BasicBlockData, Body, Callee, FnDef, Operand, Program, Terminator};
use stm_analysis::transaction_map::TransactionMap;
use stm_analysis::traversal::reverse_postorder;

const LOCK: usize = 0;
const UNLOCK: usize = 1;
const OTHER: usize = 2;

fn program() -> Program {
    let functions = [ApiKind::Lock, ApiKind::Unlock, ApiKind::Opaque]
        .iter()
        .map(|&kind| FnDef { kind, body: None, is_const: false })
        .collect();
    Program { functions }
}

fn call(def_id: usize, destination: usize, target: usize) -> BasicBlockData {
    BasicBlockData {
        statements: vec![],
        terminator: Terminator::Call {
            func: Callee { def_id, closure: None },
            args: vec![Operand::Constant(0)],
            destination,
            target: Some(target),
        },
    }
}

fn ret() -> BasicBlockData {
    BasicBlockData { statements: vec![], terminator: Terminator::Return }
}

fn id(def_id: usize, local: usize, block: usize) -> UniqueId {
    UniqueId::new(def_id, local, Location { block, statement_index: 0 }, None)
}

#[test]
fn calls_between_lock_and_unlock_map_to_the_pair() {
    // a(); lock(); b(); c(); unlock(); d();
    let body = Body {
        blocks: vec![call(OTHER, 1, 1), call(LOCK, 2, 2), call(OTHER, 3, 3), call(OTHER, 4, 4), call(UNLOCK, 5, 5), call(OTHER, 6, 6), ret()],
        arg_count: 0,
    };
    let mut map = TransactionMap::new(9);
    map.perform(&program(), &body);
    let pair = (id(9, 2, 1), id(9, 5, 4));
    assert_eq!(map.terminator_to_tx.get(&id(9, 3, 2)), Some(pair));
    assert_eq!(map.terminator_to_tx.get(&id(9, 4, 3)), Some(pair));
    assert_eq!(map.terminator_to_tx.get(&id(9, 1, 0)), None);
    assert_eq!(map.terminator_to_tx.get(&id(9, 6, 5)), None);
    assert_eq!(map.terminator_to_lock.get(&id(9, 3, 2)), Some(id(9, 2, 1)));
    assert_eq!(map.lock_to_unlock.get(&id(9, 2, 1)), Some(id(9, 5, 4)));
    assert!(map.transaction_id.is_none());
}

#[test]
fn two_transactions_in_sequence() {
    // lock(); a(); unlock(); lock(); b(); unlock();
    let body = Body {
        blocks: vec![call(LOCK, 1, 1), call(OTHER, 2, 2), call(UNLOCK, 3, 3), call(LOCK, 4, 4), call(OTHER, 5, 5), call(UNLOCK, 6, 6), ret()],
        arg_count: 0,
    };
    let mut map = TransactionMap::new(3);
    map.perform(&program(), &body);
    assert_eq!(map.terminator_to_tx.get(&id(3, 2, 1)), Some((id(3, 1, 0), id(3, 3, 2))));
    assert_eq!(map.terminator_to_tx.get(&id(3, 5, 4)), Some((id(3, 4, 3), id(3, 6, 5))));
}

#[test]
fn lock_without_unlock_maps_nothing() {
    let body = Body { blocks: vec![call(LOCK, 1, 1), call(OTHER, 2, 2), ret()], arg_count: 0 };
    let mut map = TransactionMap::new(3);
    map.perform(&program(), &body);
    assert_eq!(map.terminator_to_lock.get(&id(3, 2, 1)), Some(id(3, 1, 0)));
    assert_eq!(map.terminator_to_tx.get(&id(3, 2, 1)), None);
    assert_eq!(map.transaction_id, Some(id(3, 1, 0)));
}

#[test]
fn child_starts_inside_the_callers_transaction() {
    // callee: a(); unlock-free body.
    let body = Body { blocks: vec![call(OTHER, 1, 1), ret()], arg_count: 1 };
    let outer = (id(0, 7, 0), id(0, 8, 3));
    let mut map = TransactionMap::new_child(4, Some(outer), IdMap::new());
    map.perform(&program(), &body);
    assert_eq!(map.terminator_to_tx.get(&id(4, 1, 0)), Some(outer));
}

#[test]
fn child_keeps_inherited_entries() {
    let body = Body { blocks: vec![call(OTHER, 1, 1), ret()], arg_count: 1 };
    let mut inherited: IdMap<(UniqueId, UniqueId)> = IdMap::new();
    let pair = (id(0, 1, 0), id(0, 2, 2));
    inherited.insert(id(0, 5, 1), pair);
    let mut map = TransactionMap::new_child(4, None, inherited);
    map.perform(&program(), &body);
    assert_eq!(map.terminator_to_tx.get(&id(0, 5, 1)), Some(pair));
    assert_eq!(map.terminator_to_tx.get(&id(4, 1, 0)), None);
}

#[test]
fn reverse_postorder_visits_reachable_blocks_once() {
    // 0 -> {1, 2}; 1 -> 3; 2 -> 3; 3 returns; 4 is unreachable.
    let body = Body {
        blocks: vec![
            BasicBlockData { statements: vec![], terminator: Terminator::SwitchInt(vec![1, 2]) },
            BasicBlockData { statements: vec![], terminator: Terminator::Goto(3) },
            BasicBlockData { statements: vec![], terminator: Terminator::Goto(3) },
            ret(),
            ret(),
        ],
        arg_count: 0,
    };
    let order = reverse_postorder(&body);
    assert_eq!(order.len(), 4);
    assert_eq!(order[0], 0);
    assert_eq!(order[3], 3);
    assert!(order.contains(&1) && order.contains(&2));
    assert!(!order.contains(&4));
}

#[test]
fn reverse_postorder_of_a_loop() {
    // 0 -> 1; 1 -> {2, 3}; 2 -> 1; 3 returns.
    let body = Body {
        blocks: vec![
            BasicBlockData { statements: vec![], terminator: Terminator::Goto(1) },
            BasicBlockData { statements: vec![], terminator: Terminator::SwitchInt(vec![2, 3]) },
            BasicBlockData { statements: vec![], terminator: Terminator::Goto(1) },
            ret(),
        ],
        arg_count: 0,
    };
    let order = reverse_postorder(&body);
    assert_eq!(order[0], 0);
    assert_eq!(order[1], 1);
    assert_eq!(order.len(), 4);
}

#[test]
fn reverse_postorder_of_empty_body() {
    let body = Body { blocks: vec![], arg_count: 0 };
    assert!(reverse_postorder(&body).is_empty());
}

#[test]
fn id_map_later_insert_wins() {
    let mut m: IdMap<usize> = IdMap::new();
    let k = id(1, 1, 1);
    assert_eq!(m.get(&k), None);
    m.insert(k, 3);
    m.insert(id(1, 2, 1), 4);
    m.insert(k, 5);
    assert_eq!(m.get(&k), Some(5));
    assert_eq!(m.get(&id(1, 2, 1)), Some(4));
    assert_eq!(m.key_count(), 3);
    assert_eq!(m.key_at(1), id(1, 2, 1));
}

#[test]
fn reverse_postorder_follows_successor_order() {
    // 0 -> {1, 2}; 1 -> 3; 2 -> 3. Post-order is 3, 1, 2, 0.
    let body = Body {
        blocks: vec![
            BasicBlockData { statements: vec![], terminator: Terminator::SwitchInt(vec![1, 2]) },
            BasicBlockData { statements: vec![], terminator: Terminator::Goto(3) },
            BasicBlockData { statements: vec![], terminator: Terminator::Goto(3) },
            ret(),
        ],
        arg_count: 0,
    };
    assert_eq!(reverse_postorder(&body), vec![0, 2, 1, 3]);
}

#[test]
fn callee_unlock_does_not_pair_with_callers_lock() {
    // callee: a(); unlock(); b();  entered inside the caller's transaction.
    let body = Body { blocks: vec![call(OTHER, 1, 1), call(UNLOCK, 2, 2), call(OTHER, 3, 3), ret()], arg_count: 1 };
    let outer = (id(0, 7, 0), id(0, 8, 3));
    let mut map = TransactionMap::new_child(4, Some(outer), IdMap::new());
    map.perform(&program(), &body);
    assert_eq!(map.terminator_to_tx.get(&id(4, 1, 0)), Some(outer));
    assert_eq!(map.lock_to_unlock.get(&outer.0), Some(outer.1));
    assert_eq!(map.terminator_to_tx.get(&id(4, 3, 2)), None);
    assert!(map.transaction_id.is_none());
}
