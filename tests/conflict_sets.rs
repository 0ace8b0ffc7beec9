use stm_analysis::conflict::ConflictAnalysis;
use stm_analysis::ids::{AllocationSet, Location, Transaction, TransactionUse, UniqueId};

fn id(def_id: usize, local: usize, block: usize) -> UniqueId {
    UniqueId::new(def_id, local, Location { block, statement_index: 0 }, None)
}

fn set(lock_block: usize, objects: &[(usize, bool)]) -> AllocationSet {
    AllocationSet {
        lock: id(1, 1, lock_block),
        unlock: id(1, 2, lock_block + 1),
        allocations: objects
            .iter()
            .map(|&(o, w)| TransactionUse { shared_object: id(0, o, 0), is_write: w })
            .collect(),
    }
}

fn tx(s: &AllocationSet) -> Transaction {
    Transaction { lock: s.lock, unlock: s.unlock, is_write: s.allocations.iter().any(|u| u.is_write) }
}

fn group_of(r: &[Vec<Transaction>], t: &Transaction) -> Vec<usize> {
    (0..r.len()).filter(|&g| r[g].contains(t)).collect()
}

#[test]
fn chain_of_shared_objects_forms_one_set() {
    // a uses x; b uses x and y; c uses y; d uses nothing; e uses z.
    let sets = vec![
        set(10, &[(1, false)]),
        set(20, &[(1, true), (2, false)]),
        set(30, &[(2, false)]),
        set(40, &[]),
        set(50, &[(3, true)]),
    ];
    let txs: Vec<Transaction> = sets.iter().map(tx).collect();
    let r = ConflictAnalysis::new(sets).perform();
    assert_eq!(r.len(), 3);
    let ga = group_of(&r, &txs[0]);
    assert_eq!(ga.len(), 1);
    assert_eq!(group_of(&r, &txs[1]), ga);
    assert_eq!(group_of(&r, &txs[2]), ga);
    assert_eq!(r[ga[0]].len(), 3);
    let gd = group_of(&r, &txs[3]);
    assert_eq!(r[gd[0]], vec![txs[3]]);
    let ge = group_of(&r, &txs[4]);
    assert_eq!(r[ge[0]], vec![txs[4]]);
    assert_ne!(ga, ge);
}

#[test]
fn every_transaction_in_exactly_one_set() {
    let sets = vec![
        set(10, &[(1, false), (2, false)]),
        set(20, &[(3, true)]),
        set(30, &[(2, true), (4, false)]),
        set(40, &[(4, false)]),
        set(50, &[]),
        set(60, &[(5, false)]),
    ];
    let txs: Vec<Transaction> = sets.iter().map(tx).collect();
    let r = ConflictAnalysis::new(sets).perform();
    for t in &txs {
        assert_eq!(group_of(&r, t).len(), 1);
    }
    let total: usize = r.iter().map(|g| g.len()).sum();
    assert_eq!(total, txs.len());
    for g in &r {
        for t in g {
            assert!(txs.contains(t));
        }
    }
}

#[test]
fn same_set_exactly_when_chained() {
    let sets = vec![
        set(10, &[(1, false)]),
        set(20, &[(2, false)]),
        set(30, &[(1, false), (3, false)]),
        set(40, &[(3, true), (4, false)]),
    ];
    let txs: Vec<Transaction> = sets.iter().map(tx).collect();
    let r = ConflictAnalysis::new(sets).perform();
    // 0 - 2 - 3 are chained through objects 1 and 3; 1 stands alone.
    assert_eq!(group_of(&r, &txs[0]), group_of(&r, &txs[3]));
    assert_eq!(group_of(&r, &txs[0]), group_of(&r, &txs[2]));
    assert_ne!(group_of(&r, &txs[0]), group_of(&r, &txs[1]));
}

#[test]
fn object_free_transaction_is_a_singleton() {
    let sets = vec![set(10, &[]), set(20, &[]), set(30, &[(1, true)])];
    let txs: Vec<Transaction> = sets.iter().map(tx).collect();
    let r = ConflictAnalysis::new(sets).perform();
    assert_eq!(r.len(), 3);
    for t in &txs {
        let g = group_of(&r, t);
        assert_eq!(r[g[0]], vec![*t]);
    }
}

#[test]
fn write_flag_comes_from_any_write_use() {
    let sets = vec![set(10, &[(1, false), (2, true)]), set(20, &[(3, false)])];
    let r = ConflictAnalysis::new(sets).perform();
    let all: Vec<Transaction> = r.into_iter().flatten().collect();
    assert!(all.iter().any(|t| t.lock == id(1, 1, 10) && t.is_write));
    assert!(all.iter().any(|t| t.lock == id(1, 1, 20) && !t.is_write));
}

#[test]
fn components_index_groups() {
    let sets = vec![set(10, &[(1, false)]), set(20, &[(2, false)]), set(30, &[(2, false)])];
    let groups = ConflictAnalysis::new(sets).components();
    let mut sorted: Vec<Vec<usize>> = groups.clone();
    for g in sorted.iter_mut() {
        g.sort();
    }
    sorted.sort();
    assert_eq!(sorted, vec![vec![0], vec![1, 2]]);
}

#[test]
fn no_transactions_no_sets() {
    let r = ConflictAnalysis::new(Vec::new()).perform();
    assert!(r.is_empty());
}

#[test]
fn sets_of_one_transaction_are_merged() {
    let a = set(10, &[(1, false)]);
    let b = set(10, &[(2, true)]);
    let c = set(10, &[]);
    let r = ConflictAnalysis::new(vec![a, b, c]).perform();
    assert_eq!(r.len(), 1);
    assert_eq!(r[0], vec![Transaction { lock: id(1, 1, 10), unlock: id(1, 2, 11), is_write: true }]);
}
