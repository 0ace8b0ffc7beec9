use vstd::prelude::*;
use crate::conflict::{distinct_transactions, is_conflict_sets, set_views, transaction_of, ConflictAnalysis};
use crate::ids::{AllocationSet, Transaction, TransactionUse};
use crate::ir::Program;
use crate::use_def::{body_of, closes_in, is_access_before, push_access, push_enclosing, unit_orders, Access, Enclosing, UseDefVisitor};

verus! {

/// Some allocation set of `sets` records use `a.object` for transaction `a.transaction`.
pub open spec fn records(sets: Seq<AllocationSet>, a: Access) -> bool {
    exists|i: int| 0 <= i < sets.len() && (#[trigger] sets[i]).lock == a.transaction.lock
        && sets[i].unlock == a.transaction.unlock && sets[i].allocations@.contains(a.object)
}

/// One allocation set per transaction, none repeating a use.
pub open spec fn grouped(sets: Seq<AllocationSet>) -> bool {
    &&& forall|i: int, j: int| 0 <= i < sets.len() && 0 <= j < sets.len() && i != j
        ==> (#[trigger] sets[i]).lock != (#[trigger] sets[j]).lock || sets[i].unlock != sets[j].unlock
    &&& forall|i: int| 0 <= i < sets.len() ==> (#[trigger] sets[i]).allocations@.no_duplicates()
}

/// Some allocation set of `sets` is the one of transaction `e`.
pub open spec fn set_for(sets: Seq<AllocationSet>, e: Enclosing) -> bool {
    exists|i: int| 0 <= i < sets.len() && (#[trigger] sets[i]).lock == e.lock && sets[i].unlock == e.unlock
}

/// Some fact of `facts` is a use inside transaction `e`.
pub open spec fn used_in(facts: Seq<Access>, e: Enclosing) -> bool {
    exists|k: int| 0 <= k < facts.len() && (#[trigger] facts[k]).transaction == e
}

/// Some use found in the unit lies inside transaction `e`.
pub open spec fn unit_used(prog: Program, orders: Seq<Seq<usize>>, e: Enclosing, nf: int) -> bool {
    exists|a: Access| #[trigger] unit_access(prog, orders, a, nf) && a.transaction == e
}

/// Transaction `e` closes in the walk of some analysed function of the unit.
pub open spec fn unit_transaction(prog: Program, orders: Seq<Seq<usize>>, e: Enclosing, nf: int) -> bool {
    exists|f: int| 0 <= f < nf && #[trigger] analysed(prog, f as usize) && closes_in(prog, orders, f as usize, e)
}

/// Allocation sets with one set per transaction describe distinct
/// transactions.
pub proof fn lemma_grouped_distinct(sets: Seq<AllocationSet>)
    requires
        grouped(sets),
    ensures
        distinct_transactions(sets),
{
    assert forall|i: int, j: int| 0 <= i < sets.len() && 0 <= j < sets.len() && i != j
        implies transaction_of(#[trigger] sets[i]) != transaction_of(#[trigger] sets[j]) by {
        assert(sets[i].lock != sets[j].lock || sets[i].unlock != sets[j].unlock);
    }
}

/// Function `f` takes part in the analysis: it has a body and is not const.
pub open spec fn analysed(prog: Program, f: usize) -> bool {
    body_of(prog, f) is Some && !prog.functions@[f as int].is_const
}

/// `a` is a use of a shared object found by tracing from the allocations of
/// some analysed function of the unit.
pub open spec fn unit_access(prog: Program, orders: Seq<Seq<usize>>, a: Access, nf: int) -> bool {
    exists|f: int| 0 <= f < nf && #[trigger] analysed(prog, f as usize)
        && is_access_before(prog, orders, f as usize, a, body_of(prog, f as usize)->Some_0.blocks@.len() as int)
}

fn push_use(v: &mut Vec<TransactionUse>, t: TransactionUse)
    requires
        old(v)@.no_duplicates(),
    ensures
        final(v)@.no_duplicates(),
        forall|x: TransactionUse| #[trigger] final(v)@.contains(x) <==> old(v)@.contains(x) || x == t,
{
    let mut i: usize = 0;
    while i < v.len()
        invariant
            i <= v@.len(),
            v@ == old(v)@,
            old(v)@.no_duplicates(),
            forall|m: int| 0 <= m < i ==> v@[m] != t,
        decreases v@.len() - i,
    {
        if v[i] == t {
            return;
        }
        i = i + 1;
    }
    v.push(t);
    proof {
        assert forall|x: TransactionUse| #[trigger] v@.contains(x) <==> old(v)@.contains(x) || x == t by {
            if v@.contains(x) && x != t {
                let k = choose|k: int| 0 <= k < v@.len() && v@[k] == x;
                assert(old(v)@[k] == x);
            }
            if old(v)@.contains(x) {
                let k = choose|k: int| 0 <= k < old(v)@.len() && old(v)@[k] == x;
                assert(v@[k] == x);
            }
            if x == t {
                assert(v@[v@.len() - 1] == t);
            }
        }
        assert forall|a: int, b: int| 0 <= a < v@.len() && 0 <= b < v@.len() && a != b implies v@[a] != v@[b] by {
            if a == v@.len() - 1 {
                assert(v@[b] == old(v)@[b]);
            } else if b == v@.len() - 1 {
                assert(v@[a] == old(v)@[a]);
            }
        }
    }
}

/// Gathers the uses in `facts` into one allocation set per transaction, with
/// an empty set for each transaction of `transactions` that has no use.
pub fn group_by_transaction(facts: &Vec<Access>, transactions: &Vec<Enclosing>) -> (r: Vec<AllocationSet>)
    ensures
        grouped(r@),
        forall|a: Access| #[trigger] records(r@, a) <==> facts@.contains(a),
        forall|e: Enclosing| #[trigger] set_for(r@, e) <==> used_in(facts@, e) || transactions@.contains(e),
{
    let mut pairs: Vec<Enclosing> = Vec::new();
    let mut k: usize = 0;
    while k < facts.len()
        invariant
            k <= facts@.len(),
            pairs@.no_duplicates(),
            forall|e: Enclosing| #[trigger] pairs@.contains(e) <==> exists|m: int| 0 <= m < k && (#[trigger] facts@[m]).transaction == e,
        decreases facts@.len() - k,
    {
        push_enclosing(&mut pairs, facts[k].transaction);
        proof {
            assert forall|e: Enclosing| #[trigger] pairs@.contains(e) <==> exists|m: int| 0 <= m < k + 1 && (#[trigger] facts@[m]).transaction == e by {
                if exists|m: int| 0 <= m < k + 1 && (#[trigger] facts@[m]).transaction == e {
                    let m = choose|m: int| 0 <= m < k + 1 && (#[trigger] facts@[m]).transaction == e;
                    if m < k {
                        assert(exists|m2: int| 0 <= m2 < k && (#[trigger] facts@[m2]).transaction == e);
                    }
                }
            }
        }
        k = k + 1;
    }
    let mut t: usize = 0;
    while t < transactions.len()
        invariant
            t <= transactions@.len(),
            pairs@.no_duplicates(),
            forall|e: Enclosing| #[trigger] pairs@.contains(e) <==> used_in(facts@, e)
                || exists|m: int| 0 <= m < t && transactions@[m] == e,
        decreases transactions@.len() - t,
    {
        push_enclosing(&mut pairs, transactions[t]);
        proof {
            assert forall|e: Enclosing| #[trigger] pairs@.contains(e) <==> used_in(facts@, e)
                || exists|m: int| 0 <= m < t + 1 && transactions@[m] == e by {
                if exists|m: int| 0 <= m < t + 1 && transactions@[m] == e {
                    let m = choose|m: int| 0 <= m < t + 1 && transactions@[m] == e;
                    if m < t {
                        assert(exists|m2: int| 0 <= m2 < t && transactions@[m2] == e);
                    }
                }
            }
        }
        t = t + 1;
    }
    proof {
        assert forall|e: Enclosing| #[trigger] pairs@.contains(e) <==> used_in(facts@, e) || transactions@.contains(e) by {
            if transactions@.contains(e) {
                let m = choose|m: int| 0 <= m < transactions@.len() && transactions@[m] == e;
            }
        }
    }
    let mut r: Vec<AllocationSet> = Vec::new();
    let mut p: usize = 0;
    while p < pairs.len()
        invariant
            p <= pairs@.len(),
            pairs@.no_duplicates(),
            forall|e: Enclosing| #[trigger] pairs@.contains(e) <==> used_in(facts@, e) || transactions@.contains(e),
            r@.len() == p,
            forall|i: int| 0 <= i < p ==> (#[trigger] r@[i]).lock == pairs@[i].lock && r@[i].unlock == pairs@[i].unlock,
            forall|i: int| 0 <= i < p ==> (#[trigger] r@[i]).allocations@.no_duplicates(),
            forall|i: int, u: TransactionUse| 0 <= i < p ==> (#[trigger] r@[i].allocations@.contains(u)
                <==> facts@.contains(Access { transaction: pairs@[i], object: u })),
        decreases pairs@.len() - p,
    {
        let e = pairs[p];
        let mut uses: Vec<TransactionUse> = Vec::new();
        let mut k: usize = 0;
        while k < facts.len()
            invariant
                k <= facts@.len(),
                uses@.no_duplicates(),
                forall|u: TransactionUse| #[trigger] uses@.contains(u) <==> exists|m: int| 0 <= m < k
                    && #[trigger] facts@[m] == (Access { transaction: e, object: u }),
            decreases facts@.len() - k,
        {
            if facts[k].transaction == e {
                push_use(&mut uses, facts[k].object);
            }
            proof {
                assert forall|u: TransactionUse| #[trigger] uses@.contains(u) <==> exists|m: int| 0 <= m < k + 1
                    && #[trigger] facts@[m] == (Access { transaction: e, object: u }) by {
                    if exists|m: int| 0 <= m < k + 1 && #[trigger] facts@[m] == (Access { transaction: e, object: u }) {
                        let m = choose|m: int| 0 <= m < k + 1 && #[trigger] facts@[m] == (Access { transaction: e, object: u });
                        if m < k {
                            assert(exists|m2: int| 0 <= m2 < k && #[trigger] facts@[m2] == (Access { transaction: e, object: u }));
                        }
                    }
                }
            }
            k = k + 1;
        }
        proof {
            assert forall|u: TransactionUse| #[trigger] uses@.contains(u) <==> facts@.contains(Access { transaction: e, object: u }) by {
                if facts@.contains(Access { transaction: e, object: u }) {
                    let m2 = choose|m2: int| 0 <= m2 < facts@.len() && facts@[m2] == Access { transaction: e, object: u };
                }
            }
        }
        r.push(AllocationSet { lock: e.lock, unlock: e.unlock, allocations: uses });
        p = p + 1;
    }
    proof {
        assert forall|i: int, j: int| 0 <= i < r@.len() && 0 <= j < r@.len() && i != j
            implies (#[trigger] r@[i]).lock != (#[trigger] r@[j]).lock || r@[i].unlock != r@[j].unlock by {
            assert(pairs@[i] != pairs@[j]);
        }
        assert forall|a: Access| #[trigger] records(r@, a) <==> facts@.contains(a) by {
            if facts@.contains(a) {
                let m = choose|m: int| 0 <= m < facts@.len() && facts@[m] == a;
                assert(used_in(facts@, a.transaction));
                assert(pairs@.contains(a.transaction));
                let i = choose|i: int| 0 <= i < pairs@.len() && pairs@[i] == a.transaction;
                assert(r@[i].allocations@.contains(a.object));
            }
            if records(r@, a) {
                let i = choose|i: int| 0 <= i < r@.len() && (#[trigger] r@[i]).lock == a.transaction.lock
                    && r@[i].unlock == a.transaction.unlock && r@[i].allocations@.contains(a.object);
                assert(pairs@[i] == a.transaction);
            }
        }
        assert forall|e: Enclosing| #[trigger] set_for(r@, e) <==> used_in(facts@, e) || transactions@.contains(e) by {
            if used_in(facts@, e) || transactions@.contains(e) {
                assert(pairs@.contains(e));
                let i = choose|i: int| 0 <= i < pairs@.len() && pairs@[i] == e;
                assert(r@[i].lock == e.lock && r@[i].unlock == e.unlock);
            }
            if set_for(r@, e) {
                let i = choose|i: int| 0 <= i < r@.len() && (#[trigger] r@[i]).lock == e.lock && r@[i].unlock == e.unlock;
                assert(pairs@[i] == e);
                assert(pairs@.contains(pairs@[i]));
            }
        }
    }
    r
}

/// The allocation sets of function `def_id`: for each transaction, the
/// shared objects that traces from the function's allocations reach inside it.
pub fn get_shared_objects(prog: &Program, def_id: usize) -> (r: Vec<AllocationSet>)
    ensures
        grouped(r@),
        forall|a: Access| #[trigger] records(r@, a) <==> body_of(*prog, def_id) is Some
            && is_access_before(*prog, unit_orders(*prog), def_id, a, body_of(*prog, def_id)->Some_0.blocks@.len() as int),
        forall|e: Enclosing| #[trigger] set_for(r@, e) ==> exists|a: Access| #[trigger] records(r@, a) && a.transaction == e,
{
    let visitor = UseDefVisitor::new(prog, def_id);
    let facts = visitor.perform();
    let r = group_by_transaction(&facts, &Vec::new());
    proof {
        assert forall|e: Enclosing| #[trigger] set_for(r@, e) implies exists|a: Access| #[trigger] records(r@, a) && a.transaction == e by {
            let k = choose|k: int| 0 <= k < facts@.len() && (#[trigger] facts@[k]).transaction == e;
            assert(facts@.contains(facts@[k]));
            assert(records(r@, facts@[k]));
        }
    }
    r
}

/// The conflict sets of the whole unit: the transactions of all analysed
/// functions, partitioned into the classes linked by shared objects.
pub fn conflict_analysis(prog: &Program) -> (r: Vec<Vec<Transaction>>)
    ensures
        exists|sets: Seq<AllocationSet>| #![trigger is_conflict_sets(sets, set_views(r@))]
            grouped(sets)
            && is_conflict_sets(sets, set_views(r@))
            && (forall|a: Access| #[trigger] records(sets, a) <==> unit_access(*prog, unit_orders(*prog), a, prog.functions@.len() as int))
            && forall|e: Enclosing| #[trigger] set_for(sets, e) <==> unit_used(*prog, unit_orders(*prog), e, prog.functions@.len() as int)
                || unit_transaction(*prog, unit_orders(*prog), e, prog.functions@.len() as int),
{
    let mut visitor = UseDefVisitor::new(prog, 0);
    let ghost orders = visitor.orders();
    let mut facts: Vec<Access> = Vec::new();
    let mut f: usize = 0;
    while f < prog.functions.len()
        invariant
            visitor.wf(),
            visitor.program() == *prog,
            visitor.orders() == orders,
            f <= prog.functions@.len(),
            forall|a: Access| #[trigger] facts@.contains(a) <==> unit_access(*prog, orders, a, f as int),
        decreases prog.functions@.len() - f,
    {
        let ghost facts0 = facts@;
        if prog.functions[f].body.is_some() && !prog.functions[f].is_const {
            visitor.set_function(f);
            let found = visitor.perform();
            let mut k: usize = 0;
            assert(body_of(*prog, f) is Some);
            while k < found.len()
                invariant
                    k <= found@.len(),
                    body_of(*prog, f) is Some,
                    forall|a: Access| #[trigger] found@.contains(a) <==> is_access_before(*prog, orders, f, a,
                        body_of(*prog, f)->Some_0.blocks@.len() as int),
                    forall|a: Access| #[trigger] facts@.contains(a) <==> facts0.contains(a) || exists|m: int| 0 <= m < k && found@[m] == a,
                decreases found@.len() - k,
            {
                push_access(&mut facts, found[k]);
                proof {
                    assert forall|a: Access| #[trigger] facts@.contains(a) <==> facts0.contains(a) || exists|m: int| 0 <= m < k + 1 && found@[m] == a by {
                        if exists|m: int| 0 <= m < k + 1 && found@[m] == a {
                            let m = choose|m: int| 0 <= m < k + 1 && found@[m] == a;
                            if m < k {
                                assert(exists|m2: int| 0 <= m2 < k && found@[m2] == a);
                            }
                        }
                    }
                }
                k = k + 1;
            }
            proof {
                assert(analysed(*prog, f));
                assert forall|a: Access| #[trigger] facts@.contains(a) <==> unit_access(*prog, orders, a, f + 1) by {
                    if exists|m: int| 0 <= m < found@.len() && found@[m] == a {
                        let m = choose|m: int| 0 <= m < found@.len() && found@[m] == a;
                        assert(found@.contains(a));
                    }
                    if found@.contains(a) {
                        let g: int = f as int;
                        assert(analysed(*prog, g as usize));
                        assert(is_access_before(*prog, orders, g as usize, a, body_of(*prog, g as usize)->Some_0.blocks@.len() as int));
                        assert(unit_access(*prog, orders, a, f + 1));
                    }
                    if unit_access(*prog, orders, a, f + 1) {
                        let g = choose|g: int| 0 <= g < f + 1 && #[trigger] analysed(*prog, g as usize)
                            && is_access_before(*prog, orders, g as usize, a, body_of(*prog, g as usize)->Some_0.blocks@.len() as int);
                        if g < f {
                            assert(unit_access(*prog, orders, a, f as int));
                        } else {
                            assert(found@.contains(a));
                        }
                    }
                    if unit_access(*prog, orders, a, f as int) {
                        let g = choose|g: int| 0 <= g < f && #[trigger] analysed(*prog, g as usize)
                            && is_access_before(*prog, orders, g as usize, a, body_of(*prog, g as usize)->Some_0.blocks@.len() as int);
                        assert(unit_access(*prog, orders, a, f + 1));
                    }
                }
            }
        } else {
            proof {
                assert(!analysed(*prog, f));
                assert forall|a: Access| #[trigger] facts@.contains(a) <==> unit_access(*prog, orders, a, f + 1) by {
                    if unit_access(*prog, orders, a, f + 1) {
                        let g = choose|g: int| 0 <= g < f + 1 && #[trigger] analysed(*prog, g as usize)
                            && is_access_before(*prog, orders, g as usize, a, body_of(*prog, g as usize)->Some_0.blocks@.len() as int);
                        assert(unit_access(*prog, orders, a, f as int));
                    }
                    if unit_access(*prog, orders, a, f as int) {
                        let g = choose|g: int| 0 <= g < f && #[trigger] analysed(*prog, g as usize)
                            && is_access_before(*prog, orders, g as usize, a, body_of(*prog, g as usize)->Some_0.blocks@.len() as int);
                        assert(unit_access(*prog, orders, a, f + 1));
                    }
                }
            }
        }
        f = f + 1;
    }
    let mut transactions: Vec<Enclosing> = Vec::new();
    f = 0;
    while f < prog.functions.len()
        invariant
            visitor.wf(),
            visitor.program() == *prog,
            visitor.orders() == orders,
            f <= prog.functions@.len(),
            transactions@.no_duplicates(),
            forall|e: Enclosing| #[trigger] transactions@.contains(e) <==> unit_transaction(*prog, orders, e, f as int),
        decreases prog.functions@.len() - f,
    {
        let ghost before = transactions@;
        if prog.functions[f].body.is_some() && !prog.functions[f].is_const {
            assert(body_of(*prog, f) is Some);
            let closed = visitor.transactions_of(f);
            let mut k: usize = 0;
            while k < closed.len()
                invariant
                    k <= closed@.len(),
                    transactions@.no_duplicates(),
                    forall|e: Enclosing| #[trigger] transactions@.contains(e) <==> before.contains(e)
                        || exists|m: int| 0 <= m < k && closed@[m] == e,
                decreases closed@.len() - k,
            {
                push_enclosing(&mut transactions, closed[k]);
                proof {
                    assert forall|e: Enclosing| #[trigger] transactions@.contains(e) <==> before.contains(e)
                        || exists|m: int| 0 <= m < k + 1 && closed@[m] == e by {
                        if exists|m: int| 0 <= m < k + 1 && closed@[m] == e {
                            let m = choose|m: int| 0 <= m < k + 1 && closed@[m] == e;
                            if m < k {
                                assert(exists|m2: int| 0 <= m2 < k && closed@[m2] == e);
                            }
                        }
                    }
                }
                k = k + 1;
            }
            proof {
                assert(analysed(*prog, f));
                assert forall|e: Enclosing| #[trigger] transactions@.contains(e) <==> unit_transaction(*prog, orders, e, f + 1) by {
                    if exists|m: int| 0 <= m < closed@.len() && closed@[m] == e {
                        let m = choose|m: int| 0 <= m < closed@.len() && closed@[m] == e;
                        assert(closed@.contains(e));
                        let g: int = f as int;
                        assert(analysed(*prog, g as usize) && closes_in(*prog, orders, g as usize, e));
                    }
                    if unit_transaction(*prog, orders, e, f + 1) {
                        let g = choose|g: int| 0 <= g < f + 1 && #[trigger] analysed(*prog, g as usize) && closes_in(*prog, orders, g as usize, e);
                        if g < f {
                            assert(unit_transaction(*prog, orders, e, f as int));
                        } else {
                            assert(closed@.contains(e));
                            let m = choose|m: int| 0 <= m < closed@.len() && closed@[m] == e;
                        }
                    }
                    if unit_transaction(*prog, orders, e, f as int) {
                        let g = choose|g: int| 0 <= g < f && #[trigger] analysed(*prog, g as usize) && closes_in(*prog, orders, g as usize, e);
                        assert(unit_transaction(*prog, orders, e, f + 1));
                    }
                }
            }
        } else {
            proof {
                assert(!analysed(*prog, f));
                assert forall|e: Enclosing| #[trigger] transactions@.contains(e) <==> unit_transaction(*prog, orders, e, f + 1) by {
                    if unit_transaction(*prog, orders, e, f + 1) {
                        let g = choose|g: int| 0 <= g < f + 1 && #[trigger] analysed(*prog, g as usize) && closes_in(*prog, orders, g as usize, e);
                        assert(unit_transaction(*prog, orders, e, f as int));
                    }
                    if unit_transaction(*prog, orders, e, f as int) {
                        let g = choose|g: int| 0 <= g < f && #[trigger] analysed(*prog, g as usize) && closes_in(*prog, orders, g as usize, e);
                        assert(unit_transaction(*prog, orders, e, f + 1));
                    }
                }
            }
        }
        f = f + 1;
    }
    let sets = group_by_transaction(&facts, &transactions);
    proof {
        let n = prog.functions@.len() as int;
        assert forall|e: Enclosing| used_in(facts@, e) <==> #[trigger] unit_used(*prog, orders, e, n) by {
            if used_in(facts@, e) {
                let k = choose|k: int| 0 <= k < facts@.len() && (#[trigger] facts@[k]).transaction == e;
                assert(facts@.contains(facts@[k]));
            }
            if unit_used(*prog, orders, e, n) {
                let a = choose|a: Access| #[trigger] unit_access(*prog, orders, a, n) && a.transaction == e;
                assert(facts@.contains(a));
                let k = choose|k: int| 0 <= k < facts@.len() && facts@[k] == a;
                assert(used_in(facts@, e));
            }
        }
    }
    let analysis = ConflictAnalysis::new(sets);
    let r = analysis.perform();
    assert(is_conflict_sets(analysis.sets(), set_views(r@)));
    r
}

} // verus!
