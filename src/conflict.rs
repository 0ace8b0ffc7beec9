use vstd::prelude::*;
use crate::analysis::{group_by_transaction, grouped, records, set_for};
use crate::ids::{AllocationSet, Transaction, TransactionUse, UniqueId};
use crate::use_def::{push_access, push_enclosing, Access, Enclosing};

verus! {

/// Transaction `a` uses shared object `o`.
pub open spec fn uses_object(a: AllocationSet, o: UniqueId) -> bool {
    exists|k: int| 0 <= k < a.allocations@.len() && (#[trigger] a.allocations@[k]).shared_object == o
}

/// Transactions `a` and `b` use at least one common shared object.
pub open spec fn shares_object(a: AllocationSet, b: AllocationSet) -> bool {
    exists|o: UniqueId| #[trigger] uses_object(a, o) && uses_object(b, o)
}

/// Some use recorded for `a` is a write.
pub open spec fn any_write(a: AllocationSet) -> bool {
    exists|k: int| 0 <= k < a.allocations@.len() && (#[trigger] a.allocations@[k]).is_write
}

/// The transaction that an allocation set describes.
pub open spec fn transaction_of(a: AllocationSet) -> Transaction {
    Transaction { lock: a.lock, unlock: a.unlock, is_write: any_write(a) }
}

/// `p` is a chain of transactions (by index into `sets`), each sharing an
/// object with the next.
pub open spec fn is_chain(sets: Seq<AllocationSet>, p: Seq<int>) -> bool {
    &&& p.len() > 0
    &&& forall|k: int| 0 <= k < p.len() ==> 0 <= #[trigger] p[k] < sets.len()
    &&& forall|k: int| 0 <= k < p.len() - 1 ==> shares_object(sets[#[trigger] p[k]], sets[p[k + 1]])
}

/// Transactions `i` and `j` are linked by a chain of shared objects.
pub open spec fn connected(sets: Seq<AllocationSet>, i: int, j: int) -> bool {
    exists|p: Seq<int>| #[trigger] is_chain(sets, p) && p[0] == i && p.last() == j
}

/// Group `g` holds transaction `i`.
pub open spec fn in_group(groups: Seq<Seq<usize>>, g: int, i: int) -> bool {
    0 <= g < groups.len() && exists|k: int| 0 <= k < groups[g].len() && #[trigger] groups[g][k] as int == i
}

/// Some group holds transaction `i`.
pub open spec fn has_group(groups: Seq<Seq<usize>>, i: int) -> bool {
    exists|g: int| #[trigger] in_group(groups, g, i)
}

/// Some group holds both `i` and `j`.
pub open spec fn same_group(groups: Seq<Seq<usize>>, i: int, j: int) -> bool {
    exists|g: int| #[trigger] in_group(groups, g, i) && in_group(groups, g, j)
}

/// `groups` partitions the transactions of `sets` (by index) into the
/// classes of `connected`: each index lies in exactly one group, no group is
/// empty or repeats an index, and two indices share a group exactly when they
/// are connected.
pub open spec fn is_conflict_partition(sets: Seq<AllocationSet>, groups: Seq<Seq<usize>>) -> bool {
    &&& forall|g: int, k: int| 0 <= g < groups.len() && 0 <= k < groups[g].len()
        ==> (#[trigger] groups[g][k]) < sets.len()
    &&& forall|g: int| 0 <= g < groups.len() ==> (#[trigger] groups[g]).len() > 0 && groups[g].no_duplicates()
    &&& forall|i: int| 0 <= i < sets.len() ==> #[trigger] has_group(groups, i)
    &&& forall|g1: int, g2: int, i: int| #[trigger] in_group(groups, g1, i) && #[trigger] in_group(groups, g2, i) ==> g1 == g2
    &&& forall|g: int, i: int, j: int| #[trigger] in_group(groups, g, i) && #[trigger] in_group(groups, g, j)
        ==> connected(sets, i, j)
    &&& forall|i: int, j: int| 0 <= i < sets.len() && 0 <= j < sets.len() && #[trigger] connected(sets, i, j)
        ==> same_group(groups, i, j)
}

/// Sharing an object is symmetric.
pub proof fn lemma_shares_symmetric(a: AllocationSet, b: AllocationSet)
    ensures
        shares_object(a, b) == shares_object(b, a),
{
    if shares_object(a, b) {
        let o = choose|o: UniqueId| #[trigger] uses_object(a, o) && uses_object(b, o);
        assert(uses_object(b, o) && uses_object(a, o));
    }
    if shares_object(b, a) {
        let o = choose|o: UniqueId| #[trigger] uses_object(b, o) && uses_object(a, o);
        assert(uses_object(a, o) && uses_object(b, o));
    }
}

/// Every transaction is connected to itself.
pub proof fn lemma_connected_refl(sets: Seq<AllocationSet>, i: int)
    requires
        0 <= i < sets.len(),
    ensures
        connected(sets, i, i),
{
    let p = seq![i];
    assert(is_chain(sets, p));
}

/// A chain to `a`, an object shared by `a` and `b`, and a chain from `b`
/// make a chain.
pub proof fn lemma_connected_through(sets: Seq<AllocationSet>, x: int, a: int, b: int, y: int)
    requires
        connected(sets, x, a),
        shares_object(sets[a], sets[b]),
        connected(sets, b, y),
    ensures
        connected(sets, x, y),
{
    let left = choose|p: Seq<int>| #[trigger] is_chain(sets, p) && p[0] == x && p.last() == a;
    let right = choose|p: Seq<int>| #[trigger] is_chain(sets, p) && p[0] == b && p.last() == y;
    let p = left + right;
    assert forall|k: int| 0 <= k < p.len() - 1 implies shares_object(sets[#[trigger] p[k]], sets[p[k + 1]]) by {
        if k < left.len() - 1 {
            assert(p[k] == left[k] && p[k + 1] == left[k + 1]);
        } else if k == left.len() - 1 {
            assert(p[k] == a && p[k + 1] == b);
        } else {
            assert(p[k] == right[k - left.len()] && p[k + 1] == right[k - left.len() + 1]);
        }
    }
    assert forall|k: int| 0 <= k < p.len() implies 0 <= #[trigger] p[k] < sets.len() by {
        if k < left.len() {
            assert(p[k] == left[k]);
        } else {
            assert(p[k] == right[k - left.len()]);
        }
    }
    assert(is_chain(sets, p));
}

/// Labels that agree on every pair sharing an object agree along chains.
proof fn lemma_chain_labels(sets: Seq<AllocationSet>, labels: Seq<usize>, p: Seq<int>)
    requires
        labels.len() == sets.len(),
        is_chain(sets, p),
        forall|x: int, y: int| 0 <= x < sets.len() && 0 <= y < sets.len() && #[trigger] shares_object(sets[x], sets[y])
            ==> labels[x] == labels[y],
    ensures
        labels[p[0]] == labels[p.last()],
    decreases p.len(),
{
    if p.len() > 1 {
        let q = p.drop_last();
        assert(is_chain(sets, q)) by {
            assert forall|k: int| 0 <= k < q.len() - 1 implies shares_object(sets[#[trigger] q[k]], sets[q[k + 1]]) by {
                assert(q[k] == p[k] && q[k + 1] == p[k + 1]);
            }
        }
        lemma_chain_labels(sets, labels, q);
        let k = p.len() - 2;
        assert(shares_object(sets[p[k]], sets[p[k + 1]]));
    }
}

/// Some representative in `reps` carries label `l`.
spec fn has_rep(labels: Seq<usize>, reps: Seq<int>, l: usize) -> bool {
    exists|g: int| 0 <= g < reps.len() && labels[#[trigger] reps[g]] == l
}

/// Gives every transaction whose label is `from` the label `to`.
fn relabel(labels: &mut Vec<usize>, from: usize, to: usize)
    ensures
        final(labels)@.len() == old(labels)@.len(),
        forall|k: int| 0 <= k < old(labels)@.len() ==> #[trigger] final(labels)@[k] == if old(labels)@[k] == from {
            to
        } else {
            old(labels)@[k]
        },
{
    let mut k: usize = 0;
    while k < labels.len()
        invariant
            k <= labels@.len(),
            labels@.len() == old(labels)@.len(),
            forall|m: int| 0 <= m < k ==> #[trigger] labels@[m] == if old(labels)@[m] == from {
                to
            } else {
                old(labels)@[m]
            },
            forall|m: int| k <= m < labels@.len() ==> #[trigger] labels@[m] == old(labels)@[m],
        decreases labels@.len() - k,
    {
        if labels[k] == from {
            labels.set(k, to);
        }
        k = k + 1;
    }
}

/// The conflict sets that index groups `groups` stand for.
pub open spec fn sets_of(sets: Seq<AllocationSet>, groups: Seq<Seq<usize>>) -> Seq<Seq<Transaction>> {
    groups.map_values(|g: Seq<usize>| g.map_values(|i: usize| transaction_of(sets[i as int])))
}

/// `r` is a partition of the transactions of `sets` into conflict sets.
pub open spec fn is_conflict_sets(sets: Seq<AllocationSet>, r: Seq<Seq<Transaction>>) -> bool {
    exists|groups: Seq<Seq<usize>>| is_conflict_partition(sets, groups) && #[trigger] sets_of(sets, groups) == r
}

/// The contents of each conflict set of `r`.
pub open spec fn set_views(r: Seq<Vec<Transaction>>) -> Seq<Seq<Transaction>> {
    r.map_values(|s: Vec<Transaction>| s@)
}

/// No two allocation sets describe the same transaction.
pub open spec fn distinct_transactions(sets: Seq<AllocationSet>) -> bool {
    forall|i: int, j: int| 0 <= i < sets.len() && 0 <= j < sets.len() && i != j
        ==> transaction_of(#[trigger] sets[i]) != transaction_of(#[trigger] sets[j])
}

/// Conflict set `g` of `r` holds the transaction of `sets[i]`.
pub open spec fn holds(sets: Seq<AllocationSet>, r: Seq<Seq<Transaction>>, g: int, i: int) -> bool {
    0 <= g < r.len() && r[g].contains(transaction_of(sets[i]))
}

/// Some conflict set of `r` holds the transaction of `sets[i]`.
pub open spec fn covered(sets: Seq<AllocationSet>, r: Seq<Seq<Transaction>>, i: int) -> bool {
    exists|g: int| #[trigger] holds(sets, r, g, i)
}

proof fn lemma_holds_in_group(sets: Seq<AllocationSet>, groups: Seq<Seq<usize>>, g: int, i: int)
    requires
        is_conflict_partition(sets, groups),
        distinct_transactions(sets),
        0 <= i < sets.len(),
    ensures
        holds(sets, sets_of(sets, groups), g, i) <==> in_group(groups, g, i),
{
    let r = sets_of(sets, groups);
    if 0 <= g < groups.len() {
        assert(r[g] == groups[g].map_values(|i: usize| transaction_of(sets[i as int])));
        if holds(sets, r, g, i) {
            let k = choose|k: int| 0 <= k < r[g].len() && r[g][k] == transaction_of(sets[i]);
            let m = groups[g][k];
            assert(m < sets.len());
            assert(transaction_of(sets[m as int]) == transaction_of(sets[i]));
            assert(groups[g][k] as int == i);
        }
        if in_group(groups, g, i) {
            let k = choose|k: int| 0 <= k < groups[g].len() && #[trigger] groups[g][k] as int == i;
            assert(r[g][k] == transaction_of(sets[i]));
        }
    }
}

/// Every transaction of the input lies in exactly one conflict set, and no
/// conflict set repeats a transaction or holds one that is not in the input.
pub proof fn lemma_partition(sets: Seq<AllocationSet>, r: Seq<Seq<Transaction>>)
    requires
        is_conflict_sets(sets, r),
        distinct_transactions(sets),
    ensures
        forall|i: int| 0 <= i < sets.len() ==> #[trigger] covered(sets, r, i),
        forall|g1: int, g2: int, i: int| 0 <= i < sets.len() && #[trigger] holds(sets, r, g1, i)
            && #[trigger] holds(sets, r, g2, i) ==> g1 == g2,
        forall|g: int| 0 <= g < r.len() ==> (#[trigger] r[g]).no_duplicates(),
        forall|g: int, k: int| #![trigger r[g][k]] 0 <= g < r.len() && 0 <= k < r[g].len()
            ==> exists|i: int| 0 <= i < sets.len() && #[trigger] transaction_of(sets[i]) == r[g][k],
{
    let groups = choose|groups: Seq<Seq<usize>>| is_conflict_partition(sets, groups) && #[trigger] sets_of(sets, groups) == r;
    assert forall|i: int| 0 <= i < sets.len() implies #[trigger] covered(sets, r, i) by {
        assert(has_group(groups, i));
        let g = choose|g: int| #[trigger] in_group(groups, g, i);
        lemma_holds_in_group(sets, groups, g, i);
        assert(holds(sets, r, g, i));
    }
    assert forall|g1: int, g2: int, i: int| 0 <= i < sets.len() && #[trigger] holds(sets, r, g1, i)
        && #[trigger] holds(sets, r, g2, i) implies g1 == g2 by {
        lemma_holds_in_group(sets, groups, g1, i);
        lemma_holds_in_group(sets, groups, g2, i);
    }
    assert forall|g: int| 0 <= g < r.len() implies (#[trigger] r[g]).no_duplicates() by {
        assert(groups[g].no_duplicates());
        assert forall|a: int, b: int| 0 <= a < r[g].len() && 0 <= b < r[g].len() && a != b implies r[g][a] != r[g][b] by {
            assert(groups[g][a] != groups[g][b]);
            assert(groups[g][a] < sets.len() && groups[g][b] < sets.len());
        }
    }
    assert forall|g: int, k: int| #![trigger r[g][k]] 0 <= g < r.len() && 0 <= k < r[g].len()
        implies exists|i: int| 0 <= i < sets.len() && #[trigger] transaction_of(sets[i]) == r[g][k] by {
        let i = groups[g][k] as int;
        assert(i < sets.len());
        assert(transaction_of(sets[i]) == r[g][k]);
    }
}

/// Two transactions share a conflict set exactly when a chain of
/// transactions, each using an object that the next one uses, links them.
pub proof fn lemma_transitivity(sets: Seq<AllocationSet>, r: Seq<Seq<Transaction>>, i: int, j: int)
    requires
        is_conflict_sets(sets, r),
        distinct_transactions(sets),
        0 <= i < sets.len(),
        0 <= j < sets.len(),
    ensures
        (exists|g: int| #[trigger] holds(sets, r, g, i) && holds(sets, r, g, j)) <==> connected(sets, i, j),
{
    let groups = choose|groups: Seq<Seq<usize>>| is_conflict_partition(sets, groups) && #[trigger] sets_of(sets, groups) == r;
    if exists|g: int| #[trigger] holds(sets, r, g, i) && holds(sets, r, g, j) {
        let g = choose|g: int| #[trigger] holds(sets, r, g, i) && holds(sets, r, g, j);
        lemma_holds_in_group(sets, groups, g, i);
        lemma_holds_in_group(sets, groups, g, j);
    }
    if connected(sets, i, j) {
        assert(same_group(groups, i, j));
        let g = choose|g: int| #[trigger] in_group(groups, g, i) && in_group(groups, g, j);
        lemma_holds_in_group(sets, groups, g, i);
        lemma_holds_in_group(sets, groups, g, j);
        assert(holds(sets, r, g, i) && holds(sets, r, g, j));
    }
}

/// A transaction that uses no shared object forms a conflict set of its own.
pub proof fn lemma_isolation(sets: Seq<AllocationSet>, r: Seq<Seq<Transaction>>, i: int)
    requires
        is_conflict_sets(sets, r),
        distinct_transactions(sets),
        0 <= i < sets.len(),
        sets[i].allocations@.len() == 0,
    ensures
        exists|g: int| 0 <= g < r.len() && #[trigger] r[g] == seq![transaction_of(sets[i])],
{
    let groups = choose|groups: Seq<Seq<usize>>| is_conflict_partition(sets, groups) && #[trigger] sets_of(sets, groups) == r;
    assert(has_group(groups, i));
    let g = choose|g: int| #[trigger] in_group(groups, g, i);
    let k = choose|k: int| 0 <= k < groups[g].len() && #[trigger] groups[g][k] as int == i;
    assert forall|m: int| 0 <= m < groups[g].len() implies #[trigger] groups[g][m] as int == i by {
        let x = groups[g][m] as int;
        assert(in_group(groups, g, x));
        assert(connected(sets, i, x));
        let p = choose|p: Seq<int>| #[trigger] is_chain(sets, p) && p[0] == i && p.last() == x;
        if p.len() > 1 {
            assert(shares_object(sets[p[0]], sets[p[1]]));
            let o = choose|o: UniqueId| #[trigger] uses_object(sets[i], o) && uses_object(sets[p[1]], o);
        }
    }
    assert(groups[g].len() == 1) by {
        if groups[g].len() > 1 {
            assert(groups[g][0] == groups[g][1]);
        }
    }
    assert(r[g] =~= seq![transaction_of(sets[i])]);
}

/// Builds the conflict relation between transactions and splits them into
/// conflict sets: the connected components of the relation "uses a common
/// shared object".
///
/// Components are found by merging labels: every transaction starts with a
/// label of its own, and each pair of transactions that share an object
/// merges the two labels. A transaction that uses no object keeps its own
/// label and forms a conflict set alone.
pub struct ConflictAnalysis {
    sets: Vec<AllocationSet>,
    transactions: Vec<Transaction>,
}

impl ConflictAnalysis {
    /// The allocation sets under analysis, one per transaction.
    pub closed spec fn sets(&self) -> Seq<AllocationSet> {
        self.sets@
    }

    pub closed spec fn wf(&self) -> bool {
        &&& self.transactions@.len() == self.sets@.len()
        &&& forall|i: int| 0 <= i < self.sets@.len() ==> #[trigger] self.transactions@[i] == transaction_of(self.sets@[i])
    }

    /// Prepares the analysis of `allocation_sets`: the sets of one
    /// transaction (one lock and unlock) are merged into one, and each
    /// transaction is derived (a write transaction when any of its uses is a
    /// write).
    pub fn new(input: Vec<AllocationSet>) -> (r: ConflictAnalysis)
        ensures
            r.wf(),
            grouped(r.sets()),
            forall|a: Access| #[trigger] records(r.sets(), a) <==> records(input@, a),
            forall|e: Enclosing| #[trigger] set_for(r.sets(), e) <==> set_for(input@, e),
    {
        let (facts, pairs) = facts_of(&input);
        let allocation_sets = group_by_transaction(&facts, &pairs);
        proof {
            assert forall|e: Enclosing| #[trigger] set_for(allocation_sets@, e) <==> set_for(input@, e) by {
                if crate::analysis::used_in(facts@, e) {
                    let k = choose|k: int| 0 <= k < facts@.len() && (#[trigger] facts@[k]).transaction == e;
                    assert(facts@.contains(facts@[k]));
                    assert(records(input@, facts@[k]));
                    let i = choose|i: int| 0 <= i < input@.len() && (#[trigger] input@[i]).lock == facts@[k].transaction.lock
                        && input@[i].unlock == facts@[k].transaction.unlock && input@[i].allocations@.contains(facts@[k].object);
                }
            }
        }
        let mut transactions: Vec<Transaction> = Vec::new();
        let mut i: usize = 0;
        while i < allocation_sets.len()
            invariant
                i <= allocation_sets@.len(),
                transactions@.len() == i,
                forall|k: int| 0 <= k < i ==> #[trigger] transactions@[k] == transaction_of(allocation_sets@[k]),
            decreases allocation_sets@.len() - i,
        {
            let set = &allocation_sets[i];
            let is_write = has_write(&set.allocations);
            transactions.push(Transaction { lock: set.lock, unlock: set.unlock, is_write });
            i = i + 1;
        }
        ConflictAnalysis { sets: allocation_sets, transactions }
    }

    /// The conflict sets of the transactions: the classes of transactions
    /// linked by chains of shared objects.
    pub fn perform(&self) -> (r: Vec<Vec<Transaction>>)
        requires
            self.wf(),
        ensures
            is_conflict_sets(self.sets(), set_views(r@)),
    {
        let groups = self.components();
        let ghost gs = groups@.map_values(|g: Vec<usize>| g@);
        let mut r: Vec<Vec<Transaction>> = Vec::new();
        let mut g: usize = 0;
        while g < groups.len()
            invariant
                self.wf(),
                is_conflict_partition(self.sets(), gs),
                gs == groups@.map_values(|g: Vec<usize>| g@),
                g <= groups@.len(),
                r@.len() == g,
                forall|h: int| 0 <= h < g ==> (#[trigger] r@[h])@ == sets_of(self.sets(), gs)[h],
            decreases groups@.len() - g,
        {
            let group = &groups[g];
            assert(group@ == gs[g as int]);
            let mut set: Vec<Transaction> = Vec::new();
            let mut k: usize = 0;
            while k < group.len()
                invariant
                    self.wf(),
                    is_conflict_partition(self.sets(), gs),
                    g < gs.len(),
                    group@ == gs[g as int],
                    k <= group@.len(),
                    set@.len() == k,
                    forall|m: int| 0 <= m < k ==> #[trigger] set@[m] == transaction_of(self.sets()[group@[m] as int]),
                decreases group@.len() - k,
            {
                assert(gs[g as int][k as int] < self.sets().len());
                set.push(self.transactions[group[k]]);
                k = k + 1;
            }
            assert(set@ =~= sets_of(self.sets(), gs)[g as int]);
            r.push(set);
            g = g + 1;
        }
        assert(set_views(r@) =~= sets_of(self.sets(), gs));
        r
    }

    /// Splits the transactions (by index) into conflict sets.
    pub fn components(&self) -> (groups: Vec<Vec<usize>>)
        ensures
            is_conflict_partition(self.sets(), groups@.map_values(|g: Vec<usize>| g@)),
    {
        let n = self.sets.len();
        let ghost sets = self.sets@;
        let mut labels: Vec<usize> = Vec::new();
        let mut i: usize = 0;
        while i < n
            invariant
                n == sets.len(),
                i <= n,
                labels@.len() == i,
                forall|k: int| 0 <= k < i ==> #[trigger] labels@[k] == k,
            decreases n - i,
        {
            labels.push(i);
            i = i + 1;
        }
        proof {
            assert forall|x: int, y: int| 0 <= x < n && 0 <= y < n && #[trigger] labels@[x] == #[trigger] labels@[y]
                implies connected(sets, x, y) by {
                lemma_connected_refl(sets, x);
            }
        }
        i = 0;
        while i < n
            invariant
                n == sets.len(),
                sets == self.sets@,
                i <= n,
                labels@.len() == n,
                forall|x: int, y: int| 0 <= x < n && 0 <= y < n && #[trigger] labels@[x] == #[trigger] labels@[y]
                    ==> connected(sets, x, y),
                forall|x: int, y: int| 0 <= x < i && x < y < n && #[trigger] shares_object(sets[x], sets[y])
                    ==> labels@[x] == labels@[y],
            decreases n - i,
        {
            let mut j: usize = i + 1;
            while j < n
                invariant
                    n == sets.len(),
                    sets == self.sets@,
                    i < n,
                    i + 1 <= j <= n,
                    labels@.len() == n,
                    forall|x: int, y: int| 0 <= x < n && 0 <= y < n && #[trigger] labels@[x] == #[trigger] labels@[y]
                        ==> connected(sets, x, y),
                    forall|x: int, y: int| (0 <= x < i && x < y < n || x == i && i < y < j) && #[trigger] shares_object(sets[x], sets[y])
                        ==> labels@[x] == labels@[y],
                decreases n - j,
            {
                if share_object(&self.sets[i], &self.sets[j]) && labels[i] != labels[j] {
                    let ghost l0 = labels@;
                    let from = labels[j];
                    let to = labels[i];
                    relabel(&mut labels, from, to);
                    proof {
                        let ii = i as int;
                        let jj = j as int;
                        assert forall|x: int, y: int| 0 <= x < n && 0 <= y < n && #[trigger] labels@[x] == #[trigger] labels@[y]
                            implies connected(sets, x, y) by {
                            if l0[x] == l0[y] {
                            } else if l0[x] == from {
                                assert(l0[y] == l0[ii]);
                                assert(connected(sets, x, jj));
                                assert(connected(sets, ii, y));
                                lemma_shares_symmetric(sets[ii], sets[jj]);
                                lemma_connected_through(sets, x, jj, ii, y);
                            } else {
                                assert(l0[y] == from);
                                assert(l0[x] == l0[ii]);
                                assert(connected(sets, x, ii));
                                assert(connected(sets, jj, y));
                                lemma_connected_through(sets, x, ii, jj, y);
                            }
                        }
                        assert(labels@[ii] == to && labels@[jj] == to);
                    }
                }
                j = j + 1;
            }
            i = i + 1;
        }
        proof {
            assert forall|x: int, y: int| 0 <= x < n && 0 <= y < n && #[trigger] shares_object(sets[x], sets[y])
                implies labels@[x] == labels@[y] by {
                lemma_shares_symmetric(sets[x], sets[y]);
            }
        }
        let ghost labels_final = labels@;
        let mut groups: Vec<Vec<usize>> = Vec::new();
        let ghost mut reps: Seq<int> = Seq::empty();
        i = 0;
        while i < n
            invariant
                n == sets.len(),
                i <= n,
                labels@ == labels_final,
                labels@.len() == n,
                groups@.len() == reps.len(),
                forall|g: int| 0 <= g < reps.len() ==> 0 <= #[trigger] reps[g] < i,
                forall|g1: int, g2: int| 0 <= g1 < reps.len() && 0 <= g2 < reps.len() && g1 != g2
                    ==> labels@[#[trigger] reps[g1]] != labels@[#[trigger] reps[g2]],
                forall|g: int, x: usize| 0 <= g < reps.len() ==> (#[trigger] groups@[g]@.contains(x)
                    <==> (x < n && labels@[x as int] == labels@[reps[g]])),
                forall|g: int| 0 <= g < reps.len() ==> (#[trigger] groups@[g]@).no_duplicates(),
                forall|x: int| 0 <= x < i ==> #[trigger] has_rep(labels@, reps, labels@[x]),
            decreases n - i,
        {
            let mut seen = false;
            let mut k: usize = 0;
            while k < i
                invariant
                    i < n,
                    k <= i,
                    labels@.len() == n,
                    seen == exists|m: int| 0 <= m < k && #[trigger] labels@[m] == labels@[i as int],
                decreases i - k,
            {
                if labels[k] == labels[i] {
                    seen = true;
                }
                k = k + 1;
            }
            if seen {
                proof {
                    let m = choose|m: int| 0 <= m < i && #[trigger] labels@[m] == labels@[i as int];
                    assert(has_rep(labels@, reps, labels@[m]));
                    let g = choose|g: int| 0 <= g < reps.len() && labels@[#[trigger] reps[g]] == labels@[m];
                    assert(labels@[reps[g]] == labels@[i as int]);
                    assert(has_rep(labels@, reps, labels@[i as int]));
                }
            } else {
                let mut group: Vec<usize> = Vec::new();
                let mut j: usize = i;
                while j < n
                    invariant
                        i <= j <= n,
                        labels@.len() == n,
                        forall|x: usize| #[trigger] group@.contains(x) <==> (i <= x < j && labels@[x as int] == labels@[i as int]),
                        forall|a: int, b: int| 0 <= a < b < group@.len() ==> #[trigger] group@[a] < #[trigger] group@[b],
                        forall|a: int| 0 <= a < group@.len() ==> #[trigger] group@[a] < j,
                    decreases n - j,
                {
                    if labels[j] == labels[i] {
                        let ghost before = group@;
                        group.push(j);
                        proof {
                            assert forall|x: usize| #[trigger] group@.contains(x) <==> (i <= x < j + 1 && labels@[x as int] == labels@[i as int]) by {
                                assert(group@ == before.push(j));
                                if x == j {
                                    assert(group@[group@.len() - 1] == j);
                                } else {
                                    if group@.contains(x) {
                                        let k = choose|k: int| 0 <= k < group@.len() && group@[k] == x;
                                        assert(k < before.len());
                                        assert(before[k] == x);
                                    }
                                    if before.contains(x) {
                                        let k = choose|k: int| 0 <= k < before.len() && before[k] == x;
                                        assert(group@[k] == x);
                                    }
                                }
                            }
                        }
                    }
                    j = j + 1;
                }
                proof {
                    assert(group@.no_duplicates()) by {
                        assert forall|a: int, b: int| 0 <= a < group@.len() && 0 <= b < group@.len() && a != b
                            implies group@[a] != group@[b] by {
                            if a < b {
                                assert(group@[a] < group@[b]);
                            } else {
                                assert(group@[b] < group@[a]);
                            }
                        }
                    }
                    assert forall|x: usize| #[trigger] group@.contains(x) <==> (x < n && labels@[x as int] == labels@[i as int]) by {
                        if x < i && labels@[x as int] == labels@[i as int] {
                            assert(exists|m: int| 0 <= m < i && #[trigger] labels@[m] == labels@[i as int]);
                        }
                    }
                }
                groups.push(group);
                proof {
                    let old_reps = reps;
                    reps = reps.push(i as int);
                    assert forall|x: int| 0 <= x <= i implies #[trigger] has_rep(labels@, reps, labels@[x]) by {
                        if x < i {
                            assert(has_rep(labels@, old_reps, labels@[x]));
                            let g = choose|g: int| 0 <= g < old_reps.len() && labels@[#[trigger] old_reps[g]] == labels@[x];
                            assert(reps[g] == old_reps[g]);
                        } else {
                            assert(reps[reps.len() - 1] == i);
                        }
                    }
                }
            }
            i = i + 1;
        }
        proof {
            let gs = groups@.map_values(|g: Vec<usize>| g@);
            assert forall|g: int| 0 <= g < gs.len() implies #[trigger] gs[g] == groups@[g]@ by {}
            assert forall|g: int, x: int| #[trigger] in_group(gs, g, x) <==> (0 <= g < gs.len() && 0 <= x && x < n && groups@[g]@.contains(x as usize)) by {
                if in_group(gs, g, x) {
                    let k = choose|k: int| 0 <= k < gs[g].len() && #[trigger] gs[g][k] as int == x;
                    assert(groups@[g]@[k] == x as usize);
                    assert(groups@[g]@.contains(gs[g][k]));
                }
                if 0 <= g < gs.len() && 0 <= x && x < n && groups@[g]@.contains(x as usize) {
                    let k = choose|k: int| 0 <= k < groups@[g]@.len() && groups@[g]@[k] == x as usize;
                    assert(gs[g][k] as int == x);
                }
            }
            assert forall|g: int| 0 <= g < gs.len() implies (#[trigger] gs[g]).len() > 0 && gs[g].no_duplicates() by {
                assert(groups@[g]@.contains(reps[g] as usize));
            }
            assert forall|g: int, k: int| 0 <= g < gs.len() && 0 <= k < gs[g].len() implies (#[trigger] gs[g][k]) < sets.len() by {
                assert(groups@[g]@.contains(gs[g][k]));
            }
            assert forall|x: int| 0 <= x < sets.len() implies #[trigger] has_group(gs, x) by {
                assert(has_rep(labels@, reps, labels@[x]));
                let g = choose|g: int| 0 <= g < reps.len() && labels@[#[trigger] reps[g]] == labels@[x];
                assert(groups@[g]@.contains(x as usize));
                assert(in_group(gs, g, x));
            }
            assert forall|g1: int, g2: int, x: int| #[trigger] in_group(gs, g1, x) && #[trigger] in_group(gs, g2, x) implies g1 == g2 by {
            }
            assert forall|g: int, x: int, y: int| #[trigger] in_group(gs, g, x) && #[trigger] in_group(gs, g, y)
                implies connected(sets, x, y) by {
                assert(groups@[g]@.contains(x as usize));
                assert(groups@[g]@.contains(y as usize));
                assert(labels@[x] == labels@[y]);
            }
            assert forall|x: int, y: int| 0 <= x < sets.len() && 0 <= y < sets.len() && #[trigger] connected(sets, x, y)
                implies same_group(gs, x, y) by {
                let p = choose|p: Seq<int>| #[trigger] is_chain(sets, p) && p[0] == x && p.last() == y;
                lemma_chain_labels(sets, labels@, p);
                assert(has_rep(labels@, reps, labels@[x]));
                let g = choose|g: int| 0 <= g < reps.len() && labels@[#[trigger] reps[g]] == labels@[x];
                assert(groups@[g]@.contains(x as usize));
                assert(groups@[g]@.contains(y as usize));
                assert(in_group(gs, g, x) && in_group(gs, g, y));
            }
        }
        groups
    }
}

/// The uses recorded in `sets`, each with its transaction, and the
/// transactions of `sets`.
fn facts_of(sets: &Vec<AllocationSet>) -> (r: (Vec<Access>, Vec<Enclosing>))
    ensures
        forall|a: Access| #[trigger] r.0@.contains(a) <==> records(sets@, a),
        forall|e: Enclosing| #[trigger] r.1@.contains(e) <==> set_for(sets@, e),
{
    let mut facts: Vec<Access> = Vec::new();
    let mut pairs: Vec<Enclosing> = Vec::new();
    let mut i: usize = 0;
    while i < sets.len()
        invariant
            i <= sets@.len(),
            pairs@.no_duplicates(),
            forall|a: Access| #[trigger] facts@.contains(a) <==> records(sets@.take(i as int), a),
            forall|e: Enclosing| #[trigger] pairs@.contains(e) <==> set_for(sets@.take(i as int), e),
        decreases sets@.len() - i,
    {
        let set = &sets[i];
        let e = Enclosing { lock: set.lock, unlock: set.unlock };
        let ghost facts0 = facts@;
        let ghost pairs0 = pairs@;
        push_enclosing(&mut pairs, e);
        let mut k: usize = 0;
        while k < set.allocations.len()
            invariant
                k <= set.allocations@.len(),
                forall|a: Access| #[trigger] facts@.contains(a) <==> facts0.contains(a)
                    || exists|m: int| 0 <= m < k && a == (Access { transaction: e, object: set.allocations@[m] }),
            decreases set.allocations@.len() - k,
        {
            push_access(&mut facts, Access { transaction: e, object: set.allocations[k] });
            proof {
                assert forall|a: Access| #[trigger] facts@.contains(a) <==> facts0.contains(a)
                    || exists|m: int| 0 <= m < k + 1 && a == (Access { transaction: e, object: set.allocations@[m] }) by {
                    if exists|m: int| 0 <= m < k + 1 && a == (Access { transaction: e, object: set.allocations@[m] }) {
                        let m = choose|m: int| 0 <= m < k + 1 && a == (Access { transaction: e, object: set.allocations@[m] });
                        if m < k {
                            assert(exists|m2: int| 0 <= m2 < k && a == (Access { transaction: e, object: set.allocations@[m2] }));
                        }
                    }
                }
            }
            k = k + 1;
        }
        proof {
            let t0 = sets@.take(i as int);
            let t1 = sets@.take(i as int + 1);
            assert(t1 == t0.push(*set));
            assert forall|a: Access| #[trigger] facts@.contains(a) <==> records(t1, a) by {
                if records(t1, a) {
                    let j = choose|j: int| 0 <= j < t1.len() && (#[trigger] t1[j]).lock == a.transaction.lock
                        && t1[j].unlock == a.transaction.unlock && t1[j].allocations@.contains(a.object);
                    if j < i {
                        assert(t0[j] == t1[j]);
                        assert(records(t0, a));
                    } else {
                        let m = choose|m: int| 0 <= m < set.allocations@.len() && set.allocations@[m] == a.object;
                        assert(a == (Access { transaction: e, object: set.allocations@[m] }));
                    }
                }
                if records(t0, a) {
                    let j = choose|j: int| 0 <= j < t0.len() && (#[trigger] t0[j]).lock == a.transaction.lock
                        && t0[j].unlock == a.transaction.unlock && t0[j].allocations@.contains(a.object);
                    assert(t1[j] == t0[j]);
                }
                if exists|m: int| 0 <= m < set.allocations@.len() && a == (Access { transaction: e, object: set.allocations@[m] }) {
                    let m = choose|m: int| 0 <= m < set.allocations@.len() && a == (Access { transaction: e, object: set.allocations@[m] });
                    assert(t1[i as int] == *set);
                    assert(set.allocations@.contains(set.allocations@[m]));
                }
            }
            assert forall|x: Enclosing| #[trigger] pairs@.contains(x) <==> set_for(t1, x) by {
                if set_for(t1, x) {
                    let j = choose|j: int| 0 <= j < t1.len() && (#[trigger] t1[j]).lock == x.lock && t1[j].unlock == x.unlock;
                    if j < i {
                        assert(t0[j] == t1[j]);
                        assert(set_for(t0, x));
                    }
                }
                if set_for(t0, x) {
                    let j = choose|j: int| 0 <= j < t0.len() && (#[trigger] t0[j]).lock == x.lock && t0[j].unlock == x.unlock;
                    assert(t1[j] == t0[j]);
                }
                if x == e {
                    assert(t1[i as int] == *set);
                }
            }
        }
        i = i + 1;
    }
    proof {
        assert(sets@.take(sets@.len() as int) == sets@);
    }
    (facts, pairs)
}

fn has_write(uses: &Vec<TransactionUse>) -> (r: bool)
    ensures
        r == exists|k: int| 0 <= k < uses@.len() && (#[trigger] uses@[k]).is_write,
{
    let mut k: usize = 0;
    while k < uses.len()
        invariant
            k <= uses@.len(),
            forall|m: int| 0 <= m < k ==> !(#[trigger] uses@[m]).is_write,
        decreases uses@.len() - k,
    {
        if uses[k].is_write {
            return true;
        }
        k = k + 1;
    }
    false
}

/// Whether `a` and `b` use a common shared object.
pub fn share_object(a: &AllocationSet, b: &AllocationSet) -> (r: bool)
    ensures
        r == shares_object(*a, *b),
{
    let mut x: usize = 0;
    while x < a.allocations.len()
        invariant
            x <= a.allocations@.len(),
            forall|m: int| 0 <= m < x ==> !uses_object(*b, (#[trigger] a.allocations@[m]).shared_object),
        decreases a.allocations@.len() - x,
    {
        let o = a.allocations[x].shared_object;
        let mut y: usize = 0;
        while y < b.allocations.len()
            invariant
                y <= b.allocations@.len(),
                x < a.allocations@.len(),
                o == a.allocations@[x as int].shared_object,
                forall|m: int| 0 <= m < y ==> (#[trigger] b.allocations@[m]).shared_object != o,
            decreases b.allocations@.len() - y,
        {
            if b.allocations[y].shared_object == o {
                assert(uses_object(*a, o));
                assert(uses_object(*b, o));
                return true;
            }
            y = y + 1;
        }
        x = x + 1;
    }
    assert forall|o: UniqueId| #[trigger] uses_object(*a, o) implies !uses_object(*b, o) by {
        let k = choose|k: int| 0 <= k < a.allocations@.len() && (#[trigger] a.allocations@[k]).shared_object == o;
        assert(!uses_object(*b, a.allocations@[k].shared_object));
    }
    false
}

} // verus!
