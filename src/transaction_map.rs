use vstd::prelude::*;
use crate::idmap::IdMap;
use crate::ids::UniqueId;
use crate::ir::{kind_of, terminator_location, ApiKind, Body, Program, Terminator};
use crate::traversal::{is_traversal, reverse_postorder, rpo};

verus! {

/// What a block's terminator means to the boundary mapper.
#[derive(Clone, Copy, PartialEq, Eq, Structural, Debug)]
pub enum Marker {
    /// A call of the lock function, with its identity.
    Lock(UniqueId),
    /// A call of the unlock function.
    Unlock(UniqueId),
    /// Any other call.
    Call(UniqueId),
    /// A terminator that calls nothing.
    NoCall,
}

/// The identity of the value that block `b`'s terminator defines: its call
/// result at the terminator's location.
pub open spec fn terminator_id(def_id: usize, body: Body, b: usize) -> UniqueId {
    match body.blocks@[b as int].terminator {
        Terminator::Call { destination, .. } => UniqueId {
            def_id,
            local: destination,
            location: terminator_location(body, b),
            field: None,
        },
        _ => UniqueId { def_id, local: 0, location: terminator_location(body, b), field: None },
    }
}

pub open spec fn marker_of(prog: Program, def_id: usize, body: Body, b: usize) -> Marker {
    match body.blocks@[b as int].terminator {
        Terminator::Call { func, .. } => {
            let id = terminator_id(def_id, body, b);
            match kind_of(prog, func.def_id) {
                ApiKind::Lock => Marker::Lock(id),
                ApiKind::Unlock => Marker::Unlock(id),
                _ => Marker::Call(id),
            }
        },
        _ => Marker::NoCall,
    }
}

/// The markers of the blocks of `order`, in that order.
pub open spec fn markers(prog: Program, def_id: usize, body: Body, order: Seq<usize>) -> Seq<Marker> {
    order.map_values(|b: usize| marker_of(prog, def_id, body, b))
}

/// The mapper's state: the open transaction's lock, the lock enclosing each
/// call seen, and the unlock that closed each lock.
pub type ScanState = (Option<UniqueId>, Map<UniqueId, UniqueId>, Map<UniqueId, UniqueId>);

/// One terminator visited: a lock opens a transaction; an unlock closes the
/// open one, or is ignored when none is open; another call inside an open
/// transaction is recorded against its lock. A lock that already has its
/// unlock keeps it: a callee entered inside a caller's transaction ends that
/// transaction at its own unlock, which is not paired with the caller's lock.
pub open spec fn step(st: ScanState, m: Marker) -> ScanState {
    match m {
        Marker::Lock(id) => (Some(id), st.1, st.2),
        Marker::Unlock(id) => match st.0 {
            Some(l) => (None, st.1, if st.2.contains_key(l) { st.2 } else { st.2.insert(l, id) }),
            None => st,
        },
        Marker::Call(id) => match st.0 {
            Some(l) => (st.0, st.1.insert(id, l), st.2),
            None => st,
        },
        Marker::NoCall => st,
    }
}

/// The state after visiting `ms` in order from `init`.
pub open spec fn scan(init: ScanState, ms: Seq<Marker>) -> ScanState
    decreases ms.len(),
{
    if ms.len() == 0 {
        init
    } else {
        step(scan(init, ms.drop_last()), ms.last())
    }
}

/// Each call mapped to the (lock, unlock) pair of its transaction, for the
/// transactions that closed.
pub open spec fn join(t2l: Map<UniqueId, UniqueId>, l2u: Map<UniqueId, UniqueId>) -> Map<UniqueId, (UniqueId, UniqueId)> {
    Map::new(
        |t: UniqueId| t2l.contains_key(t) && l2u.contains_key(t2l[t]),
        |t: UniqueId| (t2l[t], l2u[t2l[t]]),
    )
}

/// Marks every call of one function as inside or outside a transaction.
///
/// At most one transaction is open at a time: transactions do not nest, and
/// a lock met while one is open takes its place, leaving the earlier one
/// without an unlock. An unlock with no open transaction is ignored.
pub struct TransactionMap {
    pub def_id: usize,
    /// Each call inside a transaction, mapped to the transaction's lock.
    pub terminator_to_lock: IdMap<UniqueId>,
    /// Each transaction's lock, mapped to its unlock.
    pub lock_to_unlock: IdMap<UniqueId>,
    /// Each call inside a transaction, mapped to its lock and unlock.
    pub terminator_to_tx: IdMap<(UniqueId, UniqueId)>,
    /// The lock of the transaction open at this point of the walk.
    pub transaction_id: Option<UniqueId>,
}

impl TransactionMap {
    pub open spec fn def_id(&self) -> usize {
        self.def_id
    }

    pub open spec fn state(&self) -> ScanState {
        (self.transaction_id, self.terminator_to_lock@, self.lock_to_unlock@)
    }

    /// A mapper for function `def_id` that starts outside any transaction.
    pub fn new(def_id: usize) -> (r: TransactionMap)
        ensures
            r.def_id() == def_id,
            r.state() == (None::<UniqueId>, Map::<UniqueId, UniqueId>::empty(), Map::<UniqueId, UniqueId>::empty()),
            r.terminator_to_tx@ == Map::<UniqueId, (UniqueId, UniqueId)>::empty(),
    {
        TransactionMap {
            def_id,
            terminator_to_lock: IdMap::new(),
            lock_to_unlock: IdMap::new(),
            terminator_to_tx: IdMap::new(),
            transaction_id: None,
        }
    }

    /// A mapper for a callee entered from a call site: when the call site is
    /// inside transaction `transaction_ids`, the callee starts inside it.
    pub fn new_child(
        def_id: usize,
        transaction_ids: Option<(UniqueId, UniqueId)>,
        terminator_to_tx: IdMap<(UniqueId, UniqueId)>,
    ) -> (r: TransactionMap)
        ensures
            r.def_id() == def_id,
            r.state() == (match transaction_ids {
                Some(ids) => (Some(ids.0), Map::<UniqueId, UniqueId>::empty(), Map::<UniqueId, UniqueId>::empty().insert(ids.0, ids.1)),
                None => (None::<UniqueId>, Map::<UniqueId, UniqueId>::empty(), Map::<UniqueId, UniqueId>::empty()),
            }),
            r.terminator_to_tx@ == terminator_to_tx@,
    {
        let mut lock_to_unlock: IdMap<UniqueId> = IdMap::new();
        let transaction_id = match transaction_ids {
            None => None,
            Some(ids) => {
                lock_to_unlock.insert(ids.0, ids.1);
                Some(ids.0)
            },
        };
        TransactionMap {
            def_id,
            terminator_to_lock: IdMap::new(),
            lock_to_unlock,
            terminator_to_tx,
            transaction_id,
        }
    }

    /// Visits block `b`'s terminator.
    pub fn visit_terminator(&mut self, prog: &Program, body: &Body, b: usize)
        requires
            b < body.blocks@.len(),
        ensures
            final(self).def_id() == old(self).def_id(),
            final(self).state() == step(old(self).state(), marker_of(*prog, old(self).def_id(), *body, b)),
            final(self).terminator_to_tx@ == old(self).terminator_to_tx@,
    {
        if let Terminator::Call { func, destination, .. } = &body.blocks[b].terminator {
            let id = UniqueId::new(self.def_id, *destination, body.terminator_location(b), None);
            match prog.kind_of(func.def_id) {
                ApiKind::Lock => {
                    self.transaction_id = Some(id);
                },
                ApiKind::Unlock => {
                    if let Some(lock_id) = self.transaction_id {
                        if self.lock_to_unlock.get(&lock_id).is_none() {
                            self.lock_to_unlock.insert(lock_id, id);
                        }
                        self.transaction_id = None;
                    }
                },
                _ => {
                    if let Some(lock_id) = self.transaction_id {
                        self.terminator_to_lock.insert(id, lock_id);
                    }
                },
            }
        }
    }

    /// Visits the terminators of the blocks of `order`, in that order, then
    /// maps each call recorded inside a closed transaction to that
    /// transaction's lock and unlock.
    pub fn scan_blocks(&mut self, prog: &Program, body: &Body, order: &Vec<usize>)
        requires
            forall|k: int| 0 <= k < order@.len() ==> #[trigger] order@[k] < body.blocks@.len(),
        ensures
            final(self).def_id() == old(self).def_id(),
            final(self).state() == scan(old(self).state(), markers(*prog, old(self).def_id(), *body, order@)),
            final(self).terminator_to_tx@ == old(self).terminator_to_tx@.union_prefer_right(
                join(final(self).state().1, final(self).state().2),
            ),
    {
        let ghost ms = markers(*prog, self.def_id, *body, order@);
        let mut k: usize = 0;
        while k < order.len()
            invariant
                forall|m: int| 0 <= m < order@.len() ==> #[trigger] order@[m] < body.blocks@.len(),
                k <= order@.len(),
                self.def_id() == old(self).def_id(),
                ms == markers(*prog, self.def_id, *body, order@),
                self.state() == scan(old(self).state(), ms.take(k as int)),
                self.terminator_to_tx@ == old(self).terminator_to_tx@,
            decreases order@.len() - k,
        {
            assert(ms.take(k as int + 1).drop_last() == ms.take(k as int));
            self.visit_terminator(prog, body, order[k]);
            k = k + 1;
        }
        assert(ms.take(order@.len() as int) == ms);
        let ghost before = self.terminator_to_tx@;
        let ghost t2l = self.terminator_to_lock@;
        let ghost l2u = self.lock_to_unlock@;
        let ghost keys = self.terminator_to_lock.key_list();
        let n = self.terminator_to_lock.key_count();
        let mut i: usize = 0;
        while i < n
            invariant
                n == keys.len(),
                i <= n,
                t2l == self.terminator_to_lock@,
                l2u == self.lock_to_unlock@,
                keys == self.terminator_to_lock.key_list(),
                self.state() == scan(old(self).state(), ms),
                self.def_id() == old(self).def_id(),
                self.terminator_to_tx@ == before.union_prefer_right(
                    join(t2l, l2u).restrict(keys.take(i as int).to_set()),
                ),
            decreases n - i,
        {
            let t = self.terminator_to_lock.key_at(i);
            proof {
                self.terminator_to_lock.lemma_keys(t);
                assert(keys.contains(t));
            }
            let lock = self.terminator_to_lock.get(&t);
            if let Some(l) = lock {
                if let Some(u) = self.lock_to_unlock.get(&l) {
                    self.terminator_to_tx.insert(t, (l, u));
                }
            }
            proof {
                assert(keys.take(i as int + 1).to_set() =~= keys.take(i as int).to_set().insert(t)) by {
                    let a = keys.take(i as int);
                    let c = keys.take(i as int + 1);
                    assert(c == a.push(t));
                    assert forall|x: UniqueId| c.contains(x) <==> a.contains(x) || x == t by {
                        if c.contains(x) && x != t {
                            let k = choose|k: int| 0 <= k < c.len() && c[k] == x;
                            assert(a[k] == x);
                        }
                        if a.contains(x) {
                            let k = choose|k: int| 0 <= k < a.len() && a[k] == x;
                            assert(c[k] == x);
                        }
                        if x == t {
                            assert(c[a.len() as int] == x);
                        }
                    }
                }
                assert(self.terminator_to_tx@ =~= before.union_prefer_right(
                    join(t2l, l2u).restrict(keys.take(i as int + 1).to_set()),
                ));
            }
            i = i + 1;
        }
        proof {
            assert(keys.take(n as int) == keys);
            assert(join(t2l, l2u).restrict(keys.to_set()) =~= join(t2l, l2u)) by {
                assert forall|t: UniqueId| join(t2l, l2u).contains_key(t) implies keys.to_set().contains(t) by {
                    self.terminator_to_lock.lemma_keys(t);
                }
            }
        }
    }

    /// Maps every call of `body` visited in reverse post-order.
    pub fn perform(&mut self, prog: &Program, body: &Body)
        ensures
            final(self).def_id() == old(self).def_id(),
            final(self).state() == scan(old(self).state(), markers(*prog, old(self).def_id(), *body, rpo(*body))),
            final(self).terminator_to_tx@ == old(self).terminator_to_tx@.union_prefer_right(
                join(final(self).state().1, final(self).state().2),
            ),
    {
        let order = reverse_postorder(body);
        proof {
            assert(is_traversal(*body, order@));
        }
        self.scan_blocks(prog, body, &order);
    }
}

/// The identity a marker carries, if any.
pub open spec fn marker_id(m: Marker) -> Option<UniqueId> {
    match m {
        Marker::Lock(id) => Some(id),
        Marker::Unlock(id) => Some(id),
        Marker::Call(id) => Some(id),
        Marker::NoCall => None,
    }
}

/// A lock or an unlock.
pub open spec fn is_boundary(m: Marker) -> bool {
    m is Lock || m is Unlock
}

/// No identity is carried by two markers.
pub open spec fn distinct_ids(ms: Seq<Marker>) -> bool {
    forall|a: int, b: int| 0 <= a < ms.len() && 0 <= b < ms.len() && a != b && (#[trigger] marker_id(ms[a])) is Some
        ==> marker_id(ms[a]) != #[trigger] marker_id(ms[b])
}

/// Before position `m`, lock `l` was called and no lock or unlock followed.
pub open spec fn open_at(ms: Seq<Marker>, m: int, l: UniqueId) -> bool {
    exists|i: int| 0 <= i < m && ms[i] == Marker::Lock(l) && forall|x: int| i < x < m ==> !is_boundary(#[trigger] ms[x])
}

/// The state of a walk that starts outside any transaction.
pub open spec fn empty_state() -> ScanState {
    (None, Map::empty(), Map::empty())
}

proof fn lemma_current(ms: Seq<Marker>, m: int, l: UniqueId)
    requires
        0 <= m <= ms.len(),
    ensures
        scan(empty_state(), ms.take(m)).0 == Some(l) <==> open_at(ms, m, l),
    decreases m,
{
    if m > 0 {
        lemma_current(ms, m - 1, l);
        assert(ms.take(m).drop_last() == ms.take(m - 1));
        assert(ms.take(m).last() == ms[m - 1]);
        let last = ms[m - 1];
        if open_at(ms, m, l) {
            let i = choose|i: int| 0 <= i < m && ms[i] == Marker::Lock(l) && forall|x: int| i < x < m ==> !is_boundary(#[trigger] ms[x]);
            if i < m - 1 {
                assert(!is_boundary(ms[m - 1]));
                assert(open_at(ms, m - 1, l));
            }
        }
        if !is_boundary(last) && open_at(ms, m - 1, l) {
            let i = choose|i: int| 0 <= i < m - 1 && ms[i] == Marker::Lock(l) && forall|x: int| i < x < m - 1 ==> !is_boundary(#[trigger] ms[x]);
            assert(forall|x: int| i < x < m ==> !is_boundary(#[trigger] ms[x]));
            assert(open_at(ms, m, l));
        }
        if last == Marker::Lock(l) {
            assert(forall|x: int| m - 1 < x < m ==> !is_boundary(#[trigger] ms[x]));
            assert(open_at(ms, m, l));
        }
    }
}

proof fn lemma_lock_keys(ms: Seq<Marker>, m: int, x: UniqueId)
    requires
        0 <= m <= ms.len(),
        scan(empty_state(), ms.take(m)).1.contains_key(x),
    ensures
        exists|a: int| 0 <= a < m && ms[a] == Marker::Call(x),
    decreases m,
{
    if m > 0 {
        assert(ms.take(m).drop_last() == ms.take(m - 1));
        assert(ms.take(m).last() == ms[m - 1]);
        if ms[m - 1] != Marker::Call(x) {
            lemma_lock_keys(ms, m - 1, x);
        }
    }
}

proof fn lemma_call_recorded(ms: Seq<Marker>, k: int, m: int, c: UniqueId, l: UniqueId)
    requires
        distinct_ids(ms),
        0 <= k < m <= ms.len(),
        ms[k] == Marker::Call(c),
        open_at(ms, k, l),
    ensures
        scan(empty_state(), ms.take(m)).1.contains_key(c),
        scan(empty_state(), ms.take(m)).1[c] == l,
    decreases m,
{
    assert(ms.take(m).drop_last() == ms.take(m - 1));
    assert(ms.take(m).last() == ms[m - 1]);
    if m == k + 1 {
        lemma_current(ms, k, l);
    } else {
        lemma_call_recorded(ms, k, m - 1, c, l);
        assert(marker_id(ms[k]) is Some);
        assert(marker_id(ms[k]) != marker_id(ms[m - 1]));
    }
}

proof fn lemma_call_unrecorded(ms: Seq<Marker>, k: int, m: int, c: UniqueId)
    requires
        distinct_ids(ms),
        0 <= k < m <= ms.len(),
        ms[k] == Marker::Call(c),
        forall|l: UniqueId| !open_at(ms, k, l),
    ensures
        !scan(empty_state(), ms.take(m)).1.contains_key(c),
    decreases m,
{
    assert(ms.take(m).drop_last() == ms.take(m - 1));
    assert(ms.take(m).last() == ms[m - 1]);
    if m == k + 1 {
        if scan(empty_state(), ms.take(k)).1.contains_key(c) {
            lemma_lock_keys(ms, k, c);
            let a = choose|a: int| 0 <= a < k && ms[a] == Marker::Call(c);
            assert(marker_id(ms[a]) != marker_id(ms[k]));
        }
        if scan(empty_state(), ms.take(k)).0 is Some {
            lemma_current(ms, k, scan(empty_state(), ms.take(k)).0->Some_0);
        }
    } else {
        lemma_call_unrecorded(ms, k, m - 1, c);
        assert(marker_id(ms[k]) is Some);
        assert(marker_id(ms[k]) != marker_id(ms[m - 1]));
    }
}

proof fn lemma_unlock_keys(ms: Seq<Marker>, m: int, l: UniqueId)
    requires
        0 <= m <= ms.len(),
        scan(empty_state(), ms.take(m)).2.contains_key(l),
    ensures
        exists|k: int| 0 <= k < m && #[trigger] ms[k] is Unlock && open_at(ms, k, l),
    decreases m,
{
    if m > 0 {
        assert(ms.take(m).drop_last() == ms.take(m - 1));
        assert(ms.take(m).last() == ms[m - 1]);
        let st = scan(empty_state(), ms.take(m - 1));
        if st.2.contains_key(l) {
            lemma_unlock_keys(ms, m - 1, l);
            let k = choose|k: int| 0 <= k < m - 1 && #[trigger] ms[k] is Unlock && open_at(ms, k, l);
        } else {
            lemma_current(ms, m - 1, l);
            assert(ms[m - 1] is Unlock);
        }
    }
}

proof fn lemma_unlock_recorded(ms: Seq<Marker>, i: int, j: int, m: int, l: UniqueId, u: UniqueId)
    requires
        distinct_ids(ms),
        0 <= i < j < m <= ms.len(),
        ms[i] == Marker::Lock(l),
        ms[j] == Marker::Unlock(u),
        forall|x: int| i < x < j ==> !is_boundary(#[trigger] ms[x]),
    ensures
        scan(empty_state(), ms.take(m)).2.contains_key(l),
        scan(empty_state(), ms.take(m)).2[l] == u,
    decreases m,
{
    assert(ms.take(m).drop_last() == ms.take(m - 1));
    assert(ms.take(m).last() == ms[m - 1]);
    if m == j + 1 {
        assert(open_at(ms, j, l));
        lemma_current(ms, j, l);
        if scan(empty_state(), ms.take(j)).2.contains_key(l) {
            lemma_unlock_keys(ms, j, l);
            let k = choose|k: int| 0 <= k < j && #[trigger] ms[k] is Unlock && open_at(ms, k, l);
            let i2 = choose|i2: int| 0 <= i2 < k && ms[i2] == Marker::Lock(l)
                && forall|x: int| i2 < x < k ==> !is_boundary(#[trigger] ms[x]);
            if i2 != i {
                assert(marker_id(ms[i]) != marker_id(ms[i2]));
            }
            assert(!is_boundary(ms[k]));
        }
    } else {
        lemma_unlock_recorded(ms, i, j, m - 1, l, u);
        lemma_current(ms, m - 1, l);
        if open_at(ms, m - 1, l) {
            let i2 = choose|i2: int| 0 <= i2 < m - 1 && ms[i2] == Marker::Lock(l)
                && forall|x: int| i2 < x < m - 1 ==> !is_boundary(#[trigger] ms[x]);
            if i2 != i {
                assert(marker_id(ms[i]) != marker_id(ms[i2]));
            }
            assert(!is_boundary(ms[j]));
        }
    }
}

/// Markers of distinct blocks carry distinct identities.
pub proof fn lemma_markers_distinct(prog: Program, def_id: usize, body: Body, order: Seq<usize>)
    requires
        order.no_duplicates(),
        forall|k: int| 0 <= k < order.len() ==> #[trigger] order[k] < body.blocks@.len(),
    ensures
        distinct_ids(markers(prog, def_id, body, order)),
{
    let ms = markers(prog, def_id, body, order);
    assert forall|a: int, b: int| 0 <= a < ms.len() && 0 <= b < ms.len() && a != b && (#[trigger] marker_id(ms[a])) is Some
        implies marker_id(ms[a]) != #[trigger] marker_id(ms[b]) by {
        assert(ms[a] == marker_of(prog, def_id, body, order[a]));
        assert(ms[b] == marker_of(prog, def_id, body, order[b]));
        if marker_id(ms[b]) is Some {
            assert(marker_id(ms[a])->Some_0.location.block == order[a]);
            assert(marker_id(ms[b])->Some_0.location.block == order[b]);
        }
    }
}

/// A walk over blocks in `order`, from outside any transaction: a call that
/// comes after a lock and before the first lock or unlock following it,
/// where that is an unlock, resolves to that lock and unlock; a call with no
/// lock open before it resolves to nothing.
pub proof fn lemma_boundary_mapping(prog: Program, def_id: usize, body: Body, order: Seq<usize>, k: int)
    requires
        order.no_duplicates(),
        forall|x: int| 0 <= x < order.len() ==> #[trigger] order[x] < body.blocks@.len(),
        0 <= k < order.len(),
        markers(prog, def_id, body, order)[k] is Call,
    ensures
        ({
            let ms = markers(prog, def_id, body, order);
            let st = scan(empty_state(), ms);
            let tx = join(st.1, st.2);
            let c = marker_id(ms[k])->Some_0;
            &&& forall|i: int, j: int| 0 <= i < k < j < ms.len() && #[trigger] ms[i] is Lock && #[trigger] ms[j] is Unlock
                && (forall|x: int| i < x < j ==> !is_boundary(#[trigger] ms[x]))
                ==> tx.contains_key(c) && tx[c] == (marker_id(ms[i])->Some_0, marker_id(ms[j])->Some_0)
            &&& (forall|l: UniqueId| !open_at(ms, k, l)) ==> !tx.contains_key(c)
        }),
{
    let ms = markers(prog, def_id, body, order);
    let st = scan(empty_state(), ms);
    let c = marker_id(ms[k])->Some_0;
    lemma_markers_distinct(prog, def_id, body, order);
    assert(ms.take(ms.len() as int) == ms);
    assert forall|i: int, j: int| 0 <= i < k < j < ms.len() && #[trigger] ms[i] is Lock && #[trigger] ms[j] is Unlock
        && (forall|x: int| i < x < j ==> !is_boundary(#[trigger] ms[x]))
        implies join(st.1, st.2).contains_key(c) && join(st.1, st.2)[c] == (marker_id(ms[i])->Some_0, marker_id(ms[j])->Some_0) by {
        let l = marker_id(ms[i])->Some_0;
        let u = marker_id(ms[j])->Some_0;
        assert(forall|x: int| i < x < k ==> !is_boundary(#[trigger] ms[x]));
        assert(open_at(ms, k, l));
        lemma_call_recorded(ms, k, ms.len() as int, c, l);
        lemma_unlock_recorded(ms, i, j, ms.len() as int, l, u);
    }
    if forall|l: UniqueId| !open_at(ms, k, l) {
        lemma_call_unrecorded(ms, k, ms.len() as int, c);
    }
}

} // verus!
