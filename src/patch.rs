use vstd::prelude::*;
use crate::ids::{Transaction, UniqueId};
use crate::ir::{successors, BasicBlockData, Body, Callee, Operand, Place, Program, Terminator};
use crate::use_def::body_of;

verus! {

/// The runtime functions that lock and unlock calls are specialised to.
#[derive(Clone, Copy, PartialEq, Eq, Structural, Debug)]
pub struct LockItems {
    pub lock: usize,
    pub unlock: usize,
    pub read_lock: usize,
    pub write_lock: usize,
    pub read_unlock: usize,
    pub write_unlock: usize,
}

/// An edit of one call terminator of function `def_id`: the call in block
/// `block` gets callee `func` and the single argument `arg`.
#[derive(Clone, Copy, PartialEq, Eq, Structural, Debug)]
pub struct TerminatorPatch {
    pub def_id: usize,
    pub block: usize,
    pub func: Callee,
    pub arg: Operand,
}

/// The function a lock (or unlock) call is specialised to: at level 1 the
/// single lock or unlock function, at level 2 the read or write variant.
pub open spec fn transaction_call_spec(level: u8, items: LockItems, is_lock: bool, is_write: bool) -> usize {
    if level == 1 {
        if is_lock { items.lock } else { items.unlock }
    } else {
        match (is_lock, is_write) {
            (true, true) => items.write_lock,
            (true, false) => items.read_lock,
            (false, true) => items.write_unlock,
            (false, false) => items.read_unlock,
        }
    }
}

pub fn transaction_call(level: u8, items: &LockItems, is_lock: bool, is_write: bool) -> (r: usize)
    requires
        level == 1 || level == 2,
    ensures
        r == transaction_call_spec(level, *items, is_lock, is_write),
{
    if level == 1 {
        if is_lock { items.lock } else { items.unlock }
    } else {
        match (is_lock, is_write) {
            (true, true) => items.write_lock,
            (true, false) => items.read_lock,
            (false, true) => items.write_unlock,
            (false, false) => items.read_unlock,
        }
    }
}

/// The local a call destination writes, when it writes a whole local.
pub fn local_from_dest(destination: &Option<(Place, usize)>) -> (r: Option<usize>)
    ensures
        r == match *destination {
            Some((p, _)) => if p.field is None { Some(p.local) } else { None::<usize> },
            None => None,
        },
{
    match destination {
        Some((p, _)) => if p.field.is_none() { Some(p.local) } else { None },
        None => None,
    }
}

/// The call at `id`'s location is a call with exactly one argument.
pub open spec fn patchable_call(body: Body, id: UniqueId) -> bool {
    id.location.block < body.blocks@.len() && match body.blocks@[id.location.block as int].terminator {
        Terminator::Call { args, .. } => args@.len() == 1,
        _ => false,
    }
}

/// Every lock and unlock call of the conflict sets is a one-argument call of
/// a function of the unit.
pub open spec fn patchable(prog: Program, sets: Seq<Seq<Transaction>>) -> bool {
    forall|i: int, k: int| 0 <= i < sets.len() && 0 <= k < sets[i].len() ==> {
        let tx = #[trigger] sets[i][k];
        &&& tx.unlock.def_id == tx.lock.def_id
        &&& body_of(prog, tx.lock.def_id) is Some
        &&& patchable_call(body_of(prog, tx.lock.def_id)->Some_0, tx.lock)
        &&& patchable_call(body_of(prog, tx.lock.def_id)->Some_0, tx.unlock)
    }
}

/// The edit of the call at `id`: callee `new_def` (keeping the closure it
/// invokes), and, where the argument is a constant, the constant `i`.
pub open spec fn patch_for(body: Body, id: UniqueId, new_def: usize, i: usize) -> TerminatorPatch {
    match body.blocks@[id.location.block as int].terminator {
        Terminator::Call { func, args, .. } => TerminatorPatch {
            def_id: id.def_id,
            block: id.location.block,
            func: Callee { def_id: new_def, closure: func.closure },
            arg: match args@[0] {
                Operand::Constant(_) => Operand::Constant(i),
                other => other,
            },
        },
        _ => TerminatorPatch { def_id: id.def_id, block: id.location.block, func: Callee { def_id: new_def, closure: None }, arg: Operand::Constant(i) },
    }
}

/// The edits for the transactions of conflict set `i`: the lock, then the
/// unlock, of each.
pub open spec fn set_patches(prog: Program, set: Seq<Transaction>, i: usize, level: u8, items: LockItems) -> Seq<TerminatorPatch>
    decreases set.len(),
{
    if set.len() == 0 {
        Seq::empty()
    } else {
        let tx = set.last();
        let body = body_of(prog, tx.lock.def_id)->Some_0;
        set_patches(prog, set.drop_last(), i, level, items)
            + seq![
            patch_for(body, tx.lock, transaction_call_spec(level, items, true, tx.is_write), i),
            patch_for(body, tx.unlock, transaction_call_spec(level, items, false, tx.is_write), i),
        ]
    }
}

/// The edits for all conflict sets, each numbered by its index.
pub open spec fn all_patches(prog: Program, sets: Seq<Seq<Transaction>>, level: u8, items: LockItems) -> Seq<TerminatorPatch>
    decreases sets.len(),
{
    if sets.len() == 0 {
        Seq::empty()
    } else {
        all_patches(prog, sets.drop_last(), level, items) + set_patches(prog, sets.last(), (sets.len() - 1) as usize, level, items)
    }
}

/// The edit that specialises the lock (or unlock) call at `fn_id` for
/// conflict set `i`.
pub fn patch_call(body: &Body, fn_id: &UniqueId, level: u8, items: &LockItems, i: usize, is_lock: bool, is_write: bool) -> (r: TerminatorPatch)
    requires
        level == 1 || level == 2,
        patchable_call(*body, *fn_id),
    ensures
        r == patch_for(*body, *fn_id, transaction_call_spec(level, *items, is_lock, is_write), i),
{
    let new_def_id = transaction_call(level, items, is_lock, is_write);
    match &body.blocks[fn_id.location.block].terminator {
        Terminator::Call { func, args, .. } => {
            let arg = match args[0] {
                Operand::Constant(_) => Operand::Constant(i),
                other => other,
            };
            TerminatorPatch {
                def_id: fn_id.def_id,
                block: fn_id.location.block,
                func: Callee { def_id: new_def_id, closure: func.closure },
                arg,
            }
        },
        _ => TerminatorPatch {
            def_id: fn_id.def_id,
            block: fn_id.location.block,
            func: Callee { def_id: new_def_id, closure: None },
            arg: Operand::Constant(i),
        },
    }
}

/// The edits that specialise the lock and unlock calls of every
/// transaction, numbering each conflict set by its index. Nothing is edited
/// unless `def_id` is a function of the unit.
pub fn make_patches(def_id: usize, prog: &Program, conflict_sets: &Vec<Vec<Transaction>>, level: u8, items: &LockItems) -> (r: Vec<TerminatorPatch>)
    requires
        level == 1 || level == 2,
        patchable(*prog, conflict_sets@.map_values(|s: Vec<Transaction>| s@)),
    ensures
        r@ == if body_of(*prog, def_id) is Some {
            all_patches(*prog, conflict_sets@.map_values(|s: Vec<Transaction>| s@), level, *items)
        } else {
            Seq::empty()
        },
{
    let mut patches: Vec<TerminatorPatch> = Vec::new();
    if def_id >= prog.functions.len() || prog.functions[def_id].body.is_none() {
        return patches;
    }
    let ghost sets = conflict_sets@.map_values(|s: Vec<Transaction>| s@);
    let mut i: usize = 0;
    while i < conflict_sets.len()
        invariant
            level == 1 || level == 2,
            sets == conflict_sets@.map_values(|s: Vec<Transaction>| s@),
            patchable(*prog, sets),
            i <= conflict_sets@.len(),
            patches@ == all_patches(*prog, sets.take(i as int), level, *items),
        decreases conflict_sets@.len() - i,
    {
        let set = &conflict_sets[i];
        let ghost before = patches@;
        let mut k: usize = 0;
        while k < set.len()
            invariant
                level == 1 || level == 2,
                i < sets.len(),
                set@ == sets[i as int],
                patchable(*prog, sets),
                k <= set@.len(),
                patches@ == before + set_patches(*prog, set@.take(k as int), i, level, *items),
            decreases set@.len() - k,
        {
            let tx = set[k];
            assert(tx == sets[i as int][k as int]);
            let body = match &prog.functions[tx.lock.def_id].body {
                Some(body) => body,
                None => {
                    return patches;
                },
            };
            let lock = patch_call(body, &tx.lock, level, items, i, true, tx.is_write);
            let unlock = patch_call(body, &tx.unlock, level, items, i, false, tx.is_write);
            patches.push(lock);
            patches.push(unlock);
            proof {
                let t = set@.take(k as int + 1);
                assert(t.drop_last() == set@.take(k as int));
                assert(t.last() == tx);
                assert(patches@ =~= before + set_patches(*prog, t, i, level, *items));
            }
            k = k + 1;
        }
        proof {
            assert(set@.take(set@.len() as int) == set@);
            let t = sets.take(i as int + 1);
            assert(t.drop_last() == sets.take(i as int));
            assert(t.last() == set@);
        }
        i = i + 1;
    }
    proof {
        assert(sets.take(conflict_sets@.len() as int) == sets);
    }
    patches
}

/// The last edit of `patches` for block `b` of function `def_id`.
pub open spec fn last_patch(patches: Seq<TerminatorPatch>, def_id: usize, b: usize) -> Option<TerminatorPatch>
    decreases patches.len(),
{
    if patches.len() == 0 {
        None
    } else if patches.last().def_id == def_id && patches.last().block == b {
        Some(patches.last())
    } else {
        last_patch(patches.drop_last(), def_id, b)
    }
}

/// `new` is terminator `old` with edit `p` applied: a call gets the edit's
/// callee and single argument and keeps its destination and target; any
/// other terminator, or one with no edit, stays as it was.
pub open spec fn patched_as(old: Terminator, new: Terminator, p: Option<TerminatorPatch>) -> bool {
    match (p, old) {
        (Some(p), Terminator::Call { destination, target, .. }) => match new {
            Terminator::Call { func: f2, args: a2, destination: d2, target: t2 } =>
                f2 == p.func && a2@ == seq![p.arg] && d2 == destination && t2 == target,
            _ => false,
        },
        _ => new == old,
    }
}

/// `new` is `old` with the edits of `patches` for function `def_id` applied.
pub open spec fn applied(old: Body, new: Body, def_id: usize, patches: Seq<TerminatorPatch>) -> bool {
    &&& new.arg_count == old.arg_count
    &&& new.blocks@.len() == old.blocks@.len()
    &&& forall|b: int| 0 <= b < old.blocks@.len() ==> (#[trigger] new.blocks@[b]).statements == old.blocks@[b].statements
        && patched_as(old.blocks@[b].terminator, new.blocks@[b].terminator, last_patch(patches, def_id, b as usize))
}

fn find_patch(patches: &Vec<TerminatorPatch>, def_id: usize, b: usize) -> (r: Option<TerminatorPatch>)
    ensures
        r == last_patch(patches@, def_id, b),
{
    let mut k: usize = patches.len();
    assert(patches@.take(k as int) == patches@);
    while k > 0
        invariant
            k <= patches@.len(),
            last_patch(patches@, def_id, b) == last_patch(patches@.take(k as int), def_id, b),
        decreases k,
    {
        let p = patches[k - 1];
        assert(patches@.take(k as int).drop_last() == patches@.take(k as int - 1));
        if p.def_id == def_id && p.block == b {
            return Some(p);
        }
        k = k - 1;
    }
    None
}

/// Applies the edits of `patches` for function `def_id` to its body.
pub fn apply_patches(body: Body, def_id: usize, patches: &Vec<TerminatorPatch>) -> (r: Body)
    ensures
        applied(body, r, def_id, patches@),
{
    let Body { blocks, arg_count } = body;
    let ghost old_blocks = blocks@;
    let mut rest = blocks;
    let mut reversed: Vec<BasicBlockData> = Vec::new();
    while rest.len() > 0
        invariant
            rest@.len() + reversed@.len() == old_blocks.len(),
            forall|b: int| 0 <= b < rest@.len() ==> #[trigger] rest@[b] == old_blocks[b],
            forall|m: int| 0 <= m < reversed@.len() ==> (#[trigger] reversed@[m]).statements == old_blocks[old_blocks.len() - 1 - m].statements
                && patched_as(
                old_blocks[old_blocks.len() - 1 - m].terminator,
                reversed@[m].terminator,
                last_patch(patches@, def_id, (old_blocks.len() - 1 - m) as usize),
            ),
        decreases rest@.len(),
    {
        let b = rest.len() - 1;
        let ghost r0 = reversed@;
        let bb = rest.pop().unwrap();
        assert(bb == old_blocks[b as int]);
        let BasicBlockData { statements, terminator } = bb;
        let patch = find_patch(patches, def_id, b);
        let new_terminator = match (patch, terminator) {
            (Some(p), Terminator::Call { destination, target, .. }) => {
                let mut args: Vec<Operand> = Vec::new();
                args.push(p.arg);
                assert(args@ =~= seq![p.arg]);
                Terminator::Call { func: p.func, args, destination, target }
            },
            (_, t) => t,
        };
        let ghost nt = new_terminator;
        assert(patched_as(old_blocks[b as int].terminator, nt, last_patch(patches@, def_id, b)));
        reversed.push(BasicBlockData { statements, terminator: new_terminator });
        assert(reversed@[r0.len() as int].terminator == nt);
        assert(old_blocks.len() - 1 - r0.len() == b);
    }
    let mut blocks: Vec<BasicBlockData> = Vec::new();
    while reversed.len() > 0
        invariant
            blocks@.len() + reversed@.len() == old_blocks.len(),
            forall|m: int| 0 <= m < reversed@.len() ==> (#[trigger] reversed@[m]).statements == old_blocks[old_blocks.len() - 1 - m].statements
                && patched_as(
                old_blocks[old_blocks.len() - 1 - m].terminator,
                reversed@[m].terminator,
                last_patch(patches@, def_id, (old_blocks.len() - 1 - m) as usize),
            ),
            forall|b: int| 0 <= b < blocks@.len() ==> (#[trigger] blocks@[b]).statements == old_blocks[b].statements
                && patched_as(old_blocks[b].terminator, blocks@[b].terminator, last_patch(patches@, def_id, b as usize)),
        decreases reversed@.len(),
    {
        let bb = reversed.pop().unwrap();
        blocks.push(bb);
    }
    Body { blocks, arg_count }
}

/// Applying edits keeps the control-flow graph: the same blocks, each with
/// the same statements and the same successors; a terminator changes only
/// where an edit names its block, and then only in its callee and argument
/// operands.
pub proof fn lemma_patch_locality(old: Body, new: Body, def_id: usize, patches: Seq<TerminatorPatch>)
    requires
        applied(old, new, def_id, patches),
    ensures
        new.blocks@.len() == old.blocks@.len(),
        forall|b: int| 0 <= b < old.blocks@.len() ==> (#[trigger] new.blocks@[b]).statements == old.blocks@[b].statements,
        forall|b: int| 0 <= b < old.blocks@.len() ==> #[trigger] successors(new, b) == successors(old, b),
        forall|b: int| 0 <= b < old.blocks@.len() && #[trigger] last_patch(patches, def_id, b as usize) is None
            ==> new.blocks@[b].terminator == old.blocks@[b].terminator,
{
    assert forall|b: int| 0 <= b < old.blocks@.len() implies #[trigger] successors(new, b) == successors(old, b) by {
        assert(new.blocks@[b].statements == old.blocks@[b].statements);
    }
}

/// Edit `p` is at the lock or unlock call of transaction `tx`.
pub open spec fn at_call_of(p: TerminatorPatch, tx: Transaction) -> bool {
    (p.def_id == tx.lock.def_id && p.block == tx.lock.location.block)
        || (p.def_id == tx.unlock.def_id && p.block == tx.unlock.location.block)
}

/// Edit `p` is at the lock or unlock call of some transaction of `sets`.
pub open spec fn at_some_call(p: TerminatorPatch, sets: Seq<Seq<Transaction>>) -> bool {
    exists|i: int, k: int| 0 <= i < sets.len() && 0 <= k < sets[i].len() && #[trigger] at_call_of(p, sets[i][k])
}

proof fn lemma_set_patch_sites(prog: Program, set: Seq<Transaction>, i: usize, level: u8, items: LockItems, p: TerminatorPatch)
    requires
        set_patches(prog, set, i, level, items).contains(p),
    ensures
        exists|k: int| 0 <= k < set.len() && #[trigger] at_call_of(p, set[k]),
    decreases set.len(),
{
    let q = set_patches(prog, set.drop_last(), i, level, items);
    let tx = set.last();
    let body = body_of(prog, tx.lock.def_id)->Some_0;
    let a = patch_for(body, tx.lock, transaction_call_spec(level, items, true, tx.is_write), i);
    let b = patch_for(body, tx.unlock, transaction_call_spec(level, items, false, tx.is_write), i);
    let all = q + seq![a, b];
    let m = choose|m: int| 0 <= m < all.len() && all[m] == p;
    if m < q.len() {
        assert(q[m] == p);
        lemma_set_patch_sites(prog, set.drop_last(), i, level, items, p);
        let k = choose|k: int| 0 <= k < set.drop_last().len() && #[trigger] at_call_of(p, set.drop_last()[k]);
        assert(set[k] == set.drop_last()[k]);
    } else {
        assert(at_call_of(p, set[set.len() - 1]));
    }
}

proof fn lemma_all_patch_sites(prog: Program, sets: Seq<Seq<Transaction>>, level: u8, items: LockItems, p: TerminatorPatch)
    requires
        all_patches(prog, sets, level, items).contains(p),
    ensures
        at_some_call(p, sets),
    decreases sets.len(),
{
    let q = all_patches(prog, sets.drop_last(), level, items);
    let last = set_patches(prog, sets.last(), (sets.len() - 1) as usize, level, items);
    let m = choose|m: int| 0 <= m < (q + last).len() && (q + last)[m] == p;
    if m < q.len() {
        assert(q[m] == p);
        lemma_all_patch_sites(prog, sets.drop_last(), level, items, p);
        let (i, k) = choose|i: int, k: int| 0 <= i < sets.drop_last().len() && 0 <= k < sets.drop_last()[i].len()
            && #[trigger] at_call_of(p, sets.drop_last()[i][k]);
        assert(sets[i] == sets.drop_last()[i]);
    } else {
        assert(last[m - q.len()] == p);
        lemma_set_patch_sites(prog, sets.last(), (sets.len() - 1) as usize, level, items, p);
        let k = choose|k: int| 0 <= k < sets.last().len() && #[trigger] at_call_of(p, sets.last()[k]);
        assert(at_call_of(p, sets[sets.len() - 1][k]));
    }
}

proof fn lemma_last_patch_member(patches: Seq<TerminatorPatch>, def_id: usize, b: usize)
    ensures
        last_patch(patches, def_id, b) matches Some(p) ==> patches.contains(p) && p.def_id == def_id && p.block == b,
    decreases patches.len(),
{
    if patches.len() > 0 {
        lemma_last_patch_member(patches.drop_last(), def_id, b);
        if let Some(p) = last_patch(patches.drop_last(), def_id, b) {
            let k = choose|k: int| 0 <= k < patches.drop_last().len() && patches.drop_last()[k] == p;
            assert(patches[k] == p);
        }
        assert(patches[patches.len() - 1] == patches.last());
    }
}

/// Applying the edits that `make_patches` produces for the conflict sets
/// `sets` to function `def_id` keeps its blocks, their statements and all
/// control-flow edges; a terminator changes only at the lock or unlock call
/// of a transaction of `sets`, and there it stays a call with the same
/// destination and target, with only its callee and argument replaced.
pub proof fn lemma_patches_change_only_lock_calls(
    prog: Program,
    sets: Seq<Seq<Transaction>>,
    level: u8,
    items: LockItems,
    def_id: usize,
    old: Body,
    new: Body,
)
    requires
        applied(old, new, def_id, all_patches(prog, sets, level, items)),
    ensures
        new.blocks@.len() == old.blocks@.len(),
        forall|b: int| 0 <= b < old.blocks@.len() ==> (#[trigger] new.blocks@[b]).statements == old.blocks@[b].statements,
        forall|b: int| 0 <= b < old.blocks@.len() ==> #[trigger] successors(new, b) == successors(old, b),
        forall|b: int| 0 <= b < old.blocks@.len() && #[trigger] new.blocks@[b].terminator != old.blocks@[b].terminator
            ==> ({
                let p = last_patch(all_patches(prog, sets, level, items), def_id, b as usize)->Some_0;
                &&& last_patch(all_patches(prog, sets, level, items), def_id, b as usize) is Some
                &&& p.def_id == def_id && p.block == b as usize
                &&& at_some_call(p, sets)
                &&& patched_as(old.blocks@[b].terminator, new.blocks@[b].terminator, Some(p))
            }),
{
    let patches = all_patches(prog, sets, level, items);
    lemma_patch_locality(old, new, def_id, patches);
    assert forall|b: int| 0 <= b < old.blocks@.len() && #[trigger] new.blocks@[b].terminator != old.blocks@[b].terminator
        implies ({
            let p = last_patch(patches, def_id, b as usize)->Some_0;
            &&& last_patch(patches, def_id, b as usize) is Some
            &&& p.def_id == def_id && p.block == b as usize
            &&& at_some_call(p, sets)
            &&& patched_as(old.blocks@[b].terminator, new.blocks@[b].terminator, Some(p))
        }) by {
        lemma_last_patch_member(patches, def_id, b as usize);
        assert(patched_as(old.blocks@[b].terminator, new.blocks@[b].terminator, last_patch(patches, def_id, b as usize)));
        if let Some(p) = last_patch(patches, def_id, b as usize) {
            lemma_all_patch_sites(prog, sets, level, items, p);
        }
    }
}

} // verus!
