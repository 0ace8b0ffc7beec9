use vstd::prelude::*;
use crate::ir::{successors, Body};

verus! {

/// `p` is a control-flow path of `body` from the entry block.
pub open spec fn is_entry_path(body: Body, p: Seq<usize>) -> bool {
    &&& p.len() > 0
    &&& p[0] == 0
    &&& forall|k: int| 0 <= k < p.len() - 1 ==> successors(body, p[k] as int).contains(#[trigger] p[k + 1])
}

/// Control can reach block `b` from the entry block.
pub open spec fn reachable(body: Body, b: usize) -> bool {
    exists|p: Seq<usize>| #[trigger] is_entry_path(body, p) && p.last() == b
}

proof fn lemma_reachable_step(body: Body, b: usize, s: usize)
    requires
        reachable(body, b),
        successors(body, b as int).contains(s),
    ensures
        reachable(body, s),
{
    let p = choose|p: Seq<usize>| #[trigger] is_entry_path(body, p) && p.last() == b;
    let q = p.push(s);
    assert forall|k: int| 0 <= k < q.len() - 1 implies successors(body, q[k] as int).contains(#[trigger] q[k + 1]) by {
        if k < p.len() - 1 {
            assert(q[k] == p[k] && q[k + 1] == p[k + 1]);
        } else {
            assert(q[k] == b && q[k + 1] == s);
        }
    }
    assert(is_entry_path(body, q));
}

/// `order` visits blocks of `body` without repetition, starts at the entry
/// block, holds only blocks that control can reach from there, and is
/// closed under control flow: with a block it holds every block that the
/// block may pass control to.
pub open spec fn is_traversal(body: Body, order: Seq<usize>) -> bool {
    &&& order.no_duplicates()
    &&& forall|k: int| 0 <= k < order.len() ==> #[trigger] order[k] < body.blocks@.len()
    &&& (body.blocks@.len() > 0 <==> order.len() > 0)
    &&& order.len() > 0 ==> order[0] == 0
    &&& forall|k: int| 0 <= k < order.len() ==> reachable(body, #[trigger] order[k])
    &&& forall|k: int, j: int| 0 <= k < order.len() && 0 <= j < successors(body, order[k] as int).len()
        && #[trigger] successors(body, order[k] as int)[j] < body.blocks@.len()
        ==> order.contains(successors(body, order[k] as int)[j])
}

spec fn count_unvisited(s: Seq<bool>) -> nat
    decreases s.len(),
{
    if s.len() == 0 {
        0
    } else {
        count_unvisited(s.drop_last()) + if s.last() { 0nat } else { 1nat }
    }
}

proof fn lemma_count_mark(s: Seq<bool>, i: int)
    requires
        0 <= i < s.len(),
        !s[i],
    ensures
        count_unvisited(s.update(i, true)) + 1 == count_unvisited(s),
    decreases s.len(),
{
    let t = s.update(i, true);
    if i < s.len() - 1 {
        assert(t.drop_last() == s.drop_last().update(i, true));
        lemma_count_mark(s.drop_last(), i);
    } else {
        assert(t.drop_last() == s.drop_last());
    }
}

proof fn lemma_push_contains(s: Seq<usize>, v: usize, x: usize)
    ensures
        s.push(v).contains(x) <==> s.contains(x) || x == v,
{
    if s.push(v).contains(x) && x != v {
        let k = choose|k: int| 0 <= k < s.push(v).len() && s.push(v)[k] == x;
        assert(s[k] == x);
    }
    if s.contains(x) {
        let k = choose|k: int| 0 <= k < s.len() && s[k] == x;
        assert(s.push(v)[k] == x);
    }
    if x == v {
        assert(s.push(v)[s.len() as int] == x);
    }
}

/// Depth-first search from block `b`, continuing with its successors from
/// the `i`-th on: marks each newly met block and appends each block once all
/// its successors are done. `fuel` bounds the depth of the search.
pub open spec fn dfs_from(body: Body, fuel: nat, b: usize, i: nat, visited: Seq<bool>, post: Seq<usize>) -> (Seq<bool>, Seq<usize>)
    decreases fuel, successors(body, b as int).len() - i,
{
    if i >= successors(body, b as int).len() {
        (visited, post)
    } else {
        let s = successors(body, b as int)[i as int];
        if s < body.blocks@.len() && !visited[s as int] && fuel > 0 {
            let r = dfs_from(body, (fuel - 1) as nat, s, 0, visited.update(s as int, true), post);
            dfs_from(body, fuel, b, i + 1, r.0, r.1.push(s))
        } else {
            dfs_from(body, fuel, b, i + 1, visited, post)
        }
    }
}

/// Only the entry block marked.
pub open spec fn initial_marks(n: nat) -> Seq<bool> {
    Seq::new(n, |k: int| k == 0)
}

/// The blocks reachable from the entry, each appended once all its
/// successors (taken in order) are done.
pub open spec fn postorder(body: Body) -> Seq<usize> {
    let n = body.blocks@.len();
    dfs_from(body, n, 0, 0, initial_marks(n), Seq::empty()).1.push(0)
}

/// The reverse post-order of `body`'s blocks.
pub open spec fn rpo(body: Body) -> Seq<usize> {
    if body.blocks@.len() == 0 {
        Seq::empty()
    } else {
        let p = postorder(body);
        Seq::new(p.len(), |k: int| p[p.len() - 1 - k])
    }
}

proof fn lemma_count_bound(s: Seq<bool>)
    ensures
        count_unvisited(s) <= s.len(),
        s.len() > 0 && s[0] ==> count_unvisited(s) < s.len(),
    decreases s.len(),
{
    if s.len() > 0 {
        lemma_count_bound(s.drop_last());
        if s.len() > 1 && s[0] {
            assert(s.drop_last()[0]);
        }
    }
}

/// Every block of `post` has all its successors marked in `visited`.
spec fn finished(body: Body, visited: Seq<bool>, post: Seq<usize>) -> bool {
    forall|k: int, j: int| 0 <= k < post.len() && 0 <= j < successors(body, post[k] as int).len()
        && #[trigger] successors(body, post[k] as int)[j] < body.blocks@.len()
        ==> visited[successors(body, post[k] as int)[j] as int]
}

/// `post` lists marked blocks without repetition.
spec fn well_listed(body: Body, visited: Seq<bool>, post: Seq<usize>) -> bool {
    &&& visited.len() == body.blocks@.len()
    &&& forall|x: int| 0 <= x < visited.len() && #[trigger] visited[x] ==> reachable(body, x as usize)
    &&& post.no_duplicates()
    &&& forall|k: int| 0 <= k < post.len() ==> #[trigger] post[k] < body.blocks@.len() && visited[post[k] as int]
}

/// Depth-first search from `b`, appending each block once all its
/// successors are done.
fn dfs(body: &Body, b: usize, visited: &mut Vec<bool>, post: &mut Vec<usize>, Ghost(fuel): Ghost<nat>)
    requires
        b < body.blocks@.len(),
        count_unvisited(old(visited)@) <= fuel,
        old(visited)@[b as int],
        !old(post)@.contains(b),
        well_listed(*body, old(visited)@, old(post)@),
        finished(*body, old(visited)@, old(post)@),
    ensures
        well_listed(*body, final(visited)@, final(post)@),
        finished(*body, final(visited)@, final(post)@),
        final(post)@.contains(b),
        final(post)@[final(post)@.len() - 1] == b,
        old(post)@.is_prefix_of(final(post)@),
        forall|x: int| 0 <= x < old(visited)@.len() && #[trigger] old(visited)@[x] ==> final(visited)@[x],
        forall|x: int| 0 <= x < old(visited)@.len() ==> (#[trigger] final(visited)@[x] && !final(post)@.contains(x as usize)
            <==> old(visited)@[x] && !old(post)@.contains(x as usize) && x != b),
        count_unvisited(final(visited)@) <= count_unvisited(old(visited)@),
        (final(visited)@, final(post)@) == ({
            let r = dfs_from(*body, fuel, b, 0, old(visited)@, old(post)@);
            (r.0, r.1.push(b))
        }),
    decreases count_unvisited(old(visited)@),
{
    let succs = body.successors(b);
    let n = body.blocks.len();
    let mut i: usize = 0;
    while i < succs.len()
        invariant
            n == body.blocks@.len(),
            b < n,
            succs@ == successors(*body, b as int),
            i <= succs@.len(),
            visited@[b as int],
            !post@.contains(b),
            well_listed(*body, visited@, post@),
            finished(*body, visited@, post@),
            visited@.len() == old(visited)@.len(),
            old(post)@.is_prefix_of(post@),
            forall|x: int| 0 <= x < old(visited)@.len() && #[trigger] old(visited)@[x] ==> visited@[x],
            forall|x: int| 0 <= x < old(visited)@.len() ==> (#[trigger] visited@[x] && !post@.contains(x as usize)
                <==> old(visited)@[x] && !old(post)@.contains(x as usize)),
            forall|j: int| 0 <= j < i && #[trigger] succs@[j] < n ==> visited@[succs@[j] as int],
            count_unvisited(visited@) <= count_unvisited(old(visited)@),
            count_unvisited(old(visited)@) <= fuel,
            dfs_from(*body, fuel, b, 0, old(visited)@, old(post)@) == dfs_from(*body, fuel, b, i as nat, visited@, post@),
        decreases succs@.len() - i,
    {
        let s = succs[i];
        let ghost vb = visited@;
        let ghost pb = post@;
        if s < n && !visited[s] {
            let ghost v0 = visited@;
            proof {
                lemma_count_mark(visited@, s as int);
                assert(fuel > 0);
                assert(succs@[i as int] == s);
                lemma_reachable_step(*body, b, s);
            }
            visited.set(s, true);
            proof {
                assert(!post@.contains(s)) by {
                    if post@.contains(s) {
                        let k = choose|k: int| 0 <= k < post@.len() && post@[k] == s;
                        assert(v0[post@[k] as int]);
                    }
                }
                assert forall|k: int, j: int| 0 <= k < post@.len() && 0 <= j < successors(*body, post@[k] as int).len()
                    && #[trigger] successors(*body, post@[k] as int)[j] < body.blocks@.len()
                    implies visited@[successors(*body, post@[k] as int)[j] as int] by {
                    assert(v0[successors(*body, post@[k] as int)[j] as int]);
                }
            }
            let ghost post_before = post@;
            let ghost v1 = visited@;
            dfs(body, s, visited, post, Ghost((fuel - 1) as nat));
            proof {
                assert forall|x: int| 0 <= x < v1.len() && #[trigger] v1[x] ==> visited@[x] by {}
                assert(!post@.contains(b)) by {
                    if post@.contains(b) {
                        assert(v1[b as int] && !post_before.contains(b));
                    }
                }
                assert(post_before.is_prefix_of(post@));
                assert(old(post)@.is_prefix_of(post@)) by {
                    assert forall|k: int| 0 <= k < old(post)@.len() implies old(post)@[k] == post@[k] by {
                        assert(post_before[k] == old(post)@[k]);
                    }
                }
                assert forall|x: int| 0 <= x < old(visited)@.len() implies (#[trigger] visited@[x] && !post@.contains(x as usize)
                    <==> old(visited)@[x] && !old(post)@.contains(x as usize)) by {
                    assert(v1 == v0.update(s as int, true));
                    if x == s as int {
                        assert(!post_before.contains(s));
                        assert(v1[x]);
                    } else {
                        assert(v1[x] == v0[x]);
                    }
                }
            }
        }
        proof {
            assert(dfs_from(*body, fuel, b, i as nat, vb, pb) == dfs_from(*body, fuel, b, (i + 1) as nat, visited@, post@));
        }
        i = i + 1;
    }
    let ghost post_done = post@;
    post.push(b);
    proof {
        assert(post@.no_duplicates()) by {
            assert forall|k1: int, k2: int| 0 <= k1 < post@.len() && 0 <= k2 < post@.len() && k1 != k2
                implies post@[k1] != post@[k2] by {
                if k1 == post@.len() - 1 {
                    assert(!post_done.contains(b));
                    assert(post_done[k2] == post@[k2]);
                } else if k2 == post@.len() - 1 {
                    assert(post_done[k1] == post@[k1]);
                } else {
                    assert(post_done[k1] == post@[k1] && post_done[k2] == post@[k2]);
                }
            }
        }
        assert(post@[post@.len() - 1] == b);
        assert forall|k: int, j: int| 0 <= k < post@.len() && 0 <= j < successors(*body, post@[k] as int).len()
            && #[trigger] successors(*body, post@[k] as int)[j] < body.blocks@.len()
            implies visited@[successors(*body, post@[k] as int)[j] as int] by {
            if k < post_done.len() {
                assert(post_done[k] == post@[k]);
            } else {
                assert(succs@[j] == successors(*body, b as int)[j]);
            }
        }
        assert forall|x: int| 0 <= x < old(visited)@.len() implies (#[trigger] visited@[x] && !post@.contains(x as usize)
            <==> old(visited)@[x] && !old(post)@.contains(x as usize) && x != b) by {
            assert(post@ == post_done.push(b));
            lemma_push_contains(post_done, b, x as usize);
        }
        assert(old(post)@.is_prefix_of(post@)) by {
            assert forall|k: int| 0 <= k < old(post)@.len() implies old(post)@[k] == post@[k] by {
                assert(post_done[k] == post@[k]);
            }
        }
    }
}

/// The blocks of `body` reachable from its entry, in reverse post-order.
pub fn reverse_postorder(body: &Body) -> (r: Vec<usize>)
    ensures
        r@ == rpo(*body),
        is_traversal(*body, r@),
{
    let n = body.blocks.len();
    let mut post: Vec<usize> = Vec::new();
    if n == 0 {
        return post;
    }
    let mut visited: Vec<bool> = Vec::new();
    let mut i: usize = 0;
    while i < n
        invariant
            i <= n,
            visited@.len() == i,
            forall|k: int| 0 <= k < i ==> !#[trigger] visited@[k],
        decreases n - i,
    {
        visited.push(false);
        i = i + 1;
    }
    visited.set(0, true);
    proof {
        assert(visited@ =~= initial_marks(n as nat));
        lemma_count_bound(visited@);
        let p = seq![0usize];
        assert(is_entry_path(*body, p));
        assert(reachable(*body, 0));
    }
    dfs(body, 0, &mut visited, &mut post, Ghost(n as nat));
    assert(post@ == postorder(*body));
    proof {
        assert forall|x: int| 0 <= x < n && #[trigger] visited@[x] implies post@.contains(x as usize) by {}
    }
    let mut r: Vec<usize> = Vec::new();
    let mut k: usize = post.len();
    while k > 0
        invariant
            k <= post@.len(),
            r@.len() == post@.len() - k,
            forall|m: int| 0 <= m < r@.len() ==> #[trigger] r@[m] == post@[post@.len() - 1 - m],
        decreases k,
    {
        k = k - 1;
        r.push(post[k]);
    }
    proof {
        let p = post@;
        assert(p.len() > 0);
        assert(p[p.len() - 1] == 0) by {
            assert(p.contains(0));
            let k = choose|k: int| 0 <= k < p.len() && p[k] == 0;
            if k < p.len() - 1 {
                assert(p.contains(p[p.len() - 1]));
            }
        }
        assert forall|a: int| 0 <= a < r@.len() implies reachable(*body, #[trigger] r@[a]) by {
            assert(r@[a] == p[p.len() - 1 - a]);
            assert(visited@[p[p.len() - 1 - a] as int]);
        }
        assert forall|a: int| 0 <= a < r@.len() implies r@.contains(#[trigger] p[a]) by {
            assert(r@[p.len() - 1 - a] == p[a]);
        }
        assert(r@.no_duplicates()) by {
            assert forall|a: int, c: int| 0 <= a < r@.len() && 0 <= c < r@.len() && a != c implies r@[a] != r@[c] by {
                assert(p[p.len() - 1 - a] != p[p.len() - 1 - c]);
            }
        }
        assert forall|k: int, j: int| 0 <= k < r@.len() && 0 <= j < successors(*body, r@[k] as int).len()
            && #[trigger] successors(*body, r@[k] as int)[j] < body.blocks@.len()
            implies r@.contains(successors(*body, r@[k] as int)[j]) by {
            let s = successors(*body, r@[k] as int)[j];
            assert(r@[k] == p[p.len() - 1 - k]);
            assert(visited@[s as int]);
            assert(p.contains(s));
            let m = choose|m: int| 0 <= m < p.len() && p[m] == s;
            assert(r@.contains(p[m]));
        }
        assert(r@ =~= rpo(*body));
    }
    r
}

} // verus!
