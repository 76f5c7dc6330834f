//! Connected components of a graph given by adjacency lists, counted by
//! flood fill from the lowest-indexed unvisited node.
use vstd::prelude::*;
use crate::topology::{count_where, lemma_count_where_le, lemma_count_where_set};

verus! {

/// The neighbour lists of an adjacency table, as sequences.
pub open spec fn row_views(adj: Seq<Vec<usize>>) -> Seq<Seq<usize>> {
    adj.map_values(|v: Vec<usize>| v@)
}

/// Node `b` is listed among the neighbours of node `a`.
pub open spec fn adj_linked(adj: Seq<Seq<usize>>, a: int, b: int) -> bool {
    &&& 0 <= a < adj.len()
    &&& 0 <= b < adj.len()
    &&& adj[a].contains(b as usize)
}

/// `p` steps from node to listed neighbour.
pub open spec fn is_walk(adj: Seq<Seq<usize>>, p: Seq<int>) -> bool {
    &&& p.len() >= 1
    &&& 0 <= p[0] < adj.len()
    &&& forall|i: int| 0 <= i < p.len() - 1 ==> #[trigger] adj_linked(adj, p[i], p[i + 1])
}

/// Node `b` can be reached from node `a` (a node reaches itself).
pub open spec fn adj_reaches(adj: Seq<Seq<usize>>, a: int, b: int) -> bool {
    exists|p: Seq<int>| #[trigger] is_walk(adj, p) && p[0] == a && p.last() == b
}

/// Node `f` counts, and no lower counted node reaches it: it is the first
/// node of its component.
pub open spec fn adj_seed(adj: Seq<Seq<usize>>, valid: Seq<bool>, f: int) -> bool {
    valid[f] && forall|g: int| 0 <= g < f && valid[g] ==> !adj_reaches(adj, g, f)
}

proof fn lemma_walk_refl(adj: Seq<Seq<usize>>, a: int)
    requires
        0 <= a < adj.len(),
    ensures
        adj_reaches(adj, a, a),
{
    assert(is_walk(adj, seq![a]));
}

proof fn lemma_walk_step(adj: Seq<Seq<usize>>, a: int, b: int, c: int)
    requires
        adj_reaches(adj, a, b),
        adj_linked(adj, b, c),
    ensures
        adj_reaches(adj, a, c),
{
    let p = choose|p: Seq<int>| #[trigger] is_walk(adj, p) && p[0] == a && p.last() == b;
    let q = p.push(c);
    assert forall|i: int| 0 <= i < q.len() - 1 implies #[trigger] adj_linked(adj, q[i], q[i + 1]) by {
        if i < p.len() - 1 {
            assert(q[i] == p[i] && q[i + 1] == p[i + 1]);
        }
    }
    assert(is_walk(adj, q));
}

/// A walk that starts in a neighbour-closed set stays in it.
proof fn lemma_walk_stays(adj: Seq<Seq<usize>>, vis: Seq<bool>, p: Seq<int>, i: int)
    requires
        is_walk(adj, p),
        vis.len() == adj.len(),
        vis[p[0]],
        0 <= i < p.len(),
        forall|a: int, b: int| 0 <= a < adj.len() && vis[a] && #[trigger] adj_linked(adj, a, b) ==> vis[b],
    ensures
        vis[p[i]],
    decreases i,
{
    if i > 0 {
        lemma_walk_stays(adj, vis, p, i - 1);
        let k = i - 1;
        assert(adj_linked(adj, p[k], p[k + 1]));
    }
}

/// Flood-fill state: every visited node is queued once, and each visited
/// node before `head` has all its neighbours visited.
spec fn fill_ok(
    adj: Seq<Seq<usize>>,
    valid: Seq<bool>,
    visited: Seq<bool>,
    queue: Seq<usize>,
    head: int,
    root: Seq<int>,
) -> bool {
    let len = adj.len();
    &&& visited.len() == len
    &&& valid.len() == len
    &&& root.len() == len
    &&& 0 <= head <= queue.len()
    &&& queue.len() == count_where(len, |f: int| visited[f])
    &&& forall|i: int| 0 <= i < queue.len() ==> (#[trigger] queue[i] as int) < len && visited[queue[i] as int]
    &&& forall|i: int, b: int|
        0 <= i < head && #[trigger] adj_linked(adj, queue[i] as int, b) ==> visited[b]
    &&& forall|f: int|
        0 <= f < len && #[trigger] visited[f] ==> exists|i: int| 0 <= i < queue.len() && queue[i] == f as usize
    &&& forall|v: int|
        0 <= v < len && #[trigger] visited[v] ==> 0 <= root[v] < len && valid[root[v]] && adj_reaches(adj, root[v], v)
}

/// Number of components among the nodes marked `valid`, where every
/// neighbour of a valid node is valid and invalid nodes have no
/// neighbours: the count of valid nodes not reached from a lower valid
/// node.
pub fn count_components(adj: &Vec<Vec<usize>>, valid: &Vec<bool>) -> (count: usize)
    requires
        valid@.len() == adj@.len(),
        forall|a: int, k: int|
            0 <= a < adj@.len() && 0 <= k < adj@[a]@.len() ==> (#[trigger] adj@[a]@[k] as int) < adj@.len(),
        forall|a: int, b: int| 0 <= a < adj@.len() && valid@[a] && #[trigger] adj@[a]@.contains(b as usize) && 0 <= b < adj@.len() ==> valid@[b],
    ensures
        count == count_where(adj@.len() as nat, |f: int| adj_seed(row_views(adj@), valid@, f)),
{
    let ghost g = row_views(adj@);
    let len = adj.len();
    let mut visited: Vec<bool> = Vec::new();
    let mut i: usize = 0;
    while i < len
        invariant
            i <= len,
            visited@ == Seq::new(i as nat, |f: int| false),
        decreases len - i,
    {
        visited.push(false);
        i = i + 1;
    }
    let mut queue: Vec<usize> = Vec::new();
    let ghost mut root: Seq<int> = Seq::new(len as nat, |f: int| 0int);
    proof {
        crate::topology::lemma_count_where_ext(len as nat, |f: int| visited@[f], |f: int| false);
        lemma_count_zero(len as nat);
    }
    let mut head: usize = 0;
    let mut count: usize = 0;
    let mut seed: usize = 0;
    while seed < len
        invariant
            len == adj@.len(),
            g == row_views(adj@),
            valid@.len() == len,
            forall|a: int, k: int|
                0 <= a < adj@.len() && 0 <= k < adj@[a]@.len() ==> (#[trigger] adj@[a]@[k] as int) < adj@.len(),
            fill_ok(g, valid@, visited@, queue@, head as int, root),
            head == queue@.len(),
            seed <= len,
            count == count_where(seed as nat, |f: int| adj_seed(g, valid@, f)),
            forall|f: int| 0 <= f < seed && #[trigger] valid@[f] ==> visited@[f],
            forall|v: int| 0 <= v < len && #[trigger] visited@[v] ==> root[v] < seed,
        decreases len - seed,
    {
        proof {
            lemma_count_where_le(seed as nat, |f: int| adj_seed(g, valid@, f));
            assert forall|a: int, b: int| 0 <= a < len && visited@[a] && #[trigger] adj_linked(g, a, b) implies visited@[b] by {
                let i = choose|i: int| 0 <= i < queue@.len() && queue@[i] == a as usize;
                assert(adj_linked(g, queue@[i] as int, b));
            }
        }
        if valid[seed] && !visited[seed] {
            proof {
                assert forall|q: int| 0 <= q < seed && valid@[q] implies !adj_reaches(g, q, seed as int) by {
                    if adj_reaches(g, q, seed as int) {
                        let p = choose|p: Seq<int>| #[trigger] is_walk(g, p) && p[0] == q && p.last() == seed as int;
                        assert(visited@[q]);
                        lemma_walk_stays(g, visited@, p, p.len() - 1);
                    }
                }
                assert(adj_seed(g, valid@, seed as int));
            }
            count = count + 1;
            let ghost old_vis = visited@;
            let ghost old_queue = queue@;
            visited.set(seed, true);
            queue.push(seed);
            proof {
                root = root.update(seed as int, seed as int);
                lemma_walk_refl(g, seed as int);
                lemma_count_where_set(len as nat, |f: int| old_vis[f], |f: int| visited@[f], seed as int);
                assert forall|f: int| 0 <= f < len && #[trigger] visited@[f] implies exists|i: int|
                    0 <= i < queue@.len() && queue@[i] == f as usize by {
                    if f == seed as int {
                        assert(queue@[queue@.len() - 1] == f as usize);
                    } else {
                        assert(old_vis[f]);
                        let i = choose|i: int| 0 <= i < old_queue.len() && old_queue[i] == f as usize;
                        assert(queue@[i] == f as usize);
                    }
                }
                assert forall|v: int| 0 <= v < len && #[trigger] visited@[v] implies 0 <= root[v] < len && valid@[root[v]]
                    && adj_reaches(g, root[v], v) by {
                    if v != seed as int {
                        assert(old_vis[v]);
                    }
                }
                assert forall|q: int, b: int| 0 <= q < head && #[trigger] adj_linked(g, queue@[q] as int, b) implies visited@[b] by {
                    assert(old_vis[b]);
                }
            }
            while head < queue.len()
                invariant
                    len == adj@.len(),
                    g == row_views(adj@),
                    valid@.len() == len,
                    forall|a: int, k: int|
                        0 <= a < adj@.len() && 0 <= k < adj@[a]@.len() ==> (#[trigger] adj@[a]@[k] as int) < adj@.len(),
                    fill_ok(g, valid@, visited@, queue@, head as int, root),
                    seed < len,
                    forall|f: int| 0 <= f <= seed && #[trigger] valid@[f] ==> visited@[f],
                    forall|v: int| 0 <= v < len && #[trigger] visited@[v] ==> root[v] <= seed,
                decreases len - head,
            {
                proof {
                    lemma_count_where_le(len as nat, |f: int| visited@[f]);
                }
                let u = queue[head];
                let ghost_root = expand(adj, Ghost(g), Ghost(valid@), &mut visited, &mut queue, Ghost(root), head, Ghost(seed as int));
                proof {
                    root = ghost_root@;
                }
                head = head + 1;
            }
        } else {
            proof {
                if valid@[seed as int] {
                    let r = root[seed as int];
                    assert(r < seed);
                    assert(adj_reaches(g, r, seed as int));
                    assert(!adj_seed(g, valid@, seed as int));
                }
            }
        }
        seed = seed + 1;
    }
    count
}


/// Visit every unvisited neighbour of the queued node `queue[head]`; after
/// this the node's neighbours are all visited and `head + 1` nodes are
/// expanded.
fn expand(
    adj: &Vec<Vec<usize>>,
    Ghost(g): Ghost<Seq<Seq<usize>>>,
    Ghost(valid): Ghost<Seq<bool>>,
    visited: &mut Vec<bool>,
    queue: &mut Vec<usize>,
    Ghost(root0): Ghost<Seq<int>>,
    head: usize,
    Ghost(seed): Ghost<int>,
) -> (new_root: Ghost<Seq<int>>)
    requires
        g == row_views(adj@),
        forall|a: int, k: int|
            0 <= a < adj@.len() && 0 <= k < adj@[a]@.len() ==> (#[trigger] adj@[a]@[k] as int) < adj@.len(),
        fill_ok(g, valid, old(visited)@, old(queue)@, head as int, root0),
        head < old(queue)@.len(),
        forall|v: int| 0 <= v < adj@.len() && #[trigger] old(visited)@[v] ==> root0[v] <= seed,
    ensures
        fill_ok(g, valid, final(visited)@, final(queue)@, head + 1, new_root@),
        forall|v: int| 0 <= v < adj@.len() && #[trigger] old(visited)@[v] ==> final(visited)@[v],
        forall|v: int| 0 <= v < adj@.len() && #[trigger] final(visited)@[v] ==> new_root@[v] <= seed,
        final(queue)@.len() >= old(queue)@.len(),
        forall|q: int| 0 <= q < old(queue)@.len() ==> #[trigger] final(queue)@[q] == old(queue)@[q],
{
    let len = adj.len();
    let ghost mut root = root0;
    let u = queue[head];
    let nb = &adj[u];
    let mut k: usize = 0;
    while k < nb.len()
        invariant
            len == adj@.len(),
            g == row_views(adj@),
            forall|a: int, k: int|
                0 <= a < adj@.len() && 0 <= k < adj@[a]@.len() ==> (#[trigger] adj@[a]@[k] as int) < adj@.len(),
            fill_ok(g, valid, visited@, queue@, head as int, root),
            head < queue@.len(),
            u == queue@[head as int],
            *nb == adj@[u as int],
            k <= nb@.len(),
            forall|q: int| 0 <= q < k ==> visited@[#[trigger] nb@[q] as int],
            forall|v: int| 0 <= v < len && #[trigger] old(visited)@[v] ==> visited@[v],
            forall|v: int| 0 <= v < len && #[trigger] visited@[v] ==> root[v] <= seed,
            queue@.len() >= old(queue)@.len(),
            forall|q: int| 0 <= q < old(queue)@.len() ==> #[trigger] queue@[q] == old(queue)@[q],
        decreases nb@.len() - k,
    {
        let w = nb[k];
        proof {
            assert((adj@[u as int]@[k as int] as int) < len);
            assert(g[u as int] == nb@);
        }
        if !visited[w] {
            let ghost old_vis = visited@;
            let ghost old_queue = queue@;
            let ghost old_root = root;
            visited.set(w, true);
            queue.push(w);
            proof {
                assert(nb@.contains(w));
                assert(adj_linked(g, u as int, w as int));
                lemma_walk_step(g, old_root[u as int], u as int, w as int);
                root = old_root.update(w as int, old_root[u as int]);
                lemma_count_where_set(len as nat, |f: int| old_vis[f], |f: int| visited@[f], w as int);
                assert forall|f: int| 0 <= f < len && #[trigger] visited@[f] implies exists|i: int|
                    0 <= i < queue@.len() && queue@[i] == f as usize by {
                    if f == w as int {
                        assert(queue@[queue@.len() - 1] == f as usize);
                    } else {
                        assert(old_vis[f]);
                        let i = choose|i: int| 0 <= i < old_queue.len() && old_queue[i] == f as usize;
                        assert(queue@[i] == f as usize);
                    }
                }
                assert forall|v: int| 0 <= v < len && #[trigger] visited@[v] implies 0 <= root[v] < len
                    && valid[root[v]] && adj_reaches(g, root[v], v) by {
                    if v != w as int {
                        assert(old_vis[v]);
                    }
                }
                assert forall|i: int| 0 <= i < queue@.len() implies (#[trigger] queue@[i] as int) < len
                    && visited@[queue@[i] as int] by {
                    if i < old_queue.len() {
                        assert(queue@[i] == old_queue[i]);
                    }
                }
                assert forall|q: int, b: int| 0 <= q < head && #[trigger] adj_linked(g, queue@[q] as int, b) implies visited@[b] by {
                    assert(queue@[q] == old_queue[q]);
                    assert(old_vis[b]);
                }
                assert forall|v: int| 0 <= v < len && #[trigger] visited@[v] implies root[v] <= seed by {
                    if v != w as int {
                        assert(old_vis[v]);
                    }
                }
            }
        }
        k = k + 1;
    }
    proof {
        assert forall|q: int, b: int| 0 <= q < head + 1 && #[trigger] adj_linked(g, queue@[q] as int, b) implies visited@[b] by {
            if q == head as int {
                let x = choose|x: int| 0 <= x < nb@.len() && nb@[x] == b as usize;
                assert(visited@[nb@[x] as int]);
            }
        }
    }
    Ghost(root)
}

proof fn lemma_count_zero(len: nat)
    ensures
        count_where(len, |f: int| false) == 0,
    decreases len,
{
    if len > 0 {
        lemma_count_zero((len - 1) as nat);
    }
}

} // verus!
