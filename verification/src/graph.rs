//! Scene-graph navigation over the node forest: first-parent map,
//! ancestor chains, and subtrees, all following the depth-first walk that
//! visits roots in order and children in source order, binding a node to
//! the first parent that reaches it and skipping cycles and out-of-range
//! ids.
use vstd::prelude::*;
use crate::ids::NodeId;
use crate::scene::SceneRefs;
use crate::topology::{count_where, lemma_count_where_le, lemma_count_where_set};

verus! {

/// Node `b` is listed among the children of node `a`, both in range.
pub open spec fn child_link(s: SceneRefs, a: int, b: int) -> bool {
    &&& 0 <= a < s.nodes@.len()
    &&& 0 <= b < s.nodes@.len()
    &&& s.nodes@[a].children@.contains(NodeId(b as u32))
}

/// `p` descends from parent to child along child links.
pub open spec fn is_descent(s: SceneRefs, p: Seq<int>) -> bool {
    &&& p.len() >= 1
    &&& 0 <= p[0] < s.nodes@.len()
    &&& forall|i: int| 0 <= i < p.len() - 1 ==> #[trigger] child_link(s, p[i], p[i + 1])
}

/// Node `b` lies in the subtree of node `a` (a node is in its own subtree).
pub open spec fn descends(s: SceneRefs, a: int, b: int) -> bool {
    exists|p: Seq<int>| #[trigger] is_descent(s, p) && p[0] == a && p.last() == b
}

/// Node `i` is listed in the scene's roots.
pub open spec fn is_root(s: SceneRefs, i: int) -> bool {
    0 <= i < s.nodes@.len() && s.roots@.contains(NodeId(i as u32))
}

/// Node `i` is drawn: it lies under one of the roots.
pub open spec fn drawn(s: SceneRefs, i: int) -> bool {
    exists|r: int| is_root(s, r) && #[trigger] descends(s, r, i)
}

/// `pm` is a first-parent map of the scene: one entry per node, a parent
/// only where the node is reached as a child of a drawn node (never for a
/// root), every drawn non-root node has one, and parents are reached
/// strictly before their children, so the map is a spanning forest.
pub open spec fn is_parent_map(s: SceneRefs, pm: Seq<Option<NodeId>>) -> bool {
    &&& pm.len() == s.nodes@.len()
    &&& forall|i: int|
        0 <= i < pm.len() ==> match #[trigger] pm[i] {
            Some(p) => child_link(s, p.0 as int, i) && !is_root(s, i) && drawn(s, p.0 as int),
            None => true,
        }
    &&& forall|i: int| 0 <= i < pm.len() && drawn(s, i) && !is_root(s, i) ==> #[trigger] pm[i] is Some
    &&& exists|rank: Seq<nat>| #[trigger] ranked(pm, rank)
}

/// `rank` orders every node after its parent.
pub open spec fn ranked(pm: Seq<Option<NodeId>>, rank: Seq<nat>) -> bool {
    &&& rank.len() == pm.len()
    &&& forall|i: int| 0 <= i < pm.len() && (#[trigger] pm[i] is Some) ==> rank[(pm[i]->0).0 as int] < rank[i]
}

proof fn lemma_descent_extend(s: SceneRefs, p: Seq<int>, b: int)
    requires
        is_descent(s, p),
        child_link(s, p.last(), b),
    ensures
        is_descent(s, p.push(b)),
        p.push(b)[0] == p[0],
        p.push(b).last() == b,
{
    let q = p.push(b);
    assert forall|i: int| 0 <= i < q.len() - 1 implies #[trigger] child_link(s, q[i], q[i + 1]) by {
        if i < p.len() - 1 {
            assert(q[i] == p[i] && q[i + 1] == p[i + 1]);
        }
    }
}

proof fn lemma_descends_refl(s: SceneRefs, a: int)
    requires
        0 <= a < s.nodes@.len(),
    ensures
        descends(s, a, a),
{
    let p = seq![a];
    assert(is_descent(s, p));
}

proof fn lemma_descends_step(s: SceneRefs, a: int, b: int, c: int)
    requires
        descends(s, a, b),
        child_link(s, b, c),
    ensures
        descends(s, a, c),
{
    let p = choose|p: Seq<int>| #[trigger] is_descent(s, p) && p[0] == a && p.last() == b;
    lemma_descent_extend(s, p, c);
}

/// A set of nodes that holds `a` and every child of each of its members
/// holds the whole subtree of `a`.
proof fn lemma_closed_holds_subtree(s: SceneRefs, mark: Seq<bool>, p: Seq<int>)
    requires
        mark.len() == s.nodes@.len(),
        is_descent(s, p),
        mark[p[0]],
        forall|x: int, y: int| 0 <= x < mark.len() && mark[x] && #[trigger] child_link(s, x, y) ==> mark[y],
    ensures
        mark[p.last()],
    decreases p.len(),
{
    if p.len() > 1 {
        let q = p.drop_last();
        assert(is_descent(s, q)) by {
            assert forall|i: int| 0 <= i < q.len() - 1 implies #[trigger] child_link(s, q[i], q[i + 1]) by {
                assert(child_link(s, p[i], p[i + 1]));
            }
        }
        lemma_closed_holds_subtree(s, mark, q);
        let i = p.len() - 2;
        assert(child_link(s, p[i], p[i + 1]));
        assert(q.last() == p[i]);
    }
}

/// `v` back to front.
fn reversed(v: &Vec<NodeId>) -> (r: Vec<NodeId>)
    ensures
        r@ == v@.reverse(),
{
    let mut r: Vec<NodeId> = Vec::new();
    let mut i: usize = v.len();
    while i > 0
        invariant
            i <= v@.len(),
            r@.len() == v@.len() - i,
            forall|k: int| 0 <= k < r@.len() ==> #[trigger] r@[k] == v@[v@.len() - 1 - k],
        decreases i,
    {
        i = i - 1;
        r.push(v[i]);
    }
    assert(r@ =~= v@.reverse());
    r
}

/// Whether `v` lists `x`.
fn lists_node(v: &Vec<NodeId>, x: NodeId) -> (r: bool)
    ensures
        r == v@.contains(x),
{
    let mut i: usize = 0;
    while i < v.len()
        invariant
            i <= v@.len(),
            forall|k: int| 0 <= k < i ==> v@[k] != x,
        decreases v@.len() - i,
    {
        if v[i].0 == x.0 {
            assert(v@[i as int] == x);
            return true;
        }
        i = i + 1;
    }
    false
}

/// Number of marked nodes.
pub open spec fn marked(seen: Seq<bool>) -> nat {
    count_where(seen.len(), |i: int| seen[i])
}

/// Mark node `x`, which was not marked: the count goes up by one.
proof fn lemma_mark(seen: Seq<bool>, x: int)
    requires
        0 <= x < seen.len(),
        !seen[x],
    ensures
        marked(seen.update(x, true)) == marked(seen) + 1,
        marked(seen.update(x, true)) <= seen.len(),
{
    let t = seen.update(x, true);
    lemma_count_where_set(seen.len(), |i: int| seen[i], |i: int| t[i], x);
    lemma_count_where_le(seen.len(), |i: int| t[i]);
}

/// The parent map that a walk records: each walked node maps to the node
/// it was reached through, except that a root always maps to `None`;
/// unwalked nodes map to `None`.
pub open spec fn walk_parents(s: SceneRefs, w: Seq<WalkEntry>) -> Seq<Option<NodeId>>
    decreases w.len(),
{
    if w.len() == 0 {
        Seq::new(s.nodes@.len(), |i: int| None::<NodeId>)
    } else {
        let e = w.last();
        walk_parents(s, w.drop_last()).update(
            e.0.0 as int,
            if is_root(s, e.0.0 as int) {
                None
            } else {
                e.1
            },
        )
    }
}

/// Entry by entry, the recorded parent of each walked node.
proof fn lemma_walk_parents(s: SceneRefs, w: Seq<WalkEntry>)
    requires
        forall|k: int| 0 <= k < w.len() ==> ((#[trigger] w[k]).0).0 < s.nodes@.len(),
        forall|a: int, b: int| 0 <= a < b < w.len() ==> (#[trigger] w[a]).0 != (#[trigger] w[b]).0,
    ensures
        walk_parents(s, w).len() == s.nodes@.len(),
        forall|k: int|
            0 <= k < w.len() ==> walk_parents(s, w)[(#[trigger] w[k]).0.0 as int] == if is_root(s, w[k].0.0 as int) {
                None
            } else {
                w[k].1
            },
        forall|i: int|
            0 <= i < s.nodes@.len() && !(exists|k: int| 0 <= k < w.len() && (#[trigger] w[k]).0.0 == i)
                ==> #[trigger] walk_parents(s, w)[i] is None,
    decreases w.len(),
{
    if w.len() > 0 {
        let d = w.drop_last();
        lemma_walk_parents(s, d);
        let e = w.last();
        assert forall|k: int| 0 <= k < w.len() implies walk_parents(s, w)[(#[trigger] w[k]).0.0 as int] == if is_root(s, w[k].0.0 as int) {
            None
        } else {
            w[k].1
        } by {
            if k < w.len() - 1 {
                assert(w[k] == d[k]);
                assert(w[k].0 != w[w.len() - 1].0);
                assert(w[k].0.0 != e.0.0);
            }
        }
        assert forall|i: int|
            0 <= i < s.nodes@.len() && !(exists|k: int| 0 <= k < w.len() && (#[trigger] w[k]).0.0 == i)
                implies #[trigger] walk_parents(s, w)[i] is None by {
            assert(w[w.len() - 1].0.0 != i);
            if exists|k: int| 0 <= k < d.len() && (#[trigger] d[k]).0.0 == i {
                let k = choose|k: int| 0 <= k < d.len() && (#[trigger] d[k]).0.0 == i;
                assert(w[k] == d[k]);
            }
        }
    }
}

/// Position of node `i` in the walk `w` (0 when it is not walked).
spec fn walk_pos(w: Seq<WalkEntry>, i: int) -> nat {
    if exists|k: int| 0 <= k < w.len() && (#[trigger] w[k]).0.0 == i {
        (choose|k: int| 0 <= k < w.len() && (#[trigger] w[k]).0.0 == i) as nat
    } else {
        0nat
    }
}

proof fn lemma_walk_pos(w: Seq<WalkEntry>, k: int)
    requires
        forall|a: int, b: int| 0 <= a < b < w.len() ==> (#[trigger] w[a]).0 != (#[trigger] w[b]).0,
        0 <= k < w.len(),
    ensures
        walk_pos(w, w[k].0.0 as int) == k,
{
    let i = w[k].0.0 as int;
    assert(w[k].0.0 == i);
    let jj = choose|j: int| 0 <= j < w.len() && (#[trigger] w[j]).0.0 == i;
    if jj != k {
        if jj < k {
            assert(w[jj].0 != w[k].0);
        } else {
            assert(w[k].0 != w[jj].0);
        }
    }
}

/// A node with a recorded parent was walked through that parent, which
/// was walked earlier.
proof fn lemma_walk_parent_entry(s: SceneRefs, w: Seq<WalkEntry>, i: int)
    requires
        is_world_walk(s, w),
        0 <= i < s.nodes@.len(),
        walk_parents(s, w)[i] is Some,
    ensures
        ({
            let p = walk_parents(s, w)[i]->0;
            &&& child_link(s, p.0 as int, i)
            &&& !is_root(s, i)
            &&& drawn(s, p.0 as int)
            &&& walk_pos(w, p.0 as int) < walk_pos(w, i)
        }),
{
    lemma_walk_parents(s, w);
    let pm = walk_parents(s, w);
    let k = choose|k: int| 0 <= k < w.len() && (#[trigger] w[k]).0.0 == i;
    lemma_walk_pos(w, k);
    assert(pm[w[k].0.0 as int] == pm[i]);
    let p = w[k].1->0;
    assert(w[k].1 == Some(p));
    let j = choose|j: int| 0 <= j < k && #[trigger] w[j].0 == p;
    lemma_walk_pos(w, j);
    assert(w[j].0.0 == p.0);
    assert(NodeId(p.0 as int as u32) == p);
    assert(w[k].0 == NodeId(i as u32));
}

/// The parent map of a world walk is a first-parent map.
proof fn lemma_walk_parent_map(s: SceneRefs, w: Seq<WalkEntry>)
    requires
        is_world_walk(s, w),
        s.nodes@.len() <= u32::MAX,
    ensures
        is_parent_map(s, walk_parents(s, w)),
{
    lemma_walk_parents(s, w);
    let pm = walk_parents(s, w);
    let n = s.nodes@.len();
    let rank = Seq::new(n, |i: int| walk_pos(w, i));
    assert forall|i: int| 0 <= i < pm.len() implies match #[trigger] pm[i] {
        Some(p) => child_link(s, p.0 as int, i) && !is_root(s, i) && drawn(s, p.0 as int),
        None => true,
    } by {
        if pm[i] is Some {
            lemma_walk_parent_entry(s, w, i);
        }
    }
    assert forall|i: int| 0 <= i < pm.len() && (#[trigger] pm[i] is Some) implies rank[(pm[i]->0).0 as int] < rank[i] by {
        lemma_walk_parent_entry(s, w, i);
        assert(child_link(s, (pm[i]->0).0 as int, i));
    }
    assert forall|i: int| 0 <= i < pm.len() && drawn(s, i) && !is_root(s, i) implies #[trigger] pm[i] is Some by {
        let k = choose|k: int| 0 <= k < w.len() && (#[trigger] w[k]).0 == NodeId(i as u32);
        assert(w[k].0.0 == i);
        assert(pm[w[k].0.0 as int] == w[k].1);
        if w[k].1 is None {
            assert(is_root(s, w[k].0.0 as int));
        }
    }
    assert(ranked(pm, rank));
}

impl SceneRefs {
    /// First-parent map over the node forest, indexed by node id: each
    /// node maps to the node it is first reached through in the world walk
    /// ([`first_arrival_walk`]), a root and a node no root reaches to
    /// `None`.
    pub fn parents(&self) -> (r: Vec<Option<NodeId>>)
        requires
            self.nodes@.len() <= u32::MAX,
        ensures
            r@ == walk_parents(*self, first_arrival_walk(*self)),
            is_parent_map(*self, r@),
    {
        let n = self.nodes.len();
        let ghost s = *self;
        let w = self.world_walk();
        let mut root_mask: Vec<bool> = Vec::new();
        let mut parent: Vec<Option<NodeId>> = Vec::new();
        let mut i: usize = 0;
        while i < n
            invariant
                i <= n,
                root_mask@ == Seq::new(i as nat, |k: int| false),
                parent@ == Seq::new(i as nat, |k: int| None::<NodeId>),
            decreases n - i,
        {
            root_mask.push(false);
            parent.push(None);
            i = i + 1;
        }
        let mut q: usize = 0;
        while q < self.roots.len()
            invariant
                n == self.nodes@.len(),
                n <= u32::MAX,
                s == *self,
                q <= self.roots@.len(),
                root_mask@.len() == n,
                forall|x: int|
                    0 <= x < n ==> (#[trigger] root_mask@[x] <==> exists|j: int|
                        0 <= j < q && self.roots@[j] == NodeId(x as u32)),
            decreases self.roots@.len() - q,
        {
            let r = self.roots[q];
            if (r.0 as usize) < n {
                root_mask.set(r.0 as usize, true);
            }
            proof {
                assert forall|x: int|
                    0 <= x < n implies (#[trigger] root_mask@[x] <==> exists|j: int|
                        0 <= j < q + 1 && self.roots@[j] == NodeId(x as u32)) by {
                    if self.roots@[q as int] == NodeId(x as u32) {
                        assert(NodeId(x as u32).0 == x);
                    }
                    if x == r.0 as int {
                        assert(NodeId(x as u32) == r);
                    }
                }
            }
            q = q + 1;
        }
        proof {
            assert forall|x: int| 0 <= x < n implies (#[trigger] root_mask@[x] == is_root(s, x)) by {
                if is_root(s, x) {
                    let j = choose|j: int| 0 <= j < self.roots@.len() && self.roots@[j] == NodeId(x as u32);
                }
            }
            assert(parent@ =~= walk_parents(s, w@.take(0)));
        }
        let mut k: usize = 0;
        while k < w.len()
            invariant
                n == self.nodes@.len(),
                s == *self,
                is_world_walk(s, w@),
                k <= w@.len(),
                root_mask@.len() == n,
                forall|x: int| 0 <= x < n ==> (#[trigger] root_mask@[x] == is_root(s, x)),
                parent@ == walk_parents(s, w@.take(k as int)),
            decreases w@.len() - k,
        {
            let (c, p) = w[k];
            let idx = c.0 as usize;
            proof {
                assert(w@.take(k + 1).drop_last() =~= w@.take(k as int));
                assert(w@.take(k + 1).last() == w@[k as int]);
                lemma_walk_parents(s, w@.take(k as int));
            }
            if root_mask[idx] {
                parent.set(idx, None);
            } else {
                parent.set(idx, p);
            }
            k = k + 1;
        }
        proof {
            assert(w@.take(w@.len() as int) =~= w@);
            lemma_walk_parent_map(s, w@);
        }
        parent
    }
}

/// `c` is the ancestor chain of `node` under the parent map `pm`: from the
/// owning root down to the parent of `node`, empty for a root, an
/// unreached node or an out-of-range id.
pub open spec fn is_chain(pm: Seq<Option<NodeId>>, node: NodeId, c: Seq<NodeId>) -> bool {
    if node.0 >= pm.len() {
        c.len() == 0
    } else {
        &&& (c.len() == 0 <==> pm[node.0 as int] is None)
        &&& c.len() > 0 ==> {
            &&& pm[node.0 as int] == Some(c.last())
            &&& (c[0].0 as int) < pm.len() && pm[c[0].0 as int] is None
            &&& forall|k: int| 0 <= k < c.len() - 1 ==> (#[trigger] c[k + 1].0 as int) < pm.len() && pm[c[k + 1].0 as int] == Some(c[k])
        }
    }
}

/// Along a parent map, each link climbs to a node reached strictly earlier
/// that has `node` in its subtree.
proof fn lemma_chain_climbs(s: SceneRefs, pm: Seq<Option<NodeId>>, rank: Seq<nat>, c: Seq<NodeId>, x: NodeId, k: int)
    requires
        is_parent_map(s, pm),
        rank.len() == pm.len(),
        forall|i: int| 0 <= i < pm.len() && (#[trigger] pm[i] is Some) ==> rank[(pm[i]->0).0 as int] < rank[i],
        (x.0 as int) < pm.len(),
        c.len() > 0,
        pm[x.0 as int] == Some(c.last()),
        forall|q: int| 0 <= q < c.len() - 1 ==> (#[trigger] c[q + 1].0 as int) < pm.len() && pm[c[q + 1].0 as int] == Some(c[q]),
        0 <= k < c.len(),
    ensures
        (c[k].0 as int) < pm.len(),
        rank[c[k].0 as int] < rank[x.0 as int],
        descends(s, c[k].0 as int, x.0 as int),
    decreases c.len() - k,
{
    if k == c.len() - 1 {
        assert(pm[x.0 as int] is Some);
        assert(child_link(s, c[k].0 as int, x.0 as int));
        lemma_descends_refl(s, c[k].0 as int);
        lemma_descends_step(s, c[k].0 as int, c[k].0 as int, x.0 as int);
    } else {
        lemma_chain_climbs(s, pm, rank, c, x, k + 1);
        assert((c[k + 1].0 as int) < pm.len() && pm[c[k + 1].0 as int] == Some(c[k]));
        assert(pm[c[k + 1].0 as int] is Some);
        assert(child_link(s, c[k].0 as int, c[k + 1].0 as int));
        lemma_descends_prepend(s, c[k].0 as int, c[k + 1].0 as int, x.0 as int);
    }
}

proof fn lemma_descends_prepend(s: SceneRefs, a: int, b: int, c: int)
    requires
        child_link(s, a, b),
        descends(s, b, c),
    ensures
        descends(s, a, c),
{
    let p = choose|p: Seq<int>| #[trigger] is_descent(s, p) && p[0] == b && p.last() == c;
    let q = seq![a] + p;
    assert forall|i: int| 0 <= i < q.len() - 1 implies #[trigger] child_link(s, q[i], q[i + 1]) by {
        if i > 0 {
            assert(q[i] == p[i - 1] && q[i + 1] == p[i]);
            assert(child_link(s, p[i - 1], p[i - 1 + 1]));
        }
    }
    assert(is_descent(s, q));
    assert(q.last() == c);
}

impl SceneRefs {
    /// The ancestor chain of `node` under the first-parent map: from the
    /// owning root down to, but excluding, `node`; empty for a root, an
    /// unreached node or an out-of-range id.
    pub fn ancestors(&self, node: NodeId) -> (r: Vec<NodeId>)
        requires
            self.nodes@.len() <= u32::MAX,
        ensures
            is_parent_map(*self, walk_parents(*self, first_arrival_walk(*self))),
            is_chain(walk_parents(*self, first_arrival_walk(*self)), node, r@),
    {
        let parent = self.parents();
        let n = self.nodes.len();
        let mut chain: Vec<NodeId> = Vec::new();
        let mut cur = node.0 as usize;
        if cur >= n {
            return chain;
        }
        let ghost rank = choose|rank: Seq<nat>| #[trigger] ranked(parent@, rank);
        let mut guard: usize = 0;
        // `chain` is built upwards (parent first) and reversed at the end.
        loop
            invariant
                n == self.nodes@.len(),
                n <= u32::MAX,
                is_parent_map(*self, parent@),
                rank.len() == parent@.len(),
                forall|i: int|
                    0 <= i < parent@.len() && (#[trigger] parent@[i] is Some) ==> rank[(parent@[i]->0).0 as int] < rank[i],
                (node.0 as int) < n,
                cur < n,
                guard == chain@.len(),
                chain@.len() == 0 ==> cur == node.0,
                chain@.len() > 0 ==> cur == chain@.last().0 && parent@[node.0 as int] == Some(chain@[0]),
                forall|q: int| 0 <= q < chain@.len() - 1 ==> (#[trigger] chain@[q].0 as int) < n && parent@[chain@[q].0 as int] == Some(chain@[q + 1]),
                forall|q: int| 0 <= q < chain@.len() ==> (#[trigger] chain@[q].0 as int) < n,
                forall|a: int, b: int| 0 <= a < b < chain@.len() ==> rank[chain@[b].0 as int] < rank[chain@[a].0 as int],
                chain@.len() > 0 ==> rank[chain@[0].0 as int] < rank[node.0 as int],
                chain@.len() <= n,
            ensures
                parent@[cur as int] is None,
            decreases rank[cur as int],
        {
            match parent[cur] {
                Some(p) => {
                    proof {
                        assert(parent@[cur as int] is Some);
                        assert(child_link(*self, p.0 as int, cur as int));
                        // The chain's nodes are distinct (ranks strictly fall),
                        // so it never outgrows the node count.
                        let ext = chain@.push(p);
                        assert forall|a: int, b: int| 0 <= a < b < ext.len() implies rank[ext[b].0 as int] < rank[ext[a].0 as int] by {
                            if b == ext.len() - 1 && a < chain@.len() {
                                if chain@.len() > 0 {
                                    assert(cur == chain@.last().0);
                                    assert(rank[p.0 as int] < rank[cur as int]);
                                    if a < chain@.len() - 1 {
                                        assert(rank[chain@[chain@.len() - 1].0 as int] < rank[chain@[a].0 as int]);
                                    }
                                }
                            }
                        }
                        let ids = Seq::new(ext.len(), |q: int| ext[q].0 as usize);
                        assert forall|a: int, b: int| 0 <= a < ids.len() && 0 <= b < ids.len() && a != b implies ids[a] != ids[b] by {
                            if a < b {
                                assert(rank[ext[b].0 as int] < rank[ext[a].0 as int]);
                            } else {
                                assert(rank[ext[a].0 as int] < rank[ext[b].0 as int]);
                            }
                        }
                        assert(ids.no_duplicates());
                        assert forall|q: int| 0 <= q < ids.len() implies (#[trigger] ids[q] as int) < n by {
                            if q < chain@.len() {
                                assert((chain@[q].0 as int) < n);
                            }
                        }
                        crate::optimize::lemma_distinct_below_pub(ids, n as nat);
                    }
                    chain.push(p);
                    cur = p.0 as usize;
                    guard = guard + 1;
                    assert(guard <= n);
                    if guard > n {
                        break;
                    }
                },
                None => {
                    break;
                },
            }
        }
        let ghost up = chain@;
        let chain = reversed(&chain);
        proof {
            assert(chain@ =~= up.reverse());
            let c = chain@;
            if c.len() > 0 {
                assert(c.last() == up[0]);
                assert(c[0] == up[up.len() - 1]);
                assert forall|k: int| 0 <= k < c.len() - 1 implies (#[trigger] c[k + 1].0 as int) < parent@.len()
                    && parent@[c[k + 1].0 as int] == Some(c[k]) by {
                    let q = up.len() - 2 - k;
                    assert(c[k + 1] == up[q]);
                    assert(c[k] == up[q + 1]);
                }
            }
            assert(is_chain(parent@, node, chain@));
        }
        chain
    }

    /// `true` when `ancestor` lies on the ancestor chain of `node`: a
    /// proper ancestor, so never the node itself.
    pub fn is_ancestor_of(&self, ancestor: NodeId, node: NodeId) -> (r: bool)
        requires
            self.nodes@.len() <= u32::MAX,
        ensures
            exists|c: Seq<NodeId>|
                is_chain(walk_parents(*self, first_arrival_walk(*self)), node, c) && r == c.contains(ancestor),
            r ==> ancestor.0 != node.0 && descends(*self, ancestor.0 as int, node.0 as int),
    {
        let chain = self.ancestors(node);
        let r = lists_node(&chain, ancestor);
        proof {
            let pm = walk_parents(*self, first_arrival_walk(*self));
            if r {
                let k = choose|k: int| 0 <= k < chain@.len() && chain@[k] == ancestor;
                let rank = choose|rank: Seq<nat>| #[trigger] ranked(pm, rank);
                lemma_chain_climbs(*self, pm, rank, chain@, node, k);
            }
        }
        r
    }
}

/// Entry `k` of `d` is a child of an earlier entry.
pub open spec fn parent_listed_before(s: SceneRefs, d: Seq<NodeId>, k: int) -> bool {
    exists|j: int| 0 <= j < k && #[trigger] child_link(s, d[j].0 as int, d[k].0 as int)
}

/// `x` is a child of an entry of `d`.
spec fn listed_parent_of(s: SceneRefs, d: Seq<NodeId>, x: NodeId) -> bool {
    exists|j: int| 0 <= j < d.len() && #[trigger] child_link(s, d[j].0 as int, x.0 as int)
}

/// `d` lists the subtree of `node`: the node first, then each member
/// after a parent already listed, no node twice, and exactly the nodes
/// under `node`; empty for an out-of-range id.
pub open spec fn is_subtree_listing(s: SceneRefs, node: NodeId, d: Seq<NodeId>) -> bool {
    if node.0 >= s.nodes@.len() {
        d.len() == 0
    } else {
        &&& d.len() > 0 && d[0] == node
        &&& d.no_duplicates()
        &&& forall|k: int| 0 <= k < d.len() ==> (#[trigger] d[k].0 as int) < s.nodes@.len()
        &&& forall|k: int| 0 < k < d.len() ==> #[trigger] parent_listed_before(s, d, k)
        &&& forall|y: int| 0 <= y < s.nodes@.len() ==> (d.contains(NodeId(y as u32)) <==> descends(s, node.0 as int, y))
    }
}

impl SceneRefs {
    /// Every node in the subtree of `node`, `node` included and first, in
    /// depth-first first-arrival order; each node once, cycles stopping at
    /// the first revisit. Empty when `node` is out of range.
    pub fn descendants(&self, node: NodeId) -> (r: Vec<NodeId>)
        requires
            self.nodes@.len() <= u32::MAX,
        ensures
            is_subtree_listing(*self, node, r@),
    {
        let n = self.nodes.len();
        let ghost s = *self;
        let mut out: Vec<NodeId> = Vec::new();
        if (node.0 as usize) >= n {
            return out;
        }
        let mut seen: Vec<bool> = Vec::new();
        let mut i: usize = 0;
        while i < n
            invariant
                i <= n,
                seen@ == Seq::new(i as nat, |k: int| false),
            decreases n - i,
        {
            seen.push(false);
            i = i + 1;
        }
        proof {
            lemma_count_where_le(n as nat, |q: int| seen@[q]);
            lemma_descends_refl(s, node.0 as int);
        }
        let mut stack: Vec<NodeId> = Vec::new();
        stack.push(node);
        while stack.len() > 0
            invariant
                n == self.nodes@.len(),
                n <= u32::MAX,
                s == *self,
                (node.0 as int) < n,
                seen@.len() == n,
                marked(seen@) <= n,
                forall|y: int| 0 <= y < n ==> (#[trigger] seen@[y] <==> out@.contains(NodeId(y as u32))),
                out@.no_duplicates(),
                forall|k: int| 0 <= k < out@.len() ==> (#[trigger] out@[k].0 as int) < n,
                out@.len() > 0 ==> out@[0] == node,
                out@.len() == 0 ==> stack@ == seq![node],
                forall|k: int| 0 < k < out@.len() ==> #[trigger] parent_listed_before(s, out@, k),
                forall|k: int| 0 <= k < out@.len() ==> descends(s, node.0 as int, #[trigger] out@[k].0 as int),
                forall|q: int| 0 <= q < stack@.len() && out@.len() > 0 ==> listed_parent_of(s, out@, #[trigger] stack@[q]),
                forall|x: int, y: int|
                    0 <= x < n && seen@[x] && #[trigger] child_link(s, x, y) ==> seen@[y] || stack@.contains(NodeId(y as u32)),
            decreases n - marked(seen@), stack@.len(),
        {
            let ghost before_pop = stack@;
            let nid = stack.pop().unwrap();
            proof {
                assert(before_pop =~= stack@.push(nid));
            }
            let idx = nid.0 as usize;
            if idx >= n || seen[idx] {
                proof {
                    assert forall|x: int, y: int|
                        0 <= x < n && seen@[x] && #[trigger] child_link(s, x, y) implies seen@[y] || stack@.contains(NodeId(y as u32)) by {
                        if !seen@[y] {
                            assert(before_pop.contains(NodeId(y as u32)));
                            let q = choose|q: int| 0 <= q < before_pop.len() && before_pop[q] == NodeId(y as u32);
                            if q < stack@.len() {
                                assert(stack@[q] == NodeId(y as u32));
                            } else {
                                assert(nid == NodeId(y as u32));
                                assert(y < n);
                                assert(NodeId(y as u32).0 == y);
                            }
                        }
                    }
                    if out@.len() == 0 {
                        assert(before_pop == seq![node]);
                        assert(nid == node);
                        assert(!seen@[node.0 as int]) by {
                            if seen@[node.0 as int] {
                                assert(out@.contains(NodeId(node.0 as int as u32)));
                            }
                        }
                    }
                    assert forall|q: int| 0 <= q < stack@.len() && out@.len() > 0 implies listed_parent_of(s, out@, #[trigger] stack@[q]) by {
                        assert(stack@[q] == before_pop[q]);
                    }
                }
                continue;
            }
            proof {
                // The popped node descends from `node` through a listed parent.
                if out@.len() > 0 {
                    assert(listed_parent_of(s, out@, before_pop[before_pop.len() - 1]));
                    let j = choose|j: int| 0 <= j < out@.len() && #[trigger] child_link(s, out@[j].0 as int, before_pop[before_pop.len() - 1].0 as int);
                    assert(descends(s, node.0 as int, out@[j].0 as int));
                    lemma_descends_step(s, node.0 as int, out@[j].0 as int, idx as int);
                } else {
                    assert(before_pop == seq![node]);
                    assert(nid == node);
                    lemma_descends_refl(s, node.0 as int);
                }
                assert(descends(s, node.0 as int, idx as int));
                lemma_mark(seen@, idx as int);
            }
            let ghost old_seen = seen@;
            let ghost old_out = out@;
            seen.set(idx, true);
            out.push(nid);
            proof {
                assert(NodeId(idx as int as u32) == nid);
                assert forall|y: int| 0 <= y < n implies (#[trigger] seen@[y] <==> out@.contains(NodeId(y as u32))) by {
                    if y == idx as int {
                        assert(out@[out@.len() - 1] == NodeId(y as u32));
                    } else {
                        if old_out.contains(NodeId(y as u32)) {
                            let k = choose|k: int| 0 <= k < old_out.len() && old_out[k] == NodeId(y as u32);
                            assert(out@[k] == NodeId(y as u32));
                        }
                        if out@.contains(NodeId(y as u32)) {
                            let k = choose|k: int| 0 <= k < out@.len() && out@[k] == NodeId(y as u32);
                            if k == out@.len() - 1 {
                                assert(nid == NodeId(y as u32));
                                assert(NodeId(y as u32).0 == y);
                            } else {
                                assert(old_out[k] == NodeId(y as u32));
                            }
                        }
                    }
                }
                assert(out@.no_duplicates()) by {
                    assert forall|a: int, b: int| 0 <= a < b < out@.len() implies out@[a] != out@[b] by {
                        if b == out@.len() - 1 {
                            if out@[a] == nid {
                                assert(old_out.contains(NodeId(idx as int as u32)));
                            }
                        } else {
                            assert(old_out[a] != old_out[b]);
                        }
                    }
                }
                assert forall|k: int| 0 < k < out@.len() implies #[trigger] parent_listed_before(s, out@, k) by {
                    if k == out@.len() - 1 {
                        assert(listed_parent_of(s, old_out, before_pop[before_pop.len() - 1]));
                        let j = choose|j: int| 0 <= j < old_out.len() && #[trigger] child_link(s, old_out[j].0 as int, before_pop[before_pop.len() - 1].0 as int);
                        assert(out@[j] == old_out[j]);
                        assert(child_link(s, out@[j].0 as int, out@[k].0 as int));
                    } else {
                        assert(parent_listed_before(s, old_out, k));
                        let j = choose|j: int| 0 <= j < k && #[trigger] child_link(s, old_out[j].0 as int, old_out[k].0 as int);
                        assert(out@[j] == old_out[j]);
                        assert(out@[k] == old_out[k]);
                        assert(child_link(s, out@[j].0 as int, out@[k].0 as int));
                    }
                }
                assert forall|k: int| 0 <= k < out@.len() implies descends(s, node.0 as int, #[trigger] out@[k].0 as int) by {
                    if k < old_out.len() {
                        assert(out@[k] == old_out[k]);
                    } else {
                        assert(out@[k] == nid);
                    }
                }
            }
            let children = &self.nodes[idx].children;
            let ghost mid_stack = stack@;
            let mut j: usize = children.len();
            while j > 0
                invariant
                    n == self.nodes@.len(),
                    s == *self,
                    idx < n,
                    *children == self.nodes@[idx as int].children,
                    j <= children@.len(),
                    seen@.len() == n,
                    seen@[idx as int],
                    out@.len() > 0,
                    out@[out@.len() - 1] == nid,
                    nid.0 == idx,
                    forall|q: int| 0 <= q < mid_stack.len() ==> #[trigger] stack@[q] == mid_stack[q],
                    stack@.len() >= mid_stack.len(),
                    forall|q: int|
                        mid_stack.len() <= q < stack@.len() ==> #[trigger] child_link(s, idx as int, stack@[q].0 as int),
                    forall|q: int|
                        j <= q < children@.len() && (#[trigger] children@[q]).0 < n ==> seen@[children@[q].0 as int]
                            || stack@.contains(children@[q]),
                decreases j,
            {
                j = j - 1;
                let child = children[j];
                if (child.0 as usize) < n && !seen[child.0 as usize] {
                    let ghost st = stack@;
                    stack.push(child);
                    proof {
                        assert(children@.contains(child));
                        assert(NodeId(child.0 as int as u32) == child);
                        assert forall|q: int|
                            j <= q < children@.len() && (#[trigger] children@[q]).0 < n implies seen@[children@[q].0 as int]
                                || stack@.contains(children@[q]) by {
                            if q == j as int {
                                assert(stack@[stack@.len() - 1] == child);
                            } else if st.contains(children@[q]) {
                                let w = choose|w: int| 0 <= w < st.len() && st[w] == children@[q];
                                assert(stack@[w] == children@[q]);
                            }
                        }
                    }
                }
            }
            proof {
                assert forall|q: int| 0 <= q < stack@.len() && out@.len() > 0 implies listed_parent_of(s, out@, #[trigger] stack@[q]) by {
                    if q < mid_stack.len() {
                        assert(stack@[q] == before_pop[q]);
                        if old_out.len() > 0 {
                            assert(listed_parent_of(s, old_out, before_pop[q]));
                            let w = choose|w: int| 0 <= w < old_out.len() && #[trigger] child_link(s, old_out[w].0 as int, before_pop[q].0 as int);
                            assert(out@[w] == old_out[w]);
                            assert(child_link(s, out@[w].0 as int, stack@[q].0 as int));
                        } else {
                            assert(before_pop.len() == 1);
                        }
                    } else {
                        let w = out@.len() - 1;
                        assert(child_link(s, out@[w].0 as int, stack@[q].0 as int));
                    }
                }
                assert forall|x: int, y: int|
                    0 <= x < n && seen@[x] && #[trigger] child_link(s, x, y) implies seen@[y] || stack@.contains(NodeId(y as u32)) by {
                    if x == idx as int {
                        let q = choose|q: int| 0 <= q < children@.len() && children@[q] == NodeId(y as u32);
                        assert(children@[q].0 < n);
                    } else {
                        assert(old_seen[x]);
                        if !seen@[y] {
                            assert(before_pop.contains(NodeId(y as u32)));
                            let q = choose|q: int| 0 <= q < before_pop.len() && before_pop[q] == NodeId(y as u32);
                            if q < mid_stack.len() {
                                assert(stack@[q] == NodeId(y as u32));
                            } else {
                                assert(nid == NodeId(y as u32));
                                assert(NodeId(y as u32).0 == y);
                            }
                        }
                    }
                }
            }
        }
        proof {
            assert forall|y: int| 0 <= y < n implies (out@.contains(NodeId(y as u32)) <==> descends(s, node.0 as int, y)) by {
                if out@.contains(NodeId(y as u32)) {
                    let k = choose|k: int| 0 <= k < out@.len() && out@[k] == NodeId(y as u32);
                    assert(descends(s, node.0 as int, out@[k].0 as int));
                    assert(NodeId(y as u32).0 == y);
                }
                if descends(s, node.0 as int, y) {
                    let p = choose|p: Seq<int>| #[trigger] is_descent(s, p) && p[0] == node.0 as int && p.last() == y;
                    assert(out@[0] == node);
                    assert(seen@[node.0 as int]) by {
                        assert(out@.contains(NodeId(node.0 as int as u32)));
                    }
                    lemma_closed_holds_subtree(s, seen@, p);
                }
            }
        }
        out
    }
}

/// `w` is a depth-first world walk of the scene: each entry a node and
/// the already-walked node it was reached through (`None` when reached
/// from the roots list), every drawn node exactly once and nothing else.
/// World transforms compose along it: a node's world matrix is its
/// parent entry's world matrix times its own local one.
pub open spec fn is_world_walk(s: SceneRefs, w: Seq<(NodeId, Option<NodeId>)>) -> bool {
    &&& forall|k: int| 0 <= k < w.len() ==> ((#[trigger] w[k]).0).0 < s.nodes@.len()
    &&& forall|a: int, b: int| 0 <= a < b < w.len() ==> (#[trigger] w[a]).0 != (#[trigger] w[b]).0
    &&& forall|k: int|
        0 <= k < w.len() ==> match (#[trigger] w[k]).1 {
            None => is_root(s, w[k].0.0 as int),
            Some(p) => child_link(s, p.0 as int, w[k].0.0 as int) && exists|j: int| 0 <= j < k && #[trigger] w[j].0 == p,
        }
    &&& forall|i: int|
        0 <= i < s.nodes@.len() ==> (drawn(s, i) <==> exists|k: int| 0 <= k < w.len() && (#[trigger] w[k]).0 == NodeId(i as u32))
}

/// A walk entry: a node and the node it was reached through (`None` for an
/// entry taken from the roots list).
pub type WalkEntry = (NodeId, Option<NodeId>);

/// State of the first-arrival depth-first walk: the stack of entries still
/// to pop, which nodes are walked, and the walked entries in order.
pub type WalkState = (Seq<WalkEntry>, Seq<bool>, Seq<WalkEntry>);

/// The walk before its first step: every root on the stack so that the
/// first-listed root pops first, nothing walked.
pub open spec fn walk_start(s: SceneRefs) -> WalkState {
    (
        Seq::new(s.roots@.len(), |q: int| (s.roots@[s.roots@.len() - 1 - q], None::<NodeId>)),
        Seq::new(s.nodes@.len(), |i: int| false),
        Seq::empty(),
    )
}

/// The children of `c`, as stack entries pushed so that the first-listed
/// child pops first.
pub open spec fn pushed_children(ch: Seq<NodeId>, c: NodeId) -> Seq<WalkEntry> {
    Seq::new(ch.len(), |i: int| (ch[ch.len() - 1 - i], Some(c)))
}

/// One step of the walk: pop the top entry; an in-range node not yet
/// walked is walked through that entry and all its children are pushed;
/// anything else is dropped. An empty stack stays as it is.
pub open spec fn walk_step(s: SceneRefs, st: WalkState) -> WalkState {
    if st.0.len() == 0 {
        st
    } else {
        let top = st.0.last();
        let rest = st.0.drop_last();
        let i = top.0.0 as int;
        if i < s.nodes@.len() && !st.1[i] {
            (rest + pushed_children(s.nodes@[i].children@, top.0), st.1.update(i, true), st.2.push(top))
        } else {
            (rest, st.1, st.2)
        }
    }
}

/// The walk after `k` steps.
pub open spec fn walk_after(s: SceneRefs, k: nat) -> WalkState
    decreases k,
{
    if k == 0 {
        walk_start(s)
    } else {
        walk_step(s, walk_after(s, (k - 1) as nat))
    }
}

/// The entries of the first-arrival walk once its stack has run empty:
/// roots in order, children in source order, each node walked through the
/// first entry that reaches it.
pub open spec fn first_arrival_walk(s: SceneRefs) -> Seq<WalkEntry> {
    walk_after(s, choose|k: nat| #[trigger] walk_after(s, k).0.len() == 0).2
}

/// Once the stack is empty the walk stands still.
proof fn lemma_walk_settled(s: SceneRefs, k: nat, m: nat)
    requires
        walk_after(s, k).0.len() == 0,
    ensures
        walk_after(s, k + m) == walk_after(s, k),
    decreases m,
{
    if m > 0 {
        lemma_walk_settled(s, k, (m - 1) as nat);
        assert(walk_after(s, k + m) == walk_step(s, walk_after(s, (k + m - 1) as nat)));
    }
}

/// Node `i` has a pending entry on the walk stack.
spec fn pending(stack: Seq<(NodeId, Option<NodeId>)>, i: int) -> bool {
    exists|q: int| 0 <= q < stack.len() && (#[trigger] stack[q]).0 == NodeId(i as u32)
}

/// State of the world walk: what is walked, where, and through what; what
/// is pending on the stack.
spec fn world_walk_ok(
    s: SceneRefs,
    visited: Seq<bool>,
    out: Seq<(NodeId, Option<NodeId>)>,
    pos: Seq<int>,
    stack: Seq<(NodeId, Option<NodeId>)>,
) -> bool {
    let n = s.nodes@.len();
    &&& visited.len() == n
    &&& pos.len() == n
    &&& forall|i: int|
        0 <= i < n && #[trigger] visited[i] ==> 0 <= pos[i] < out.len() && out[pos[i]].0 == NodeId(i as u32) && drawn(s, i)
    &&& forall|k: int|
        0 <= k < out.len() ==> ((#[trigger] out[k]).0).0 < n && visited[out[k].0.0 as int] && pos[out[k].0.0 as int] == k
    &&& forall|k: int|
        0 <= k < out.len() ==> match (#[trigger] out[k]).1 {
            None => is_root(s, out[k].0.0 as int),
            Some(p) => child_link(s, p.0 as int, out[k].0.0 as int) && p.0 < n && visited[p.0 as int] && pos[p.0 as int] < k,
        }
    &&& forall|q: int|
        0 <= q < stack.len() ==> match (#[trigger] stack[q]).1 {
            None => stack[q].0.0 < n ==> is_root(s, stack[q].0.0 as int),
            Some(p) => p.0 < n && visited[p.0 as int] && (stack[q].0.0 < n ==> child_link(
                s,
                p.0 as int,
                stack[q].0.0 as int,
            )),
        }
    &&& forall|i: int| 0 <= i < n && is_root(s, i) ==> #[trigger] visited[i] || pending(stack, i)
}

/// Every walked node has each child walked or pending, except `except`.
spec fn world_walk_closed(s: SceneRefs, visited: Seq<bool>, stack: Seq<(NodeId, Option<NodeId>)>, except: int) -> bool {
    forall|x: int, y: int|
        0 <= x < visited.len() && visited[x] && x != except && #[trigger] child_link(s, x, y) ==> visited[y] || pending(
            stack,
            y,
        )
}

impl SceneRefs {
    /// The depth-first walk that world transforms are composed along:
    /// roots in order, children in source order, each node walked once
    /// through the first entry that reaches it (a root listed after one of
    /// its ancestors is walked as that ancestor's descendant), out-of-range
    /// ids and repeat visits skipped.
    pub fn world_walk(&self) -> (w: Vec<(NodeId, Option<NodeId>)>)
        requires
            self.nodes@.len() <= u32::MAX,
        ensures
            is_world_walk(*self, w@),
            w@ == first_arrival_walk(*self),
    {
        let n = self.nodes.len();
        let ghost s = *self;
        let mut visited: Vec<bool> = Vec::new();
        let mut i: usize = 0;
        while i < n
            invariant
                i <= n,
                visited@ == Seq::new(i as nat, |k: int| false),
            decreases n - i,
        {
            visited.push(false);
            i = i + 1;
        }
        let ghost mut pos: Seq<int> = Seq::new(n as nat, |k: int| 0int);
        let mut out: Vec<(NodeId, Option<NodeId>)> = Vec::new();
        let mut stack: Vec<(NodeId, Option<NodeId>)> = Vec::new();
        let mut k: usize = self.roots.len();
        while k > 0
            invariant
                k <= self.roots@.len(),
                n == self.nodes@.len(),
                s == *self,
                stack@.len() == self.roots@.len() - k,
                forall|q: int| 0 <= q < stack@.len() ==> #[trigger] stack@[q] == (self.roots@[self.roots@.len() - 1 - q], None::<NodeId>),
            decreases k,
        {
            k = k - 1;
            stack.push((self.roots[k], None));
        }
        proof {
            lemma_count_where_le(n as nat, |q: int| visited@[q]);
            assert forall|q: int| 0 <= q < stack@.len() implies match (#[trigger] stack@[q]).1 {
                None => stack@[q].0.0 < n ==> is_root(s, stack@[q].0.0 as int),
                Some(p) => p.0 < n && visited@[p.0 as int] && (stack@[q].0.0 < n ==> child_link(
                    s,
                    p.0 as int,
                    stack@[q].0.0 as int,
                )),
            } by {
                let r = self.roots@[self.roots@.len() - 1 - q];
                assert(stack@[q] == (r, None::<NodeId>));
                if r.0 < n {
                    assert(NodeId(r.0 as int as u32) == r);
                    assert(self.roots@.contains(r));
                }
            }
            assert forall|i: int| 0 <= i < n && is_root(s, i) implies #[trigger] visited@[i] || pending(stack@, i) by {
                let j = choose|j: int| 0 <= j < self.roots@.len() && self.roots@[j] == NodeId(i as u32);
                assert(stack@[self.roots@.len() - 1 - j].0 == NodeId(i as u32));
            }
        }
        let ghost mut steps: nat = 0;
        proof {
            assert(stack@ =~= walk_start(s).0);
            assert(visited@ =~= walk_start(s).1);
            assert(out@ =~= walk_start(s).2);
        }
        while stack.len() > 0
            invariant
                n == self.nodes@.len(),
                n <= u32::MAX,
                s == *self,
                (stack@, visited@, out@) == walk_after(s, steps),
                world_walk_ok(s, visited@, out@, pos, stack@),
                world_walk_closed(s, visited@, stack@, -1),
                marked(visited@) <= n,
            decreases n - marked(visited@), stack@.len(),
        {
            let ghost before_pop = stack@;
            let (c, p) = stack.pop().unwrap();
            let ghost popped = stack@;
            proof {
                assert(before_pop =~= popped.push((c, p)));
            }
            let idx = c.0 as usize;
            if idx < n && !visited[idx] {
                let ghost old_visited = visited@;
                let ghost old_out = out@;
                proof {
                    assert(before_pop[popped.len() as int] == (c, p));
                    lemma_mark(visited@, idx as int);
                    assert(NodeId(idx as int as u32) == c);
                    // The node is drawn: a root, or a child of a walked node.
                    match p {
                        None => {
                            assert(is_root(s, idx as int));
                            lemma_descends_refl(s, idx as int);
                        },
                        Some(pp) => {
                            assert(visited@[pp.0 as int]);
                            assert(drawn(s, pp.0 as int));
                            let r = choose|r: int| is_root(s, r) && #[trigger] descends(s, r, pp.0 as int);
                            lemma_descends_step(s, r, pp.0 as int, idx as int);
                        },
                    }
                }
                visited.set(idx, true);
                out.push((c, p));
                proof {
                    pos = pos.update(idx as int, old_out.len() as int);
                    assert forall|i: int|
                        0 <= i < n && #[trigger] visited@[i] implies 0 <= pos[i] < out@.len() && out@[pos[i]].0 == NodeId(i as u32) && drawn(s, i) by {
                        if i != idx as int {
                            assert(old_visited[i]);
                            assert(out@[pos[i]] == old_out[pos[i]]);
                        }
                    }
                    assert forall|k: int|
                        0 <= k < out@.len() implies ((#[trigger] out@[k]).0).0 < n && visited@[out@[k].0.0 as int] && pos[out@[k].0.0 as int] == k by {
                        if k < old_out.len() {
                            assert(out@[k] == old_out[k]);
                            assert(old_out[k].0.0 as int != idx as int);
                        }
                    }
                    assert forall|k: int|
                        0 <= k < out@.len() implies match (#[trigger] out@[k]).1 {
                            None => is_root(s, out@[k].0.0 as int),
                            Some(pp) => child_link(s, pp.0 as int, out@[k].0.0 as int) && pp.0 < n && visited@[pp.0 as int] && pos[pp.0 as int] < k,
                        } by {
                        if k < old_out.len() {
                            assert(out@[k] == old_out[k]);
                            if let Some(pp) = old_out[k].1 {
                                assert(pp.0 as int != idx as int);
                            }
                        } else {
                            if let Some(pp) = p {
                                assert(pp.0 as int != idx as int);
                            }
                        }
                    }
                    assert forall|q: int| 0 <= q < stack@.len() implies match (#[trigger] stack@[q]).1 {
                        None => stack@[q].0.0 < n ==> is_root(s, stack@[q].0.0 as int),
                        Some(pp) => pp.0 < n && visited@[pp.0 as int] && (stack@[q].0.0 < n ==> child_link(
                            s,
                            pp.0 as int,
                            stack@[q].0.0 as int,
                        )),
                    } by {
                        assert(stack@[q] == before_pop[q]);
                    }
                    assert forall|i: int| 0 <= i < n && is_root(s, i) implies #[trigger] visited@[i] || pending(stack@, i) by {
                        if !old_visited[i] {
                            let q = choose|q: int| 0 <= q < before_pop.len() && (#[trigger] before_pop[q]).0 == NodeId(i as u32);
                            if q < popped.len() {
                                assert(stack@[q] == before_pop[q]);
                            } else {
                                assert(NodeId(i as u32).0 == i);
                            }
                        }
                    }
                    assert forall|x: int, y: int|
                        0 <= x < visited@.len() && visited@[x] && x != idx as int && #[trigger] child_link(s, x, y) implies visited@[y]
                        || pending(stack@, y) by {
                        assert(old_visited[x]);
                        if !old_visited[y] {
                            let q = choose|q: int| 0 <= q < before_pop.len() && (#[trigger] before_pop[q]).0 == NodeId(y as u32);
                            if q < popped.len() {
                                assert(stack@[q] == before_pop[q]);
                            } else {
                                assert(NodeId(y as u32).0 == y);
                            }
                        }
                    }
                }
                let node = &self.nodes[idx];
                let ghost base = stack@;
                let mut j: usize = node.children.len();
                while j > 0
                    invariant
                        n == self.nodes@.len(),
                        n <= u32::MAX,
                        s == *self,
                        idx < n,
                        c == NodeId(idx as u32),
                        *node == self.nodes@[idx as int],
                        j <= node.children@.len(),
                        visited@[idx as int],
                        world_walk_ok(s, visited@, out@, pos, stack@),
                        world_walk_closed(s, visited@, stack@, idx as int),
                        marked(visited@) <= n,
                        stack@.len() >= base.len(),
                        forall|q: int| 0 <= q < base.len() ==> #[trigger] stack@[q] == base[q],
                        forall|q: int| j <= q < node.children@.len() ==> pending(stack@, (#[trigger] node.children@[q]).0 as int),
                        stack@ == base + Seq::new((node.children@.len() - j) as nat, |i: int| (node.children@[node.children@.len() - 1 - i], Some(c))),
                    decreases j,
                {
                    j = j - 1;
                    let child = node.children[j];
                    let ghost old_stack = stack@;
                    stack.push((child, Some(c)));
                    proof {
                        assert(stack@[stack@.len() - 1] == (child, Some(c)));
                        assert(NodeId(child.0 as int as u32) == child);
                        assert forall|q: int| 0 <= q < stack@.len() implies match (#[trigger] stack@[q]).1 {
                            None => stack@[q].0.0 < n ==> is_root(s, stack@[q].0.0 as int),
                            Some(pp) => pp.0 < n && visited@[pp.0 as int] && (stack@[q].0.0 < n ==> child_link(
                                s,
                                pp.0 as int,
                                stack@[q].0.0 as int,
                            )),
                        } by {
                            if q < old_stack.len() {
                                assert(stack@[q] == old_stack[q]);
                            } else {
                                assert(node.children@.contains(child));
                            }
                        }
                        assert forall|i: int| pending(old_stack, i) implies pending(stack@, i) by {
                            let q = choose|q: int| 0 <= q < old_stack.len() && (#[trigger] old_stack[q]).0 == NodeId(i as u32);
                            assert(stack@[q] == old_stack[q]);
                        }
                        assert forall|q: int| j <= q < node.children@.len() implies pending(stack@, (#[trigger] node.children@[q]).0 as int) by {
                            if q > j {
                                assert(pending(old_stack, node.children@[q].0 as int));
                            } else {
                                assert(stack@[stack@.len() - 1].0 == NodeId(child.0 as int as u32));
                            }
                        }
                        assert forall|i: int| 0 <= i < n && is_root(s, i) implies #[trigger] visited@[i] || pending(stack@, i) by {
                            if !visited@[i] {
                                assert(pending(old_stack, i));
                            }
                        }
                        assert forall|x: int, y: int|
                            0 <= x < visited@.len() && visited@[x] && x != idx as int && #[trigger] child_link(s, x, y) implies visited@[y]
                            || pending(stack@, y) by {
                            if !visited@[y] {
                                assert(pending(old_stack, y));
                            }
                        }
                        assert forall|q: int| 0 <= q < base.len() implies #[trigger] stack@[q] == base[q] by {
                            assert(stack@[q] == old_stack[q]);
                        }
                    }
                }
                proof {
                    assert(stack@ =~= popped + pushed_children(node.children@, c));
                    assert(visited@ =~= old_visited.update(idx as int, true));
                    assert(walk_after(s, steps + 1) == walk_step(s, walk_after(s, steps)));
                    steps = steps + 1;
                    assert forall|x: int, y: int|
                        0 <= x < visited@.len() && visited@[x] && x != -1 && #[trigger] child_link(s, x, y) implies visited@[y]
                        || pending(stack@, y) by {
                        if x == idx as int {
                            let q = choose|q: int| 0 <= q < node.children@.len() && node.children@[q] == NodeId(y as u32);
                            assert(pending(stack@, node.children@[q].0 as int));
                            assert(node.children@[q].0 as int == y);
                        }
                    }
                }
            } else {
                proof {
                    assert(walk_after(s, steps + 1) == walk_step(s, walk_after(s, steps)));
                    steps = steps + 1;
                    assert forall|q: int| 0 <= q < stack@.len() implies match (#[trigger] stack@[q]).1 {
                        None => stack@[q].0.0 < n ==> is_root(s, stack@[q].0.0 as int),
                        Some(pp) => pp.0 < n && visited@[pp.0 as int] && (stack@[q].0.0 < n ==> child_link(
                            s,
                            pp.0 as int,
                            stack@[q].0.0 as int,
                        )),
                    } by {
                        assert(stack@[q] == before_pop[q]);
                    }
                    assert forall|i: int| 0 <= i < n && is_root(s, i) implies #[trigger] visited@[i] || pending(stack@, i) by {
                        if !visited@[i] {
                            let q = choose|q: int| 0 <= q < before_pop.len() && (#[trigger] before_pop[q]).0 == NodeId(i as u32);
                            if q < popped.len() {
                                assert(stack@[q] == before_pop[q]);
                            } else {
                                assert(NodeId(i as u32).0 == i);
                                assert(NodeId(idx as int as u32) == c);
                            }
                        }
                    }
                    assert forall|x: int, y: int|
                        0 <= x < visited@.len() && visited@[x] && x != -1 && #[trigger] child_link(s, x, y) implies visited@[y]
                        || pending(stack@, y) by {
                        if !visited@[y] {
                            let q = choose|q: int| 0 <= q < before_pop.len() && (#[trigger] before_pop[q]).0 == NodeId(y as u32);
                            if q < popped.len() {
                                assert(stack@[q] == before_pop[q]);
                            } else {
                                assert(NodeId(y as u32).0 == y);
                                assert(NodeId(idx as int as u32) == c);
                            }
                        }
                    }
                }
            }
        }
        proof {
            let w = out@;
            assert(walk_after(s, steps).0.len() == 0);
            let k2 = choose|k: nat| #[trigger] walk_after(s, k).0.len() == 0;
            if k2 <= steps {
                lemma_walk_settled(s, k2, (steps - k2) as nat);
            } else {
                lemma_walk_settled(s, steps, (k2 - steps) as nat);
            }
            assert(w == first_arrival_walk(s));
            assert forall|a: int, b: int| 0 <= a < b < w.len() implies (#[trigger] w[a]).0 != (#[trigger] w[b]).0 by {
                if w[a].0 == w[b].0 {
                    assert(pos[w[a].0.0 as int] == a);
                }
            }
            assert forall|k: int| 0 <= k < w.len() implies match (#[trigger] w[k]).1 {
                None => is_root(s, w[k].0.0 as int),
                Some(p) => child_link(s, p.0 as int, w[k].0.0 as int) && exists|j: int| 0 <= j < k && #[trigger] w[j].0 == p,
            } by {
                if let Some(p) = w[k].1 {
                    let j = pos[p.0 as int];
                    assert(w[j].0 == NodeId(p.0 as int as u32));
                    assert(NodeId(p.0 as int as u32) == p);
                }
            }
            assert forall|i: int|
                0 <= i < n implies (drawn(s, i) <==> exists|k: int| 0 <= k < w.len() && (#[trigger] w[k]).0 == NodeId(i as u32)) by {
                if drawn(s, i) {
                    let r = choose|r: int| is_root(s, r) && #[trigger] descends(s, r, i);
                    let p = choose|p: Seq<int>| #[trigger] is_descent(s, p) && p[0] == r && p.last() == i;
                    assert(visited@[r]) by {
                        if !visited@[r] {
                            assert(pending(stack@, r));
                        }
                    }
                    assert forall|x: int, y: int| 0 <= x < visited@.len() && visited@[x] && #[trigger] child_link(s, x, y) implies visited@[y] by {
                        if !visited@[y] {
                            assert(pending(stack@, y));
                        }
                    }
                    lemma_closed_holds_subtree(s, visited@, p);
                    assert(w[pos[i]].0 == NodeId(i as u32));
                }
                if exists|k: int| 0 <= k < w.len() && (#[trigger] w[k]).0 == NodeId(i as u32) {
                    let k = choose|k: int| 0 <= k < w.len() && (#[trigger] w[k]).0 == NodeId(i as u32);
                    assert(NodeId(i as u32).0 == i);
                    assert(visited@[w[k].0.0 as int]);
                }
            }
        }
        out
    }
}

} // verus!
