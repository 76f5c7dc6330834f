//! Combinatorial topology of a primitive's triangle tessellation:
//! undirected-edge bucketing, manifold classification, boundary edges,
//! the face-dual adjacency graph and winding-consistency repair.
//!
//! Every analysis works on the de-stripped triangle list of a
//! [`Connectivity`] and compares vertices by **index**. A triangle with a
//! corner outside the vertex pool, or with two equal corners (a
//! zero-length edge), is excluded whole.
use std::collections::HashMap;
use vstd::prelude::*;
use crate::mesh::{Connectivity, assemble};
use crate::sort::sort_u64;

verus! {

broadcast use vstd::std_specs::hash::group_hash_axioms;

/// A triangle takes part in the edge analyses when its three corners are
/// inside a pool of `n` vertices and pairwise distinct.
pub open spec fn face_ok(t: [u32; 3], n: usize) -> bool {
    &&& t[0] < n
    &&& t[1] < n
    &&& t[2] < n
    &&& t[0] != t[1]
    &&& t[1] != t[2]
    &&& t[0] != t[2]
}

/// The undirected edge `{a, b}` written as `(min, max)`.
pub open spec fn ukey(a: u32, b: u32) -> (u32, u32) {
    if a < b {
        (a, b)
    } else {
        (b, a)
    }
}

/// Side `j` of triangle `t` as a directed corner pair: `0→1`, `1→2`, `2→0`.
pub open spec fn side(t: [u32; 3], j: int) -> (u32, u32) {
    if j == 0 {
        (t[0], t[1])
    } else if j == 1 {
        (t[1], t[2])
    } else {
        (t[2], t[0])
    }
}

/// Undirected edge of side `j` of triangle `t`.
pub open spec fn side_key(t: [u32; 3], j: int) -> (u32, u32) {
    ukey(side(t, j).0, side(t, j).1)
}

/// `true` when `e` is one of the three undirected edges of `t`.
pub open spec fn face_has_edge(t: [u32; 3], e: (u32, u32)) -> bool {
    side_key(t, 0) == e || side_key(t, 1) == e || side_key(t, 2) == e
}

/// The triangles (by position in `tris`, ascending) that take part in the
/// edge analyses and have `e` as one of their edges.
pub open spec fn owners(tris: Seq<[u32; 3]>, n: usize, e: (u32, u32)) -> Seq<usize>
    decreases tris.len(),
{
    if tris.len() == 0 {
        Seq::empty()
    } else {
        let rest = owners(tris.drop_last(), n, e);
        if face_ok(tris.last(), n) && face_has_edge(tris.last(), e) {
            rest.push((tris.len() - 1) as usize)
        } else {
            rest
        }
    }
}

/// Use count of the undirected edge `e`: how many valid triangles have it
/// as a side.
pub open spec fn edge_uses(tris: Seq<[u32; 3]>, n: usize, e: (u32, u32)) -> nat {
    owners(tris, n, e).len()
}

/// Hash key of an undirected edge: `min · 2³² + max`.
pub open spec fn ekey(e: (u32, u32)) -> u64 {
    (e.0 as u64 * 0x1_0000_0000u64 + e.1 as u64) as u64
}

pub(crate) proof fn lemma_ekey_injective(e: (u32, u32), f: (u32, u32))
    requires
        ekey(e) == ekey(f),
    ensures
        e == f,
{
    let a = e.0 as int;
    let b = e.1 as int;
    let c = f.0 as int;
    let d = f.1 as int;
    assert(a * 0x1_0000_0000 + b < 0x1_0000_0000_0000_0000) by (nonlinear_arith)
        requires
            0 <= a < 0x1_0000_0000,
            0 <= b < 0x1_0000_0000,
    ;
    assert(c * 0x1_0000_0000 + d < 0x1_0000_0000_0000_0000) by (nonlinear_arith)
        requires
            0 <= c < 0x1_0000_0000,
            0 <= d < 0x1_0000_0000,
    ;
    assert(a == c && b == d) by (nonlinear_arith)
        requires
            a * 0x1_0000_0000 + b == c * 0x1_0000_0000 + d,
            0 <= b < 0x1_0000_0000,
            0 <= d < 0x1_0000_0000,
            0 <= a,
            0 <= c,
    ;
}

pub(crate) fn ekey_exec(a: u32, b: u32) -> (k: u64)
    ensures
        k == ekey((a, b)),
{
    proof {
        let x = a as int;
        let y = b as int;
        assert(x * 0x1_0000_0000 + y < 0x1_0000_0000_0000_0000) by (nonlinear_arith)
            requires
                0 <= x < 0x1_0000_0000,
                0 <= y < 0x1_0000_0000,
        ;
    }
    a as u64 * 0x1_0000_0000u64 + b as u64
}

/// Owner list of slot `k` after [`EdgeTable::record`] appended `fi` to edge `e`.
spec fn recorded(
    keys: Seq<(u32, u32)>,
    lists: Seq<Vec<usize>>,
    key_k: (u32, u32),
    k: int,
    e: (u32, u32),
    fi: usize,
) -> Seq<usize> {
    if key_k == e {
        (if k < keys.len() {
            lists[k]@
        } else {
            Seq::empty()
        }).push(fi)
    } else {
        lists[k]@
    }
}

/// Undirected edges of the valid triangles, each with the positions of the
/// triangles that own it.
pub(crate) struct EdgeTable {
    /// Distinct undirected edges `(min, max)`, in first-seen order.
    pub(crate) keys: Vec<(u32, u32)>,
    /// `owners[k]`: ascending positions of the triangles that have
    /// `keys[k]` as a side.
    pub(crate) owners: Vec<Vec<usize>>,
    pub(crate) lookup: HashMap<u64, usize>,
}

impl EdgeTable {
    /// The table describes the triangles `tris` over a pool of `n` vertices.
    pub(crate) open spec fn describes(&self, tris: Seq<[u32; 3]>, n: usize) -> bool {
        &&& self.keys@.len() == self.owners@.len()
        &&& self.keys@.no_duplicates()
        &&& forall|k: int|
            0 <= k < self.keys@.len() ==> #[trigger] self.owners@[k]@ == owners(
                tris,
                n,
                self.keys@[k],
            )
        &&& forall|k: int|
            0 <= k < self.keys@.len() ==> edge_uses(tris, n, #[trigger] self.keys@[k]) > 0
        &&& forall|e: (u32, u32)| edge_uses(tris, n, e) > 0 ==> #[trigger] self.keys@.contains(e)
    }

    pub(crate) closed spec fn lookup_ok(&self) -> bool {
        &&& self.keys@.len() == self.owners@.len()
        &&& forall|k: int|
            0 <= k < self.keys@.len() ==> #[trigger] self.lookup@.contains_key(
                ekey(self.keys@[k]),
            ) && self.lookup@[ekey(self.keys@[k])] == k
        &&& forall|x: u64| #[trigger]
            self.lookup@.contains_key(x) ==> self.lookup@[x] < self.keys@.len() && ekey(
                self.keys@[self.lookup@[x] as int],
            ) == x
    }

    /// Append triangle position `fi` to the owner list of edge `e`,
    /// registering `e` first if it is new.
    fn record(&mut self, e: (u32, u32), fi: usize)
        requires
            old(self).lookup_ok(),
            old(self).keys@.no_duplicates(),
        ensures
            final(self).lookup_ok(),
            final(self).keys@.no_duplicates(),
            old(self).keys@.contains(e) ==> final(self).keys@ == old(self).keys@,
            !old(self).keys@.contains(e) ==> final(self).keys@ == old(self).keys@.push(e),
            final(self).keys@.contains(e),
            forall|x: (u32, u32)| old(self).keys@.contains(x) ==> #[trigger] final(self).keys@.contains(x),
            forall|k: int|
                0 <= k < final(self).keys@.len() ==> #[trigger] final(self).owners@[k]@
                    == recorded(old(self).keys@, old(self).owners@, final(self).keys@[k], k, e, fi),
    {
        let key = ekey_exec(e.0, e.1);
        match self.lookup.get(&key) {
            Some(pos) => {
                let pos = *pos;
                proof {
                    lemma_ekey_injective(self.keys@[pos as int], e);
                    assert(self.keys@.contains(e));
                }
                self.owners[pos].push(fi);
                proof {
                    assert(self.keys@[pos as int] == e);
                    assert forall|k: int|
                        0 <= k < self.keys@.len() && #[trigger] self.keys@[k] == e implies k
                        == pos by {}
                }
            },
            None => {
                proof {
                    if self.keys@.contains(e) {
                        let k = self.keys@.index_of(e);
                        assert(self.lookup@.contains_key(ekey(self.keys@[k])));
                    }
                }
                let pos = self.keys.len();
                self.keys.push(e);
                let mut list: Vec<usize> = Vec::new();
                list.push(fi);
                self.owners.push(list);
                self.lookup.insert(key, pos);
                proof {
                    assert(self.keys@[pos as int] == e);
                    assert forall|x: (u32, u32)| old(self).keys@.contains(x) implies #[trigger] self.keys@.contains(x) by {
                        let j = old(self).keys@.index_of(x);
                        assert(self.keys@[j] == x);
                    }
                    assert forall|x: u64| #[trigger]
                        self.lookup@.contains_key(x) implies self.lookup@[x] < self.keys@.len()
                        && ekey(self.keys@[self.lookup@[x] as int]) == x by {
                        if x != key {
                            assert(old(self).lookup@.contains_key(x));
                        }
                    }
                    assert forall|k: int|
                        0 <= k < self.keys@.len() implies #[trigger] self.lookup@.contains_key(
                            ekey(self.keys@[k]),
                        ) && self.lookup@[ekey(self.keys@[k])] == k by {
                        if k < pos {
                            if ekey(self.keys@[k]) == key {
                                lemma_ekey_injective(self.keys@[k], e);
                            }
                        }
                    }
                }
            },
        }
    }
}


/// Extending the prefix by one triangle appends its position to the owner
/// lists of its edges (when it is valid) and leaves every other list alone.
proof fn lemma_owners_step(tris: Seq<[u32; 3]>, n: usize, i: int, e: (u32, u32))
    requires
        0 <= i < tris.len(),
    ensures
        owners(tris.take(i + 1), n, e) == if face_ok(tris[i], n) && face_has_edge(tris[i], e) {
            owners(tris.take(i), n, e).push(i as usize)
        } else {
            owners(tris.take(i), n, e)
        },
{
    assert(tris.take(i + 1).drop_last() =~= tris.take(i));
    assert(tris.take(i + 1).last() == tris[i]);
}

pub(crate) fn ukey_exec(a: u32, b: u32) -> (e: (u32, u32))
    ensures
        e == ukey(a, b),
{
    if a < b {
        (a, b)
    } else {
        (b, a)
    }
}

pub(crate) fn face_ok_exec(t: [u32; 3], n: usize) -> (r: bool)
    ensures
        r == face_ok(t, n),
{
    (t[0] as usize) < n && (t[1] as usize) < n && (t[2] as usize) < n && t[0] != t[1] && t[1]
        != t[2] && t[0] != t[2]
}

impl EdgeTable {
    /// Bucket the undirected edges of every valid triangle of `tris`.
    pub(crate) fn build(tris: &Vec<[u32; 3]>, n: usize) -> (t: EdgeTable)
        ensures
            t.describes(tris@, n),
            t.lookup_ok(),
    {
        let mut t = EdgeTable { keys: Vec::new(), owners: Vec::new(), lookup: HashMap::new() };
        let mut i: usize = 0;
        assert(t.describes(tris@.take(0), n));
        while i < tris.len()
            invariant
                i <= tris@.len(),
                t.describes(tris@.take(i as int), n),
                t.lookup_ok(),
            decreases tris@.len() - i,
        {
            let tri = tris[i];
            let ghost pre_keys = t.keys@;
            let ghost pre_owners = t.owners@;
            if face_ok_exec(tri, n) {
                let e0 = ukey_exec(tri[0], tri[1]);
                let e1 = ukey_exec(tri[1], tri[2]);
                let e2 = ukey_exec(tri[2], tri[0]);
                assert(e0 == side_key(tri, 0) && e1 == side_key(tri, 1) && e2 == side_key(tri, 2));
                assert(e0 != e1 && e1 != e2 && e0 != e2);
                t.record(e0, i);
                let ghost k1 = t.keys@;
                let ghost o1 = t.owners@;
                t.record(e1, i);
                let ghost k2 = t.keys@;
                let ghost o2 = t.owners@;
                t.record(e2, i);
                proof {
                    assert forall|k: int| 0 <= k < t.keys@.len() implies #[trigger] t.owners@[k]@
                        == owners(tris@.take(i + 1), n, t.keys@[k]) by {
                        lemma_owners_step(tris@, n, i as int, t.keys@[k]);
                        let e = t.keys@[k];
                        let f = t.owners@[k]@;
                        if k < pre_keys.len() {
                            assert(k1[k] == e && k2[k] == e && pre_keys[k] == e);
                            let a = o1[k]@;
                            let b = o2[k]@;
                            assert(a == recorded(pre_keys, pre_owners, e, k, e0, i));
                            assert(b == recorded(k1, o1, e, k, e1, i));
                            assert(f == recorded(k2, o2, e, k, e2, i));
                            assert(pre_owners[k]@ == owners(tris@.take(i as int), n, e));
                        } else if k < k1.len() {
                            assert(k1 == pre_keys.push(e0));
                            assert(e == e0 && k2[k] == e0);
                            assert(!pre_keys.contains(e0));
                            assert(owners(tris@.take(i as int), n, e0).len() == 0);
                            let a = o1[k]@;
                            let b = o2[k]@;
                            assert(a == recorded(pre_keys, pre_owners, e, k, e0, i));
                            assert(b == recorded(k1, o1, e, k, e1, i));
                            assert(f == recorded(k2, o2, e, k, e2, i));
                            assert(owners(tris@.take(i as int), n, e0) =~= Seq::empty());
                        } else if k < k2.len() {
                            assert(k2 == k1.push(e1));
                            assert(e == e1);
                            assert(!k1.contains(e1));
                            assert(!pre_keys.contains(e1)) by {
                                if pre_keys.contains(e1) {
                                    let j = pre_keys.index_of(e1);
                                    assert(k1[j] == e1);
                                }
                            }
                            assert(owners(tris@.take(i as int), n, e1).len() == 0);
                            let b = o2[k]@;
                            assert(b == recorded(k1, o1, e, k, e1, i));
                            assert(f == recorded(k2, o2, e, k, e2, i));
                            assert(owners(tris@.take(i as int), n, e1) =~= Seq::empty());
                        } else {
                            assert(t.keys@ == k2.push(e2));
                            assert(e == e2);
                            assert(!pre_keys.contains(e2)) by {
                                if pre_keys.contains(e2) {
                                    let j = pre_keys.index_of(e2);
                                    assert(k1[j] == e2);
                                    assert(k2[j] == e2);
                                }
                            }
                            assert(owners(tris@.take(i as int), n, e2).len() == 0);
                            assert(f == recorded(k2, o2, e, k, e2, i));
                            assert(owners(tris@.take(i as int), n, e2) =~= Seq::empty());
                        }
                    }
                    assert forall|k: int|
                        0 <= k < t.keys@.len() implies edge_uses(
                        tris@.take(i + 1),
                        n,
                        #[trigger] t.keys@[k],
                    ) > 0 by {
                        lemma_owners_step(tris@, n, i as int, t.keys@[k]);
                        assert(t.owners@[k]@ == owners(tris@.take(i + 1), n, t.keys@[k]));
                        if k < pre_keys.len() {
                            assert(k1[k] == t.keys@[k] && k2[k] == t.keys@[k]);
                            assert(edge_uses(tris@.take(i as int), n, pre_keys[k]) > 0);
                        }
                    }
                    assert forall|e: (u32, u32)|
                        edge_uses(tris@.take(i + 1), n, e) > 0 implies #[trigger] t.keys@.contains(
                        e,
                    ) by {
                        lemma_owners_step(tris@, n, i as int, e);
                        if edge_uses(tris@.take(i as int), n, e) > 0 {
                            assert(pre_keys.contains(e));
                            let k = pre_keys.index_of(e);
                            assert(t.keys@[k] == e);
                        } else {
                            assert(e == e0 || e == e1 || e == e2);
                            assert(k1.contains(e0));
                            assert(k2.contains(e0) && k2.contains(e1));
                        }
                    }
                }
            } else {
                proof {
                    assert forall|e: (u32, u32)|
                        #![trigger owners(tris@.take(i + 1), n, e)]
                        owners(tris@.take(i + 1), n, e) == owners(tris@.take(i as int), n, e) by {
                        lemma_owners_step(tris@, n, i as int, e);
                    }
                }
            }
            i = i + 1;
        }
        assert(tris@.take(tris@.len() as int) =~= tris@);
        t
    }
}


proof fn lemma_owners_len(tris: Seq<[u32; 3]>, n: usize, e: (u32, u32))
    ensures
        owners(tris, n, e).len() <= tris.len(),
    decreases tris.len(),
{
    if tris.len() > 0 {
        lemma_owners_len(tris.drop_last(), n, e);
    }
}

/// Filtering keeps a sequence free of duplicates.
proof fn lemma_filter_no_dup<A>(s: Seq<A>, p: spec_fn(A) -> bool)
    requires
        s.no_duplicates(),
    ensures
        s.filter(p).no_duplicates(),
    decreases s.len(),
{
    reveal(Seq::filter);
    if s.len() > 0 {
        let d = s.drop_last();
        assert(d.no_duplicates());
        lemma_filter_no_dup(d, p);
        if p(s.last()) {
            assert(!d.filter(p).contains(s.last())) by {
                if d.filter(p).contains(s.last()) {
                    d.lemma_filter_contains_rev(p, s.last());
                    let j = d.index_of(s.last());
                    assert(s[j] == s[s.len() - 1]);
                }
            }
        }
    }
}

/// The set of keys with property `p`, when every such key is listed once
/// in `s`, has as many members as `s` has entries satisfying `p`.
proof fn lemma_card_where(s: Seq<(u32, u32)>, p: spec_fn((u32, u32)) -> bool)
    requires
        s.no_duplicates(),
        forall|e: (u32, u32)| #[trigger] p(e) ==> s.contains(e),
    ensures
        Set::new(p).len() == s.filter(p).len(),
        Set::new(p).finite(),
{
    broadcast use vstd::seq_lib::group_filter_ensures;

    lemma_filter_no_dup(s, p);
    assert forall|e: (u32, u32)| #[trigger] Set::new(p).contains(e) == s.filter(p).to_set().contains(e) by {
        if p(e) {
            let j = s.index_of(e);
            s.lemma_filter_contains(p, j);
        }
        if s.filter(p).contains(e) {
            s.lemma_filter_contains_rev(p, e);
        }
    }
    assert(Set::new(p) =~= s.filter(p).to_set());
    s.filter(p).unique_seq_to_set();
}

/// Summary of the undirected-edge topology of a primitive, produced by
/// [`Connectivity::edge_manifold_report`]. Every undirected edge of every
/// valid triangle is bucketed by its use count: `1` boundary, `2`
/// manifold-interior, `≥ 3` non-manifold.
#[derive(Clone, Copy, Debug, Default, PartialEq, Eq)]
pub struct EdgeManifoldReport {
    /// Total number of distinct undirected edges. Sum of the three bucket counts.
    pub total_edge_count: usize,
    /// Edges used by exactly one triangle (open rim, crack, hole).
    pub boundary_edge_count: usize,
    /// Edges used by exactly two triangles (clean two-manifold seam).
    pub manifold_interior_edge_count: usize,
    /// Edges used by three or more triangles (non-manifold defect).
    pub non_manifold_edge_count: usize,
    /// Largest use count observed across all edges; `0` when there are none.
    pub max_edge_use: u32,
}

impl EdgeManifoldReport {
    /// `true` iff the primitive is a closed two-manifold: it has edges and
    /// every one of them is used by exactly two triangles.
    pub fn is_closed_manifold(&self) -> (r: bool)
        ensures
            r == (self.total_edge_count > 0 && self.boundary_edge_count == 0
                && self.non_manifold_edge_count == 0),
    {
        self.total_edge_count > 0 && self.boundary_edge_count == 0
            && self.non_manifold_edge_count == 0
    }
}

/// The report [`Connectivity::edge_manifold_report`] gives for the triangle
/// list `tris` over a pool of `n` vertices.
pub open spec fn is_edge_report(r: EdgeManifoldReport, tris: Seq<[u32; 3]>, n: usize) -> bool {
    &&& r.total_edge_count == Set::new(|e: (u32, u32)| edge_uses(tris, n, e) >= 1).len()
    &&& r.boundary_edge_count == Set::new(|e: (u32, u32)| edge_uses(tris, n, e) == 1).len()
    &&& r.manifold_interior_edge_count == Set::new(|e: (u32, u32)| edge_uses(tris, n, e) == 2).len()
    &&& r.non_manifold_edge_count == Set::new(|e: (u32, u32)| edge_uses(tris, n, e) >= 3).len()
    &&& forall|e: (u32, u32)| edge_uses(tris, n, e) <= r.max_edge_use
    &&& r.max_edge_use == 0 || exists|e: (u32, u32)| edge_uses(tris, n, e) == r.max_edge_use
}

impl EdgeTable {
    /// Classify the bucketed edges by use count.
    fn report(&self, Ghost(tris): Ghost<Seq<[u32; 3]>>, n: usize) -> (r: EdgeManifoldReport)
        requires
            self.describes(tris, n),
            tris.len() <= u32::MAX,
        ensures
            is_edge_report(r, tris, n),
    {
        let ghost keys = self.keys@;
        let ghost p1 = |e: (u32, u32)| edge_uses(tris, n, e) == 1;
        let ghost p2 = |e: (u32, u32)| edge_uses(tris, n, e) == 2;
        let ghost p3 = |e: (u32, u32)| edge_uses(tris, n, e) >= 3;
        let ghost pa = |e: (u32, u32)| edge_uses(tris, n, e) >= 1;
        let mut boundary: usize = 0;
        let mut interior: usize = 0;
        let mut non_manifold: usize = 0;
        let mut max_use: u32 = 0;
        let mut k: usize = 0;
        while k < self.keys.len()
            invariant
                self.describes(tris, n),
                keys == self.keys@,
                tris.len() <= u32::MAX,
                forall|e: (u32, u32)| #[trigger] p1(e) == (edge_uses(tris, n, e) == 1),
                forall|e: (u32, u32)| #[trigger] p2(e) == (edge_uses(tris, n, e) == 2),
                forall|e: (u32, u32)| #[trigger] p3(e) == (edge_uses(tris, n, e) >= 3),
                k <= keys.len(),
                boundary == keys.take(k as int).filter(p1).len(),
                interior == keys.take(k as int).filter(p2).len(),
                non_manifold == keys.take(k as int).filter(p3).len(),
                forall|j: int| 0 <= j < k ==> edge_uses(tris, n, #[trigger] keys[j]) <= max_use,
                max_use == 0 || exists|j: int| 0 <= j < k && edge_uses(tris, n, keys[j]) == max_use,
            decreases keys.len() - k,
        {
            let c = self.owners[k].len();
            proof {
                assert(self.owners@[k as int]@ == owners(tris, n, keys[k as int]));
                lemma_owners_len(tris, n, keys[k as int]);
                assert(keys.take(k + 1) == keys.take(k as int).push(keys[k as int]));
                keys.take(k as int).lemma_filter_push(keys[k as int], p1);
                keys.take(k as int).lemma_filter_push(keys[k as int], p2);
                keys.take(k as int).lemma_filter_push(keys[k as int], p3);
                lemma_filter_len_le(keys.take(k as int), p1);
                lemma_filter_len_le(keys.take(k as int), p2);
                lemma_filter_len_le(keys.take(k as int), p3);
            }
            let ghost ek = keys[k as int];
            assert(c == edge_uses(tris, n, ek));
            assert(p1(ek) == (c == 1));
            assert(p2(ek) == (c == 2));
            assert(p3(ek) == (c >= 3));
            if c == 1 {
                boundary = boundary + 1;
            } else if c == 2 {
                interior = interior + 1;
            } else if c >= 3 {
                non_manifold = non_manifold + 1;
            }
            if c as u32 > max_use {
                max_use = c as u32;
            }
            k = k + 1;
        }
        proof {
            assert(keys.take(keys.len() as int) =~= keys);
            lemma_card_where(keys, p1);
            lemma_card_where(keys, p2);
            lemma_card_where(keys, p3);
            lemma_card_where(keys, pa);
            lemma_filter_all(keys, pa);
            assert forall|e: (u32, u32)| edge_uses(tris, n, e) <= max_use by {
                if edge_uses(tris, n, e) > 0 {
                    assert(self.keys@.contains(e));
                    let j = keys.index_of(e);
                    assert(edge_uses(tris, n, keys[j]) <= max_use);
                }
            }
            if max_use != 0 {
                let j = choose|j: int| 0 <= j < k && edge_uses(tris, n, keys[j]) == max_use;
                assert(edge_uses(tris, n, keys[j]) == max_use);
            }
        }
        EdgeManifoldReport {
            total_edge_count: self.keys.len(),
            boundary_edge_count: boundary,
            manifold_interior_edge_count: interior,
            non_manifold_edge_count: non_manifold,
            max_edge_use: max_use,
        }
    }
}

proof fn lemma_filter_len_le<A>(s: Seq<A>, p: spec_fn(A) -> bool)
    ensures
        s.filter(p).len() <= s.len(),
{
    s.lemma_filter_len(p);
}

/// Filtering by a predicate every element satisfies keeps the sequence.
proof fn lemma_filter_all<A>(s: Seq<A>, p: spec_fn(A) -> bool)
    requires
        forall|i: int| 0 <= i < s.len() ==> p(#[trigger] s[i]),
    ensures
        s.filter(p) == s,
    decreases s.len(),
{
    reveal(Seq::filter);
    if s.len() > 0 {
        lemma_filter_all(s.drop_last(), p);
        assert(s.drop_last().push(s.last()) =~= s);
    }
}

impl Connectivity {
    /// Classify every undirected triangle edge of this primitive by how many
    /// triangles use it. Triangles with an out-of-range or duplicate corner
    /// index are excluded whole; edges are compared by vertex index.
    pub fn edge_manifold_report(&self) -> (r: EdgeManifoldReport)
        requires
            self.triangles().len() <= u32::MAX,
        ensures
            is_edge_report(r, self.triangles(), self.vertex_count),
    {
        let tris = self.triangle_indices();
        let table = EdgeTable::build(&tris, self.vertex_count);
        table.report(Ghost(tris@), self.vertex_count)
    }
}


/// Every used edge is stored as `(min, max)` of two distinct corners.
proof fn lemma_used_edge_ordered(tris: Seq<[u32; 3]>, n: usize, e: (u32, u32))
    requires
        edge_uses(tris, n, e) > 0,
    ensures
        e.0 < e.1,
    decreases tris.len(),
{
    if tris.len() > 0 {
        if edge_uses(tris.drop_last(), n, e) > 0 {
            lemma_used_edge_ordered(tris.drop_last(), n, e);
        }
    }
}

pub(crate) proof fn lemma_ekey_decode(e: (u32, u32))
    ensures
        ekey(e) as int / 0x1_0000_0000 == e.0,
        ekey(e) as int % 0x1_0000_0000 == e.1,
{
    let x = e.0 as int;
    let y = e.1 as int;
    assert(x * 0x1_0000_0000 + y < 0x1_0000_0000_0000_0000) by (nonlinear_arith)
        requires
            0 <= x < 0x1_0000_0000,
            0 <= y < 0x1_0000_0000,
    ;
    vstd::arithmetic::div_mod::lemma_fundamental_div_mod_converse(
        ekey(e) as int,
        0x1_0000_0000,
        x,
        y,
    );
}

/// Keys order edges lexicographically.
pub(crate) proof fn lemma_ekey_order(e: (u32, u32), f: (u32, u32))
    requires
        ekey(e) < ekey(f),
    ensures
        lex_lt([e.0, e.1], [f.0, f.1]),
{
    let (a, b, c, d) = (e.0 as int, e.1 as int, f.0 as int, f.1 as int);
    assert(a * 0x1_0000_0000 + b < 0x1_0000_0000_0000_0000) by (nonlinear_arith)
        requires
            0 <= a < 0x1_0000_0000,
            0 <= b < 0x1_0000_0000,
    ;
    assert(c * 0x1_0000_0000 + d < 0x1_0000_0000_0000_0000) by (nonlinear_arith)
        requires
            0 <= c < 0x1_0000_0000,
            0 <= d < 0x1_0000_0000,
    ;
    assert(a < c || (a == c && b < d)) by (nonlinear_arith)
        requires
            a * 0x1_0000_0000 + b < c * 0x1_0000_0000 + d,
            0 <= b < 0x1_0000_0000,
            0 <= d < 0x1_0000_0000,
            0 <= a,
            0 <= c,
    ;
}

/// Strict lexicographic order on vertex pairs.
pub open spec fn lex_lt(x: [u32; 2], y: [u32; 2]) -> bool {
    x[0] < y[0] || (x[0] == y[0] && x[1] < y[1])
}

/// `out` lists the boundary edges of `tris` (edges used by exactly one
/// valid triangle) as `[min, max]` pairs in strictly increasing order.
pub open spec fn is_boundary_listing(out: Seq<[u32; 2]>, tris: Seq<[u32; 3]>, n: usize) -> bool {
    &&& forall|i: int, j: int| 0 <= i < j < out.len() ==> lex_lt(out[i], out[j])
    &&& forall|i: int|
        0 <= i < out.len() ==> out[i][0] < out[i][1] && edge_uses(
            tris,
            n,
            (#[trigger] out[i][0], out[i][1]),
        ) == 1
    &&& forall|e: (u32, u32)| edge_uses(tris, n, e) == 1 ==> out.contains([e.0, e.1])
}

impl EdgeTable {
    /// Hash keys of the edges used exactly once, in table order.
    fn boundary_keys(&self, Ghost(tris): Ghost<Seq<[u32; 3]>>, n: usize) -> (list: Vec<u64>)
        requires
            self.describes(tris, n),
        ensures
            list@.no_duplicates(),
            forall|i: int| 0 <= i < list@.len() ==> is_boundary_key(tris, n, #[trigger] list@[i]),
            forall|e: (u32, u32)| edge_uses(tris, n, e) == 1 ==> list@.contains(#[trigger] ekey(e)),
    {
        let ghost keys = self.keys@;
        let mut list: Vec<u64> = Vec::new();
        let ghost mut src: Seq<int> = Seq::empty();
        let mut k: usize = 0;
        while k < self.keys.len()
            invariant
                self.describes(tris, n),
                keys == self.keys@,
                k <= keys.len(),
                src.len() == list@.len(),
                list@.no_duplicates(),
                forall|i: int|
                    0 <= i < list@.len() ==> 0 <= #[trigger] src[i] < k && list@[i] == ekey(
                        keys[src[i]],
                    ) && edge_uses(tris, n, keys[src[i]]) == 1,
                forall|j: int|
                    0 <= j < k && edge_uses(tris, n, #[trigger] keys[j]) == 1 ==> list@.contains(
                        ekey(keys[j]),
                    ),
            decreases keys.len() - k,
        {
            proof {
                assert(self.owners@[k as int]@ == owners(tris, n, keys[k as int]));
            }
            if self.owners[k].len() == 1 {
                let e = self.keys[k];
                let x = ekey_exec(e.0, e.1);
                proof {
                    assert(!list@.contains(x)) by {
                        if list@.contains(x) {
                            let i = list@.index_of(x);
                            lemma_ekey_injective(keys[src[i]], e);
                            assert(keys[src[i]] == keys[k as int]);
                        }
                    }
                }
                let ghost old_list = list@;
                list.push(x);
                proof {
                    src = src.push(k as int);
                    assert forall|j: int|
                        0 <= j < k + 1 && edge_uses(tris, n, #[trigger] keys[j]) == 1 implies list@.contains(
                        ekey(keys[j]),
                    ) by {
                        if j < k {
                            let i = old_index(old_list, ekey(keys[j]));
                            assert(list@[i] == ekey(keys[j]));
                        } else {
                            assert(list@[list@.len() - 1] == x);
                        }
                    }
                }
            }
            k = k + 1;
        }
        proof {
            assert forall|e: (u32, u32)| edge_uses(tris, n, e) == 1 implies list@.contains(
                #[trigger] ekey(e),
            ) by {
                assert(self.keys@.contains(e));
                let j = keys.index_of(e);
                assert(edge_uses(tris, n, keys[j]) == 1);
            }
            assert forall|i: int| 0 <= i < list@.len() implies is_boundary_key(tris, n, #[trigger] list@[i]) by {
                let e = keys[src[i]];
                assert(edge_uses(tris, n, e) == 1 && list@[i] == ekey(e));
            }
        }
        list
    }
}

/// `x` is the hash key of an edge used by exactly one valid triangle.
spec fn is_boundary_key(tris: Seq<[u32; 3]>, n: usize, x: u64) -> bool {
    exists|e: (u32, u32)| edge_uses(tris, n, e) == 1 && x == ekey(e)
}

pub(crate) proof fn lemma_perm_contains(a: Seq<u64>, b: Seq<u64>, x: u64)
    requires
        a.to_multiset() == b.to_multiset(),
        a.contains(x),
    ensures
        b.contains(x),
{
    vstd::seq_lib::to_multiset_contains(a, x);
    vstd::seq_lib::to_multiset_contains(b, x);
}

proof fn old_index(s: Seq<u64>, x: u64) -> (i: int)
    requires
        s.contains(x),
    ensures
        0 <= i < s.len(),
        s[i] == x,
{
    s.index_of(x)
}

impl Connectivity {
    /// Every boundary edge of this primitive — the undirected triangle edges
    /// used by exactly one valid triangle — as `[min, max]` vertex-index pairs
    /// sorted ascending.
    pub fn boundary_edges(&self) -> (out: Vec<[u32; 2]>)
        ensures
            is_boundary_listing(out@, self.triangles(), self.vertex_count),
    {
        broadcast use vstd::multiset::group_multiset_axioms;
        broadcast use vstd::seq_lib::group_to_multiset_ensures;

        let tris = self.triangle_indices();
        let n = self.vertex_count;
        let table = EdgeTable::build(&tris, n);
        let mut list = table.boundary_keys(Ghost(tris@), n);
        let ghost before = list@;
        sort_u64(&mut list);
        proof {
            before.lemma_multiset_has_no_duplicates();
            list@.lemma_multiset_has_no_duplicates_conv();
        }
        let mut out: Vec<[u32; 2]> = Vec::new();
        let mut i: usize = 0;
        while i < list.len()
            invariant
                i <= list@.len(),
                out@.len() == i,
                list@.no_duplicates(),
                forall|a: int, b: int| 0 <= a < b < list@.len() ==> list@[a] <= list@[b],
                list@.to_multiset() == before.to_multiset(),
                forall|a: int| 0 <= a < before.len() ==> is_boundary_key(tris@, n, #[trigger] before[a]),
                forall|a: int|
                    0 <= a < i ==> #[trigger] out@[a][0] < out@[a][1] && edge_uses(
                        tris@,
                        n,
                        (out@[a][0], out@[a][1]),
                    ) == 1 && ekey((out@[a][0], out@[a][1])) == list@[a],
            decreases list@.len() - i,
        {
            let x = list[i];
            let ghost e: (u32, u32);
            proof {
                assert(list@[i as int] == x);
                lemma_perm_contains(list@, before, x);
                let a = before.index_of(x);
                assert(is_boundary_key(tris@, n, before[a]));
                e = choose|e: (u32, u32)| edge_uses(tris@, n, e) == 1 && x == ekey(e);
                lemma_ekey_decode(e);
                lemma_used_edge_ordered(tris@, n, e);
            }
            let p = [(x / 0x1_0000_0000u64) as u32, (x % 0x1_0000_0000u64) as u32];
            out.push(p);
            i = i + 1;
        }
        proof {
            assert forall|a: int, b: int| 0 <= a < b < out@.len() implies lex_lt(
                out@[a],
                out@[b],
            ) by {
                let ea = (out@[a][0], out@[a][1]);
                let eb = (out@[b][0], out@[b][1]);
                assert(list@[a] != list@[b]);
                assert(ekey(ea) < ekey(eb));
                lemma_ekey_order(ea, eb);
            }
            assert forall|e: (u32, u32)| edge_uses(tris@, n, e) == 1 implies out@.contains(
                [e.0, e.1],
            ) by {
                assert(before.contains(ekey(e)));
                lemma_perm_contains(before, list@, ekey(e));
                let a = list@.index_of(ekey(e));
                let f = (out@[a][0], out@[a][1]);
                lemma_ekey_injective(f, e);
                assert(out@[a] =~= [e.0, e.1]);
            }
        }
        out
    }
}


/// Owner lists hold exactly the valid triangles that have the edge, in
/// strictly increasing order.
pub(crate) proof fn lemma_owners_props(tris: Seq<[u32; 3]>, n: usize, e: (u32, u32))
    requires
        tris.len() <= usize::MAX,
    ensures
        forall|a: int, b: int|
            0 <= a < b < owners(tris, n, e).len() ==> owners(tris, n, e)[a] < owners(
                tris,
                n,
                e,
            )[b],
        forall|a: int|
            0 <= a < owners(tris, n, e).len() ==> (#[trigger] owners(tris, n, e)[a] as int) < tris.len()
                && face_ok(tris[owners(tris, n, e)[a] as int], n) && face_has_edge(
                tris[owners(tris, n, e)[a] as int],
                e,
            ),
        forall|f: int|
            0 <= f < tris.len() && face_ok(#[trigger] tris[f], n) && face_has_edge(tris[f], e)
                ==> owners(tris, n, e).contains(f as usize),
    decreases tris.len(),
{
    if tris.len() > 0 {
        let d = tris.drop_last();
        lemma_owners_props(d, n, e);
        let o = owners(tris, n, e);
        let od = owners(d, n, e);
        assert forall|f: int|
            0 <= f < tris.len() && face_ok(#[trigger] tris[f], n) && face_has_edge(tris[f], e)
                implies o.contains(f as usize) by {
            if f < tris.len() - 1 {
                assert(d[f] == tris[f]);
                let i = od.index_of(f as usize);
                assert(o[i] == f as usize);
            } else {
                assert(o[o.len() - 1] == f as usize);
            }
        }
    }
}

/// The neighbour across side `j` of triangle `f`: the other owner of that
/// edge when exactly two valid triangles share it; `None` for a boundary or
/// non-manifold edge and for an excluded triangle.
pub open spec fn neighbour(tris: Seq<[u32; 3]>, n: usize, f: int, j: int) -> Option<u32> {
    if !face_ok(tris[f], n) {
        None
    } else {
        let o = owners(tris, n, side_key(tris[f], j));
        if o.len() == 2 {
            Some((if o[0] as int == f {
                o[1]
            } else {
                o[0]
            }) as u32)
        } else {
            None
        }
    }
}

impl EdgeTable {
    /// Position of edge `e` in the table, if it is there.
    pub(crate) fn find(&self, e: (u32, u32)) -> (r: Option<usize>)
        requires
            self.lookup_ok(),
            self.keys@.no_duplicates(),
        ensures
            match r {
                Some(k) => k < self.keys@.len() && self.keys@[k as int] == e,
                None => !self.keys@.contains(e),
            },
    {
        let key = ekey_exec(e.0, e.1);
        match self.lookup.get(&key) {
            Some(pos) => {
                proof {
                    lemma_ekey_injective(self.keys@[*pos as int], e);
                }
                Some(*pos)
            },
            None => {
                proof {
                    if self.keys@.contains(e) {
                        let k = self.keys@.index_of(e);
                        assert(self.lookup@.contains_key(ekey(self.keys@[k])));
                    }
                }
                None
            },
        }
    }

    /// Neighbour across side `j` of valid triangle `fi`.
    fn neighbour_of(&self, Ghost(tris): Ghost<Seq<[u32; 3]>>, n: usize, fi: usize, t: [u32; 3], j: usize) -> (r: Option<u32>)
        requires
            self.describes(tris, n),
            self.lookup_ok(),
            fi < tris.len(),
            tris.len() <= usize::MAX,
            tris[fi as int] == t,
            face_ok(t, n),
            j < 3,
        ensures
            r == neighbour(tris, n, fi as int, j as int),
    {
        let (a, b) = if j == 0 {
            (t[0], t[1])
        } else if j == 1 {
            (t[1], t[2])
        } else {
            (t[2], t[0])
        };
        let e = ukey_exec(a, b);
        assert(e == side_key(t, j as int));
        proof {
            lemma_owners_props(tris, n, e);
            assert(owners(tris, n, e).contains(fi));
        }
        match self.find(e) {
            Some(k) => {
                assert(self.owners@[k as int]@ == owners(tris, n, e));
                if self.owners[k].len() == 2 {
                    let o0 = self.owners[k][0];
                    let o1 = self.owners[k][1];
                    if o0 == fi {
                        Some(#[verifier::truncate] (o1 as u32))
                    } else {
                        Some(#[verifier::truncate] (o0 as u32))
                    }
                } else {
                    None
                }
            },
            None => {
                assert(false);
                None
            },
        }
    }
}

impl Connectivity {
    /// The face-dual adjacency graph of this primitive's triangle list:
    /// entry `i` gives, for the sides `0→1`, `1→2`, `2→0` of triangle `i`,
    /// the triangle sharing that side when exactly two valid triangles
    /// share it, and `None` otherwise (boundary, non-manifold, or an
    /// excluded triangle).
    pub fn triangle_adjacency(&self) -> (out: Vec<[Option<u32>; 3]>)
        ensures
            out@.len() == self.triangles().len(),
            forall|f: int, j: int|
                0 <= f < out@.len() && 0 <= j < 3 ==> #[trigger] out@[f][j] == neighbour(
                    self.triangles(),
                    self.vertex_count,
                    f,
                    j,
                ),
    {
        let tris = self.triangle_indices();
        let n = self.vertex_count;
        let table = EdgeTable::build(&tris, n);
        let mut out: Vec<[Option<u32>; 3]> = Vec::new();
        let mut fi: usize = 0;
        while fi < tris.len()
            invariant
                fi <= tris@.len(),
                table.describes(tris@, n),
                table.lookup_ok(),
                out@.len() == fi,
                forall|f: int, j: int|
                    0 <= f < fi && 0 <= j < 3 ==> #[trigger] out@[f][j] == neighbour(tris@, n, f, j),
            decreases tris@.len() - fi,
        {
            let t = tris[fi];
            if face_ok_exec(t, n) {
                let s0 = table.neighbour_of(Ghost(tris@), n, fi, t, 0);
                let s1 = table.neighbour_of(Ghost(tris@), n, fi, t, 1);
                let s2 = table.neighbour_of(Ghost(tris@), n, fi, t, 2);
                out.push([s0, s1, s2]);
            } else {
                out.push([None, None, None]);
            }
            fi = fi + 1;
        }
        out
    }
}

/// Adjacency is symmetric: when side `j` of triangle `f` links to `g`, some
/// side of `g` links back to `f`.
pub proof fn law_adjacency_symmetric(c: Connectivity, f: int, j: int)
    requires
        0 <= f < c.triangles().len(),
        0 <= j < 3,
        c.triangles().len() <= u32::MAX,
        neighbour(c.triangles(), c.vertex_count, f, j) is Some,
    ensures
        ({
            let g = neighbour(c.triangles(), c.vertex_count, f, j)->0 as int;
            &&& 0 <= g < c.triangles().len()
            &&& g != f
            &&& exists|k: int|
                0 <= k < 3 && #[trigger] neighbour(c.triangles(), c.vertex_count, g, k) == Some(
                    f as u32,
                )
        }),
{
    let tris = c.triangles();
    let n = c.vertex_count;
    let e = side_key(tris[f], j);
    let o = owners(tris, n, e);
    lemma_owners_props(tris, n, e);
    assert(o.contains(f as usize));
    let g = if o[0] as int == f { o[1] as int } else { o[0] as int };
    assert(o[0] < o[1]);
    assert(g != f);
    assert(face_has_edge(tris[g], e));
    let k = if side_key(tris[g], 0) == e { 0int } else if side_key(tris[g], 1) == e { 1int } else { 2int };
    assert(side_key(tris[g], k) == e);
    assert(neighbour(tris, n, g, k) == Some(f as u32));
}


/// Triangle `t` with its last two corners swapped — the same triangle
/// wound the other way.
pub open spec fn flip3(t: [u32; 3]) -> [u32; 3] {
    [t[0], t[2], t[1]]
}

/// `t` walks the directed edge `a → b` along one of its sides.
pub open spec fn traverses(t: [u32; 3], a: u32, b: u32) -> bool {
    side(t, 0) == (a, b) || side(t, 1) == (a, b) || side(t, 2) == (a, b)
}

/// Triangles `x` and `y` cross their shared undirected edge `e` in opposite
/// directions: no directed traversal of `e` by `x` is repeated by `y`.
pub open spec fn opposite_on(x: [u32; 3], y: [u32; 3], e: (u32, u32)) -> bool {
    forall|a: u32, b: u32|
        ukey(a, b) == e && #[trigger] traverses(x, a, b) ==> !#[trigger] traverses(y, a, b)
}

/// Number of positions `i < len` at which `p` holds.
pub open spec fn count_where(len: nat, p: spec_fn(int) -> bool) -> nat
    decreases len,
{
    if len == 0 {
        0
    } else {
        count_where((len - 1) as nat, p) + if p(len - 1) {
            1nat
        } else {
            0nat
        }
    }
}

pub(crate) proof fn lemma_count_where_le(len: nat, p: spec_fn(int) -> bool)
    ensures
        count_where(len, p) <= len,
    decreases len,
{
    if len > 0 {
        lemma_count_where_le((len - 1) as nat, p);
    }
}

pub(crate) proof fn lemma_count_where_ext(len: nat, p: spec_fn(int) -> bool, q: spec_fn(int) -> bool)
    requires
        forall|i: int| 0 <= i < len ==> #[trigger] p(i) == q(i),
    ensures
        count_where(len, p) == count_where(len, q),
    decreases len,
{
    if len > 0 {
        lemma_count_where_ext((len - 1) as nat, p, q);
    }
}

/// Setting one more position true raises the count by one.
pub(crate) proof fn lemma_count_where_set(len: nat, p: spec_fn(int) -> bool, q: spec_fn(int) -> bool, k: int)
    requires
        0 <= k < len,
        !p(k),
        q(k),
        forall|i: int| 0 <= i < len && i != k ==> #[trigger] p(i) == q(i),
    ensures
        count_where(len, q) == count_where(len, p) + 1,
    decreases len,
{
    if len - 1 == k {
        lemma_count_where_ext((len - 1) as nat, p, q);
    } else {
        lemma_count_where_set((len - 1) as nat, p, q, k);
    }
}

/// Outcome of [`Connectivity::orient_consistent`]: how many triangles were
/// flipped, how many edge-connected components the walk seeded, and whether
/// a component could not be coherently oriented.
#[derive(Clone, Copy, Debug, Default, PartialEq, Eq)]
pub struct OrientationReport {
    /// Number of triangles whose corners were reordered `[a, b, c] → [a, c, b]`.
    pub flipped_count: usize,
    /// Number of edge-connected components the flood-fill visited.
    pub component_count: usize,
    /// `true` iff the walk met a triangle whose already-chosen winding
    /// disagrees with a neighbour across a manifold-interior edge.
    pub non_orientable: bool,
}

/// Directed corner pairs of triangle `t` under the given flip state.
fn oriented_sides(t: [u32; 3], flipped: bool) -> (r: [(u32, u32); 3])
    ensures
        flipped ==> r@ == seq![side(flip3(t), 0), side(flip3(t), 1), side(flip3(t), 2)],
        !flipped ==> r@ == seq![side(t, 0), side(t, 1), side(t, 2)],
{
    let r = if flipped {
        [(t[0], t[2]), (t[2], t[1]), (t[1], t[0])]
    } else {
        [(t[0], t[1]), (t[1], t[2]), (t[2], t[0])]
    };
    assert(r@ =~= if flipped {
        seq![side(flip3(t), 0), side(flip3(t), 1), side(flip3(t), 2)]
    } else {
        seq![side(t, 0), side(t, 1), side(t, 2)]
    });
    r
}

fn traverses_exec(t: [u32; 3], a: u32, b: u32) -> (r: bool)
    ensures
        r == traverses(t, a, b),
{
    (t[0] == a && t[1] == b) || (t[1] == a && t[2] == b) || (t[2] == a && t[0] == b)
}

/// Facts about a valid triangle and its flip: the flip walks every side
/// backwards, keeps the undirected edges, and a valid triangle never walks
/// an edge both ways.
proof fn lemma_flip_facts(t: [u32; 3], n: usize)
    requires
        face_ok(t, n),
    ensures
        face_ok(flip3(t), n),
        flip3(t) != t,
        forall|a: u32, b: u32| traverses(flip3(t), a, b) == traverses(t, b, a),
        forall|a: u32, b: u32| traverses(t, a, b) ==> !traverses(t, b, a),
        forall|e: (u32, u32)| face_has_edge(flip3(t), e) == face_has_edge(t, e),
        forall|a: u32, b: u32| traverses(t, a, b) ==> face_has_edge(t, ukey(a, b)),
        forall|a: u32, b: u32|
            #![trigger ukey(a, b)]
            face_has_edge(t, ukey(a, b)) ==> traverses(t, a, b) || traverses(t, b, a),
{
    assert(flip3(t)[1] != t[1]);
}

/// The state of the orientation walk: `faces[f]` is triangle `f` under its
/// chosen flip, and every processed triangle agrees with each of its
/// manifold-interior neighbours unless the walk raised the flag.
spec fn walk_ok(
    tris: Seq<[u32; 3]>,
    n: usize,
    faces: Seq<[u32; 3]>,
    flip: Seq<bool>,
    visited: Seq<bool>,
    done: Seq<bool>,
    flag: bool,
) -> bool {
    &&& faces.len() == tris.len()
    &&& flip.len() == tris.len()
    &&& visited.len() == tris.len()
    &&& done.len() == tris.len()
    &&& forall|f: int|
        0 <= f < tris.len() ==> #[trigger] faces[f] == if flip[f] {
            flip3(tris[f])
        } else {
            tris[f]
        }
    &&& forall|f: int| 0 <= f < tris.len() && #[trigger] flip[f] ==> visited[f]
    &&& forall|f: int| 0 <= f < tris.len() && #[trigger] visited[f] ==> face_ok(tris[f], n)
    &&& forall|f: int| 0 <= f < tris.len() && #[trigger] done[f] ==> visited[f]
    &&& forall|f: int, j: int|
        0 <= f < tris.len() && done[f] && 0 <= j < 3 && #[trigger] neighbour(tris, n, f, j)
            is Some ==> visited[neighbour(tris, n, f, j)->0 as int] && (flag || opposite_on(
            faces[f],
            faces[neighbour(tris, n, f, j)->0 as int],
            side_key(tris[f], j),
        ))
}


/// The other owner of a two-owner edge, seen from `f`.
spec fn other_owner(o: Seq<usize>, f: int) -> int {
    if o[0] as int == f {
        o[1] as int
    } else {
        o[0] as int
    }
}

/// The edge `e` of processed triangle `fi` is settled: when exactly two
/// triangles share it, the other one has a winding and, unless the walk
/// raised the flag, crosses `e` opposite to `fi`.
spec fn edge_settled(
    tris: Seq<[u32; 3]>,
    n: usize,
    faces: Seq<[u32; 3]>,
    visited: Seq<bool>,
    flag: bool,
    fi: int,
    e: (u32, u32),
) -> bool {
    owners(tris, n, e).len() == 2 ==> {
        let g = other_owner(owners(tris, n, e), fi);
        &&& visited[g]
        &&& (flag || opposite_on(faces[fi], faces[g], e))
    }
}

/// Triangle `b` is the neighbour of triangle `a` across one of its sides.
pub open spec fn linked(tris: Seq<[u32; 3]>, n: usize, a: int, b: int) -> bool {
    0 <= b < tris.len() && exists|j: int| 0 <= j < 3 && neighbour(tris, n, a, j) == Some(b as u32)
}

/// `p` walks from triangle to neighbouring triangle.
pub open spec fn is_path(tris: Seq<[u32; 3]>, n: usize, p: Seq<int>) -> bool {
    &&& p.len() >= 1
    &&& forall|i: int| 0 <= i < p.len() ==> 0 <= #[trigger] p[i] < tris.len()
    &&& forall|i: int| 0 <= i < p.len() - 1 ==> #[trigger] linked(tris, n, p[i], p[i + 1])
}

/// Triangle `b` is reachable from triangle `a` across manifold-interior edges.
pub open spec fn reaches(tris: Seq<[u32; 3]>, n: usize, a: int, b: int) -> bool {
    exists|p: Seq<int>| is_path(tris, n, p) && p[0] == a && p.last() == b
}

/// Triangle `f` is valid and no lower-indexed triangle reaches it: it is the
/// first triangle of its edge-connected component.
pub open spec fn component_seed(tris: Seq<[u32; 3]>, n: usize, f: int) -> bool {
    face_ok(tris[f], n) && forall|g: int| 0 <= g < f ==> !reaches(tris, n, g, f)
}

proof fn lemma_neighbour_range(tris: Seq<[u32; 3]>, n: usize, f: int, j: int)
    requires
        tris.len() <= u32::MAX,
        0 <= f < tris.len(),
        neighbour(tris, n, f, j) is Some,
    ensures
        0 <= neighbour(tris, n, f, j)->0 < tris.len(),
        neighbour(tris, n, f, j)->0 as int == other_owner(owners(tris, n, side_key(tris[f], j)), f),
        neighbour(tris, n, f, j)->0 as int != f,
        owners(tris, n, side_key(tris[f], j)).len() == 2,
{
    let e = side_key(tris[f], j);
    lemma_owners_props(tris, n, e);
    let o = owners(tris, n, e);
    assert(o.contains(f as usize)) by {
        assert(face_has_edge(tris[f], e));
    }
    assert(o[0] < o[1]);
}

/// `g` winds every triangle of `tris` kept or flipped (only valid ones
/// flipped) so that every two triangles sharing a manifold-interior edge
/// cross it in opposite directions.
pub open spec fn is_consistent_winding(g: Seq<[u32; 3]>, tris: Seq<[u32; 3]>, n: usize) -> bool {
    &&& g.len() == tris.len()
    &&& forall|f: int|
        0 <= f < tris.len() ==> #[trigger] g[f] == tris[f] || (face_ok(tris[f], n) && g[f] == flip3(tris[f]))
    &&& forall|f: int, j: int|
        0 <= f < tris.len() && 0 <= j < 3 && #[trigger] neighbour(tris, n, f, j) is Some
            ==> opposite_on(g[f], g[neighbour(tris, n, f, j)->0 as int], side_key(tris[f], j))
}

proof fn lemma_linked_sym(tris: Seq<[u32; 3]>, n: usize, a: int, b: int)
    requires
        tris.len() <= u32::MAX,
        0 <= a < tris.len(),
        linked(tris, n, a, b),
    ensures
        linked(tris, n, b, a),
{
    let j = choose|j: int| 0 <= j < 3 && neighbour(tris, n, a, j) == Some(b as u32);
    lemma_neighbour_range(tris, n, a, j);
    let e = side_key(tris[a], j);
    let o = owners(tris, n, e);
    lemma_owners_props(tris, n, e);
    assert(o.contains(a as usize)) by {
        assert(face_has_edge(tris[a], e));
    }
    assert(o[0] < o[1]);
    assert(face_has_edge(tris[b], e));
    let k = if side_key(tris[b], 0) == e { 0int } else if side_key(tris[b], 1) == e { 1int } else { 2int };
    assert(side_key(tris[b], k) == e);
    assert(neighbour(tris, n, b, k) == Some(a as u32));
}

/// A valid triangle, kept or flipped, walks each of its edges in exactly
/// one direction, and the flip reverses it.
proof fn lemma_dir(x: [u32; 3], t: [u32; 3], n: usize, e: (u32, u32))
    requires
        face_ok(t, n),
        face_has_edge(t, e),
        x == t || x == flip3(t),
    ensures
        flip3(t) != t,
        e.0 < e.1,
        ukey(e.0, e.1) == e,
        ukey(e.1, e.0) == e,
        traverses(x, e.0, e.1) != traverses(x, e.1, e.0),
        (x == t) == (traverses(x, e.0, e.1) == traverses(t, e.0, e.1)),
{
    lemma_flip_facts(t, n);
    assert(e.0 < e.1);
    assert(ukey(e.0, e.1) == e);
    assert(face_has_edge(t, ukey(e.0, e.1)));
    assert(traverses(t, e.0, e.1) || traverses(t, e.1, e.0));
}

/// For two triangles that each walk `e` in exactly one direction, being
/// opposite on `e` is walking it in different directions.
proof fn lemma_opp(x: [u32; 3], y: [u32; 3], e: (u32, u32))
    requires
        e.0 < e.1,
        traverses(x, e.0, e.1) != traverses(x, e.1, e.0),
        traverses(y, e.0, e.1) != traverses(y, e.1, e.0),
    ensures
        opposite_on(x, y, e) == (traverses(x, e.0, e.1) != traverses(y, e.0, e.1)),
{
    assert(ukey(e.0, e.1) == e);
    assert(ukey(e.1, e.0) == e);
    if traverses(x, e.0, e.1) != traverses(y, e.0, e.1) {
        assert forall|a: u32, b: u32| ukey(a, b) == e && #[trigger] traverses(x, a, b) implies !#[trigger] traverses(y, a, b) by {
            assert((a, b) == (e.0, e.1) || (a, b) == (e.1, e.0));
        }
    } else {
        if traverses(x, e.0, e.1) {
            assert(traverses(y, e.0, e.1));
        } else {
            assert(traverses(x, e.1, e.0));
            assert(traverses(y, e.1, e.0));
        }
    }
}

/// Every triangle of one flood fill shares the fill's seed as root,
/// neighbouring visited triangles share a root, and against any consistent
/// winding each visited triangle agrees or disagrees exactly as its root
/// does — so a raised flag rules every such winding out.
#[verifier::opaque]
spec fn coherent_at(
    tris: Seq<[u32; 3]>,
    n: usize,
    head: int,
    visited: Seq<bool>,
    queue: Seq<usize>,
    root: Seq<int>,
    faces: Seq<[u32; 3]>,
    flag: bool,
) -> bool {
    &&& forall|u: int, v: int|
        0 <= u < tris.len() && visited[u] && visited[v] && #[trigger] linked(tris, n, u, v) ==> root[u] == root[v]
    &&& forall|i: int, k: int|
        head <= i < queue.len() && head <= k < queue.len() ==> root[#[trigger] queue[i] as int]
            == root[#[trigger] queue[k] as int]
    &&& forall|v: int| 0 <= v < tris.len() && #[trigger] visited[v] ==> 0 <= root[v] < tris.len() && visited[root[v]]
    &&& forall|g: Seq<[u32; 3]>, v: int|
        #![trigger is_consistent_winding(g, tris, n), visited[v]]
        is_consistent_winding(g, tris, n) && 0 <= v < tris.len() && visited[v] ==> ((faces[v] == g[v]) == (
        faces[root[v]] == g[root[v]]))
    &&& flag ==> forall|g: Seq<[u32; 3]>| !#[trigger] is_consistent_winding(g, tris, n)
}

/// Against a consistent winding, two valid triangles sharing the edge `e`,
/// each kept or flipped, agree with it alike exactly when they cross `e`
/// in opposite directions.
proof fn lemma_pair_agree(
    tris: Seq<[u32; 3]>,
    n: usize,
    g: Seq<[u32; 3]>,
    faces: Seq<[u32; 3]>,
    f: int,
    h: int,
    jj: int,
)
    requires
        tris.len() <= u32::MAX,
        0 <= f < tris.len(),
        0 <= jj < 3,
        neighbour(tris, n, f, jj) == Some(h as u32),
        0 <= h < tris.len(),
        is_consistent_winding(g, tris, n),
        faces.len() == tris.len(),
        faces[f] == tris[f] || faces[f] == flip3(tris[f]),
        faces[h] == tris[h] || faces[h] == flip3(tris[h]),
    ensures
        opposite_on(faces[f], faces[h], side_key(tris[f], jj)) == ((faces[f] == g[f]) == (faces[h] == g[h])),
{
    let e = side_key(tris[f], jj);
    lemma_neighbour_range(tris, n, f, jj);
    lemma_owners_props(tris, n, e);
    let tf = tris[f];
    let to = tris[h];
    assert(face_has_edge(tf, e));
    let o = owners(tris, n, e);
    assert(h == o[0] as int || h == o[1] as int);
    if h == o[0] as int {
        assert(face_has_edge(tris[o[0] as int], e));
    } else {
        assert(face_has_edge(tris[o[1] as int], e));
    }
    assert(face_has_edge(to, e));
    assert(face_ok(to, n));
    assert(g[f] == tf || (face_ok(tf, n) && g[f] == flip3(tf)));
    assert(g[h] == to || (face_ok(to, n) && g[h] == flip3(to)));
    lemma_dir(faces[f], tf, n, e);
    lemma_dir(g[f], tf, n, e);
    lemma_dir(faces[h], to, n, e);
    lemma_dir(g[h], to, n, e);
    assert(opposite_on(g[f], g[h], e));
    lemma_opp(faces[f], faces[h], e);
    lemma_opp(g[f], g[h], e);
}

/// Visiting `other` from the head `fi` of the queue, with a winding
/// opposite to `fi` on their shared edge, keeps the walk coherent.
proof fn lemma_visit_coherent(
    tris: Seq<[u32; 3]>,
    n: usize,
    head: int,
    done: Seq<bool>,
    vis0: Seq<bool>,
    q0: Seq<usize>,
    root0: Seq<int>,
    faces0: Seq<[u32; 3]>,
    flag: bool,
    vis1: Seq<bool>,
    q1: Seq<usize>,
    root1: Seq<int>,
    faces1: Seq<[u32; 3]>,
    fi: int,
    other: int,
    jj: int,
)
    requires
        tris.len() <= u32::MAX,
        coherent_at(tris, n, head, vis0, q0, root0, faces0, flag),
        vis0.len() == tris.len(),
        faces0.len() == tris.len(),
        root0.len() == tris.len(),
        forall|f: int, j: int|
            0 <= f < tris.len() && done[f] && 0 <= j < 3 && #[trigger] neighbour(tris, n, f, j) is Some
                ==> vis0[neighbour(tris, n, f, j)->0 as int],
        forall|f: int|
            0 <= f < tris.len() && #[trigger] vis0[f] ==> done[f] || q0.subrange(head, q0.len() as int).contains(
                f as usize,
            ),
        forall|i: int| 0 <= i < q0.len() ==> (#[trigger] q0[i] as int) < tris.len() && vis0[q0[i] as int],
        forall|f: int|
            0 <= f < tris.len() ==> #[trigger] faces0[f] == tris[f] || (face_ok(tris[f], n) && faces0[f] == flip3(
                tris[f],
            )),
        0 <= head < q0.len(),
        q0[head] as int == fi,
        0 <= fi < tris.len(),
        vis0[fi],
        0 <= jj < 3,
        neighbour(tris, n, fi, jj) == Some(other as u32),
        0 <= other < tris.len(),
        !vis0[other],
        vis1 == vis0.update(other, true),
        q1 == q0.push(other as usize),
        root1 == root0.update(other, root0[fi]),
        faces1.len() == tris.len(),
        forall|f: int| 0 <= f < tris.len() && f != other ==> #[trigger] faces1[f] == faces0[f],
        faces1[other] == tris[other] || faces1[other] == flip3(tris[other]),
        opposite_on(faces1[fi], faces1[other], side_key(tris[fi], jj)),
    ensures
        coherent_at(tris, n, head, vis1, q1, root1, faces1, flag),
{
    reveal(coherent_at);
    lemma_neighbour_range(tris, n, fi, jj);
    let r = root0[fi];
    assert(vis0[fi]);
    assert(vis0[root0[fi]]);
    assert(r != other);
    assert forall|i: int| head <= i < q1.len() implies root1[#[trigger] q1[i] as int] == r by {
        if i < q0.len() {
            assert(q1[i] == q0[i]);
            assert(vis0[q0[i] as int]);
            assert(root0[q0[i] as int] == root0[q0[head] as int]);
        }
    }
    assert forall|u: int, v: int|
        0 <= u < tris.len() && vis1[u] && vis1[v] && #[trigger] linked(tris, n, u, v) implies root1[u] == root1[v] by {
        if u != other || v != other {
            if u == other || v == other {
                let w = if u == other { v } else { u };
                if u == other {
                    lemma_linked_sym(tris, n, u, v);
                }
                assert(linked(tris, n, w, other));
                assert(vis0[w]);
                if done[w] {
                    let j = choose|j: int| 0 <= j < 3 && neighbour(tris, n, w, j) == Some(other as u32);
                    assert(vis0[neighbour(tris, n, w, j)->0 as int]);
                    assert(false);
                }
                let q = q0.subrange(head, q0.len() as int);
                assert(q.contains(w as usize));
                let i = q.index_of(w as usize);
                assert(q0[head + i] == w as usize);
                assert(q1[head + i] == w as usize);
                assert(root1[q1[head + i] as int] == r);
            } else {
                assert(vis0[u] && vis0[v]);
            }
        }
    }
    assert forall|v: int| 0 <= v < tris.len() && #[trigger] vis1[v] implies 0 <= root1[v] < tris.len() && vis1[root1[v]] by {
        if v != other {
            assert(vis0[v]);
        }
    }
    assert forall|g: Seq<[u32; 3]>, v: int|
        #![trigger is_consistent_winding(g, tris, n), vis1[v]]
        is_consistent_winding(g, tris, n) && 0 <= v < tris.len() && vis1[v] implies ((faces1[v] == g[v]) == (
        faces1[root1[v]] == g[root1[v]])) by {
        if v == other {
            assert(vis0[fi]);
            assert(faces1[fi] == faces0[fi]);
            assert(faces1[r] == faces0[r]);
            lemma_pair_agree(tris, n, g, faces1, fi, other, jj);
        } else {
            assert(vis0[v]);
            assert(vis0[root0[v]]);
            assert(faces1[v] == faces0[v]);
            assert(faces1[root0[v]] == faces0[root0[v]]);
        }
    }
}

/// Two visited neighbours that cross their shared edge the same way rule
/// out every consistent winding.
proof fn lemma_conflict_coherent(
    tris: Seq<[u32; 3]>,
    n: usize,
    head: int,
    vis: Seq<bool>,
    q: Seq<usize>,
    root: Seq<int>,
    faces: Seq<[u32; 3]>,
    flag: bool,
    fi: int,
    other: int,
    jj: int,
)
    requires
        tris.len() <= u32::MAX,
        coherent_at(tris, n, head, vis, q, root, faces, flag),
        faces.len() == tris.len(),
        forall|f: int|
            0 <= f < tris.len() ==> #[trigger] faces[f] == tris[f] || (face_ok(tris[f], n) && faces[f] == flip3(
                tris[f],
            )),
        0 <= fi < tris.len(),
        vis[fi],
        vis[other],
        0 <= jj < 3,
        neighbour(tris, n, fi, jj) == Some(other as u32),
        0 <= other < tris.len(),
        !opposite_on(faces[fi], faces[other], side_key(tris[fi], jj)),
    ensures
        coherent_at(tris, n, head, vis, q, root, faces, true),
{
    reveal(coherent_at);
    lemma_neighbour_range(tris, n, fi, jj);
    assert(linked(tris, n, fi, other));
    assert(root[fi] == root[other]);
    assert forall|g: Seq<[u32; 3]>| !#[trigger] is_consistent_winding(g, tris, n) by {
        if is_consistent_winding(g, tris, n) {
            assert(vis[fi] && vis[other]);
            lemma_pair_agree(tris, n, g, faces, fi, other, jj);
        }
    }
}

proof fn lemma_coherent_init(tris: Seq<[u32; 3]>, n: usize, vis: Seq<bool>, q: Seq<usize>, root: Seq<int>, faces: Seq<[u32; 3]>)
    requires
        forall|f: int| 0 <= f < tris.len() ==> !#[trigger] vis[f],
        q.len() == 0,
    ensures
        coherent_at(tris, n, 0, vis, q, root, faces, false),
{
    reveal(coherent_at);
}

proof fn lemma_coherent_head(
    tris: Seq<[u32; 3]>,
    n: usize,
    head: int,
    vis: Seq<bool>,
    q: Seq<usize>,
    root: Seq<int>,
    faces: Seq<[u32; 3]>,
    flag: bool,
)
    requires
        coherent_at(tris, n, head, vis, q, root, faces, flag),
    ensures
        coherent_at(tris, n, head + 1, vis, q, root, faces, flag),
        flag ==> forall|g: Seq<[u32; 3]>| !#[trigger] is_consistent_winding(g, tris, n),
{
    reveal(coherent_at);
}

/// Starting a new flood fill at an unvisited triangle, with nothing
/// pending and the visited set closed under neighbours, keeps the walk
/// coherent.
proof fn lemma_seed_coherent(
    tris: Seq<[u32; 3]>,
    n: usize,
    head: int,
    vis0: Seq<bool>,
    q0: Seq<usize>,
    root0: Seq<int>,
    faces: Seq<[u32; 3]>,
    flag: bool,
    vis1: Seq<bool>,
    q1: Seq<usize>,
    root1: Seq<int>,
    seed: int,
)
    requires
        tris.len() <= u32::MAX,
        coherent_at(tris, n, head, vis0, q0, root0, faces, flag),
        head == q0.len(),
        vis0.len() == tris.len(),
        root0.len() == tris.len(),
        forall|a: int, b: int| 0 <= a < tris.len() && vis0[a] && #[trigger] linked(tris, n, a, b) ==> vis0[b],
        0 <= seed < tris.len(),
        !vis0[seed],
        vis1 == vis0.update(seed, true),
        q1 == q0.push(seed as usize),
        root1 == root0.update(seed, seed),
    ensures
        coherent_at(tris, n, head, vis1, q1, root1, faces, flag),
{
    reveal(coherent_at);
    assert forall|u: int, v: int|
        0 <= u < tris.len() && vis1[u] && vis1[v] && #[trigger] linked(tris, n, u, v) implies root1[u] == root1[v] by {
        if u != seed || v != seed {
            if u == seed {
                lemma_linked_sym(tris, n, u, v);
                assert(vis0[v]);
                assert(vis0[seed]);
            } else if v == seed {
                assert(vis0[u]);
                assert(vis0[seed]);
            } else {
                assert(vis0[u] && vis0[v]);
            }
        }
    }
    assert forall|i: int, k: int|
        head <= i < q1.len() && head <= k < q1.len() implies root1[#[trigger] q1[i] as int] == root1[#[trigger] q1[k] as int] by {
        assert(i == head && k == head);
    }
    assert forall|v: int| 0 <= v < tris.len() && #[trigger] vis1[v] implies 0 <= root1[v] < tris.len() && vis1[root1[v]] by {
        if v != seed {
            assert(vis0[v]);
        }
    }
    assert forall|g: Seq<[u32; 3]>, v: int|
        #![trigger is_consistent_winding(g, tris, n), vis1[v]]
        is_consistent_winding(g, tris, n) && 0 <= v < tris.len() && vis1[v] implies ((faces[v] == g[v]) == (
        faces[root1[v]] == g[root1[v]])) by {
        if v != seed {
            assert(vis0[v]);
        }
    }
}

/// The winding of triangle `f` was fixed from its walk parent `par[f]`, a
/// valid triangle reached earlier (`rank`) that shares a manifold-interior
/// edge with `f`, which the two cross in opposite directions.
pub open spec fn wound_from(
    tris: Seq<[u32; 3]>,
    n: usize,
    faces: Seq<[u32; 3]>,
    par: Seq<int>,
    rank: Seq<int>,
    f: int,
) -> bool {
    &&& 0 <= par[f] < tris.len()
    &&& rank[par[f]] < rank[f]
    &&& exists|j: int|
        0 <= j < 3 && #[trigger] neighbour(tris, n, par[f], j) == Some(f as u32) && opposite_on(
            faces[par[f]],
            faces[f],
            side_key(tris[par[f]], j),
        )
}

/// The walk tree so far: each visited triangle sits at its queue position
/// `pos`, and is either a component seed (its own parent) or was wound from
/// its parent.
#[verifier::opaque]
spec fn tree_at(
    tris: Seq<[u32; 3]>,
    n: usize,
    visited: Seq<bool>,
    queue: Seq<usize>,
    par: Seq<int>,
    pos: Seq<int>,
    faces: Seq<[u32; 3]>,
) -> bool {
    &&& par.len() == tris.len()
    &&& pos.len() == tris.len()
    &&& forall|v: int|
        0 <= v < tris.len() && #[trigger] visited[v] ==> 0 <= pos[v] < queue.len() && queue[pos[v]] as int == v
            && 0 <= par[v] < tris.len() && visited[par[v]]
    &&& forall|v: int| 0 <= v < tris.len() && #[trigger] visited[v] && par[v] == v ==> component_seed(tris, n, v)
    &&& forall|v: int|
        0 <= v < tris.len() && #[trigger] visited[v] && par[v] != v ==> wound_from(tris, n, faces, par, pos, v)
}

proof fn lemma_wound_keep(
    tris: Seq<[u32; 3]>,
    n: usize,
    faces0: Seq<[u32; 3]>,
    faces1: Seq<[u32; 3]>,
    par0: Seq<int>,
    pos0: Seq<int>,
    par1: Seq<int>,
    pos1: Seq<int>,
    v: int,
)
    requires
        wound_from(tris, n, faces0, par0, pos0, v),
        par1[v] == par0[v],
        pos1[v] == pos0[v],
        pos1[par0[v]] == pos0[par0[v]],
        faces1[v] == faces0[v],
        faces1[par0[v]] == faces0[par0[v]],
    ensures
        wound_from(tris, n, faces1, par1, pos1, v),
{
    let p = par0[v];
    let j = choose|j: int|
        0 <= j < 3 && #[trigger] neighbour(tris, n, p, j) == Some(v as u32) && opposite_on(faces0[p], faces0[v], side_key(tris[p], j));
    assert(neighbour(tris, n, par1[v], j) == Some(v as u32));
}

proof fn lemma_tree_init(tris: Seq<[u32; 3]>, n: usize, vis: Seq<bool>, q: Seq<usize>, faces: Seq<[u32; 3]>)
    requires
        forall|f: int| 0 <= f < tris.len() ==> !#[trigger] vis[f],
    ensures
        tree_at(tris, n, vis, q, Seq::new(tris.len(), |f: int| f), Seq::new(tris.len(), |f: int| 0int), faces),
{
    reveal(tree_at);
}

proof fn lemma_tree_seed(
    tris: Seq<[u32; 3]>,
    n: usize,
    vis0: Seq<bool>,
    q0: Seq<usize>,
    par0: Seq<int>,
    pos0: Seq<int>,
    faces: Seq<[u32; 3]>,
    seed: int,
)
    requires
        tree_at(tris, n, vis0, q0, par0, pos0, faces),
        vis0.len() == tris.len(),
        tris.len() <= u32::MAX,
        0 <= seed < tris.len(),
        !vis0[seed],
        component_seed(tris, n, seed),
    ensures
        tree_at(
            tris,
            n,
            vis0.update(seed, true),
            q0.push(seed as usize),
            par0.update(seed, seed),
            pos0.update(seed, q0.len() as int),
            faces,
        ),
{
    reveal(tree_at);
    let vis1 = vis0.update(seed, true);
    let q1 = q0.push(seed as usize);
    let par1 = par0.update(seed, seed);
    let pos1 = pos0.update(seed, q0.len() as int);
    assert forall|v: int| 0 <= v < tris.len() && #[trigger] vis1[v] implies 0 <= pos1[v] < q1.len() && q1[pos1[v]] as int == v
        && 0 <= par1[v] < tris.len() && vis1[par1[v]] by {
        if v != seed {
            assert(vis0[v]);
            assert(q1[pos1[v]] == q0[pos0[v]]);
        }
    }
    assert forall|v: int| 0 <= v < tris.len() && #[trigger] vis1[v] && par1[v] != v implies wound_from(tris, n, faces, par1, pos1, v) by {
        assert(vis0[v]);
        assert(vis0[par0[v]]);
        assert(par0[v] != seed);
        lemma_wound_keep(tris, n, faces, faces, par0, pos0, par1, pos1, v);
    }
}

#[verifier::spinoff_prover]
#[verifier::rlimit(50)]
proof fn lemma_tree_visit(
    tris: Seq<[u32; 3]>,
    n: usize,
    vis0: Seq<bool>,
    q0: Seq<usize>,
    par0: Seq<int>,
    pos0: Seq<int>,
    faces0: Seq<[u32; 3]>,
    faces1: Seq<[u32; 3]>,
    fi: int,
    other: int,
    jj: int,
)
    requires
        tree_at(tris, n, vis0, q0, par0, pos0, faces0),
        vis0.len() == tris.len(),
        tris.len() <= u32::MAX,
        0 <= fi < tris.len(),
        vis0[fi],
        0 <= other < tris.len(),
        !vis0[other],
        0 <= jj < 3,
        neighbour(tris, n, fi, jj) == Some(other as u32),
        faces1.len() == tris.len(),
        forall|f: int| 0 <= f < tris.len() && f != other ==> #[trigger] faces1[f] == faces0[f],
        opposite_on(faces1[fi], faces1[other], side_key(tris[fi], jj)),
    ensures
        tree_at(
            tris,
            n,
            vis0.update(other, true),
            q0.push(other as usize),
            par0.update(other, fi),
            pos0.update(other, q0.len() as int),
            faces1,
        ),
{
    reveal(tree_at);
    let vis1 = vis0.update(other, true);
    let q1 = q0.push(other as usize);
    let par1 = par0.update(other, fi);
    let pos1 = pos0.update(other, q0.len() as int);
    assert(fi != other);
    assert forall|v: int| 0 <= v < tris.len() && #[trigger] vis1[v] implies 0 <= pos1[v] < q1.len() && q1[pos1[v]] as int == v
        && 0 <= par1[v] < tris.len() && vis1[par1[v]] by {
        if v != other {
            assert(vis0[v]);
            assert(q1[pos1[v]] == q0[pos0[v]]);
        }
    }
    assert forall|v: int| 0 <= v < tris.len() && #[trigger] vis1[v] && par1[v] == v implies component_seed(tris, n, v) by {
        if v != other {
            assert(vis0[v]);
        }
    }
    assert forall|v: int| 0 <= v < tris.len() && #[trigger] vis1[v] && par1[v] != v implies wound_from(tris, n, faces1, par1, pos1, v) by {
        if v == other {
            assert(pos1[fi] == pos0[fi]);
            assert(neighbour(tris, n, par1[v], jj) == Some(v as u32));
        } else {
            assert(vis0[v]);
            let p = par0[v];
            assert(vis0[p]);
            assert(p != other);
            lemma_wound_keep(tris, n, faces0, faces1, par0, pos0, par1, pos1, v);
        }
    }
}

struct OrientWalk {
    faces: Vec<[u32; 3]>,
    flip: Vec<bool>,
    visited: Vec<bool>,
    queue: Vec<usize>,
    flipped: usize,
    flag: bool,
    /// The seed triangle whose flood fill reached each visited triangle.
    root: Ghost<Seq<int>>,
    /// The triangle each visited triangle was reached from (itself for a
    /// seed).
    par: Ghost<Seq<int>>,
    /// The queue position of each visited triangle.
    pos: Ghost<Seq<int>>,
}

impl OrientWalk {
    spec fn ok(&self, tris: Seq<[u32; 3]>, n: usize, done: Seq<bool>, head: int) -> bool {
        &&& walk_ok(tris, n, self.faces@, self.flip@, self.visited@, done, self.flag)
        &&& tris.len() <= u32::MAX
        &&& 0 <= head <= self.queue@.len()
        &&& self.queue@.len() == count_where(tris.len(), |f: int| self.visited@[f])
        &&& forall|i: int|
            0 <= i < self.queue@.len() ==> (#[trigger] self.queue@[i] as int) < tris.len()
                && self.visited@[self.queue@[i] as int]
        &&& forall|f: int|
            0 <= f < tris.len() && #[trigger] self.visited@[f] ==> done[f]
                || self.queue@.subrange(head, self.queue@.len() as int).contains(f as usize)
        &&& self.flipped == count_where(tris.len(), |f: int| self.flip@[f])
        &&& self.root@.len() == tris.len()
        &&& forall|v: int|
            0 <= v < tris.len() && #[trigger] self.visited@[v] ==> 0 <= self.root@[v] < tris.len()
                && reaches(tris, n, self.root@[v], v)
        &&& self.flag ==> exists|f: int, j: int| #[trigger] miswound(tris, n, self.faces@, f, j) && self.visited@[f]
            && self.visited@[neighbour(tris, n, f, j)->0 as int]
    }

    /// See [`coherent_at`].
    spec fn coherent(&self, tris: Seq<[u32; 3]>, n: usize, head: int) -> bool {
        coherent_at(tris, n, head, self.visited@, self.queue@, self.root@, self.faces@, self.flag)
    }

    /// Settle the edge `a → b` walked by the visited triangle `fi`.
    #[verifier::spinoff_prover]
    #[verifier::rlimit(40)]
    fn settle(
        &mut self,
        table: &EdgeTable,
        Ghost(tris): Ghost<Seq<[u32; 3]>>,
        n: usize,
        Ghost(done): Ghost<Seq<bool>>,
        Ghost(head): Ghost<int>,
        fi: usize,
        a: u32,
        b: u32,
    )
        requires
            old(self).ok(tris, n, done, head),
            table.describes(tris, n),
            table.lookup_ok(),
            fi < tris.len(),
            old(self).visited@[fi as int],
            traverses(old(self).faces@[fi as int], a, b),
            old(self).coherent(tris, n, head),
            tree_at(tris, n, old(self).visited@, old(self).queue@, old(self).par@, old(self).pos@, old(self).faces@),
            head < old(self).queue@.len(),
            old(self).queue@[head] == fi,
        ensures
            final(self).ok(tris, n, done, head),
            final(self).coherent(tris, n, head),
            tree_at(tris, n, final(self).visited@, final(self).queue@, final(self).par@, final(self).pos@, final(self).faces@),
            forall|f: int|
                0 <= f < tris.len() && old(self).visited@[f] ==> #[trigger] final(self).visited@[f]
                    && final(self).faces@[f] == old(self).faces@[f],
            forall|f: int| 0 <= f < tris.len() && #[trigger] final(self).visited@[f] && !old(self).visited@[f] ==> f != fi,
            old(self).flag ==> final(self).flag,
            old(self).queue@.len() <= final(self).queue@.len(),
            forall|v: int| 0 <= v < tris.len() && old(self).visited@[v] ==> #[trigger] final(self).root@[v] == old(self).root@[v],
            forall|v: int| 0 <= v < tris.len() && #[trigger] final(self).visited@[v] && !old(self).visited@[v] ==> final(self).root@[v] == old(self).root@[fi as int],
            forall|i: int| 0 <= i < old(self).queue@.len() ==> #[trigger] final(self).queue@[i] == old(self).queue@[i],
            edge_settled(tris, n, final(self).faces@, final(self).visited@, final(self).flag, fi as int, ukey(a, b)),
    {
        let ghost len = tris.len();
        let e = ukey_exec(a, b);
        proof {
            let t = tris[fi as int];
            lemma_flip_facts(t, n);
            assert(face_ok(t, n));
            assert(traverses(t, a, b) || traverses(flip3(t), a, b));
            assert(face_has_edge(t, e));
            lemma_owners_props(tris, n, e);
            assert(owners(tris, n, e).contains(fi));
        }
        let k = match table.find(e) {
            Some(k) => k,
            None => {
                assert(false);
                return ;
            },
        };
        assert(table.owners@[k as int]@ == owners(tris, n, e));
        if table.owners[k].len() != 2 {
            return ;
        }
        let o0 = table.owners[k][0];
        let o1 = table.owners[k][1];
        let other = if o0 == fi {
            o1
        } else {
            o0
        };
        proof {
            let o = owners(tris, n, e);
            assert(o[0] < o[1]);
            assert(other as int == other_owner(o, fi as int));
            assert(other != fi);
            lemma_flip_facts(tris[other as int], n);
        }
        let nb = self.faces[other];
        let nb_same = traverses_exec(nb, a, b);
        let nb_opp = traverses_exec(nb, b, a);
        let want_flip = nb_same && !nb_opp;
        if !self.visited[other] {
            let ghost old_vis = self.visited@;
            let ghost old_flip = self.flip@;
            self.visited.set(other, true);
            self.queue.push(other);
            proof {
                lemma_count_where_set(len, |f: int| old_vis[f], |f: int| self.visited@[f], other as int);
                let r = self.root@[fi as int];
                assert(reaches(tris, n, r, fi as int));
                let p = choose|p: Seq<int>| is_path(tris, n, p) && p[0] == r && p.last() == fi as int;
                let jj = if side_key(tris[fi as int], 0) == e { 0int } else if side_key(tris[fi as int], 1) == e { 1int } else { 2int };
                assert(side_key(tris[fi as int], jj) == e);
                assert(neighbour(tris, n, fi as int, jj) == Some(other as u32));
                assert(linked(tris, n, fi as int, other as int));
                let p2 = p.push(other as int);
                assert(is_path(tris, n, p2)) by {
                    assert forall|i: int| 0 <= i < p2.len() - 1 implies #[trigger] linked(tris, n, p2[i], p2[i + 1]) by {
                        if i < p.len() - 1 {
                            assert(linked(tris, n, p[i], p[i + 1]));
                        }
                    }
                }
                assert(p2[0] == r && p2.last() == other as int);
                self.root@ = self.root@.update(other as int, r);
                self.par@ = self.par@.update(other as int, fi as int);
                self.pos@ = self.pos@.update(other as int, old(self).queue@.len() as int);
                assert forall|v: int|
                    0 <= v < len && #[trigger] self.visited@[v] implies 0 <= self.root@[v] < len
                        && reaches(tris, n, self.root@[v], v) by {
                    if v != other as int {
                        assert(old_vis[v]);
                    }
                }
            }
            if want_flip {
                let t = tris_at(&self.faces, other);
                self.flip.set(other, true);
                self.faces.set(other, [t[0], t[2], t[1]]);
                proof {
                    lemma_count_where_le(len, |f: int| self.flip@[f]);
                    lemma_count_where_set(len, |f: int| old_flip[f], |f: int| self.flip@[f], other as int);
                    assert(self.faces@[other as int] =~= flip3(tris[other as int]));
                }
                self.flipped = self.flipped + 1;
            }
            proof {
                let t = tris[other as int];
                assert(self.faces@[other as int] == t || self.faces@[other as int] == flip3(t));
                if self.flag {
                    let (wf, wj) = choose|f: int, j: int| #[trigger] miswound(tris, n, old(self).faces@, f, j)
                        && old(self).visited@[f] && old(self).visited@[neighbour(tris, n, f, j)->0 as int];
                    lemma_neighbour_range(tris, n, wf, wj);
                    let wg = neighbour(tris, n, wf, wj)->0 as int;
                    assert(self.faces@[wf] == old(self).faces@[wf]);
                    assert(self.faces@[wg] == old(self).faces@[wg]);
                    assert(miswound(tris, n, self.faces@, wf, wj));
                }
                assert(opposite_on(self.faces@[fi as int], self.faces@[other as int], e)) by {
                    let x = self.faces@[fi as int];
                    let y = self.faces@[other as int];
                    lemma_flip_facts(tris[fi as int], n);
                    assert forall|c: u32, d: u32| ukey(c, d) == e && #[trigger] traverses(x, c, d) implies !#[trigger] traverses(y, c, d) by {
                        assert(x == tris[fi as int] || x == flip3(tris[fi as int]));
                        if c == a {
                            assert(d == b);
                        } else {
                            assert(c == b && d == a);
                            assert(traverses(x, a, b));
                        }
                    }
                }
                assert forall|f: int, j: int|
                    0 <= f < len && done[f] && 0 <= j < 3 && #[trigger] neighbour(tris, n, f, j)
                        is Some implies self.visited@[neighbour(tris, n, f, j)->0 as int] && (self.flag || opposite_on(
                        self.faces@[f],
                        self.faces@[neighbour(tris, n, f, j)->0 as int],
                        side_key(tris[f], j),
                    )) by {
                    let g = neighbour(tris, n, f, j)->0 as int;
                    lemma_neighbour_range(tris, n, f, j);
                    assert(old(self).visited@[g]);
                    assert(old(self).visited@[f]);
                    assert(self.faces@[f] == old(self).faces@[f]);
                    assert(self.faces@[g] == old(self).faces@[g]);
                }
                assert(walk_ok(tris, n, self.faces@, self.flip@, self.visited@, done, self.flag));
                assert forall|i: int|
                    0 <= i < self.queue@.len() implies (#[trigger] self.queue@[i] as int) < len
                        && self.visited@[self.queue@[i] as int] by {
                    if i < self.queue@.len() - 1 {
                        assert(old(self).queue@[i] == self.queue@[i]);
                    }
                }
                assert forall|f: int|
                    0 <= f < len && #[trigger] self.visited@[f] implies done[f]
                        || self.queue@.subrange(head, self.queue@.len() as int).contains(f as usize) by {
                    if f == other as int {
                        assert(self.queue@.subrange(head, self.queue@.len() as int)[self.queue@.len() - 1 - head] == other);
                    } else {
                        if !done[f] {
                            let q = old(self).queue@.subrange(head, old(self).queue@.len() as int);
                            let i = q.index_of(f as usize);
                            assert(self.queue@.subrange(head, self.queue@.len() as int)[i] == f as usize);
                        }
                    }
                }
            }
            proof {
                let jj = if side_key(tris[fi as int], 0) == e { 0int } else if side_key(tris[fi as int], 1) == e { 1int } else { 2int };
                assert(side_key(tris[fi as int], jj) == e);
                assert(neighbour(tris, n, fi as int, jj) == Some(other as u32));
                assert forall|f: int| 0 <= f < len implies #[trigger] old(self).faces@[f] == tris[f] || (face_ok(tris[f], n)
                    && old(self).faces@[f] == flip3(tris[f])) by {
                    if old(self).flip@[f] {
                        assert(old(self).visited@[f]);
                    }
                }
                assert forall|i: int| 0 <= i < old(self).queue@.len() implies (#[trigger] old(self).queue@[i] as int) < len
                    && old(self).visited@[old(self).queue@[i] as int] by {}
                lemma_visit_coherent(
                    tris, n, head, done,
                    old(self).visited@, old(self).queue@, old(self).root@, old(self).faces@, self.flag,
                    self.visited@, self.queue@, self.root@, self.faces@,
                    fi as int, other as int, jj,
                );
                lemma_tree_visit(
                    tris, n,
                    old(self).visited@, old(self).queue@, old(self).par@, old(self).pos@, old(self).faces@, self.faces@,
                    fi as int, other as int, jj,
                );
                assert(self.visited@ == old(self).visited@.update(other as int, true));
                assert(self.queue@ == old(self).queue@.push(other));
            }
        } else if want_flip {
            self.flag = true;
            proof {
                let jj0 = if side_key(tris[fi as int], 0) == e { 0int } else if side_key(tris[fi as int], 1) == e { 1int } else { 2int };
                assert(side_key(tris[fi as int], jj0) == e);
                assert(neighbour(tris, n, fi as int, jj0) == Some(other as u32));
                let x = self.faces@[fi as int];
                assert(ukey(a, b) == e && traverses(x, a, b) && traverses(nb, a, b));
                assert(!opposite_on(x, nb, e));
                assert forall|f: int| 0 <= f < len implies #[trigger] self.faces@[f] == tris[f] || (face_ok(tris[f], n)
                    && self.faces@[f] == flip3(tris[f])) by {
                    if self.flip@[f] {
                        assert(self.visited@[f]);
                    }
                }
                lemma_conflict_coherent(
                    tris, n, head,
                    self.visited@, self.queue@, self.root@, self.faces@, old(self).flag,
                    fi as int, other as int, jj0,
                );
            }
            proof {
                let x = self.faces@[fi as int];
                let jj = if side_key(tris[fi as int], 0) == e { 0int } else if side_key(tris[fi as int], 1) == e { 1int } else { 2int };
                assert(side_key(tris[fi as int], jj) == e);
                assert(neighbour(tris, n, fi as int, jj) == Some(other as u32));
                assert(ukey(a, b) == e && traverses(x, a, b) && traverses(nb, a, b));
                assert(!opposite_on(x, nb, e));
                assert(miswound(tris, n, self.faces@, fi as int, jj));
            }
        } else {
            proof {
                let x = self.faces@[fi as int];
                let y = self.faces@[other as int];
                lemma_flip_facts(tris[fi as int], n);
                assert forall|c: u32, d: u32| ukey(c, d) == e && #[trigger] traverses(x, c, d) implies !#[trigger] traverses(y, c, d) by {
                    if c == a {
                        assert(d == b);
                    } else {
                        assert(c == b && d == a);
                    }
                }
            }
        }
    }
}

/// Triangle `f` and its neighbour across side `j` walk that shared edge
/// in the same direction in `faces`.
pub open spec fn miswound(tris: Seq<[u32; 3]>, n: usize, faces: Seq<[u32; 3]>, f: int, j: int) -> bool {
    &&& 0 <= f < tris.len()
    &&& 0 <= j < 3
    &&& neighbour(tris, n, f, j) is Some
    &&& !opposite_on(faces[f], faces[neighbour(tris, n, f, j)->0 as int], side_key(tris[f], j))
}

/// `faces` is `tris` with a consistent winding propagated across every
/// manifold-interior edge: each triangle is kept or flipped, excluded
/// triangles and the first valid triangle of each edge-connected component
/// are kept, and — when the walk found no contradiction — every two
/// triangles sharing a manifold-interior edge cross it in opposite
/// directions. The flag is raised exactly when no consistent winding of
/// the triangles exists. Every other valid triangle took its winding from a
/// walk parent reached before it, opposite to it on their shared edge, so
/// the windings follow the walk's first assignments.
pub open spec fn is_orientation(
    faces: Seq<[u32; 3]>,
    r: OrientationReport,
    tris: Seq<[u32; 3]>,
    n: usize,
) -> bool {
    &&& faces.len() == tris.len()
    &&& forall|f: int|
        0 <= f < tris.len() ==> #[trigger] faces[f] == tris[f] || (face_ok(tris[f], n)
            && faces[f] == flip3(tris[f]))
    &&& r.flipped_count == count_where(tris.len(), |f: int| faces[f] != tris[f])
    &&& r.component_count == count_where(tris.len(), |f: int| component_seed(tris, n, f))
    &&& forall|f: int| 0 <= f < tris.len() && #[trigger] component_seed(tris, n, f) ==> faces[f] == tris[f]
    &&& !r.non_orientable ==> forall|f: int, j: int|
        0 <= f < tris.len() && 0 <= j < 3 && #[trigger] neighbour(tris, n, f, j) is Some
            ==> opposite_on(faces[f], faces[neighbour(tris, n, f, j)->0 as int], side_key(tris[f], j))
    &&& r.non_orientable ==> exists|f: int, j: int| #[trigger] miswound(tris, n, faces, f, j)
    &&& r.non_orientable ==> forall|g: Seq<[u32; 3]>| !#[trigger] is_consistent_winding(g, tris, n)
    &&& exists|par: Seq<int>, rank: Seq<int>| #[trigger] walk_wound(tris, n, faces, par, rank)
}

/// Every valid triangle that does not start its component was wound from
/// its walk parent ([`wound_from`]).
pub open spec fn walk_wound(tris: Seq<[u32; 3]>, n: usize, faces: Seq<[u32; 3]>, par: Seq<int>, rank: Seq<int>) -> bool {
    forall|f: int|
        0 <= f < tris.len() && face_ok(tris[f], n) && !component_seed(tris, n, f) ==> #[trigger] wound_from(
            tris,
            n,
            faces,
            par,
            rank,
            f,
        )
}

impl Connectivity {
    /// Propagate a consistent triangle winding across each edge-connected
    /// component (flood fill over manifold-interior edges, seeded at the
    /// lowest-index unvisited valid triangle, first in first out), flipping
    /// `[a, b, c] → [a, c, b]` every neighbour that walks a shared edge in the
    /// same direction. Returns the re-oriented triangle list, parallel to
    /// [`Connectivity::triangle_indices`], and the tally.
    pub fn orient_consistent(&self) -> (res: (Vec<[u32; 3]>, OrientationReport))
        requires
            self.triangles().len() <= u32::MAX,
        ensures
            is_orientation(res.0@, res.1, self.triangles(), self.vertex_count),
    {
        let tris = self.triangle_indices();
        let n = self.vertex_count;
        let len = tris.len();
        let table = EdgeTable::build(&tris, n);
        let mut faces: Vec<[u32; 3]> = Vec::new();
        let mut flip: Vec<bool> = Vec::new();
        let mut visited: Vec<bool> = Vec::new();
        let mut i: usize = 0;
        while i < len
            invariant
                len == tris@.len(),
                i <= len,
                faces@ == tris@.subrange(0, i as int),
                flip@ == Seq::new(i as nat, |f: int| false),
                visited@ == Seq::new(i as nat, |f: int| false),
            decreases len - i,
        {
            faces.push(tris[i]);
            flip.push(false);
            visited.push(false);
            i = i + 1;
        }
        let mut w = OrientWalk {
            faces,
            flip,
            visited,
            queue: Vec::new(),
            flipped: 0,
            flag: false,
            root: Ghost(Seq::new(len as nat, |f: int| 0int)),
            par: Ghost(Seq::new(len as nat, |f: int| f)),
            pos: Ghost(Seq::new(len as nat, |f: int| 0int)),
        };
        let ghost mut done: Seq<bool> = Seq::new(len as nat, |f: int| false);
        proof {
            assert(w.faces@ =~= tris@);
            assert(count_where(0, |f: int| component_seed(tris@, n, f)) == 0);
            lemma_count_where_ext(len as nat, |f: int| w.visited@[f], |f: int| false);
            lemma_count_where_ext(len as nat, |f: int| w.flip@[f], |f: int| false);
            lemma_count_zero(len as nat);
            lemma_coherent_init(tris@, n, w.visited@, w.queue@, w.root@, w.faces@);
            lemma_tree_init(tris@, n, w.visited@, w.queue@, w.faces@);
        }
        let mut head: usize = 0;
        let mut components: usize = 0;
        let mut seed: usize = 0;
        while seed < len
            invariant
                len == tris@.len(),
                tris@ == self.triangles(),
                n == self.vertex_count,
                table.describes(tris@, n),
                table.lookup_ok(),
                w.ok(tris@, n, done, head as int),
                head == w.queue@.len(),
                seed <= len,
                components == count_where(seed as nat, |f: int| component_seed(tris@, n, f)),
                forall|f: int| 0 <= f < seed && face_ok(#[trigger] tris@[f], n) ==> w.visited@[f],
                forall|v: int| 0 <= v < len && #[trigger] w.visited@[v] ==> w.root@[v] < seed,
                forall|f: int| 0 <= f < seed && #[trigger] component_seed(tris@, n, f) ==> w.faces@[f] == tris@[f],
                w.coherent(tris@, n, head as int),
                tree_at(tris@, n, w.visited@, w.queue@, w.par@, w.pos@, w.faces@),
            decreases len - seed,
        {
            let st = tris[seed];
            proof {
                lemma_count_where_le(seed as nat, |f: int| component_seed(tris@, n, f));
                lemma_closed_between_runs(tris@, n, &w, done, head as int);
            }
            if face_ok_exec(st, n) && !w.visited[seed] {
                proof {
                    assert forall|g: int| 0 <= g < seed implies !reaches(tris@, n, g, seed as int) by {
                        if reaches(tris@, n, g, seed as int) {
                            let p = choose|p: Seq<int>| is_path(tris@, n, p) && p[0] == g && p.last() == seed as int;
                            assert(p.len() >= 2);
                            let z: int = 0;
                            assert(linked(tris@, n, p[z], p[z + 1]));
                            assert(face_ok(tris@[g], n));
                            assert(w.visited@[g]);
                            lemma_path_stays(tris@, n, w.visited@, p);
                            assert(w.visited@[p[p.len() - 1]]);
                        }
                    }
                    assert(component_seed(tris@, n, seed as int));
                    assert(!w.flip@[seed as int]);
                    assert(w.faces@[seed as int] == tris@[seed as int]);
                }
                components = components + 1;
                let ghost old_vis = w.visited@;
                let ghost old_q = w.queue@;
                let ghost old_root = w.root@;
                let ghost old_par = w.par@;
                let ghost old_pos = w.pos@;
                w.visited.set(seed, true);
                w.queue.push(seed);
                proof {
                    let p = seq![seed as int];
                    assert(is_path(tris@, n, p));
                    w.root@ = w.root@.update(seed as int, seed as int);
                    lemma_seed_coherent(tris@, n, head as int, old_vis, old_q, old_root, w.faces@, w.flag, w.visited@, w.queue@, w.root@, seed as int);
                    lemma_tree_seed(tris@, n, old_vis, old_q, old_par, old_pos, w.faces@, seed as int);
                    w.par@ = w.par@.update(seed as int, seed as int);
                    w.pos@ = w.pos@.update(seed as int, old_q.len() as int);
                    assert(w.visited@ == old_vis.update(seed as int, true));
                    assert(w.queue@ == old_q.push(seed));
                    assert forall|v: int|
                        0 <= v < len && #[trigger] w.visited@[v] implies 0 <= w.root@[v] < len
                            && reaches(tris@, n, w.root@[v], v) by {
                        if v == seed as int {
                            assert(p[0] == seed as int && p.last() == seed as int);
                        } else {
                            assert(old_vis[v]);
                        }
                    }
                    lemma_count_where_set(len as nat, |f: int| old_vis[f], |f: int| w.visited@[f], seed as int);
                    assert forall|f: int|
                        0 <= f < len && #[trigger] w.visited@[f] implies done[f]
                            || w.queue@.subrange(head as int, w.queue@.len() as int).contains(f as usize) by {
                        if f == seed as int {
                            assert(w.queue@.subrange(head as int, w.queue@.len() as int)[0] == seed);
                        }
                    }
                    assert forall|i: int|
                        0 <= i < w.queue@.len() implies (#[trigger] w.queue@[i] as int) < len
                            && w.visited@[w.queue@[i] as int] by {}
                    assert forall|f: int, j: int|
                        0 <= f < len && done[f] && 0 <= j < 3 && #[trigger] neighbour(tris@, n, f, j)
                            is Some implies w.visited@[neighbour(tris@, n, f, j)->0 as int] && (w.flag || opposite_on(
                            w.faces@[f],
                            w.faces@[neighbour(tris@, n, f, j)->0 as int],
                            side_key(tris@[f], j),
                        )) by {
                        lemma_neighbour_range(tris@, n, f, j);
                    }
                }
                while head < w.queue.len()
                    invariant
                        len == tris@.len(),
                        table.describes(tris@, n),
                        table.lookup_ok(),
                        w.ok(tris@, n, done, head as int),
                        seed < len,
                        forall|f: int| 0 <= f <= seed && face_ok(#[trigger] tris@[f], n) ==> w.visited@[f],
                        forall|v: int| 0 <= v < len && #[trigger] w.visited@[v] ==> w.root@[v] <= seed,
                        forall|f: int| 0 <= f <= seed && #[trigger] component_seed(tris@, n, f) ==> w.faces@[f] == tris@[f],
                        w.coherent(tris@, n, head as int),
                        tree_at(tris@, n, w.visited@, w.queue@, w.par@, w.pos@, w.faces@),
                    decreases len - head,
                {
                    proof {
                        lemma_count_where_le(len as nat, |f: int| w.visited@[f]);
                    }
                    let fi = w.queue[head];
                    let ghost q0 = w.queue@;
                    let t = tris[fi];
                    let sides = oriented_sides(t, w.flip[fi]);
                    let ghost f0 = w.faces@;
                    assert(w.faces@[fi as int] == if w.flip@[fi as int] { flip3(t) } else { t });
                    w.settle(&table, Ghost(tris@), n, Ghost(done), Ghost(head as int), fi, sides[0].0, sides[0].1);
                    let ghost s1 = (w.faces@, w.visited@, w.flag);
                    w.settle(&table, Ghost(tris@), n, Ghost(done), Ghost(head as int), fi, sides[1].0, sides[1].1);
                    let ghost s2 = (w.faces@, w.visited@, w.flag);
                    w.settle(&table, Ghost(tris@), n, Ghost(done), Ghost(head as int), fi, sides[2].0, sides[2].1);
                    proof {
                        let e0 = ukey(sides[0].0, sides[0].1);
                        let e1 = ukey(sides[1].0, sides[1].1);
                        let e2 = ukey(sides[2].0, sides[2].1);
                        lemma_settled_keeps(tris@, n, s1.0, s1.1, s1.2, w.faces@, w.visited@, w.flag, fi as int, e0);
                        lemma_settled_keeps(tris@, n, s2.0, s2.1, s2.2, w.faces@, w.visited@, w.flag, fi as int, e1);
                        let old_done = done;
                        done = done.update(fi as int, true);
                        assert forall|j: int|
                            0 <= j < 3 && #[trigger] neighbour(tris@, n, fi as int, j) is Some implies w.visited@[neighbour(tris@, n, fi as int, j)->0 as int] && (w.flag || opposite_on(
                                w.faces@[fi as int],
                                w.faces@[neighbour(tris@, n, fi as int, j)->0 as int],
                                side_key(tris@[fi as int], j),
                            )) by {
                            lemma_neighbour_range(tris@, n, fi as int, j);
                            let k = side_key(t, j);
                            assert(k == e0 || k == e1 || k == e2);
                        }
                        assert forall|f: int, j: int|
                            0 <= f < len && done[f] && 0 <= j < 3 && #[trigger] neighbour(tris@, n, f, j)
                                is Some implies w.visited@[neighbour(tris@, n, f, j)->0 as int] && (w.flag || opposite_on(
                                w.faces@[f],
                                w.faces@[neighbour(tris@, n, f, j)->0 as int],
                                side_key(tris@[f], j),
                            )) by {
                            if f != fi as int {
                                assert(old_done[f]);
                            }
                        }
                        assert forall|f: int|
                            0 <= f < len && #[trigger] w.visited@[f] implies done[f]
                                || w.queue@.subrange(head + 1, w.queue@.len() as int).contains(f as usize) by {
                            if !done[f] {
                                let q = w.queue@.subrange(head as int, w.queue@.len() as int);
                                let i = q.index_of(f as usize);
                                if i == 0 {
                                    assert(w.queue@[head as int] == q0[head as int]);
                                    assert(q[0] == fi);
                                } else {
                                    assert(w.queue@.subrange(head + 1, w.queue@.len() as int)[i - 1] == f as usize);
                                }
                            }
                        }
                    }
                    proof {
                        lemma_coherent_head(tris@, n, head as int, w.visited@, w.queue@, w.root@, w.faces@, w.flag);
                    }
                    head = head + 1;
                }
            } else {
                proof {
                    if face_ok(st, n) {
                        let r = w.root@[seed as int];
                        assert(r < seed);
                        assert(reaches(tris@, n, r, seed as int));
                        assert(!component_seed(tris@, n, seed as int));
                    }
                }
            }
            seed = seed + 1;
        }
        proof {
            lemma_coherent_head(tris@, n, head as int, w.visited@, w.queue@, w.root@, w.faces@, w.flag);
            reveal(tree_at);
            assert forall|f: int|
                0 <= f < len && face_ok(tris@[f], n) && !component_seed(tris@, n, f) implies #[trigger] wound_from(
                tris@,
                n,
                w.faces@,
                w.par@,
                w.pos@,
                f,
            ) by {
                assert(w.visited@[f]);
            }
            assert(walk_wound(tris@, n, w.faces@, w.par@, w.pos@));
        }
        let report = OrientationReport {
            flipped_count: w.flipped,
            component_count: components,
            non_orientable: w.flag,
        };
        proof {
            let tr = tris@;
            assert forall|f: int| 0 <= f < len && face_ok(tr[f], n) implies done[f] by {
                assert(w.visited@[f]);
                assert(!w.queue@.subrange(head as int, w.queue@.len() as int).contains(f as usize));
            }
            assert forall|f: int| 0 <= f < len implies (w.flip@[f] == (w.faces@[f] != tr[f])) by {
                if w.flip@[f] {
                    lemma_flip_facts(tr[f], n);
                }
            }
            lemma_count_where_ext(len as nat, |f: int| w.flip@[f], |f: int| w.faces@[f] != tr[f]);
            assert forall|f: int|
                0 <= f < len implies #[trigger] w.faces@[f] == tr[f] || (face_ok(tr[f], n)
                    && w.faces@[f] == flip3(tr[f])) by {}
            if !w.flag {
                assert forall|f: int, j: int|
                    0 <= f < len && 0 <= j < 3 && #[trigger] neighbour(tr, n, f, j) is Some
                        implies opposite_on(w.faces@[f], w.faces@[neighbour(tr, n, f, j)->0 as int], side_key(tr[f], j)) by {
                    assert(face_ok(tr[f], n));
                    assert(done[f]);
                }
            }
        }
        (w.faces, report)
    }
}

/// Between flood fills nothing is pending, so the visited triangles are
/// closed under the neighbour relation.
proof fn lemma_closed_between_runs(
    tris: Seq<[u32; 3]>,
    n: usize,
    w: &OrientWalk,
    done: Seq<bool>,
    head: int,
)
    requires
        w.ok(tris, n, done, head),
        head == w.queue@.len(),
    ensures
        forall|a: int, b: int|
            0 <= a < tris.len() && w.visited@[a] && #[trigger] linked(tris, n, a, b) ==> w.visited@[b],
{
    assert forall|a: int, b: int|
        0 <= a < tris.len() && w.visited@[a] && #[trigger] linked(tris, n, a, b) implies w.visited@[b] by {
        assert(!w.queue@.subrange(head, w.queue@.len() as int).contains(a as usize));
        assert(done[a]);
        let j = choose|j: int| 0 <= j < 3 && neighbour(tris, n, a, j) == Some(b as u32);
        lemma_neighbour_range(tris, n, a, j);
        assert(neighbour(tris, n, a, j) is Some);
        assert(w.visited@[neighbour(tris, n, a, j)->0 as int]);
        assert(neighbour(tris, n, a, j)->0 as int == b);
    }
}

/// A path that starts in a neighbour-closed set stays in it.
proof fn lemma_path_stays(tris: Seq<[u32; 3]>, n: usize, vis: Seq<bool>, p: Seq<int>)
    requires
        is_path(tris, n, p),
        vis[p[0]],
        forall|a: int, b: int| 0 <= a < tris.len() && vis[a] && #[trigger] linked(tris, n, a, b) ==> vis[b],
    ensures
        forall|i: int| 0 <= i < p.len() ==> vis[#[trigger] p[i]],
{
    assert forall|i: int| 0 <= i < p.len() implies vis[#[trigger] p[i]] by {
        lemma_path_stays_to(tris, n, vis, p, i);
    }
}

proof fn lemma_path_stays_to(tris: Seq<[u32; 3]>, n: usize, vis: Seq<bool>, p: Seq<int>, i: int)
    requires
        is_path(tris, n, p),
        vis[p[0]],
        0 <= i < p.len(),
        forall|a: int, b: int| 0 <= a < tris.len() && vis[a] && #[trigger] linked(tris, n, a, b) ==> vis[b],
    ensures
        vis[p[i]],
    decreases i,
{
    if i > 0 {
        lemma_path_stays_to(tris, n, vis, p, i - 1);
        let k = i - 1;
        assert(linked(tris, n, p[k], p[k + 1]));
    }
}

proof fn lemma_count_zero(len: nat)
    ensures
        count_where(len, |f: int| false) == 0,
    decreases len,
{
    if len > 0 {
        lemma_count_zero((len - 1) as nat);
    }
}

/// A settled edge stays settled while windings of visited triangles stay
/// fixed, visited triangles stay visited and the flag only rises.
proof fn lemma_settled_keeps(
    tris: Seq<[u32; 3]>,
    n: usize,
    faces: Seq<[u32; 3]>,
    visited: Seq<bool>,
    flag: bool,
    faces2: Seq<[u32; 3]>,
    visited2: Seq<bool>,
    flag2: bool,
    fi: int,
    e: (u32, u32),
)
    requires
        edge_settled(tris, n, faces, visited, flag, fi, e),
        0 <= fi < tris.len(),
        visited.len() == tris.len(),
        visited[fi],
        forall|f: int| 0 <= f < tris.len() && visited[f] ==> #[trigger] visited2[f] && faces2[f] == faces[f],
        flag ==> flag2,
        tris.len() <= usize::MAX,
    ensures
        edge_settled(tris, n, faces2, visited2, flag2, fi, e),
{
    if owners(tris, n, e).len() == 2 {
        lemma_owners_props(tris, n, e);
        let g = other_owner(owners(tris, n, e), fi);
        assert(visited2[g]);
        assert(visited2[fi]);
    }
}

fn tris_at(v: &Vec<[u32; 3]>, i: usize) -> (t: [u32; 3])
    requires
        i < v@.len(),
    ensures
        t == v@[i as int],
{
    v[i]
}

} // verus!
