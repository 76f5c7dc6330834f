//! The aggregate topological readout of a triangle surface: vertex, edge
//! and face counts, Euler characteristic, edge-connected components,
//! boundary loops and genus.
use vstd::prelude::*;
use crate::boundary::{boundary_half_edges, is_chain_cover, is_greedy_walk};
use crate::components::{adj_seed, count_components, row_views};
use crate::mesh::Connectivity;
use crate::topology::{
    count_where, edge_uses, face_has_edge, face_ok, face_ok_exec, lemma_count_where_le, lemma_count_where_set,
    lemma_owners_props, owners, side_key, ukey_exec, EdgeTable,
};
use vstd::set_lib::lemma_len_subset;

verus! {

/// Combinatorial topology of a primitive's triangle tessellation.
#[derive(Clone, Copy, Debug, Default, PartialEq, Eq)]
pub struct TopologySummary {
    /// V: distinct vertex indices referenced by a valid triangle.
    pub vertex_count: usize,
    /// E: distinct undirected edges of the valid triangles.
    pub edge_count: usize,
    /// F: number of valid triangles.
    pub face_count: usize,
    /// χ = V − E + F.
    pub euler_characteristic: i64,
    /// Number of edge-connected groups of valid triangles.
    pub component_count: usize,
    /// Number of boundary loops.
    pub boundary_loop_count: usize,
    /// Handle count of a single connected closed two-manifold whose
    /// `2 − χ` is even and non-negative; `None` otherwise.
    pub genus: Option<u32>,
}

/// `v` is one of the three corners of `t`.
pub open spec fn has_corner(t: [u32; 3], v: int) -> bool {
    t[0] == v || t[1] == v || t[2] == v
}

/// Vertex `v` is a corner of a valid triangle.
pub open spec fn referenced(tris: Seq<[u32; 3]>, n: usize, v: int) -> bool {
    exists|f: int| 0 <= f < tris.len() && face_ok(#[trigger] tris[f], n) && has_corner(tris[f], v)
}

/// Vertex `v` is a corner of a valid triangle among the first `i`.
spec fn referenced_upto(tris: Seq<[u32; 3]>, n: usize, v: int, i: int) -> bool {
    exists|f: int| 0 <= f < i && face_ok(#[trigger] tris[f], n) && has_corner(tris[f], v)
}

/// The triangles sharing an undirected edge with triangle `f` (itself
/// included), side by side; none for an excluded triangle.
pub open spec fn face_adjacency(tris: Seq<[u32; 3]>, n: usize) -> Seq<Seq<usize>> {
    Seq::new(
        tris.len(),
        |f: int|
            if face_ok(tris[f], n) {
                owners(tris, n, side_key(tris[f], 0)) + owners(tris, n, side_key(tris[f], 1)) + owners(
                    tris,
                    n,
                    side_key(tris[f], 2),
                )
            } else {
                Seq::empty()
            },
    )
}

/// Which triangles take part in the analysis.
pub open spec fn valid_faces(tris: Seq<[u32; 3]>, n: usize) -> Seq<bool> {
    Seq::new(tris.len(), |f: int| face_ok(tris[f], n))
}

/// The edge set is a closed two-manifold: it has edges, none used once
/// and none used three or more times.
pub open spec fn closed_manifold(tris: Seq<[u32; 3]>, n: usize) -> bool {
    &&& Set::new(|e: (u32, u32)| edge_uses(tris, n, e) >= 1).len() > 0
    &&& Set::new(|e: (u32, u32)| edge_uses(tris, n, e) == 1).len() == 0
    &&& Set::new(|e: (u32, u32)| edge_uses(tris, n, e) >= 3).len() == 0
}

/// The genus readout for Euler characteristic `chi`.
pub open spec fn genus_of(chi: int) -> Option<u32> {
    let two_minus_chi = 2 - chi;
    if two_minus_chi >= 0 && two_minus_chi % 2 == 0 {
        Some(#[verifier::truncate] ((two_minus_chi / 2) as u32))
    } else {
        None
    }
}

/// `s` summarises the triangles `tris` over a pool of `n` vertices.
pub open spec fn is_topology_summary(s: TopologySummary, tris: Seq<[u32; 3]>, n: usize) -> bool {
    &&& s.vertex_count == count_where(n as nat, |v: int| referenced(tris, n, v))
    &&& s.edge_count == Set::new(|e: (u32, u32)| edge_uses(tris, n, e) >= 1).len()
    &&& s.face_count == count_where(tris.len(), |f: int| face_ok(tris[f], n))
    &&& s.euler_characteristic == (s.vertex_count - s.edge_count + s.face_count) as i64
    &&& s.component_count == count_where(
        tris.len(),
        |f: int| adj_seed(face_adjacency(tris, n), valid_faces(tris, n), f),
    )
    &&& exists|chains: Seq<Seq<u32>>, closed: Seq<bool>|
        is_chain_cover(chains, closed, boundary_half_edges(tris, n)) && is_greedy_walk(
            chains,
            closed,
            boundary_half_edges(tris, n).to_set(),
        ) && chains.len() == s.boundary_loop_count
    &&& s.genus == if s.component_count == 1 && closed_manifold(tris, n) {
        genus_of(s.euler_characteristic as int)
    } else {
        None
    }
}

/// The reported genus inverts Euler's formula `χ = 2 − 2g`: it is present
/// exactly for a single closed manifold component whose `2 − χ` is even
/// and non-negative, and then `χ = 2 − 2·genus` (for any genus that fits
/// a `u32`).
pub proof fn law_genus_inverts_euler(s: TopologySummary, tris: Seq<[u32; 3]>, n: usize)
    requires
        is_topology_summary(s, tris, n),
        2 - s.euler_characteristic <= 2 * (u32::MAX as int),
    ensures
        s.genus matches Some(g) ==> s.euler_characteristic == 2 - 2 * g,
        s.genus is Some <==> (s.component_count == 1 && closed_manifold(tris, n) && s.euler_characteristic <= 2 && (2
            - s.euler_characteristic) % 2 == 0),
{
    let chi = s.euler_characteristic as int;
    if s.component_count == 1 && closed_manifold(tris, n) && 2 - chi >= 0 && (2 - chi) % 2 == 0 {
        assert((2 - chi) / 2 <= u32::MAX);
        assert(2 * ((2 - chi) / 2) == 2 - chi);
    }
}

/// Two valid triangles are linked in [`face_adjacency`] exactly when they
/// share an undirected edge.
pub proof fn lemma_face_adjacency(tris: Seq<[u32; 3]>, n: usize, a: int, b: int)
    requires
        0 <= a < tris.len(),
        0 <= b < tris.len(),
        tris.len() <= usize::MAX,
    ensures
        face_adjacency(tris, n)[a].contains(b as usize) <==> face_ok(tris[a], n) && face_ok(tris[b], n) && exists|j: int|
            0 <= j < 3 && #[trigger] crate::topology::face_has_edge(tris[b], side_key(tris[a], j)),
{
    if face_ok(tris[a], n) {
        let o0 = owners(tris, n, side_key(tris[a], 0));
        let o1 = owners(tris, n, side_key(tris[a], 1));
        let o2 = owners(tris, n, side_key(tris[a], 2));
        lemma_owners_props(tris, n, side_key(tris[a], 0));
        lemma_owners_props(tris, n, side_key(tris[a], 1));
        lemma_owners_props(tris, n, side_key(tris[a], 2));
        let all = o0 + o1 + o2;
        assert(face_adjacency(tris, n)[a] == all);
        if all.contains(b as usize) {
            let x = choose|x: int| 0 <= x < all.len() && all[x] == b as usize;
            if x < o0.len() {
                assert(crate::topology::face_has_edge(tris[b], side_key(tris[a], 0)));
            } else if x < o0.len() + o1.len() {
                assert(o1[x - o0.len()] == b as usize);
                assert(crate::topology::face_has_edge(tris[b], side_key(tris[a], 1)));
            } else {
                assert(o2[x - o0.len() - o1.len()] == b as usize);
                assert(crate::topology::face_has_edge(tris[b], side_key(tris[a], 2)));
            }
        }
        if face_ok(tris[b], n) && exists|j: int| 0 <= j < 3 && #[trigger] crate::topology::face_has_edge(tris[b], side_key(tris[a], j)) {
            let j = choose|j: int| 0 <= j < 3 && #[trigger] crate::topology::face_has_edge(tris[b], side_key(tris[a], j));
            if j == 0 {
                let x = o0.index_of(b as usize);
                assert(all[x] == b as usize);
            } else if j == 1 {
                let x = o1.index_of(b as usize);
                assert(all[o0.len() + x] == b as usize);
            } else {
                let x = o2.index_of(b as usize);
                assert(all[o0.len() + o1.len() + x] == b as usize);
            }
        }
    }
}

/// A count over positions that are all false from `m` on is at most `m`.
proof fn lemma_count_where_below(len: nat, p: spec_fn(int) -> bool, m: nat)
    requires
        forall|i: int| m <= i < len ==> !#[trigger] p(i),
    ensures
        count_where(len, p) <= m,
    decreases len,
{
    if len > 0 {
        if len <= m {
            lemma_count_where_le(len, p);
        } else {
            lemma_count_where_below((len - 1) as nat, p, m);
        }
    }
}

/// The distinct undirected edges of `tris` are finitely many, at most
/// three per triangle.
proof fn lemma_edge_count_le(tris: Seq<[u32; 3]>, n: usize)
    ensures
        Set::new(|e: (u32, u32)| edge_uses(tris, n, e) >= 1).finite(),
        Set::new(|e: (u32, u32)| edge_uses(tris, n, e) >= 1).len() <= 3 * tris.len(),
    decreases tris.len(),
{
    let s = Set::new(|e: (u32, u32)| edge_uses(tris, n, e) >= 1);
    if tris.len() == 0 {
        assert(s =~= Set::empty());
    } else {
        let d = tris.drop_last();
        lemma_edge_count_le(d, n);
        let sd = Set::new(|e: (u32, u32)| edge_uses(d, n, e) >= 1);
        let t = tris.last();
        let big = sd.insert(side_key(t, 0)).insert(side_key(t, 1)).insert(side_key(t, 2));
        assert forall|e: (u32, u32)| s.contains(e) implies big.contains(e) by {
            if !(face_ok(t, n) && face_has_edge(t, e)) {
                assert(owners(tris, n, e) == owners(d, n, e));
            }
        }
        assert(s.subset_of(big));
        lemma_len_subset(s, big);
    }
}

/// Append `src` to `row`.
fn push_all(row: &mut Vec<usize>, src: &Vec<usize>)
    ensures
        final(row)@ == old(row)@ + src@,
{
    let mut i: usize = 0;
    while i < src.len()
        invariant
            i <= src@.len(),
            row@ == old(row)@ + src@.take(i as int),
        decreases src@.len() - i,
    {
        row.push(src[i]);
        proof {
            assert(src@.take(i + 1) == src@.take(i as int).push(src@[i as int]));
        }
        i = i + 1;
    }
    proof {
        assert(src@.take(src@.len() as int) == src@);
    }
}

/// Append the owners of side `j` of the valid triangle `t` (at `f`).
fn push_side_owners(
    table: &EdgeTable,
    Ghost(tris): Ghost<Seq<[u32; 3]>>,
    n: usize,
    f: usize,
    t: [u32; 3],
    j: usize,
    row: &mut Vec<usize>,
)
    requires
        table.describes(tris, n),
        table.lookup_ok(),
        f < tris.len(),
        tris.len() <= usize::MAX,
        tris[f as int] == t,
        face_ok(t, n),
        j < 3,
    ensures
        final(row)@ == old(row)@ + owners(tris, n, side_key(t, j as int)),
{
    let (a, b) = if j == 0 {
        (t[0], t[1])
    } else if j == 1 {
        (t[1], t[2])
    } else {
        (t[2], t[0])
    };
    let e = ukey_exec(a, b);
    assert(e == side_key(t, j as int));
    proof {
        lemma_owners_props(tris, n, e);
        assert(owners(tris, n, e).contains(f));
    }
    match table.find(e) {
        Some(k) => {
            assert(table.owners@[k as int]@ == owners(tris, n, e));
            push_all(row, &table.owners[k]);
        },
        None => {
            assert(false);
        },
    }
}

/// Every entry of the adjacency row of triangle `a` is a triangle position.
proof fn lemma_face_adjacency_bounded(tris: Seq<[u32; 3]>, n: usize, a: int)
    requires
        0 <= a < tris.len(),
        tris.len() <= usize::MAX,
    ensures
        forall|k: int|
            0 <= k < face_adjacency(tris, n)[a].len() ==> (#[trigger] face_adjacency(tris, n)[a][k] as int) < tris.len(),
{
    if face_ok(tris[a], n) {
        let o0 = owners(tris, n, side_key(tris[a], 0));
        let o1 = owners(tris, n, side_key(tris[a], 1));
        let o2 = owners(tris, n, side_key(tris[a], 2));
        lemma_owners_props(tris, n, side_key(tris[a], 0));
        lemma_owners_props(tris, n, side_key(tris[a], 1));
        lemma_owners_props(tris, n, side_key(tris[a], 2));
        let all = o0 + o1 + o2;
        assert(face_adjacency(tris, n)[a] == all);
        assert forall|k: int| 0 <= k < all.len() implies (#[trigger] all[k] as int) < tris.len() by {
            if k < o0.len() {
                assert(all[k] == o0[k]);
            } else if k < o0.len() + o1.len() {
                assert(all[k] == o1[k - o0.len()]);
            } else {
                assert(all[k] == o2[k - o0.len() - o1.len()]);
            }
        }
    }
}

impl Connectivity {
    /// Combinatorial topology of this primitive's triangles: V (vertices
    /// referenced by a valid triangle), E (distinct undirected edges), F
    /// (valid triangles), χ = V − E + F, the edge-connected components, the
    /// boundary loops, and the genus `(2 − χ) / 2` of a single connected
    /// closed two-manifold. Triangles with an out-of-range or repeated
    /// corner are left out, as in [`Connectivity::edge_manifold_report`].
    pub fn topology_summary(&self) -> (s: TopologySummary)
        requires
            self.triangles().len() <= u32::MAX,
        ensures
            is_topology_summary(s, self.triangles(), self.vertex_count),
            2 - s.euler_characteristic <= 2 * (u32::MAX as int) ==> (s.genus matches Some(g) ==> s.euler_characteristic
                == 2 - 2 * g),
    {
        let tris = self.triangle_indices();
        let n = self.vertex_count;
        let len = tris.len();
        let ghost ts = tris@;

        // Vertices and faces.
        let mut seen: Vec<bool> = Vec::new();
        let mut v: usize = 0;
        while v < n
            invariant
                v <= n,
                seen@ == Seq::new(v as nat, |x: int| false),
            decreases n - v,
        {
            seen.push(false);
            v = v + 1;
        }
        proof {
            crate::topology::lemma_count_where_ext(n as nat, |x: int| seen@[x], |x: int| false);
            lemma_count_where_below(n as nat, |x: int| false, 0);
        }
        let mut vertex_count: usize = 0;
        let mut face_count: usize = 0;
        let mut valid: Vec<bool> = Vec::new();
        let mut i: usize = 0;
        while i < len
            invariant
                ts == tris@,
                len == ts.len(),
                len <= u32::MAX,
                i <= len,
                seen@.len() == n,
                forall|x: int| 0 <= x < n ==> #[trigger] seen@[x] == referenced_upto(ts, n, x, i as int),
                vertex_count == count_where(n as nat, |x: int| seen@[x]),
                face_count == count_where(i as nat, |f: int| face_ok(ts[f], n)),
                valid@.len() == i,
                forall|f: int| 0 <= f < i ==> #[trigger] valid@[f] == face_ok(ts[f], n),
            decreases len - i,
        {
            let t = tris[i];
            let ok = face_ok_exec(t, n);
            valid.push(ok);
            let ghost before = seen@;
            if ok {
                proof {
                    lemma_count_where_le(i as nat, |f: int| face_ok(ts[f], n));
                }
                face_count = face_count + 1;
                mark(&mut seen, &mut vertex_count, t[0] as usize);
                mark(&mut seen, &mut vertex_count, t[1] as usize);
                mark(&mut seen, &mut vertex_count, t[2] as usize);
            }
            proof {
                assert forall|x: int| 0 <= x < n implies #[trigger] seen@[x] == referenced_upto(ts, n, x, i + 1) by {
                    if referenced_upto(ts, n, x, i + 1) {
                        let f = choose|f: int| 0 <= f < i + 1 && face_ok(#[trigger] ts[f], n) && has_corner(ts[f], x);
                        if f < i {
                            assert(referenced_upto(ts, n, x, i as int));
                        }
                    }
                    if seen@[x] {
                        if before[x] {
                            let f = choose|f: int| 0 <= f < i && face_ok(#[trigger] ts[f], n) && has_corner(ts[f], x);
                            assert(face_ok(ts[f], n) && has_corner(ts[f], x));
                        } else {
                            assert(face_ok(ts[i as int], n) && has_corner(ts[i as int], x));
                        }
                    }
                }
            }
            i = i + 1;
        }
        proof {
            crate::topology::lemma_count_where_ext(n as nat, |x: int| seen@[x], |x: int| referenced(ts, n, x));
            lemma_count_where_below(n as nat, |x: int| referenced(ts, n, x), 0x1_0000_0000);
            lemma_count_where_le(len as nat, |f: int| face_ok(ts[f], n));
        }

        // Edges.
        let report = self.edge_manifold_report();
        let edge_count = report.total_edge_count;
        proof {
            lemma_edge_count_le(ts, n);
        }

        // Edge-connected components.
        let table = EdgeTable::build(&tris, n);
        let mut adj: Vec<Vec<usize>> = Vec::new();
        let mut f: usize = 0;
        while f < len
            invariant
                ts == tris@,
                len == ts.len(),
                len <= u32::MAX,
                f <= len,
                table.describes(ts, n),
                table.lookup_ok(),
                adj@.len() == f,
                forall|g: int| 0 <= g < f ==> #[trigger] adj@[g]@ == face_adjacency(ts, n)[g],
            decreases len - f,
        {
            let t = tris[f];
            let mut row: Vec<usize> = Vec::new();
            if face_ok_exec(t, n) {
                push_side_owners(&table, Ghost(ts), n, f, t, 0, &mut row);
                push_side_owners(&table, Ghost(ts), n, f, t, 1, &mut row);
                push_side_owners(&table, Ghost(ts), n, f, t, 2, &mut row);
            }
            proof {
                if face_ok(t, n) {
                    assert(row@ =~= owners(ts, n, side_key(t, 0)) + owners(ts, n, side_key(t, 1)) + owners(ts, n, side_key(t, 2)));
                } else {
                    assert(row@ =~= Seq::<usize>::empty());
                }
            }
            adj.push(row);
            f = f + 1;
        }
        proof {
            assert(row_views(adj@) =~= face_adjacency(ts, n));
            assert(valid@ =~= valid_faces(ts, n));
            assert forall|a: int, k: int|
                0 <= a < adj@.len() && 0 <= k < adj@[a]@.len() implies (#[trigger] adj@[a]@[k] as int) < adj@.len() by {
                lemma_face_adjacency_bounded(ts, n, a);
                assert(adj@[a]@[k] == face_adjacency(ts, n)[a][k]);
            }
            assert forall|a: int, b: int|
                0 <= a < adj@.len() && valid@[a] && #[trigger] adj@[a]@.contains(b as usize) && 0 <= b < adj@.len() implies valid@[b] by {
                lemma_face_adjacency(ts, n, a, b);
            }
        }
        let component_count = count_components(&adj, &valid);

        // Boundary loops.
        let loops = self.boundary_loops();
        let boundary_loop_count = loops.len();

        // Euler characteristic and genus.
        let euler_characteristic: i64 = vertex_count as i64 - edge_count as i64 + face_count as i64;
        let genus = if component_count == 1 && report.is_closed_manifold() {
            let two_minus_chi = 2 - euler_characteristic;
            if two_minus_chi >= 0 && two_minus_chi % 2 == 0 {
                Some(#[verifier::truncate] ((two_minus_chi / 2) as u32))
            } else {
                None
            }
        } else {
            None
        };
        let s = TopologySummary {
            vertex_count,
            edge_count,
            face_count,
            euler_characteristic,
            component_count,
            boundary_loop_count,
            genus,
        };
        proof {
            if 2 - s.euler_characteristic <= 2 * (u32::MAX as int) {
                assert(is_topology_summary(s, self.triangles(), self.vertex_count));
                law_genus_inverts_euler(s, self.triangles(), self.vertex_count);
            }
        }
        s
    }
}

/// Set position `v` of `seen`, counting it when it was clear.
fn mark(seen: &mut Vec<bool>, count: &mut usize, v: usize)
    requires
        v < old(seen)@.len(),
        *old(count) == count_where(old(seen)@.len(), |x: int| old(seen)@[x]),
    ensures
        final(seen)@ == old(seen)@.update(v as int, true),
        *final(count) == count_where(final(seen)@.len(), |x: int| final(seen)@[x]),
{
    let size = seen.len();
    if !seen[v] {
        let ghost before = seen@;
        seen.set(v, true);
        proof {
            lemma_count_where_set(before.len(), |x: int| before[x], |x: int| seen@[x], v as int);
            lemma_count_where_le(seen@.len(), |x: int| seen@[x]);
        }
        *count = *count + 1;
    } else {
        assert(seen@ =~= seen@.update(v as int, true));
    }
}

} // verus!
