//! Boundary loops: chaining the directed boundary half-edges of a
//! triangle surface into vertex loops.
use vstd::prelude::*;
use std::collections::HashMap;
use crate::mesh::Connectivity;
use crate::sort::sort_u64;
use crate::topology::{
    edge_uses, ekey, ekey_exec, face_ok, face_ok_exec, lemma_ekey_decode, lemma_ekey_injective, lemma_ekey_order,
    lemma_owners_props, lemma_perm_contains, owners, side, side_key, ukey_exec, EdgeTable,
};
use crate::vertex_cache::is_permutation;

verus! {

broadcast use vstd::std_specs::hash::group_hash_axioms;

/// Lexicographic order on vertex lists, a proper prefix first.
pub open spec fn lex_le(a: Seq<u32>, b: Seq<u32>) -> bool
    decreases a.len(),
{
    if a.len() == 0 {
        true
    } else if b.len() == 0 {
        false
    } else if a[0] != b[0] {
        a[0] < b[0]
    } else {
        lex_le(a.drop_first(), b.drop_first())
    }
}

proof fn lemma_lex_total(a: Seq<u32>, b: Seq<u32>)
    ensures
        lex_le(a, b) || lex_le(b, a),
    decreases a.len(),
{
    if a.len() > 0 && b.len() > 0 && a[0] == b[0] {
        lemma_lex_total(a.drop_first(), b.drop_first());
    }
}

proof fn lemma_lex_trans(a: Seq<u32>, b: Seq<u32>, c: Seq<u32>)
    requires
        lex_le(a, b),
        lex_le(b, c),
    ensures
        lex_le(a, c),
    decreases a.len(),
{
    if a.len() > 0 && b.len() > 0 && c.len() > 0 && a[0] == b[0] && b[0] == c[0] {
        lemma_lex_trans(a.drop_first(), b.drop_first(), c.drop_first());
    }
}

/// Whether `a` sorts before or equal to `b`.
fn lex_le_exec(a: &Vec<u32>, b: &Vec<u32>) -> (r: bool)
    ensures
        r == lex_le(a@, b@),
{
    let mut i: usize = 0;
    assert(a@.skip(0) =~= a@ && b@.skip(0) =~= b@);
    while i < a.len() && i < b.len()
        invariant
            i <= a@.len(),
            i <= b@.len(),
            forall|k: int| 0 <= k < i ==> a@[k] == b@[k],
            lex_le(a@, b@) == lex_le(a@.skip(i as int), b@.skip(i as int)),
        decreases a@.len() - i,
    {
        if a[i] != b[i] {
            assert(a@.skip(i as int)[0] == a@[i as int]);
            assert(b@.skip(i as int)[0] == b@[i as int]);
            return a[i] < b[i];
        }
        assert(a@.skip(i as int).drop_first() =~= a@.skip(i + 1));
        assert(b@.skip(i as int).drop_first() =~= b@.skip(i + 1));
        i = i + 1;
    }
    i == a.len()
}

/// `p` is the position of the first smallest entry of `s`.
pub open spec fn is_first_min(s: Seq<u32>, p: int) -> bool {
    &&& 0 <= p < s.len()
    &&& forall|k: int| 0 <= k < s.len() ==> s[p] <= s[k]
    &&& forall|k: int| 0 <= k < p ==> s[k] > s[p]
}

/// Position of the first smallest entry of a non-empty list.
pub open spec fn first_min_pos(s: Seq<u32>) -> int {
    choose|p: int| #[trigger] is_first_min(s, p)
}

/// `s` rotated to start at its first smallest entry.
pub open spec fn rotate_min(s: Seq<u32>) -> Seq<u32> {
    if s.len() == 0 {
        s
    } else {
        let p = first_min_pos(s);
        s.subrange(p, s.len() as int) + s.subrange(0, p)
    }
}

/// `v` rotated to start at its first smallest entry, so a cycle reads the
/// same whichever entry it was recorded from.
fn rotate_to_min(v: &Vec<u32>) -> (r: Vec<u32>)
    ensures
        r@ == rotate_min(v@),
{
    if v.len() == 0 {
        return Vec::new();
    }
    let mut p: usize = 0;
    let mut i: usize = 1;
    while i < v.len()
        invariant
            0 < v@.len(),
            p < i <= v@.len(),
            forall|k: int| 0 <= k < i ==> v@[p as int] <= v@[k],
            forall|k: int| 0 <= k < p ==> v@[k] > v@[p as int],
        decreases v@.len() - i,
    {
        if v[i] < v[p] {
            p = i;
        }
        i = i + 1;
    }
    proof {
        let q = first_min_pos(v@);
        assert(is_first_min(v@, p as int));
        if q < p {
            assert(v@[q] > v@[p as int]);
        } else if q > p {
            assert(v@[p as int] > v@[q]);
        }
        assert(q == p);
    }
    let mut r: Vec<u32> = Vec::new();
    let mut k: usize = p;
    while k < v.len()
        invariant
            p <= k <= v@.len(),
            r@ == v@.subrange(p as int, k as int),
        decreases v@.len() - k,
    {
        r.push(v[k]);
        assert(r@ =~= v@.subrange(p as int, k + 1));
        k = k + 1;
    }
    k = 0;
    while k < p
        invariant
            k <= p < v@.len(),
            r@ == v@.subrange(p as int, v@.len() as int) + v@.subrange(0, k as int),
        decreases p - k,
    {
        r.push(v[k]);
        assert(r@ =~= v@.subrange(p as int, v@.len() as int) + v@.subrange(0, k + 1));
        k = k + 1;
    }
    r
}

/// The lists of `lists` in ascending lexicographic order: `out[k]` is
/// `lists[perm[k]]` for a permutation `perm`.
fn sort_lists(lists: &Vec<Vec<u32>>) -> (out: Vec<Vec<u32>>)
    ensures
        out@.len() == lists@.len(),
        exists|perm: Seq<usize>|
            is_permutation(perm, lists@.len()) && forall|k: int| 0 <= k < out@.len() ==> #[trigger] out@[k]@ == lists@[perm[k] as int]@,
        forall|a: int, b: int| 0 <= a < b < out@.len() ==> lex_le(out@[a]@, out@[b]@),
{
    let mut order: Vec<usize> = Vec::new();
    let mut i: usize = 0;
    while i < lists.len()
        invariant
            i <= lists@.len(),
            order@.len() == i,
            order@.no_duplicates(),
            forall|k: int| 0 <= k < order@.len() ==> #[trigger] order@[k] < i,
            forall|a: int, b: int|
                0 <= a < b < order@.len() ==> lex_le(lists@[order@[a] as int]@, lists@[order@[b] as int]@),
        decreases lists@.len() - i,
    {
        // Insert `i` after every entry not greater than it.
        let mut p: usize = order.len();
        while p > 0 && !lex_le_exec(&lists[order[p - 1]], &lists[i])
            invariant
                i < lists@.len(),
                p <= order@.len(),
                forall|k: int| 0 <= k < order@.len() ==> #[trigger] order@[k] < i,
                forall|k: int| p <= k < order@.len() ==> !lex_le(lists@[order@[k] as int]@, lists@[i as int]@),
            decreases p,
        {
            p = p - 1;
        }
        let ghost old_order = order@;
        proof {
            assert forall|k: int| p <= k < old_order.len() implies lex_le(lists@[i as int]@, lists@[old_order[k] as int]@) by {
                lemma_lex_total(lists@[i as int]@, lists@[old_order[k] as int]@);
            }
            if p > 0 {
                assert(lex_le(lists@[old_order[p - 1] as int]@, lists@[i as int]@));
            }
        }
        order.insert(p, i);
        proof {
            assert(order@ =~= old_order.subrange(0, p as int).push(i).add(old_order.subrange(p as int, old_order.len() as int)));
            assert forall|a: int, b: int| 0 <= a < b < order@.len() implies lex_le(lists@[order@[a] as int]@, lists@[order@[b] as int]@) by {
                if b < p {
                } else if b == p {
                    if a < p - 1 {
                        lemma_lex_trans(lists@[order@[a] as int]@, lists@[old_order[p - 1] as int]@, lists@[i as int]@);
                    }
                } else if a == p {
                    assert(order@[b] == old_order[b - 1]);
                } else if a < p {
                    assert(order@[b] == old_order[b - 1]);
                    assert(lex_le(lists@[i as int]@, lists@[old_order[b - 1] as int]@));
                    if a < p - 1 {
                        lemma_lex_trans(lists@[order@[a] as int]@, lists@[old_order[p - 1] as int]@, lists@[i as int]@);
                    }
                    lemma_lex_trans(lists@[order@[a] as int]@, lists@[i as int]@, lists@[old_order[b - 1] as int]@);
                } else {
                    assert(order@[a] == old_order[a - 1]);
                    assert(order@[b] == old_order[b - 1]);
                }
            }
            assert(order@.no_duplicates()) by {
                assert forall|a: int, b: int| 0 <= a < b < order@.len() implies order@[a] != order@[b] by {
                    if a != p as int && b != p as int {
                        let oa = if a < p { a } else { a - 1 };
                        let ob = if b < p { b } else { b - 1 };
                        assert(order@[a] == old_order[oa] && order@[b] == old_order[ob]);
                    } else if a == p as int {
                        assert(order@[b] == old_order[b - 1]);
                    } else {
                        assert(order@[a] == old_order[a]);
                    }
                }
            }
            assert forall|k: int| 0 <= k < order@.len() implies #[trigger] order@[k] < i + 1 by {
                if k < p {
                    assert(order@[k] == old_order[k]);
                } else if k > p {
                    assert(order@[k] == old_order[k - 1]);
                }
            }
        }
        i = i + 1;
    }
    let mut out: Vec<Vec<u32>> = Vec::new();
    let mut k: usize = 0;
    while k < order.len()
        invariant
            order@.len() == lists@.len(),
            forall|q: int| 0 <= q < order@.len() ==> #[trigger] order@[q] < lists@.len(),
            k <= order@.len(),
            out@.len() == k,
            forall|q: int| 0 <= q < k ==> #[trigger] out@[q]@ == lists@[order@[q] as int]@,
        decreases order@.len() - k,
    {
        out.push(copy_list(&lists[order[k]]));
        k = k + 1;
    }
    proof {
        assert(is_permutation(order@, lists@.len()));
    }
    out
}

fn copy_list(v: &Vec<u32>) -> (r: Vec<u32>)
    ensures
        r@ == v@,
{
    let mut r: Vec<u32> = Vec::new();
    let mut i: usize = 0;
    while i < v.len()
        invariant
            i <= v@.len(),
            r@ == v@.take(i as int),
        decreases v@.len() - i,
    {
        r.push(v[i]);
        assert(r@ =~= v@.take(i + 1));
        i = i + 1;
    }
    assert(v@.take(v@.len() as int) =~= v@);
    r
}

/// Side `j` of valid triangle `t` as a directed half-edge, when no other
/// valid triangle shares its undirected edge.
pub open spec fn boundary_side(tris: Seq<[u32; 3]>, n: usize, t: [u32; 3], j: int) -> Seq<(u32, u32)> {
    if edge_uses(tris, n, side_key(t, j)) == 1 {
        seq![side(t, j)]
    } else {
        Seq::empty()
    }
}

/// The directed boundary half-edges of `tris[..k]`, triangle by triangle,
/// each in the winding of the one triangle that owns its edge.
pub open spec fn half_edges_upto(tris: Seq<[u32; 3]>, n: usize, k: int) -> Seq<(u32, u32)>
    decreases k,
{
    if k <= 0 {
        Seq::empty()
    } else {
        let t = tris[k - 1];
        half_edges_upto(tris, n, k - 1) + if face_ok(t, n) {
            boundary_side(tris, n, t, 0) + boundary_side(tris, n, t, 1) + boundary_side(tris, n, t, 2)
        } else {
            Seq::empty()
        }
    }
}

/// Every directed boundary half-edge of the surface.
pub open spec fn boundary_half_edges(tris: Seq<[u32; 3]>, n: usize) -> Seq<(u32, u32)> {
    half_edges_upto(tris, n, tris.len() as int)
}

/// The half-edges a vertex chain walks: each vertex to the next, and for a
/// closed chain the last vertex back to the first.
pub open spec fn chain_edges(c: Seq<u32>, closed: bool) -> Seq<(u32, u32)> {
    Seq::new(if c.len() > 0 { (c.len() - 1) as nat } else { 0 }, |k: int| (c[k], c[k + 1])) + if closed && c.len() > 0 {
        seq![(c.last(), c[0])]
    } else {
        Seq::empty()
    }
}

/// The half-edges of the first `k` chains, in order.
pub open spec fn all_chain_edges(chains: Seq<Seq<u32>>, closed: Seq<bool>, k: int) -> Seq<(u32, u32)>
    decreases k,
{
    if k <= 0 {
        Seq::empty()
    } else {
        all_chain_edges(chains, closed, k - 1) + chain_edges(chains[k - 1], closed[k - 1])
    }
}

/// `chains` split the half-edges `h` into vertex chains: every chain walks
/// at least one half-edge, and each half-edge of `h` is walked by exactly
/// one chain step.
pub open spec fn is_chain_cover(chains: Seq<Seq<u32>>, closed: Seq<bool>, h: Seq<(u32, u32)>) -> bool {
    &&& chains.len() == closed.len()
    &&& forall|k: int| 0 <= k < chains.len() ==> #[trigger] chain_edges(chains[k], closed[k]).len() > 0
    &&& all_chain_edges(chains, closed, chains.len() as int).no_duplicates()
    &&& forall|e: (u32, u32)| all_chain_edges(chains, closed, chains.len() as int).contains(e) <==> h.contains(e)
}

/// `out` is `chains`, each rotated to start at its smallest vertex, in
/// ascending lexicographic order.
pub open spec fn is_sorted_rotation(out: Seq<Vec<u32>>, chains: Seq<Seq<u32>>) -> bool {
    &&& out.len() == chains.len()
    &&& exists|perm: Seq<usize>|
        is_permutation(perm, chains.len()) && forall|k: int|
            0 <= k < out.len() ==> #[trigger] out[k]@ == rotate_min(chains[perm[k] as int])
    &&& forall|a: int, b: int| 0 <= a < b < out.len() ==> lex_le(out[a]@, out[b]@)
}

/// Half-edge `e` is in `h` and not yet walked in `w`.
pub open spec fn unwalked(h: Set<(u32, u32)>, w: Seq<(u32, u32)>, e: (u32, u32)) -> bool {
    h.contains(e) && !w.contains(e)
}

/// `(v, t)` is the unwalked half-edge out of `v` with the smallest target.
pub open spec fn smallest_out(h: Set<(u32, u32)>, w: Seq<(u32, u32)>, v: u32, t: u32) -> bool {
    unwalked(h, w, (v, t)) && forall|t2: u32| #[trigger] unwalked(h, w, (v, t2)) ==> t <= t2
}

/// No unwalked half-edge leaves `v`.
pub open spec fn no_out(h: Set<(u32, u32)>, w: Seq<(u32, u32)>, v: u32) -> bool {
    forall|t: u32| !#[trigger] unwalked(h, w, (v, t))
}

/// `v` is the smallest source vertex of an unwalked half-edge.
pub open spec fn smallest_source(h: Set<(u32, u32)>, w: Seq<(u32, u32)>, v: u32) -> bool {
    &&& exists|t: u32| #[trigger] unwalked(h, w, (v, t))
    &&& forall|u: u32, t: u32| #[trigger] unwalked(h, w, (u, t)) ==> v <= u
}

/// Chain `c`, walked after the half-edges `w`, follows the boundary walk:
/// it starts at the smallest source with an unwalked half-edge, each step
/// takes the smallest unwalked target, it never passes its start before
/// closing, and an open chain stops only where no unwalked half-edge
/// leaves its end.
pub open spec fn walked_greedily(h: Set<(u32, u32)>, w: Seq<(u32, u32)>, c: Seq<u32>, closed: bool) -> bool {
    let e = chain_edges(c, closed);
    &&& c.len() >= 1
    &&& smallest_source(h, w, c[0])
    &&& forall|i: int| 0 <= i < e.len() ==> #[trigger] smallest_out(h, w + e.take(i), e[i].0, e[i].1)
    &&& forall|i: int| 0 < i < c.len() ==> #[trigger] c[i] != c[0]
    &&& !closed ==> no_out(h, w + e, c.last())
}

/// Every chain of `chains` follows the boundary walk after the chains
/// before it.
pub open spec fn is_greedy_walk(chains: Seq<Seq<u32>>, closed: Seq<bool>, h: Set<(u32, u32)>) -> bool {
    forall|k: int|
        0 <= k < chains.len() ==> #[trigger] walked_greedily(h, all_chain_edges(chains, closed, k), chains[k], closed[k])
}

/// Within one source vertex, key order is target order.
proof fn lemma_pair_lo_order(x: u64, y: u64)
    requires
        pair_of(x).0 == pair_of(y).0,
        x < y,
    ensures
        pair_of(x).1 < pair_of(y).1,
{
    vstd::arithmetic::div_mod::lemma_fundamental_div_mod(x as int, 0x1_0000_0000);
    vstd::arithmetic::div_mod::lemma_fundamental_div_mod(y as int, 0x1_0000_0000);
    assert(0 <= x as int % 0x1_0000_0000 < 0x1_0000_0000) by {
        vstd::arithmetic::div_mod::lemma_mod_bound(x as int, 0x1_0000_0000);
    }
    assert(0 <= y as int % 0x1_0000_0000 < 0x1_0000_0000) by {
        vstd::arithmetic::div_mod::lemma_mod_bound(y as int, 0x1_0000_0000);
    }
    assert(0 <= x as int / 0x1_0000_0000 < 0x1_0000_0000) by {
        vstd::arithmetic::div_mod::lemma_div_pos_is_pos(x as int, 0x1_0000_0000);
        vstd::arithmetic::div_mod::lemma_div_by_multiple_is_strongly_ordered(x as int, 0x1_0000_0000_0000_0000, 0x1_0000_0000, 0x1_0000_0000);
    }
    assert(0 <= y as int / 0x1_0000_0000 < 0x1_0000_0000) by {
        vstd::arithmetic::div_mod::lemma_div_pos_is_pos(y as int, 0x1_0000_0000);
        vstd::arithmetic::div_mod::lemma_div_by_multiple_is_strongly_ordered(y as int, 0x1_0000_0000_0000_0000, 0x1_0000_0000, 0x1_0000_0000);
    }
}

/// The directed half-edge a key encodes.
pub open spec fn pair_of(x: u64) -> (u32, u32) {
    ((x as int / 0x1_0000_0000) as u32, (x as int % 0x1_0000_0000) as u32)
}

proof fn lemma_pair_of_key(p: (u32, u32))
    ensures
        pair_of(ekey(p)) == p,
{
    lemma_ekey_decode(p);
}

proof fn lemma_pair_of_injective(x: u64, y: u64)
    requires
        pair_of(x) == pair_of(y),
    ensures
        x == y,
{
    let (a, b) = (x as int / 0x1_0000_0000, x as int % 0x1_0000_0000);
    let (c, d) = (y as int / 0x1_0000_0000, y as int % 0x1_0000_0000);
    vstd::arithmetic::div_mod::lemma_fundamental_div_mod(x as int, 0x1_0000_0000);
    vstd::arithmetic::div_mod::lemma_fundamental_div_mod(y as int, 0x1_0000_0000);
    assert(0 <= a < 0x1_0000_0000) by {
        vstd::arithmetic::div_mod::lemma_div_pos_is_pos(x as int, 0x1_0000_0000);
        vstd::arithmetic::div_mod::lemma_div_by_multiple_is_strongly_ordered(x as int, 0x1_0000_0000_0000_0000, 0x1_0000_0000, 0x1_0000_0000);
    }
    assert(0 <= c < 0x1_0000_0000) by {
        vstd::arithmetic::div_mod::lemma_div_pos_is_pos(y as int, 0x1_0000_0000);
        vstd::arithmetic::div_mod::lemma_div_by_multiple_is_strongly_ordered(y as int, 0x1_0000_0000_0000_0000, 0x1_0000_0000, 0x1_0000_0000);
    }
    assert(a == c && b == d);
}

/// The keys of the boundary half-edges, in triangle order.
fn half_edge_keys(table: &EdgeTable, tris: &Vec<[u32; 3]>, n: usize) -> (list: Vec<u64>)
    requires
        table.describes(tris@, n),
        table.lookup_ok(),
    ensures
        list@ == boundary_half_edges(tris@, n).map_values(|p: (u32, u32)| ekey(p)),
{
    let mut list: Vec<u64> = Vec::new();
    let len = tris.len();
    let mut i: usize = 0;
    while i < len
        invariant
            len == tris@.len(),
            table.describes(tris@, n),
            table.lookup_ok(),
            i <= tris@.len(),
            list@ == half_edges_upto(tris@, n, i as int).map_values(|p: (u32, u32)| ekey(p)),
        decreases tris@.len() - i,
    {
        let t = tris[i];
        let ghost before = list@;
        if face_ok_exec(t, n) {
            let mut j: usize = 0;
            while j < 3
                invariant
                    table.describes(tris@, n),
                    table.lookup_ok(),
                    i < tris@.len(),
                    len == tris@.len(),
                    t == tris@[i as int],
                    face_ok(t, n),
                    j <= 3,
                    list@ == before + (if j > 0 { boundary_side(tris@, n, t, 0) } else { Seq::empty() }
                        + if j > 1 { boundary_side(tris@, n, t, 1) } else { Seq::empty() } + if j > 2 {
                        boundary_side(tris@, n, t, 2)
                    } else {
                        Seq::empty()
                    }).map_values(|p: (u32, u32)| ekey(p)),
                decreases 3 - j,
            {
                let (a, b) = if j == 0 {
                    (t[0], t[1])
                } else if j == 1 {
                    (t[1], t[2])
                } else {
                    (t[2], t[0])
                };
                let e = ukey_exec(a, b);
                assert((a, b) == side(t, j as int) && e == side_key(t, j as int));
                proof {
                    lemma_owners_props(tris@, n, e);
                    assert(owners(tris@, n, e).contains(i));
                    assert(table.keys@.contains(e));
                }
                let k = table.find(e).unwrap();
                assert(table.owners@[k as int]@ == owners(tris@, n, e));
                let ghost mid = list@;
                if table.owners[k].len() == 1 {
                    list.push(ekey_exec(a, b));
                }
                proof {
                    let s0 = if j > 0 { boundary_side(tris@, n, t, 0) } else { Seq::empty() };
                    let s1 = if j > 1 { boundary_side(tris@, n, t, 1) } else { Seq::empty() };
                    let s2 = if j > 2 { boundary_side(tris@, n, t, 2) } else { Seq::empty() };
                    let t0 = if j + 1 > 0 { boundary_side(tris@, n, t, 0) } else { Seq::empty() };
                    let t1 = if j + 1 > 1 { boundary_side(tris@, n, t, 1) } else { Seq::empty() };
                    let t2 = if j + 1 > 2 { boundary_side(tris@, n, t, 2) } else { Seq::empty() };
                    assert((t0 + t1 + t2) =~= (s0 + s1 + s2) + boundary_side(tris@, n, t, j as int));
                    assert(list@ =~= before + (t0 + t1 + t2).map_values(|p: (u32, u32)| ekey(p)));
                }
                j = j + 1;
            }
            proof {
                let piece = boundary_side(tris@, n, t, 0) + boundary_side(tris@, n, t, 1) + boundary_side(tris@, n, t, 2);
                assert(half_edges_upto(tris@, n, i + 1) == half_edges_upto(tris@, n, i as int) + piece);
                assert(half_edges_upto(tris@, n, i + 1).map_values(|p: (u32, u32)| ekey(p)) =~= before + piece.map_values(|p: (u32, u32)| ekey(p)));
            }
        } else {
            proof {
                assert(half_edges_upto(tris@, n, i + 1) =~= half_edges_upto(tris@, n, i as int));
            }
        }
        i = i + 1;
    }
    list
}

/// The source vertex of a key.
pub open spec fn src_of(x: u64) -> u32 {
    pair_of(x).0
}

/// The sorted keys `keys` grouped by source vertex: run `r` holds the keys
/// `start[r] .. end[r]`, all leaving `srcs[r]`; sources ascend; `index`
/// finds a vertex's run.
struct Runs {
    srcs: Vec<u32>,
    start: Vec<usize>,
    end: Vec<usize>,
    index: HashMap<u32, usize>,
}

impl Runs {
    /// Key position `i` lies in some run.
    spec fn covers(&self, i: int) -> bool {
        exists|r: int| 0 <= r < self.srcs@.len() && #[trigger] self.start@[r] <= i < self.end@[r]
    }

    spec fn ok(&self, keys: Seq<u64>) -> bool {
        let rn = self.srcs@.len();
        &&& self.start@.len() == rn
        &&& self.end@.len() == rn
        &&& forall|r: int| 0 <= r < rn ==> #[trigger] self.start@[r] < self.end@[r] && self.end@[r] <= keys.len()
        &&& forall|r: int, i: int|
            0 <= r < rn && self.start@[r] <= i < self.end@[r] ==> #[trigger] src_of(keys[i]) == #[trigger] self.srcs@[r]
        &&& forall|a: int, b: int| 0 <= a < b < rn ==> self.srcs@[a] < self.srcs@[b]
        &&& forall|i: int| 0 <= i < keys.len() ==> #[trigger] self.covers(i)
        &&& forall|r: int| 0 <= r < rn ==> #[trigger] self.index@.contains_key(self.srcs@[r]) && self.index@[self.srcs@[r]] == r
        &&& forall|v: u32| #[trigger] self.index@.contains_key(v) ==> self.index@[v] < rn && self.srcs@[self.index@[v] as int] == v
    }

    #[verifier::rlimit(80)]
    #[verifier::spinoff_prover]
    fn build(keys: &Vec<u64>) -> (runs: Runs)
        requires
            forall|a: int, b: int| 0 <= a < b < keys@.len() ==> keys@[a] <= keys@[b],
        ensures
            runs.ok(keys@),
    {
        let mut srcs: Vec<u32> = Vec::new();
        let mut start: Vec<usize> = Vec::new();
        let mut index: HashMap<u32, usize> = HashMap::new();
        let mut i: usize = 0;
        while i < keys.len()
            invariant
                forall|a: int, b: int| 0 <= a < b < keys@.len() ==> keys@[a] <= keys@[b],
                i <= keys@.len(),
                srcs@.len() == start@.len(),
                i == 0 <==> srcs@.len() == 0,
                i > 0 ==> srcs@.last() == src_of(keys@[i - 1]),
                srcs@.len() > 0 ==> start@[0] == 0,
                forall|r: int| 0 <= r < srcs@.len() ==> #[trigger] start@[r] < i,
                forall|r: int| 0 <= r < srcs@.len() - 1 ==> #[trigger] start@[r] < start@[r + 1],
                forall|r: int, q: int|
                    0 <= r < srcs@.len() && start@[r] <= q < (if r + 1 < srcs@.len() { start@[r + 1] as int } else { i as int })
                        ==> #[trigger] src_of(keys@[q]) == #[trigger] srcs@[r],
                forall|a: int, b: int| 0 <= a < b < srcs@.len() ==> srcs@[a] < srcs@[b],
                forall|r: int| 0 <= r < srcs@.len() ==> #[trigger] index@.contains_key(srcs@[r]) && index@[srcs@[r]] == r,
                forall|v: u32| #[trigger] index@.contains_key(v) ==> index@[v] < srcs@.len() && srcs@[index@[v] as int] == v,
            decreases keys@.len() - i,
        {
            let a = (keys[i] / 0x1_0000_0000u64) as u32;
            assert(a == src_of(keys@[i as int]));
            if srcs.len() == 0 || srcs[srcs.len() - 1] != a {
                proof {
                    if srcs@.len() > 0 {
                        assert(keys@[i - 1] <= keys@[i as int]);
                        vstd::arithmetic::div_mod::lemma_div_is_ordered(keys@[i - 1] as int, keys@[i as int] as int, 0x1_0000_0000);
                        assert(srcs@.last() < a);
                    }
                }
                let ghost old_srcs = srcs@;
                let ghost old_start = start@;
                let ghost old_index = index@;
                let r = srcs.len();
                srcs.push(a);
                start.push(i);
                index.insert(a, r);
                proof {
                    assert forall|v: u32| #[trigger] index@.contains_key(v) implies index@[v] < srcs@.len() && srcs@[index@[v] as int] == v by {
                        if v != a {
                            assert(old_index.contains_key(v));
                        }
                    }
                    assert forall|x: int, y: int| 0 <= x < y < srcs@.len() implies srcs@[x] < srcs@[y] by {
                        if y == r as int && x < r - 1 {
                            assert(old_srcs[x] < old_srcs[r - 1]);
                        }
                    }
                    assert forall|q: int| 0 <= q < srcs@.len() implies #[trigger] index@.contains_key(srcs@[q]) && index@[srcs@[q]] == q by {
                        if q < r {
                            assert(srcs@[q] != a);
                        }
                    }
                }
            } else {
                proof {
                    assert(src_of(keys@[i as int]) == srcs@.last());
                }
            }
            i = i + 1;
        }
        let mut end: Vec<usize> = Vec::new();
        let mut r: usize = 0;
        while r < srcs.len()
            invariant
                r <= srcs@.len(),
                srcs@.len() == start@.len(),
                end@.len() == r,
                forall|q: int| 0 <= q < r ==> #[trigger] end@[q] == if q + 1 < srcs@.len() { start@[q + 1] } else { keys@.len() as usize },
            decreases srcs@.len() - r,
        {
            if r + 1 < srcs.len() {
                end.push(start[r + 1]);
            } else {
                end.push(keys.len());
            }
            r = r + 1;
        }
        let ghost rn = srcs@.len() as int;
        proof {
            assert forall|q: int| 0 <= q < rn implies #[trigger] start@[q] < end@[q] && end@[q] <= keys@.len() by {
                assert(end@[q] == if q + 1 < rn { start@[q + 1] } else { keys@.len() as usize });
            }
            assert forall|q: int, x: int| 0 <= q < rn && start@[q] <= x < end@[q] implies #[trigger] src_of(keys@[x])
                == #[trigger] srcs@[q] by {
                assert(end@[q] == if q + 1 < rn { start@[q + 1] } else { keys@.len() as usize });
            }
        }
        let runs = Runs { srcs, start, end, index };
        proof {
            assert forall|x: int| 0 <= x < keys@.len() implies #[trigger] runs.covers(x) by {
                // The last run starting at or before `x` holds it.
                lemma_last_start(runs.start@, x, rn);
                let q = choose|q: int| 0 <= q < rn && #[trigger] runs.start@[q] <= x && (q + 1 == rn || runs.start@[q + 1] > x);
                assert(runs.end@[q] == if q + 1 < rn { runs.start@[q + 1] } else { keys@.len() as usize });
                assert(runs.start@[q] <= x < runs.end@[q]);
            }
        }
        runs
    }
}

/// Among increasing run starts beginning at `0`, some run is the last to
/// start at or before `i`.
proof fn lemma_last_start(start: Seq<usize>, i: int, rn: int)
    requires
        0 < rn <= start.len(),
        start[0] == 0,
        0 <= i,
        forall|r: int| 0 <= r < rn - 1 ==> #[trigger] start[r] < start[r + 1],
    ensures
        exists|r: int| 0 <= r < rn && #[trigger] start[r] <= i && (r + 1 == rn || start[r + 1] > i),
    decreases rn,
{
    if start[rn - 1] <= i {
        assert(start[rn - 1] <= i && (rn - 1 + 1 == rn || start[rn] > i));
    } else {
        lemma_last_start(start, i, rn - 1);
        let r = choose|r: int| 0 <= r < rn - 1 && #[trigger] start[r] <= i && (r + 1 == rn - 1 || start[r + 1] > i);
        if r + 1 == rn - 1 {
            assert(start[r + 1] > i);
        }
    }
}

proof fn lemma_all_edges_prefix(c1: Seq<Seq<u32>>, cl1: Seq<bool>, c2: Seq<Seq<u32>>, cl2: Seq<bool>, k: int)
    requires
        0 <= k,
        k <= c1.len(),
        k <= c2.len(),
        k <= cl1.len(),
        k <= cl2.len(),
        forall|q: int| 0 <= q < k ==> c1[q] == c2[q] && cl1[q] == cl2[q],
    ensures
        all_chain_edges(c1, cl1, k) == all_chain_edges(c2, cl2, k),
    decreases k,
{
    if k > 0 {
        lemma_all_edges_prefix(c1, cl1, c2, cl2, k - 1);
    }
}

/// Keys still to be walked in runs `0..k`.
spec fn rem(cursor: Seq<usize>, end: Seq<usize>, k: int) -> nat
    decreases k,
{
    if k <= 0 {
        0
    } else {
        rem(cursor, end, k - 1) + (if end[k - 1] >= cursor[k - 1] { (end[k - 1] - cursor[k - 1]) as nat } else { 0 })
    }
}

proof fn lemma_rem_step(cursor: Seq<usize>, end: Seq<usize>, k: int, r: int)
    requires
        0 <= r < k <= cursor.len(),
        k <= end.len(),
        cursor[r] < end[r],
    ensures
        rem(cursor.update(r, (cursor[r] + 1) as usize), end, k) + 1 == rem(cursor, end, k),
    decreases k,
{
    if r < k - 1 {
        lemma_rem_step(cursor, end, k - 1, r);
    } else {
        lemma_rem_same(cursor, cursor.update(r, (cursor[r] + 1) as usize), end, k - 1);
    }
}

proof fn lemma_rem_same(c1: Seq<usize>, c2: Seq<usize>, end: Seq<usize>, k: int)
    requires
        k <= c1.len(),
        k <= c2.len(),
        forall|q: int| 0 <= q < k ==> c1[q] == c2[q],
    ensures
        rem(c1, end, k) == rem(c2, end, k),
    decreases k,
{
    if k > 0 {
        lemma_rem_same(c1, c2, end, k - 1);
    }
}

/// Half-edge `e` has been walked: it is the key at a position before its
/// run's cursor.
spec fn consumed(keys: Seq<u64>, start: Seq<usize>, cursor: Seq<usize>, rn: int, e: (u32, u32)) -> bool {
    exists|q: int, i: int| #![trigger start[q], pair_of(keys[i])] 0 <= q < rn && start[q] <= i < cursor[q] && pair_of(keys[i]) == e
}

/// The half-edges of a chain still being walked (not yet closed).
pub open spec fn path_edges(c: Seq<u32>) -> Seq<(u32, u32)> {
    chain_edges(c, false)
}

/// The key under a run's cursor is not walked yet.
proof fn lemma_cursor_unconsumed(keys: Seq<u64>, runs: &Runs, cursor: Seq<usize>, q: int)
    requires
        runs.ok(keys),
        forall|a: int, b: int| 0 <= a < b < keys.len() ==> keys[a] < keys[b],
        cursor.len() == runs.srcs@.len(),
        forall|x: int| 0 <= x < runs.srcs@.len() ==> runs.start@[x] <= #[trigger] cursor[x] <= runs.end@[x],
        0 <= q < runs.srcs@.len(),
        cursor[q] < runs.end@[q],
    ensures
        !consumed(keys, runs.start@, cursor, runs.srcs@.len() as int, pair_of(keys[cursor[q] as int])),
        pair_of(keys[cursor[q] as int]).0 == runs.srcs@[q],
{
    let rn = runs.srcs@.len() as int;
    let c = cursor[q] as int;
    let x = keys[c];
    let e = pair_of(x);
    assert(src_of(keys[c]) == runs.srcs@[q]);
    if consumed(keys, runs.start@, cursor, rn, e) {
        let (q2, i) = choose|q2: int, i: int|
            #![trigger runs.start@[q2], pair_of(keys[i])] 0 <= q2 < rn && runs.start@[q2] <= i < cursor[q2] && pair_of(keys[i]) == e;
        lemma_pair_of_injective(keys[i], x);
        if i < c {
            assert(keys[i] < keys[c]);
        } else if i > c {
            assert(keys[c] < keys[i]);
        }
        assert(src_of(keys[i]) == runs.srcs@[q2]);
        if q2 < q {
            assert(runs.srcs@[q2] < runs.srcs@[q]);
        } else if q2 > q {
            assert(runs.srcs@[q] < runs.srcs@[q2]);
        }
    }
}

/// An unwalked half-edge of the keys sits at or after its run's cursor.
proof fn lemma_unwalked_in_run(keys: Seq<u64>, runs: &Runs, cursor: Seq<usize>, e: (u32, u32))
    requires
        runs.ok(keys),
        cursor.len() == runs.srcs@.len(),
        forall|x: int| 0 <= x < runs.srcs@.len() ==> runs.start@[x] <= #[trigger] cursor[x] <= runs.end@[x],
        keys.map_values(|x: u64| pair_of(x)).to_set().contains(e),
        !consumed(keys, runs.start@, cursor, runs.srcs@.len() as int, e),
    ensures
        exists|q: int, i: int|
            #![trigger runs.srcs@[q], pair_of(keys[i])]
            0 <= q < runs.srcs@.len() && cursor[q] <= i < runs.end@[q] && pair_of(keys[i]) == e
                && runs.srcs@[q] == e.0,
{
    let hs = keys.map_values(|x: u64| pair_of(x));
    assert(hs.contains(e));
    let i = choose|i: int| 0 <= i < hs.len() && hs[i] == e;
    assert(runs.covers(i));
    let q = choose|q: int| 0 <= q < runs.srcs@.len() && #[trigger] runs.start@[q] <= i < runs.end@[q];
    assert(src_of(keys[i]) == runs.srcs@[q]);
    assert(pair_of(keys[i]) == e);
    if i < cursor[q] {
        assert(consumed(keys, runs.start@, cursor, runs.srcs@.len() as int, e));
    }
}

/// Chain the half-edges of the sorted, duplicate-free keys `keys` into
/// vertex chains: seeds in ascending source order; at each vertex the
/// smallest unwalked target is taken next; a chain closes when it comes
/// back to its seed and stays open when it runs out of continuations.
#[verifier::rlimit(60)]
fn walk_chains(keys: &Vec<u64>, runs: &Runs) -> (res: (Vec<Vec<u32>>, Ghost<Seq<bool>>))
    requires
        forall|a: int, b: int| 0 <= a < b < keys@.len() ==> keys@[a] < keys@[b],
        runs.ok(keys@),
    ensures
        is_chain_cover(res.0@.map_values(|c: Vec<u32>| c@), res.1@, keys@.map_values(|x: u64| pair_of(x))),
        is_greedy_walk(res.0@.map_values(|c: Vec<u32>| c@), res.1@, keys@.map_values(|x: u64| pair_of(x)).to_set()),
{
    let rn = runs.srcs.len();
    let mut cursor: Vec<usize> = Vec::new();
    let mut q: usize = 0;
    while q < rn
        invariant
            rn == runs.srcs@.len(),
            runs.ok(keys@),
            q <= rn,
            cursor@ == runs.start@.take(q as int),
        decreases rn - q,
    {
        cursor.push(runs.start[q]);
        assert(cursor@ =~= runs.start@.take(q + 1));
        q = q + 1;
    }
    assert(cursor@ =~= runs.start@);
    let mut chains: Vec<Vec<u32>> = Vec::new();
    let ghost mut closed: Seq<bool> = Seq::empty();
    let ghost mut walked: Seq<(u32, u32)> = Seq::empty();
    let ghost hset = keys@.map_values(|x: u64| pair_of(x)).to_set();
    let mut r: usize = 0;
    while r < rn
        invariant
            rn == runs.srcs@.len(),
            runs.ok(keys@),
            forall|a: int, b: int| 0 <= a < b < keys@.len() ==> keys@[a] < keys@[b],
            r <= rn,
            cursor@.len() == rn,
            forall|x: int| 0 <= x < rn ==> runs.start@[x] <= #[trigger] cursor@[x] <= runs.end@[x],
            forall|x: int| 0 <= x < r ==> #[trigger] cursor@[x] == runs.end@[x],
            closed.len() == chains@.len(),
            forall|k: int| 0 <= k < chains@.len() ==> #[trigger] chain_edges(chains@[k]@, closed[k]).len() > 0,
            walked == all_chain_edges(chains@.map_values(|c: Vec<u32>| c@), closed, chains@.len() as int),
            walked.no_duplicates(),
            forall|e: (u32, u32)| walked.contains(e) <==> consumed(keys@, runs.start@, cursor@, rn as int, e),
            hset == keys@.map_values(|x: u64| pair_of(x)).to_set(),
            is_greedy_walk(chains@.map_values(|c: Vec<u32>| c@), closed, hset),
        decreases rn - r,
    {
        let seed = runs.srcs[r];
        while cursor[r] < runs.end[r]
            invariant
                rn == runs.srcs@.len(),
                runs.ok(keys@),
                forall|a: int, b: int| 0 <= a < b < keys@.len() ==> keys@[a] < keys@[b],
                r < rn,
                seed == runs.srcs@[r as int],
                cursor@.len() == rn,
                forall|x: int| 0 <= x < rn ==> runs.start@[x] <= #[trigger] cursor@[x] <= runs.end@[x],
                forall|x: int| 0 <= x < r ==> #[trigger] cursor@[x] == runs.end@[x],
                closed.len() == chains@.len(),
                forall|k: int| 0 <= k < chains@.len() ==> #[trigger] chain_edges(chains@[k]@, closed[k]).len() > 0,
                walked == all_chain_edges(chains@.map_values(|c: Vec<u32>| c@), closed, chains@.len() as int),
                walked.no_duplicates(),
                forall|e: (u32, u32)| walked.contains(e) <==> consumed(keys@, runs.start@, cursor@, rn as int, e),
                hset == keys@.map_values(|x: u64| pair_of(x)).to_set(),
                is_greedy_walk(chains@.map_values(|c: Vec<u32>| c@), closed, hset),
            decreases rem(cursor@, runs.end@, rn as int),
        {
            let ghost rem0 = rem(cursor@, runs.end@, rn as int);
            let ghost walked0 = walked;
            let mut ch: Vec<u32> = Vec::new();
            ch.push(seed);
            let mut cur: u32 = seed;
            let mut is_closed = false;
            proof {
                lemma_cursor_unconsumed(keys@, runs, cursor@, r as int);
                let c0 = cursor@[r as int] as int;
                let e0 = pair_of(keys@[c0]);
                assert(keys@.map_values(|x: u64| pair_of(x))[c0] == e0);
                assert(hset.contains(e0));
                assert(unwalked(hset, walked0, (seed, e0.1)));
                assert forall|u: u32, t: u32| #[trigger] unwalked(hset, walked0, (u, t)) implies seed <= u by {
                    lemma_unwalked_in_run(keys@, runs, cursor@, (u, t));
                    let (q, i) = choose|q: int, i: int|
                        #![trigger runs.srcs@[q], pair_of(keys@[i])]
                        0 <= q < rn && cursor@[q] <= i < runs.end@[q] && pair_of(keys@[i]) == (u, t) && runs.srcs@[q] == u;
                    if q < r {
                        assert(cursor@[q] == runs.end@[q]);
                    } else if q > r {
                        assert(runs.srcs@[r as int] < runs.srcs@[q]);
                    }
                }
                assert(smallest_source(hset, walked0, seed));
            }
            loop
                invariant_except_break
                    !is_closed,
                    path_edges(ch@).len() == 0 ==> cur == seed && cursor@[r as int] < runs.end@[r as int],
                invariant
                    rn == runs.srcs@.len(),
                    runs.ok(keys@),
                    forall|a: int, b: int| 0 <= a < b < keys@.len() ==> keys@[a] < keys@[b],
                    r < rn,
                    seed == runs.srcs@[r as int],
                    cursor@.len() == rn,
                    forall|x: int| 0 <= x < rn ==> runs.start@[x] <= #[trigger] cursor@[x] <= runs.end@[x],
                    forall|x: int| 0 <= x < r ==> #[trigger] cursor@[x] == runs.end@[x],
                    ch@.len() >= 1,
                    ch@[0] == seed,
                    cur == ch@.last(),
                    rem(cursor@, runs.end@, rn as int) + chain_edges(ch@, is_closed).len() == rem0,
                    walked0 == all_chain_edges(chains@.map_values(|c: Vec<u32>| c@), closed, chains@.len() as int),
                    walked == walked0 + chain_edges(ch@, is_closed),
                    walked.no_duplicates(),
                    forall|e: (u32, u32)| walked.contains(e) <==> consumed(keys@, runs.start@, cursor@, rn as int, e),
                    hset == keys@.map_values(|x: u64| pair_of(x)).to_set(),
                    smallest_source(hset, walked0, seed),
                    forall|i: int| 0 < i < ch@.len() ==> #[trigger] ch@[i] != seed,
                    forall|i: int|
                        0 <= i < path_edges(ch@).len() ==> #[trigger] smallest_out(
                            hset,
                            walked0 + path_edges(ch@).take(i),
                            path_edges(ch@)[i].0,
                            path_edges(ch@)[i].1,
                        ),
                ensures
                    chain_edges(ch@, is_closed).len() > 0,
                    is_closed ==> smallest_out(hset, walked0 + path_edges(ch@), ch@.last(), seed),
                    !is_closed ==> no_out(hset, walked, ch@.last()),
                decreases rem(cursor@, runs.end@, rn as int),
            {
                let r2 = match runs.index.get(&cur) {
                    Some(x) => *x,
                    None => {
                        proof {
                            assert forall|t: u32| !#[trigger] unwalked(hset, walked, (cur, t)) by {
                                if unwalked(hset, walked, (cur, t)) {
                                    lemma_unwalked_in_run(keys@, runs, cursor@, (cur, t));
                                    let (q, i) = choose|q: int, i: int|
                                        #![trigger runs.srcs@[q], pair_of(keys@[i])]
                                        0 <= q < rn && cursor@[q] <= i < runs.end@[q] && pair_of(keys@[i]) == (cur, t) && runs.srcs@[q] == cur;
                                    assert(runs.index@.contains_key(runs.srcs@[q]));
                                }
                            }
                        }
                        break;
                    },
                };
                proof {
                    assert(runs.index@.contains_key(cur));
                    assert(runs.srcs@[r2 as int] == cur);
                }
                if cursor[r2] >= runs.end[r2] {
                    proof {
                        assert forall|t: u32| !#[trigger] unwalked(hset, walked, (cur, t)) by {
                            if unwalked(hset, walked, (cur, t)) {
                                lemma_unwalked_in_run(keys@, runs, cursor@, (cur, t));
                                let (q, i) = choose|q: int, i: int|
                                    #![trigger runs.srcs@[q], pair_of(keys@[i])]
                                    0 <= q < rn && cursor@[q] <= i < runs.end@[q] && pair_of(keys@[i]) == (cur, t) && runs.srcs@[q] == cur;
                                if q < r2 {
                                    assert(runs.srcs@[q] < runs.srcs@[r2 as int]);
                                } else if q > r2 {
                                    assert(runs.srcs@[r2 as int] < runs.srcs@[q]);
                                }
                            }
                        }
                    }
                    break;
                }
                let c = cursor[r2];
                let x = keys[c];
                let next = (x % 0x1_0000_0000u64) as u32;
                let ghost e = pair_of(x);
                proof {
                    assert(runs.index@.contains_key(cur));
                    assert(runs.srcs@[r2 as int] == cur);
                    assert(src_of(keys@[c as int]) == runs.srcs@[r2 as int]);
                    assert(e == (cur, next));
                    assert(!consumed(keys@, runs.start@, cursor@, rn as int, e)) by {
                        if consumed(keys@, runs.start@, cursor@, rn as int, e) {
                            let (q2, i) = choose|q2: int, i: int|
                                #![trigger runs.start@[q2], pair_of(keys@[i])] 0 <= q2 < rn && runs.start@[q2] <= i < cursor@[q2] && pair_of(keys@[i]) == e;
                            lemma_pair_of_injective(keys@[i], x);
                            if i < c {
                                assert(keys@[i] < keys@[c as int]);
                            } else if i > c {
                                assert(keys@[c as int] < keys@[i]);
                            }
                            assert(src_of(keys@[i]) == runs.srcs@[q2]);
                            if q2 < r2 {
                                assert(runs.srcs@[q2] < runs.srcs@[r2 as int]);
                            } else if q2 > r2 {
                                assert(runs.srcs@[r2 as int] < runs.srcs@[q2]);
                            }
                        }
                    }
                    lemma_rem_step(cursor@, runs.end@, rn as int, r2 as int);
                    assert(keys@.map_values(|x: u64| pair_of(x))[c as int] == e);
                    assert(hset.contains(e));
                    assert forall|t2: u32| #[trigger] unwalked(hset, walked, (cur, t2)) implies next <= t2 by {
                        lemma_unwalked_in_run(keys@, runs, cursor@, (cur, t2));
                        let (q, i) = choose|q: int, i: int|
                            #![trigger runs.srcs@[q], pair_of(keys@[i])]
                            0 <= q < rn && cursor@[q] <= i < runs.end@[q] && pair_of(keys@[i]) == (cur, t2) && runs.srcs@[q] == cur;
                        if q < r2 {
                            assert(runs.srcs@[q] < runs.srcs@[r2 as int]);
                        } else if q > r2 {
                            assert(runs.srcs@[r2 as int] < runs.srcs@[q]);
                        }
                        if i > c {
                            assert(keys@[c as int] < keys@[i]);
                            lemma_pair_lo_order(keys@[c as int], keys@[i]);
                        }
                    }
                    assert(smallest_out(hset, walked, cur, next));
                }
                let ghost old_cursor = cursor@;
                cursor.set(r2, c + 1);
                proof {
                    assert forall|f: (u32, u32)| consumed(keys@, runs.start@, cursor@, rn as int, f) <==> consumed(
                        keys@,
                        runs.start@,
                        old_cursor,
                        rn as int,
                        f,
                    ) || f == e by {
                        if consumed(keys@, runs.start@, cursor@, rn as int, f) {
                            let (q2, i) = choose|q2: int, i: int|
                                #![trigger runs.start@[q2], pair_of(keys@[i])] 0 <= q2 < rn && runs.start@[q2] <= i < cursor@[q2] && pair_of(keys@[i]) == f;
                            if !(q2 == r2 && i == c) {
                                assert(consumed(keys@, runs.start@, old_cursor, rn as int, f));
                            }
                        }
                        if consumed(keys@, runs.start@, old_cursor, rn as int, f) {
                            let (q2, i) = choose|q2: int, i: int|
                                #![trigger runs.start@[q2], pair_of(keys@[i])] 0 <= q2 < rn && runs.start@[q2] <= i < old_cursor[q2] && pair_of(keys@[i]) == f;
                            assert(runs.start@[q2] <= i < cursor@[q2]);
                        }
                        if f == e {
                            assert(runs.start@[r2 as int] <= c < cursor@[r2 as int]);
                            assert(pair_of(keys@[c as int]) == f);
                        }
                    }
                }
                let ghost old_ch = ch@;
                let ghost old_walked = walked;
                let ghost new_walked = walked.push(e);
                proof {
                    assert forall|f: (u32, u32)| new_walked.contains(f) <==> consumed(keys@, runs.start@, cursor@, rn as int, f) by {
                        if new_walked.contains(f) && f != e {
                            let k = choose|k: int| 0 <= k < new_walked.len() && new_walked[k] == f;
                            assert(old_walked[k] == f);
                            assert(old_walked.contains(f));
                        }
                        if consumed(keys@, runs.start@, old_cursor, rn as int, f) {
                            assert(old_walked.contains(f));
                            let k = choose|k: int| 0 <= k < old_walked.len() && old_walked[k] == f;
                            assert(new_walked[k] == f);
                        }
                        if f == e {
                            assert(new_walked[new_walked.len() - 1] == f);
                        }
                    }
                    assert(new_walked.no_duplicates()) by {
                        assert forall|a: int, b: int| 0 <= a < b < new_walked.len() implies new_walked[a] != new_walked[b] by {
                            if b == new_walked.len() - 1 {
                                assert(old_walked[a] == new_walked[a]);
                                assert(old_walked.contains(new_walked[a]));
                            } else {
                                assert(old_walked[a] != old_walked[b]);
                            }
                        }
                    }
                }
                if next == seed {
                    is_closed = true;
                    proof {
                        assert(chain_edges(ch@, true) =~= chain_edges(ch@, false).push((cur, seed)));
                        walked = new_walked;
                        assert(walked =~= walked0 + chain_edges(ch@, true));
                    }
                    break;
                }
                ch.push(next);
                cur = next;
                proof {
                    assert(chain_edges(ch@, false) =~= chain_edges(old_ch, false).push(e));
                    walked = new_walked;
                    assert(walked =~= walked0 + chain_edges(ch@, false));
                    let pe = path_edges(ch@);
                    let ope = path_edges(old_ch);
                    assert(old_walked == walked0 + ope);
                    assert forall|i: int| 0 <= i < pe.len() implies #[trigger] smallest_out(hset, walked0 + pe.take(i), pe[i].0, pe[i].1) by {
                        if i < ope.len() {
                            assert(pe.take(i) =~= ope.take(i));
                            assert(pe[i] == ope[i]);
                        } else {
                            assert(pe.take(i) =~= ope);
                            assert(pe[i] == e);
                        }
                    }
                    assert forall|i: int| 0 < i < ch@.len() implies #[trigger] ch@[i] != seed by {
                        if i < old_ch.len() {
                            assert(ch@[i] == old_ch[i]);
                        }
                    }
                }
            }
            proof {
                let ce = chain_edges(ch@, is_closed);
                let pe = path_edges(ch@);
                if is_closed {
                    assert(ce =~= pe.push((ch@.last(), ch@[0])));
                    assert forall|i: int| 0 <= i < ce.len() implies #[trigger] smallest_out(hset, walked0 + ce.take(i), ce[i].0, ce[i].1) by {
                        if i < pe.len() {
                            assert(ce.take(i) =~= pe.take(i));
                            assert(ce[i] == pe[i]);
                        } else {
                            assert(ce.take(i) =~= pe);
                        }
                    }
                } else {
                    assert(ce == pe);
                }
                assert(walked_greedily(hset, walked0, ch@, is_closed));
            }
            let ghost old_chains = chains@;
            chains.push(ch);
            proof {
                let old_closed = closed;
                closed = closed.push(is_closed);
                let views = chains@.map_values(|c: Vec<u32>| c@);
                let old_views = old_chains.map_values(|c: Vec<u32>| c@);
                lemma_all_edges_prefix(views, closed, old_views, old_closed, old_chains.len() as int);
                assert(views[old_chains.len() as int] == chains@[old_chains.len() as int]@);
                assert(all_chain_edges(views, closed, chains@.len() as int) == all_chain_edges(views, closed, old_chains.len() as int)
                    + chain_edges(views[old_chains.len() as int], closed[old_chains.len() as int]));
                assert forall|k: int| 0 <= k < chains@.len() implies #[trigger] chain_edges(chains@[k]@, closed[k]).len() > 0 by {
                    if k < old_chains.len() {
                        assert(chains@[k] == old_chains[k]);
                        assert(closed[k] == old_closed[k]);
                    }
                }
                assert forall|k: int| 0 <= k < views.len() implies #[trigger] walked_greedily(
                    hset,
                    all_chain_edges(views, closed, k),
                    views[k],
                    closed[k],
                ) by {
                    lemma_all_edges_prefix(views, closed, old_views, old_closed, k);
                    if k < old_chains.len() {
                        assert(views[k] == old_views[k]);
                        assert(closed[k] == old_closed[k]);
                        assert(walked_greedily(hset, all_chain_edges(old_views, old_closed, k), old_views[k], old_closed[k]));
                    } else {
                        assert(views[k] == ch@);
                    }
                }
            }
        }
        r = r + 1;
    }
    proof {
        let views = chains@.map_values(|c: Vec<u32>| c@);
        let h = keys@.map_values(|x: u64| pair_of(x));
        assert forall|e: (u32, u32)| walked.contains(e) <==> h.contains(e) by {
            if walked.contains(e) {
                let (q2, i) = choose|q2: int, i: int|
                    #![trigger runs.start@[q2], pair_of(keys@[i])] 0 <= q2 < rn && runs.start@[q2] <= i < cursor@[q2] && pair_of(keys@[i]) == e;
                assert(runs.start@[q2] < runs.end@[q2] && runs.end@[q2] <= keys@.len());
                assert(h[i] == e);
            }
            if h.contains(e) {
                let i = choose|i: int| 0 <= i < h.len() && h[i] == e;
                assert(runs.covers(i));
                let q2 = choose|q2: int| 0 <= q2 < rn && #[trigger] runs.start@[q2] <= i < runs.end@[q2];
                assert(cursor@[q2] == runs.end@[q2]);
                assert(pair_of(keys@[i]) == e);
                assert(consumed(keys@, runs.start@, cursor@, rn as int, e));
            }
        }
        assert forall|k: int| 0 <= k < views.len() implies #[trigger] chain_edges(views[k], closed[k]).len() > 0 by {
            assert(views[k] == chains@[k]@);
        }
    }
    (chains, Ghost(closed))
}

/// Half-edge `e` is side `j` of valid triangle `f`, whose undirected edge
/// no other valid triangle shares.
spec fn from_face(tris: Seq<[u32; 3]>, n: usize, e: (u32, u32), f: int, j: int) -> bool {
    &&& 0 <= j < 3
    &&& face_ok(tris[f], n)
    &&& side(tris[f], j) == e
    &&& edge_uses(tris, n, side_key(tris[f], j)) == 1
}

/// The boundary half-edges are distinct, and each comes from a triangle
/// before `k`.
proof fn lemma_half_edges_distinct(tris: Seq<[u32; 3]>, n: usize, k: int)
    requires
        0 <= k <= tris.len(),
        tris.len() <= usize::MAX,
    ensures
        half_edges_upto(tris, n, k).no_duplicates(),
        forall|e: (u32, u32)|
            half_edges_upto(tris, n, k).contains(e) ==> exists|f: int, j: int| 0 <= f < k && #[trigger] from_face(tris, n, e, f, j),
    decreases k,
{
    if k > 0 {
        lemma_half_edges_distinct(tris, n, k - 1);
        let prev = half_edges_upto(tris, n, k - 1);
        let t = tris[k - 1];
        let cur = half_edges_upto(tris, n, k);
        if face_ok(t, n) {
            let piece = boundary_side(tris, n, t, 0) + boundary_side(tris, n, t, 1) + boundary_side(tris, n, t, 2);
            assert(cur == prev + piece);
            assert forall|x: int| #![trigger piece[x]] 0 <= x < piece.len() implies exists|j: int| #[trigger] from_face(tris, n, piece[x], k - 1, j) by {
                let l0 = boundary_side(tris, n, t, 0).len();
                let l1 = boundary_side(tris, n, t, 1).len();
                if x < l0 {
                    assert(from_face(tris, n, piece[x], k - 1, 0));
                } else if x < l0 + l1 {
                    assert(from_face(tris, n, piece[x], k - 1, 1));
                } else {
                    assert(from_face(tris, n, piece[x], k - 1, 2));
                }
            }
            assert(piece.no_duplicates()) by {
                assert forall|a: int, b: int| 0 <= a < b < piece.len() implies piece[a] != piece[b] by {
                    let ja = choose|j: int| #[trigger] from_face(tris, n, piece[a], k - 1, j);
                    let jb = choose|j: int| #[trigger] from_face(tris, n, piece[b], k - 1, j);
                    let l0 = boundary_side(tris, n, t, 0).len();
                    let l1 = boundary_side(tris, n, t, 1).len();
                    if ja == jb {
                        // The same side appears once in the piece.
                        assert(l0 <= 1 && l1 <= 1);
                        if a < l0 {
                            assert(piece[a] == side(t, 0));
                        }
                    }
                }
            }
            assert forall|x: int, y: int| 0 <= x < prev.len() && 0 <= y < piece.len() implies prev[x] != piece[y] by {
                if prev[x] == piece[y] {
                    let e = prev[x];
                    assert(prev.contains(e));
                    let (f, j) = choose|f: int, j: int| 0 <= f < k - 1 && #[trigger] from_face(tris, n, e, f, j);
                    let j2 = choose|j: int| #[trigger] from_face(tris, n, piece[y], k - 1, j);
                    let u = side_key(tris[f], j);
                    assert(side_key(t, j2) == u);
                    lemma_owners_props(tris, n, u);
                    assert(face_has_edge_at(tris[f], u, j));
                    assert(face_has_edge_at(t, u, j2));
                    assert(owners(tris, n, u).contains(f as usize));
                    assert(owners(tris, n, u).contains((k - 1) as usize));
                    assert(owners(tris, n, u).len() == 1);
                    assert(owners(tris, n, u)[0] == f as usize);
                }
            }
            assert(cur.no_duplicates()) by {
                assert forall|a: int, b: int| 0 <= a < b < cur.len() implies cur[a] != cur[b] by {
                    if b < prev.len() {
                        assert(prev[a] != prev[b]);
                    } else if a >= prev.len() {
                        assert(piece[a - prev.len()] != piece[b - prev.len()]);
                    } else {
                        assert(prev[a] != piece[b - prev.len()]);
                    }
                }
            }
            assert forall|e: (u32, u32)| cur.contains(e) implies exists|f: int, j: int| 0 <= f < k && #[trigger] from_face(tris, n, e, f, j) by {
                let x = choose|x: int| 0 <= x < cur.len() && cur[x] == e;
                if x < prev.len() {
                    assert(prev.contains(e));
                } else {
                    assert(piece[x - prev.len()] == e);
                }
            }
        } else {
            assert(cur =~= prev);
        }
    }
}

/// `u` is the undirected edge of side `j` of `t`.
spec fn face_has_edge_at(t: [u32; 3], u: (u32, u32), j: int) -> bool {
    0 <= j < 3 && side_key(t, j) == u && crate::topology::face_has_edge(t, u)
}

impl Connectivity {
    /// The boundary of this surface traced into vertex loops: every
    /// directed boundary half-edge (a side of a valid triangle whose
    /// undirected edge no other valid triangle shares, in that triangle's
    /// winding) is walked exactly once. Walks start at the smallest source
    /// vertex with an unwalked half-edge, take the smallest unwalked target
    /// at each vertex, and close on returning to their start (or stay open
    /// when no continuation is left). Each loop is rotated to start at its
    /// smallest vertex, and the loops are sorted lexicographically.
    pub fn boundary_loops(&self) -> (loops: Vec<Vec<u32>>)
        ensures
            exists|chains: Seq<Seq<u32>>, closed: Seq<bool>|
                is_chain_cover(chains, closed, boundary_half_edges(self.triangles(), self.vertex_count))
                    && is_greedy_walk(chains, closed, boundary_half_edges(self.triangles(), self.vertex_count).to_set())
                    && is_sorted_rotation(loops@, chains),
    {
        broadcast use vstd::multiset::group_multiset_axioms;
        broadcast use vstd::seq_lib::group_to_multiset_ensures;

        let tris = self.triangle_indices();
        let n = self.vertex_count;
        let len = tris.len();
        let table = EdgeTable::build(&tris, n);
        let mut keys = half_edge_keys(&table, &tris, n);
        let ghost h = boundary_half_edges(tris@, n);
        let ghost before = keys@;
        proof {
            lemma_half_edges_distinct(tris@, n, tris@.len() as int);
            assert(before.no_duplicates()) by {
                assert forall|a: int, b: int| 0 <= a < b < before.len() implies before[a] != before[b] by {
                    if before[a] == before[b] {
                        lemma_ekey_injective(h[a], h[b]);
                    }
                }
            }
        }
        sort_u64(&mut keys);
        proof {
            before.lemma_multiset_has_no_duplicates();
            keys@.lemma_multiset_has_no_duplicates_conv();
            assert forall|a: int, b: int| 0 <= a < b < keys@.len() implies keys@[a] < keys@[b] by {
                assert(keys@[a] <= keys@[b]);
                assert(keys@[a] != keys@[b]);
            }
        }
        let runs = Runs::build(&keys);
        let (chains, Ghost(closed)) = walk_chains(&keys, &runs);
        let ghost views = chains@.map_values(|c: Vec<u32>| c@);
        proof {
            let hk = keys@.map_values(|x: u64| pair_of(x));
            assert forall|e: (u32, u32)| hk.contains(e) <==> h.contains(e) by {
                if hk.contains(e) {
                    let i = choose|i: int| 0 <= i < hk.len() && hk[i] == e;
                    lemma_perm_contains(keys@, before, keys@[i]);
                    let a = choose|a: int| 0 <= a < before.len() && before[a] == keys@[i];
                    lemma_pair_of_key(h[a]);
                    assert(h[a] == e);
                }
                if h.contains(e) {
                    let a = choose|a: int| 0 <= a < h.len() && h[a] == e;
                    assert(before[a] == ekey(e));
                    lemma_perm_contains(before, keys@, ekey(e));
                    let i = choose|i: int| 0 <= i < keys@.len() && keys@[i] == ekey(e);
                    lemma_pair_of_key(e);
                    assert(hk[i] == e);
                }
            }
        }
        let mut rotated: Vec<Vec<u32>> = Vec::new();
        let mut k: usize = 0;
        while k < chains.len()
            invariant
                k <= chains@.len(),
                rotated@.len() == k,
                forall|q: int| 0 <= q < k ==> #[trigger] rotated@[q]@ == rotate_min(chains@[q]@),
            decreases chains@.len() - k,
        {
            rotated.push(rotate_to_min(&chains[k]));
            k = k + 1;
        }
        let loops = sort_lists(&rotated);
        proof {
            let perm = choose|perm: Seq<usize>|
                is_permutation(perm, rotated@.len()) && forall|q: int| 0 <= q < loops@.len() ==> #[trigger] loops@[q]@ == rotated@[perm[q] as int]@;
            assert forall|q: int| 0 <= q < loops@.len() implies #[trigger] loops@[q]@ == rotate_min(views[perm[q] as int]) by {
                assert(views[perm[q] as int] == chains@[perm[q] as int]@);
            }
            assert(is_sorted_rotation(loops@, views));
            assert(is_chain_cover(views, closed, h));
            assert(keys@.map_values(|x: u64| pair_of(x)).to_set() =~= h.to_set()) by {
                assert forall|e: (u32, u32)| keys@.map_values(|x: u64| pair_of(x)).contains(e) == h.contains(e) by {}
            }
            assert(is_greedy_walk(views, closed, h.to_set()));
        }
        loops
    }
}

} // verus!
