//! Vertex-cache and vertex-fetch bookkeeping for GPU buffer optimisation:
//! FIFO post-transform cache simulation, narrowest-width index packing,
//! first-use vertex relabelling, attribute gathering, triangle incidence
//! tables and the recent-vertex frontier of the greedy cache ordering.
use std::collections::HashSet;
use vstd::prelude::*;
use crate::mesh::{Connectivity, Indices, Topology, flatten};
use crate::topology::{face_ok, face_ok_exec};

verus! {

broadcast use vstd::std_specs::hash::group_hash_axioms;

/// Integer outcome of simulating a FIFO post-transform vertex cache over an
/// index stream (the miss and distinct-vertex tallies behind the ACMR and
/// ATVR ratios).
#[derive(Clone, Copy, Debug, PartialEq, Eq)]
pub struct CacheCounts {
    /// Cache size used for the simulation (slots, at least 1).
    pub cache_size: usize,
    /// Number of triangles walked (`indices.len() / 3`).
    pub triangles: usize,
    /// Number of distinct vertices referenced by the stream.
    pub vertices: usize,
    /// Total cache misses (vertex-shader invocations).
    pub misses: usize,
}

/// State of a FIFO cache of `size` slots after walking `s`: the slot
/// contents (`None` marks a slot never filled), the next slot to evict,
/// and the number of misses so far. An index already in a slot is a hit;
/// otherwise it is a miss and replaces the oldest slot.
pub open spec fn fifo_run(s: Seq<u32>, size: nat) -> (Seq<Option<u32>>, nat, nat)
    decreases s.len(),
{
    if s.len() == 0 {
        (Seq::new(size, |i: int| None), 0, 0)
    } else {
        let prev = fifo_run(s.drop_last(), size);
        let x = s.last();
        if prev.0.contains(Some(x)) {
            prev
        } else {
            (prev.0.update(prev.1 as int, Some(x)), ((prev.1 + 1) % size) as nat, prev.2 + 1)
        }
    }
}

/// The last `size` entries of `m` (all of it when shorter).
pub open spec fn recent(m: Seq<u32>, size: nat) -> Seq<u32> {
    if m.len() >= size {
        m.subrange(m.len() - size, m.len() as int)
    } else {
        m
    }
}

/// The indices of `s` that miss a FIFO cache of `size` slots, in order: a
/// reference hits exactly when its index is among the last `size` misses.
pub open spec fn fifo_misses(s: Seq<u32>, size: nat) -> Seq<u32>
    decreases s.len(),
{
    if s.len() == 0 {
        Seq::empty()
    } else {
        let m = fifo_misses(s.drop_last(), size);
        if recent(m, size).contains(s.last()) {
            m
        } else {
            m.push(s.last())
        }
    }
}

/// The ring state against the misses `m`: miss `j` of the last `size`
/// sits in slot `j % size`, every other slot is empty, and the next slot to
/// fill is `m.len() % size`.
spec fn slot_of(j: int, size: int) -> int {
    j % size
}

spec fn ring_holds(st: (Seq<Option<u32>>, nat, nat), m: Seq<u32>, size: nat) -> bool {
    let lo = if m.len() >= size { m.len() - size } else { 0 };
    &&& st.0.len() == size
    &&& st.1 == m.len() % size
    &&& st.2 == m.len()
    &&& forall|j: int| lo <= j < m.len() ==> #[trigger] st.0[slot_of(j, size as int)] == Some(m[j])
    &&& forall|q: int|
        0 <= q < size ==> (#[trigger] st.0[q] is None || exists|j: int| lo <= j < m.len() && #[trigger] slot_of(j, size as int) == q)
}

proof fn lemma_residue_distinct(j: int, l: int, size: int)
    requires
        size >= 1,
        l - size < j < l,
    ensures
        j % size != l % size,
{
    vstd::arithmetic::div_mod::lemma_fundamental_div_mod(j, size);
    vstd::arithmetic::div_mod::lemma_fundamental_div_mod(l, size);
    if j % size == l % size {
        let k = l / size - j / size;
        assert(l - j == size * k) by (nonlinear_arith)
            requires
                j == size * (j / size) + j % size,
                l == size * (l / size) + l % size,
                j % size == l % size,
                k == l / size - j / size,
        ;
        assert(false) by (nonlinear_arith)
            requires
                l - j == size * k,
                0 < l - j < size,
                size >= 1,
        ;
    }
}

proof fn lemma_ring(s: Seq<u32>, size: nat)
    requires
        size >= 1,
    ensures
        ring_holds(fifo_run(s, size), fifo_misses(s, size), size),
    decreases s.len(),
{
    let sz = size as int;
    if s.len() == 0 {
        let st = fifo_run(s, size);
        assert forall|q: int| 0 <= q < size implies (#[trigger] st.0[q] is None || exists|j: int|
            0 <= j < 0 && #[trigger] slot_of(j, sz) == q) by {}
    } else {
        let p = s.drop_last();
        let x = s.last();
        lemma_ring(p, size);
        let st = fifo_run(p, size);
        let m = fifo_misses(p, size);
        let l = m.len() as int;
        let lo = if l >= sz { l - sz } else { 0 };
        vstd::arithmetic::div_mod::lemma_mod_pos_bound(l, sz);
        // A slot holds `x` exactly when `x` is among the last misses.
        assert(st.0.contains(Some(x)) == recent(m, size).contains(x)) by {
            let r = recent(m, size);
            assert(r.len() == l - lo);
            assert forall|k: int| 0 <= k < r.len() implies #[trigger] r[k] == m[lo + k] by {}
            if st.0.contains(Some(x)) {
                let q = choose|q: int| 0 <= q < st.0.len() && st.0[q] == Some(x);
                let j = choose|j: int| lo <= j < m.len() && #[trigger] slot_of(j, sz) == q;
                vstd::arithmetic::div_mod::lemma_mod_pos_bound(j, sz);
                assert(st.0[slot_of(j, sz)] == Some(m[j]));
                assert(r[j - lo] == x);
            }
            if r.contains(x) {
                let k = choose|k: int| 0 <= k < r.len() && r[k] == x;
                let j = lo + k;
                vstd::arithmetic::div_mod::lemma_mod_pos_bound(j, sz);
                assert(st.0[slot_of(j, sz)] == Some(m[j]));
            }
        }
        if !st.0.contains(Some(x)) {
            let st2 = fifo_run(s, size);
            let m2 = fifo_misses(s, size);
            assert(m2 == m.push(x));
            let h = st.1 as int;
            assert(st2.0 == st.0.update(h, Some(x)));
            let lo2 = if l + 1 >= sz { l + 1 - sz } else { 0 };
            vstd::arithmetic::div_mod::lemma_add_mod_noop(l, 1, sz);
            if size > 1 {
                vstd::arithmetic::div_mod::lemma_small_mod(1, size);
            } else {
                vstd::arithmetic::div_mod::lemma_mod_pos_bound(l + 1, sz);
                vstd::arithmetic::div_mod::lemma_mod_pos_bound(l % sz + 1, sz);
            }
            assert(st2.1 == m2.len() % size);
            assert forall|j: int| lo2 <= j < m2.len() implies #[trigger] st2.0[slot_of(j, sz)] == Some(m2[j]) by {
                vstd::arithmetic::div_mod::lemma_mod_pos_bound(j, sz);
                if j < l {
                    lemma_residue_distinct(j, l, sz);
                    assert(st.0[slot_of(j, sz)] == Some(m[j]));
                }
            }
            assert forall|q: int| 0 <= q < size implies (#[trigger] st2.0[q] is None || exists|j: int|
                lo2 <= j < m2.len() && #[trigger] slot_of(j, sz) == q) by {
                if q == h {
                    assert(slot_of(l, sz) == q);
                } else if !(st.0[q] is None) {
                    let j = choose|j: int| lo <= j < m.len() && #[trigger] slot_of(j, sz) == q;
                    if j < lo2 {
                        assert(j == l - sz);
                        vstd::arithmetic::div_mod::lemma_mod_add_multiples_vanish(j, sz);
                        assert(j % sz == l % sz);
                    }
                }
            }
        }
    }
}

/// A FIFO cache of `size` slots hits a reference exactly when its index is
/// among the last `size` indices that missed: the slots hold exactly those
/// indices, and the miss count is the number of such misses.
pub proof fn law_fifo_hits_recent_misses(s: Seq<u32>, size: nat)
    requires
        size >= 1,
    ensures
        fifo_run(s, size).2 == fifo_misses(s, size).len(),
        forall|x: u32| #[trigger] fifo_run(s, size).0.contains(Some(x)) <==> recent(fifo_misses(s, size), size).contains(x),
{
    lemma_ring(s, size);
    let st = fifo_run(s, size);
    let m = fifo_misses(s, size);
    let sz = size as int;
    let l = m.len() as int;
    let lo = if l >= sz { l - sz } else { 0 };
    assert forall|x: u32| #[trigger] st.0.contains(Some(x)) <==> recent(m, size).contains(x) by {
        let r = recent(m, size);
        assert forall|k: int| 0 <= k < r.len() implies #[trigger] r[k] == m[lo + k] by {}
        if st.0.contains(Some(x)) {
            let q = choose|q: int| 0 <= q < st.0.len() && st.0[q] == Some(x);
            let j = choose|j: int| lo <= j < m.len() && #[trigger] slot_of(j, sz) == q;
            assert(st.0[slot_of(j, sz)] == Some(m[j]));
            assert(r[j - lo] == x);
        }
        if r.contains(x) {
            let k = choose|k: int| 0 <= k < r.len() && r[k] == x;
            let j = lo + k;
            vstd::arithmetic::div_mod::lemma_mod_pos_bound(j, sz);
            assert(st.0[slot_of(j, sz)] == Some(m[j]));
        }
    }
}

proof fn lemma_fifo_shape(s: Seq<u32>, size: nat)
    requires
        size >= 1,
    ensures
        fifo_run(s, size).0.len() == size,
        fifo_run(s, size).1 < size,
        fifo_run(s, size).2 <= s.len(),
        forall|i: int| 0 <= i < size ==> (#[trigger] fifo_run(s, size).0[i] matches Some(y) ==> s.contains(y)),
        s.to_set().len() <= fifo_run(s, size).2,
    decreases s.len(),
{
    if s.len() == 0 {
        assert(s.to_set() =~= Set::<u32>::empty());
    } else {
        let p = s.drop_last();
        let x = s.last();
        lemma_fifo_shape(p, size);
        assert(s =~= p.push(x));
        assert(s.to_set() =~= p.to_set().insert(x));
        vstd::seq_lib::seq_to_set_is_finite(p);
        let prev = fifo_run(p, size);
        assert forall|y: u32| p.contains(y) implies s.contains(y) by {
            let k = choose|k: int| 0 <= k < p.len() && p[k] == y;
            assert(s[k] == y);
        }
        assert(s.contains(x)) by {
            assert(s[s.len() - 1] == x);
        }
        if !prev.0.contains(Some(x)) {
            assert forall|i: int| 0 <= i < size implies (#[trigger] fifo_run(s, size).0[i] matches Some(y) ==> s.contains(y)) by {
                if i != prev.1 as int {
                    assert(fifo_run(s, size).0[i] == prev.0[i]);
                }
            }
        } else {
            let i = choose|i: int| 0 <= i < prev.0.len() && prev.0[i] == Some(x);
            assert(p.contains(x));
            assert(p.to_set().contains(x));
            assert(p.to_set().insert(x) =~= p.to_set());
        }
    }
}

fn slots_contain(cache: &Vec<Option<u32>>, x: u32) -> (r: bool)
    ensures
        r == cache@.contains(Some(x)),
{
    let mut i: usize = 0;
    while i < cache.len()
        invariant
            i <= cache@.len(),
            forall|j: int| 0 <= j < i ==> cache@[j] != Some(x),
        decreases cache@.len() - i,
    {
        match cache[i] {
            Some(y) => {
                if y == x {
                    return true;
                }
            },
            None => {},
        }
        i = i + 1;
    }
    false
}

/// Simulate a FIFO post-transform vertex cache of `cache_size` slots
/// (clamped to at least 1) over `indices` and tally misses, triangles and
/// distinct vertices. Every index misses on its first reference, so there
/// are at least as many misses as distinct vertices.
pub fn cache_counts(indices: &Vec<u32>, cache_size: usize) -> (r: CacheCounts)
    ensures
        r.cache_size == if cache_size == 0 { 1 } else { cache_size },
        r.misses == fifo_run(indices@, r.cache_size as nat).2,
        r.misses == fifo_misses(indices@, r.cache_size as nat).len(),
        r.vertices == indices@.to_set().len(),
        r.triangles == indices@.len() / 3,
        r.vertices <= r.misses <= indices@.len(),
{
    let size = if cache_size == 0 {
        1
    } else {
        cache_size
    };
    let mut cache: Vec<Option<u32>> = Vec::new();
    let mut k: usize = 0;
    while k < size
        invariant
            k <= size,
            cache@ == Seq::new(k as nat, |i: int| None::<u32>),
        decreases size - k,
    {
        cache.push(None);
        k = k + 1;
    }
    let mut head: usize = 0;
    let mut misses: usize = 0;
    let mut seen: HashSet<u32> = HashSet::new();
    let mut i: usize = 0;
    proof {
        assert(indices@.take(0).len() == 0);
        assert(cache@ =~= Seq::new(size as nat, |j: int| None::<u32>));
        assert(fifo_run(indices@.take(0), size as nat) == (cache@, 0nat, 0nat));
    }
    while i < indices.len()
        invariant
            i <= indices@.len(),
            size >= 1,
            fifo_run(indices@.take(i as int), size as nat) == (cache@, head as nat, misses as nat),
            seen@ == indices@.take(i as int).to_set(),
        decreases indices@.len() - i,
    {
        let x = indices[i];
        proof {
            lemma_fifo_shape(indices@.take(i as int), size as nat);
            assert(indices@.take(i + 1).drop_last() =~= indices@.take(i as int));
            assert(indices@.take(i + 1).last() == x);
            assert(indices@.take(i + 1).to_set() =~= indices@.take(i as int).to_set().insert(x));
        }
        seen.insert(x);
        if !slots_contain(&cache, x) {
            misses = misses + 1;
            cache.set(head, Some(x));
            head = (head + 1) % size;
        }
        i = i + 1;
    }
    proof {
        assert(indices@.take(indices@.len() as int) =~= indices@);
        lemma_fifo_shape(indices@, size as nat);
        law_fifo_hits_recent_misses(indices@, size as nat);
    }
    CacheCounts { cache_size: size, triangles: indices.len() / 3, vertices: seen.len(), misses }
}


/// The index buffer in the narrowest glTF width that holds a pool of
/// `vertex_count` vertices: `U16` (entries truncated to 16 bits) while
/// `vertex_count <= 65536`, else `U32`.
pub open spec fn is_packed(r: Indices, flat: Seq<u32>, vertex_count: usize) -> bool {
    if vertex_count <= 65536 {
        r matches Indices::U16(v) && v@ == Seq::new(flat.len(), |i: int| flat[i] as u16)
    } else {
        r matches Indices::U32(v) && v@ == flat
    }
}

/// Pack a flat `u32` index list into the narrowest glTF width that holds
/// the vertex pool.
pub fn pack_indices(flat: Vec<u32>, vertex_count: usize) -> (r: Indices)
    ensures
        is_packed(r, flat@, vertex_count),
{
    if vertex_count <= 65536 {
        let mut out: Vec<u16> = Vec::with_capacity(flat.len());
        let mut i: usize = 0;
        while i < flat.len()
            invariant
                i <= flat@.len(),
                out@ == Seq::new(i as nat, |j: int| flat@[j] as u16),
            decreases flat@.len() - i,
        {
            out.push(#[verifier::truncate] (flat[i] as u16));
            i = i + 1;
        }
        Indices::U16(out)
    } else {
        Indices::U32(flat)
    }
}

/// Distinct in-range entries of `s` (those below `n`), in order of first
/// appearance.
pub open spec fn first_use(s: Seq<u32>, n: usize) -> Seq<usize>
    decreases s.len(),
{
    if s.len() == 0 {
        Seq::empty()
    } else {
        let p = first_use(s.drop_last(), n);
        let x = s.last();
        if (x as int) < n && !p.contains(x as usize) {
            p.push(x as usize)
        } else {
            p
        }
    }
}

/// Pool slots `v < n` that `s` never references, ascending.
pub open spec fn unused_slots(s: Seq<u32>, n: usize, upto: nat) -> Seq<usize>
    decreases upto,
{
    if upto == 0 {
        Seq::empty()
    } else {
        let p = unused_slots(s, n, (upto - 1) as nat);
        if first_use(s, n).contains((upto - 1) as usize) {
            p
        } else {
            p.push((upto - 1) as usize)
        }
    }
}

/// The vertex order that linearises fetches for the draw stream `s`: the
/// first-use order, followed by the unreferenced slots in their original
/// order.
pub open spec fn fetch_order(s: Seq<u32>, n: usize) -> Seq<usize> {
    first_use(s, n) + unused_slots(s, n, n as nat)
}

/// The in-range entries of `s`, in draw order.
pub open spec fn in_range(s: Seq<u32>, n: usize) -> Seq<u32> {
    s.filter(|x: u32| (x as int) < n)
}

proof fn lemma_first_use_props(s: Seq<u32>, n: usize)
    ensures
        first_use(s, n).no_duplicates(),
        forall|i: int| 0 <= i < first_use(s, n).len() ==> (#[trigger] first_use(s, n)[i] as int) < n,
        forall|x: u32| (x as int) < n && s.contains(x) ==> #[trigger] first_use(s, n).contains(x as usize),
        forall|v: usize| #[trigger] first_use(s, n).contains(v) ==> (v as int) < n,
    decreases s.len(),
{
    if s.len() > 0 {
        let d = s.drop_last();
        lemma_first_use_props(d, n);
        let p = first_use(d, n);
        let x = s.last();
        let q = first_use(s, n);
        if (x as int) < n && !p.contains(x as usize) {
            assert(q == p.push(x as usize));
            assert(q[q.len() - 1] == x as usize);
        } else {
            assert(q == p);
        }
        assert forall|y: u32| (y as int) < n && s.contains(y) implies #[trigger] q.contains(y as usize) by {
            if y == x {
                if p.contains(x as usize) {
                    let i = p.index_of(x as usize);
                    assert(q[i] == x as usize);
                } else {
                    assert(q[q.len() - 1] == x as usize);
                }
            } else {
                let i = s.index_of(y);
                assert(d[i] == y);
                assert(p.contains(y as usize));
                let j = p.index_of(y as usize);
                assert(q[j] == y as usize);
            }
        }
        assert forall|v: usize| #[trigger] q.contains(v) implies (v as int) < n by {
            let j = q.index_of(v);
            assert(q[j] == v);
        }
    }
}

proof fn lemma_unused_props(s: Seq<u32>, n: usize, upto: nat)
    requires
        upto <= n,
    ensures
        unused_slots(s, n, upto).no_duplicates(),
        forall|v: usize| #[trigger] unused_slots(s, n, upto).contains(v) <==> (v as int) < upto && !first_use(s, n).contains(v),
    decreases upto,
{
    if upto > 0 {
        let m = (upto - 1) as nat;
        lemma_unused_props(s, n, m);
        let p = unused_slots(s, n, m);
        let q = unused_slots(s, n, upto);
        let top = m as usize;
        if first_use(s, n).contains(top) {
            assert(q == p);
        } else {
            assert(q == p.push(top));
            assert(!p.contains(top));
            assert(q[q.len() - 1] == top);
        }
        assert forall|v: usize| #[trigger] q.contains(v) <==> (v as int) < upto && !first_use(s, n).contains(v) by {
            if q.contains(v) {
                let j = q.index_of(v);
                if j < p.len() {
                    assert(p[j] == v);
                    assert(p.contains(v));
                } else {
                    assert(q != p);
                    assert(v == top);
                }
            }
            if (v as int) < upto && !first_use(s, n).contains(v) {
                if (v as int) < m {
                    assert(p.contains(v));
                    let j = p.index_of(v);
                    assert(q[j] == v);
                } else {
                    assert(q[q.len() - 1] == v);
                }
            }
        }
    }
}

/// The vertex-fetch order moves every pool slot exactly once: it is a
/// permutation of `0..n`, so relabelling through it drops no vertex.
pub proof fn law_fetch_order_is_permutation(s: Seq<u32>, n: usize)
    ensures
        crate::vertex_cache::is_permutation(fetch_order(s, n), n as nat),
{
    let fu = first_use(s, n);
    let un = unused_slots(s, n, n as nat);
    lemma_first_use_props(s, n);
    lemma_unused_props(s, n, n as nat);
    lemma_concat_props(fu, un, n as nat);
    let all = fu + un;
    assert forall|w: usize| (w as int) < n implies all.contains(w) by {
        if fu.contains(w) {
            let i = fu.index_of(w);
            assert(all[i] == w);
        } else {
            assert(un.contains(w));
            let i = un.index_of(w);
            assert(all[fu.len() + i] == w);
        }
    }
    lemma_all_below_len(all, n as nat);
}

/// Relabel the vertex pool of `c` into the order its draw stream first
/// references the vertices. Returns the new connectivity (same topology,
/// explicit index buffer in the narrowest width) and the permutation:
/// output slot `j` takes source vertex `perm[j]`.
pub fn optimize_vertex_fetch(c: &Connectivity) -> (res: (Connectivity, Vec<usize>))
    requires
        c.vertex_count <= u32::MAX,
    ensures
        res.1@ == fetch_order(c.stream(), c.vertex_count),
        res.1@.len() == c.vertex_count,
        res.0.topology == c.topology,
        res.0.vertex_count == c.vertex_count,
        res.0.indices matches Some(ix) && exists|flat: Seq<u32>| is_packed(ix, flat, c.vertex_count)
            && flat.len() == in_range(c.stream(), c.vertex_count).len()
            && forall|i: int| 0 <= i < flat.len() ==> res.1@[#[trigger] flat[i] as int] as u32
                == in_range(c.stream(), c.vertex_count)[i],
{
    let n = c.vertex_count;
    let stream = c.draw_index_stream();
    let (perm, flat) = relabel_first_use(&stream, n);
    let ix = pack_indices(flat, n);
    (Connectivity { topology: c.topology, indices: Some(ix), vertex_count: n }, perm)
}

/// First-use relabelling of the stream `s` over a pool of `n` vertices.
fn relabel_first_use(s: &Vec<u32>, n: usize) -> (res: (Vec<usize>, Vec<u32>))
    requires
        n <= u32::MAX,
    ensures
        res.0@ == fetch_order(s@, n),
        res.0@.len() == n,
        res.1@.len() == in_range(s@, n).len(),
        forall|i: int| 0 <= i < res.1@.len() ==> res.0@[#[trigger] res.1@[i] as int] as u32 == in_range(s@, n)[i],
        forall|i: int| 0 <= i < res.1@.len() ==> (res.1@[i] as int) < n,
{
    let mut remap: Vec<u32> = Vec::new();
    let mut k: usize = 0;
    while k < n
        invariant
            k <= n,
            remap@ == Seq::new(k as nat, |i: int| u32::MAX),
        decreases n - k,
    {
        remap.push(u32::MAX);
        k = k + 1;
    }
    let mut perm: Vec<usize> = Vec::new();
    let mut i: usize = 0;
    while i < s.len()
        invariant
            i <= s@.len(),
            n <= u32::MAX,
            remap@.len() == n,
            perm@ == first_use(s@.take(i as int), n),
            perm@.no_duplicates(),
            forall|j: int| 0 <= j < perm@.len() ==> (#[trigger] perm@[j] as int) < n,
            forall|v: int| 0 <= v < n ==> (#[trigger] remap@[v] == u32::MAX) == !perm@.contains(v as usize),
            forall|v: int| 0 <= v < n && remap@[v] != u32::MAX ==> (#[trigger] remap@[v] as int) < perm@.len() && perm@[remap@[v] as int] == v,
        decreases s@.len() - i,
    {
        let x = s[i];
        proof {
            assert(s@.take(i + 1).drop_last() =~= s@.take(i as int));
            assert(s@.take(i + 1).last() == x);
            lemma_first_use_props(s@.take(i as int), n);
            lemma_first_use_props(s@.take(i + 1), n);
        }
        if (x as usize) < n && remap[x as usize] == u32::MAX {
            proof {
                assert(!perm@.contains(x as usize));
                lemma_distinct_missing(perm@, n as nat, x as usize);
                assert(first_use(s@.take(i + 1), n) == perm@.push(x as usize));
            }
            let ghost old_perm = perm@;
            remap.set(x as usize, perm.len() as u32);
            perm.push(x as usize);
            proof {
                assert forall|v: int| 0 <= v < n implies (#[trigger] remap@[v] == u32::MAX) == !perm@.contains(v as usize) by {
                    if v == x as int {
                        assert(perm@[perm@.len() - 1] == x as usize);
                    } else if perm@.contains(v as usize) {
                        let j = perm@.index_of(v as usize);
                        assert(j < old_perm.len());
                        assert(old_perm[j] == v as usize);
                    } else {
                        if old_perm.contains(v as usize) {
                            let j = old_perm.index_of(v as usize);
                            assert(perm@[j] == v as usize);
                        }
                    }
                }
            }
        } else {
            proof {
                if (x as usize) < n {
                    assert(perm@.contains(x as usize));
                }
                assert(first_use(s@.take(i + 1), n) == perm@);
            }
        }
        i = i + 1;
    }
    proof {
        assert(s@.take(s@.len() as int) =~= s@);
        lemma_first_use_props(s@, n);
        lemma_unused_props(s@, n, 0);
    }
    let ghost fu = perm@;
    let mut v: usize = 0;
    while v < n
        invariant
            v <= n,
            n <= u32::MAX,
            remap@.len() == n,
            fu == first_use(s@, n),
            perm@ == fu + unused_slots(s@, n, v as nat),
            forall|w: int| 0 <= w < n ==> (#[trigger] remap@[w] == u32::MAX) == !perm@.contains(w as usize),
            forall|w: int| 0 <= w < n && remap@[w] != u32::MAX ==> (#[trigger] remap@[w] as int) < perm@.len() && perm@[remap@[w] as int] == w,
            forall|w: int| 0 <= w < v ==> #[trigger] remap@[w] != u32::MAX,
        decreases n - v,
    {
        proof {
            lemma_first_use_props(s@, n);
            lemma_unused_props(s@, n, v as nat);
            lemma_unused_props(s@, n, (v + 1) as nat);
        }
        if remap[v] == u32::MAX {
            let ghost old_perm = perm@;
            proof {
                lemma_concat_props(fu, unused_slots(s@, n, v as nat), n as nat);
                assert(!perm@.contains(v));
                assert(!fu.contains(v)) by {
                    if fu.contains(v) {
                        let j = fu.index_of(v);
                        assert(perm@[j] == v);
                    }
                }
                lemma_distinct_missing(perm@, n as nat, v);
                assert(unused_slots(s@, n, (v + 1) as nat) == unused_slots(s@, n, v as nat).push(v));
            }
            remap.set(v, perm.len() as u32);
            perm.push(v);
            proof {
                assert(perm@ =~= fu + unused_slots(s@, n, (v + 1) as nat));
                assert forall|w: int| 0 <= w < n implies (#[trigger] remap@[w] == u32::MAX) == !perm@.contains(w as usize) by {
                    if w == v as int {
                        assert(perm@[perm@.len() - 1] == v);
                    } else if perm@.contains(w as usize) {
                        let j = perm@.index_of(w as usize);
                        assert(j < old_perm.len());
                        assert(old_perm[j] == w as usize);
                    } else {
                        if old_perm.contains(w as usize) {
                            let j = old_perm.index_of(w as usize);
                            assert(perm@[j] == w as usize);
                        }
                    }
                }
            }
        } else {
            proof {
                assert(perm@.contains(v));
                let j = perm@.index_of(v);
                if j >= fu.len() {
                    assert(unused_slots(s@, n, v as nat)[j - fu.len()] == v);
                    assert(unused_slots(s@, n, v as nat).contains(v));
                }
                assert(fu[j] == v);
                assert(fu.contains(v));
                assert(unused_slots(s@, n, (v + 1) as nat) == unused_slots(s@, n, v as nat));
            }
        }
        v = v + 1;
    }
    let ghost perm_final = perm@;
    proof {
        lemma_first_use_props(s@, n);
        lemma_unused_props(s@, n, n as nat);
        lemma_concat_props(fu, unused_slots(s@, n, n as nat), n as nat);
        assert forall|w: usize| (w as int) < n implies perm@.contains(w) by {
            assert(remap@[w as int] != u32::MAX);
        }
        lemma_all_below_len(perm@, n as nat);
    }
    let mut out: Vec<u32> = Vec::new();
    let mut i: usize = 0;
    let ghost pr = |x: u32| (x as int) < n;
    while i < s.len()
        invariant
            i <= s@.len(),
            remap@.len() == n,
            perm@ == perm_final,
            perm@.len() == n,
            forall|x: u32| #[trigger] pr(x) == ((x as int) < n),
            forall|w: int| 0 <= w < n ==> #[trigger] remap@[w] != u32::MAX,
            forall|w: int| 0 <= w < n && remap@[w] != u32::MAX ==> (#[trigger] remap@[w] as int) < perm@.len() && perm@[remap@[w] as int] == w,
            out@.len() == s@.take(i as int).filter(pr).len(),
            forall|j: int| 0 <= j < out@.len() ==> (#[trigger] out@[j] as int) < n && perm@[out@[j] as int] as u32 == s@.take(i as int).filter(pr)[j],
        decreases s@.len() - i,
    {
        let x = s[i];
        proof {
            assert(s@.take(i + 1) =~= s@.take(i as int).push(x));
            s@.take(i as int).lemma_filter_push(x, pr);
        }
        if (x as usize) < n {
            out.push(remap[x as usize]);
        }
        i = i + 1;
    }
    proof {
        assert(s@.take(s@.len() as int) =~= s@);
    }
    (perm, out)
}

/// The first-use order followed by a run of unused slots is free of
/// duplicates and stays below `bound`.
proof fn lemma_concat_props(fu: Seq<usize>, un: Seq<usize>, bound: nat)
    requires
        fu.no_duplicates(),
        un.no_duplicates(),
        forall|i: int| 0 <= i < fu.len() ==> (#[trigger] fu[i] as int) < bound,
        forall|v: usize| #[trigger] un.contains(v) ==> (v as int) < bound && !fu.contains(v),
    ensures
        (fu + un).no_duplicates(),
        forall|i: int| 0 <= i < (fu + un).len() ==> (#[trigger] (fu + un)[i] as int) < bound,
{
    let c = fu + un;
    assert forall|a: int, b: int| 0 <= a < c.len() && 0 <= b < c.len() && a != b implies c[a] != c[b] by {
        if a < fu.len() && b >= fu.len() {
            assert(un[b - fu.len()] == c[b]);
            assert(un.contains(c[b]));
        } else if b < fu.len() && a >= fu.len() {
            assert(un[a - fu.len()] == c[a]);
            assert(un.contains(c[a]));
        } else if a >= fu.len() && b >= fu.len() {
            assert(un[a - fu.len()] != un[b - fu.len()]);
        }
    }
    assert forall|i: int| 0 <= i < c.len() implies (#[trigger] c[i] as int) < bound by {
        if i >= fu.len() {
            assert(un[i - fu.len()] == c[i]);
            assert(un.contains(c[i]));
        }
    }
}

/// A duplicate-free sequence of values below `bound` that misses `m < bound`
/// has fewer than `bound` entries.
proof fn lemma_distinct_missing(s: Seq<usize>, bound: nat, m: usize)
    requires
        s.no_duplicates(),
        bound <= usize::MAX + 1,
        (m as int) < bound,
        !s.contains(m),
        forall|i: int| 0 <= i < s.len() ==> (#[trigger] s[i] as int) < bound,
    ensures
        s.len() < bound,
{
    let st = s.to_set();
    s.unique_seq_to_set();
    let full = Set::new(|v: usize| (v as int) < bound);
    lemma_set_below_len_exact(bound);
    assert(st.subset_of(full.remove(m)));
    vstd::set_lib::lemma_len_subset(st, full.remove(m));
}

/// A duplicate-free sequence of values below `bound` has at most `bound`
/// entries.
pub(crate) proof fn lemma_distinct_below_pub(s: Seq<usize>, bound: nat)
    requires
        s.no_duplicates(),
        forall|i: int| 0 <= i < s.len() ==> (#[trigger] s[i] as int) < bound,
    ensures
        s.len() <= bound,
{
    lemma_distinct_below(s, bound);
}

/// A duplicate-free sequence of values below `bound` is shorter than
/// `bound + 1`; when it misses a value it is shorter than `bound`.
proof fn lemma_distinct_below(s: Seq<usize>, bound: nat)
    requires
        s.no_duplicates(),
        forall|i: int| 0 <= i < s.len() ==> (#[trigger] s[i] as int) < bound,
    ensures
        s.len() <= bound,
{
    let st = s.to_set();
    s.unique_seq_to_set();
    let full = Set::new(|v: usize| (v as int) < bound);
    assert(st.subset_of(full));
    lemma_set_below_len(bound);
    vstd::set_lib::lemma_len_subset(st, full);
}

proof fn lemma_set_below_len(bound: nat)
    ensures
        Set::new(|v: usize| (v as int) < bound).finite(),
        Set::new(|v: usize| (v as int) < bound).len() <= bound,
    decreases bound,
{
    let full = Set::new(|v: usize| (v as int) < bound);
    if bound == 0 {
        assert(full =~= Set::empty());
    } else {
        lemma_set_below_len((bound - 1) as nat);
        let smaller = Set::new(|v: usize| (v as int) < bound - 1);
        if bound - 1 <= usize::MAX {
            assert(full =~= smaller.insert((bound - 1) as usize));
        } else {
            assert(full =~= smaller);
        }
    }
}

/// A duplicate-free sequence of values below `bound` that holds every
/// such value has exactly `bound` entries.
pub(crate) proof fn lemma_all_below_len(s: Seq<usize>, bound: nat)
    requires
        s.no_duplicates(),
        bound <= usize::MAX + 1,
        forall|i: int| 0 <= i < s.len() ==> (#[trigger] s[i] as int) < bound,
        forall|w: usize| (w as int) < bound ==> s.contains(w),
    ensures
        s.len() == bound,
{
    let st = s.to_set();
    s.unique_seq_to_set();
    let full = Set::new(|v: usize| (v as int) < bound);
    assert(st =~= full);
    lemma_set_below_len_exact(bound);
}

proof fn lemma_set_below_len_exact(bound: nat)
    requires
        bound <= usize::MAX + 1,
    ensures
        Set::new(|v: usize| (v as int) < bound).len() == bound,
        Set::new(|v: usize| (v as int) < bound).finite(),
    decreases bound,
{
    let full = Set::new(|v: usize| (v as int) < bound);
    if bound == 0 {
        assert(full =~= Set::empty());
    } else {
        lemma_set_below_len_exact((bound - 1) as nat);
        let smaller = Set::new(|v: usize| (v as int) < bound - 1);
        assert(full =~= smaller.insert((bound - 1) as usize));
    }
}

/// Gather `src` through a vertex permutation: output slot `j` takes
/// `src[perm[j]]`, or `fill` where `perm[j]` is past the end of `src`.
pub fn gather_or<T: Copy>(src: &Vec<T>, perm: &Vec<usize>, fill: T) -> (out: Vec<T>)
    ensures
        out@.len() == perm@.len(),
        forall|j: int|
            0 <= j < perm@.len() ==> #[trigger] out@[j] == if perm@[j] < src@.len() {
                src@[perm@[j] as int]
            } else {
                fill
            },
{
    let mut out: Vec<T> = Vec::new();
    let mut j: usize = 0;
    while j < perm.len()
        invariant
            j <= perm@.len(),
            out@.len() == j,
            forall|k: int|
                0 <= k < j ==> #[trigger] out@[k] == if perm@[k] < src@.len() {
                    src@[perm@[k] as int]
                } else {
                    fill
                },
        decreases perm@.len() - j,
    {
        let i = perm[j];
        if i < src.len() {
            out.push(src[i]);
        } else {
            out.push(fill);
        }
        j = j + 1;
    }
    out
}


/// Triangles of `tris` whose three corners lie inside a pool of `n`
/// vertices, in order.
pub open spec fn tris_in_range(tris: Seq<[u32; 3]>, n: usize) -> Seq<[u32; 3]> {
    tris.filter(|t: [u32; 3]| (t[0] as int) < n && (t[1] as int) < n && (t[2] as int) < n)
}

/// The de-stripped triangle list of `c` with every triangle that has a
/// corner outside the pool dropped — the input of the cache reordering.
pub fn cache_order_triangles(c: &Connectivity) -> (out: Vec<[u32; 3]>)
    ensures
        out@ == tris_in_range(c.triangles(), c.vertex_count),
{
    let tris = c.triangle_indices();
    let n = c.vertex_count;
    let ghost p = |t: [u32; 3]| (t[0] as int) < n && (t[1] as int) < n && (t[2] as int) < n;
    let mut out: Vec<[u32; 3]> = Vec::new();
    let mut i: usize = 0;
    while i < tris.len()
        invariant
            i <= tris@.len(),
            forall|t: [u32; 3]| #[trigger] p(t) == ((t[0] as int) < n && (t[1] as int) < n && (t[2] as int) < n),
            out@ == tris@.take(i as int).filter(p),
        decreases tris@.len() - i,
    {
        let t = tris[i];
        proof {
            assert(tris@.take(i + 1) =~= tris@.take(i as int).push(t));
            tris@.take(i as int).lemma_filter_push(t, p);
        }
        if (t[0] as usize) < n && (t[1] as usize) < n && (t[2] as usize) < n {
            out.push(t);
        }
        i = i + 1;
    }
    proof {
        assert(tris@.take(tris@.len() as int) =~= tris@);
    }
    out
}

/// Triangles of `tris` that can be drawn from a pool of `n` vertices:
/// corners inside the pool and pairwise distinct ([`face_ok`]), in order.
pub open spec fn tris_drawable(tris: Seq<[u32; 3]>, n: usize) -> Seq<[u32; 3]> {
    tris.filter(|t: [u32; 3]| face_ok(t, n))
}

/// The de-stripped triangle list of `c` with every degenerate or
/// out-of-range triangle dropped — the input of the cache reordering.
pub fn drawable_triangles(c: &Connectivity) -> (out: Vec<[u32; 3]>)
    ensures
        out@ == tris_drawable(c.triangles(), c.vertex_count),
{
    let tris = c.triangle_indices();
    let n = c.vertex_count;
    let ghost p = |t: [u32; 3]| face_ok(t, n);
    let mut out: Vec<[u32; 3]> = Vec::new();
    let mut i: usize = 0;
    while i < tris.len()
        invariant
            i <= tris@.len(),
            forall|t: [u32; 3]| #[trigger] p(t) == face_ok(t, n),
            out@ == tris@.take(i as int).filter(p),
        decreases tris@.len() - i,
    {
        let t = tris[i];
        proof {
            assert(tris@.take(i + 1) =~= tris@.take(i as int).push(t));
            tris@.take(i as int).lemma_filter_push(t, p);
        }
        if face_ok_exec(t, n) {
            out.push(t);
        }
        i = i + 1;
    }
    proof {
        assert(tris@.take(tris@.len() as int) =~= tris@);
    }
    out
}

/// Emit `tris` in the given triangle `order` as a `Triangles` connectivity
/// over a pool of `vertex_count` vertices, with the index buffer in the
/// narrowest width: the rewrite a cache-optimised triangle order applies.
pub fn apply_triangle_order(tris: &Vec<[u32; 3]>, order: &Vec<usize>, vertex_count: usize) -> (c: Connectivity)
    requires
        forall|k: int| 0 <= k < order@.len() ==> #[trigger] order@[k] < tris@.len(),
        3 * order@.len() <= usize::MAX,
    ensures
        c.topology == Topology::Triangles,
        c.vertex_count == vertex_count,
        c.indices matches Some(ix) && is_packed(
            ix,
            flatten(Seq::new(order@.len(), |k: int| tris@[order@[k] as int])),
            vertex_count,
        ),
{
    let mut picked: Vec<[u32; 3]> = Vec::new();
    let mut k: usize = 0;
    while k < order.len()
        invariant
            k <= order@.len(),
            forall|j: int| 0 <= j < order@.len() ==> #[trigger] order@[j] < tris@.len(),
            picked@ == Seq::new(k as nat, |j: int| tris@[order@[j] as int]),
        decreases order@.len() - k,
    {
        picked.push(tris[order[k]]);
        k = k + 1;
    }
    let flat = crate::mesh::flatten_triangles(&picked);
    let ix = pack_indices(flat, vertex_count);
    Connectivity { topology: Topology::Triangles, indices: Some(ix), vertex_count }
}

/// Number of corners of `tris[..k]` equal to `v` — the valence of `v` over
/// the first `k` triangles.
pub open spec fn corner_count(tris: Seq<[u32; 3]>, k: int, v: int) -> nat
    decreases k,
{
    if k <= 0 {
        0
    } else {
        corner_count(tris, k - 1, v) + (if tris[k - 1][0] as int == v { 1nat } else { 0nat }) + (
        if tris[k - 1][1] as int == v {
            1nat
        } else {
            0nat
        }) + (if tris[k - 1][2] as int == v {
            1nat
        } else {
            0nat
        })
    }
}

/// The positions of the triangles among `tris[..k]` that use vertex `v`,
/// ascending, one entry per corner equal to `v`.
pub open spec fn incident_list(tris: Seq<[u32; 3]>, k: int, v: int) -> Seq<u32>
    decreases k,
{
    if k <= 0 {
        Seq::empty()
    } else {
        let p = incident_list(tris, k - 1, v);
        let t = tris[k - 1];
        let p0 = if t[0] as int == v { p.push((k - 1) as u32) } else { p };
        let p1 = if t[1] as int == v { p0.push((k - 1) as u32) } else { p0 };
        if t[2] as int == v { p1.push((k - 1) as u32) } else { p1 }
    }
}

proof fn lemma_incident_len(tris: Seq<[u32; 3]>, k: int, v: int)
    ensures
        incident_list(tris, k, v).len() == corner_count(tris, k, v),
        corner_count(tris, k, v) <= 3 * if k > 0 { k } else { 0 },
    decreases k,
{
    if k > 0 {
        lemma_incident_len(tris, k - 1, v);
    }
}

/// Every entry of an incident list names one of the triangles it was
/// built from.
proof fn lemma_incident_below(tris: Seq<[u32; 3]>, k: int, v: int)
    requires
        k <= u32::MAX,
    ensures
        forall|i: int|
            0 <= i < incident_list(tris, k, v).len() ==> (#[trigger] incident_list(tris, k, v)[i] as int) < k,
    decreases k,
{
    if k > 0 {
        lemma_incident_below(tris, k - 1, v);
        let p = incident_list(tris, k - 1, v);
        let t = tris[k - 1];
        let e = (k - 1) as u32;
        let p0 = if t[0] as int == v { p.push(e) } else { p };
        let p1 = if t[1] as int == v { p0.push(e) } else { p0 };
        let p2 = if t[2] as int == v { p1.push(e) } else { p1 };
        assert forall|i: int| 0 <= i < p0.len() implies (#[trigger] p0[i] as int) < k by {
            if i < p.len() {
                assert(p0[i] == p[i]);
            }
        }
        assert forall|i: int| 0 <= i < p1.len() implies (#[trigger] p1[i] as int) < k by {
            if i < p0.len() {
                assert(p1[i] == p0[i]);
            }
        }
        assert forall|i: int| 0 <= i < p2.len() implies (#[trigger] p2[i] as int) < k by {
            if i < p1.len() {
                assert(p2[i] == p1[i]);
            }
        }
        assert(incident_list(tris, k, v) == p2);
    }
}

/// `v` is one of the corners of `t`.
pub open spec fn uses_vertex(t: [u32; 3], v: int) -> bool {
    t[0] as int == v || t[1] as int == v || t[2] as int == v
}

/// An incident list names exactly the triangles among the first `k` that
/// use `v`.
proof fn lemma_incident_members(tris: Seq<[u32; 3]>, k: int, v: int)
    requires
        0 <= k <= tris.len(),
        k <= u32::MAX,
    ensures
        forall|i: int|
            0 <= i < incident_list(tris, k, v).len() ==> (#[trigger] incident_list(tris, k, v)[i] as int) < k
                && uses_vertex(tris[incident_list(tris, k, v)[i] as int], v),
        forall|t: int| 0 <= t < k && #[trigger] uses_vertex(tris[t], v) ==> incident_list(tris, k, v).contains(t as u32),
    decreases k,
{
    if k > 0 {
        lemma_incident_members(tris, k - 1, v);
        let p = incident_list(tris, k - 1, v);
        let t = tris[k - 1];
        let e = (k - 1) as u32;
        let p0 = if t[0] as int == v { p.push(e) } else { p };
        let p1 = if t[1] as int == v { p0.push(e) } else { p0 };
        let p2 = if t[2] as int == v { p1.push(e) } else { p1 };
        assert(incident_list(tris, k, v) == p2);
        assert forall|i: int| 0 <= i < p2.len() implies (#[trigger] p2[i] as int) < k && uses_vertex(tris[p2[i] as int], v) by {
            if i < p.len() {
                assert(p0[i] == p[i]);
                assert(p1[i] == p[i]);
                assert(p2[i] == p[i]);
            }
        }
        assert forall|u: int| 0 <= u < k && #[trigger] uses_vertex(tris[u], v) implies p2.contains(u as u32) by {
            if u < k - 1 {
                let i = p.index_of(u as u32);
                assert(p0[i] == p[i]);
                assert(p1[i] == p[i]);
                assert(p2[i] == p[i]);
            } else if t[0] as int == v {
                assert(p0[p.len() as int] == e);
                assert(p1[p.len() as int] == e);
                assert(p2[p.len() as int] == e);
            } else if t[1] as int == v {
                assert(p1[p0.len() as int] == e);
                assert(p2[p0.len() as int] == e);
            } else {
                assert(p2[p1.len() as int] == e);
            }
        }
    }
}

/// Per-vertex triangle incidence in compressed-row form: vertex `v` is used
/// by the triangles `incident[offset[v] .. offset[v + 1]]`, and `valence[v]`
/// is that count.
pub struct Incidence {
    pub valence: Vec<u32>,
    pub offset: Vec<usize>,
    pub incident: Vec<u32>,
}

impl Incidence {
    /// The incidence table of `tris` over a pool of `vertex_count` vertices.
    pub open spec fn describes(&self, tris: Seq<[u32; 3]>, vertex_count: usize) -> bool {
        &&& self.valence@.len() == vertex_count
        &&& self.offset@.len() == vertex_count + 1
        &&& self.offset@[0] == 0
        &&& self.offset@[vertex_count as int] == self.incident@.len()
        &&& forall|v: int|
            0 <= v < vertex_count ==> #[trigger] self.valence@[v] == corner_count(tris, tris.len() as int, v)
                && self.offset@[v + 1] == self.offset@[v] + self.valence@[v]
                && self.incident@.subrange(self.offset@[v] as int, self.offset@[v + 1] as int)
                == incident_list(tris, tris.len() as int, v)
    }

    /// The slice of vertex `v` lies inside the table, and each of its
    /// entries is the position of a triangle of `tris`.
    pub proof fn lemma_slice(&self, tris: Seq<[u32; 3]>, vertex_count: usize, v: int)
        requires
            self.describes(tris, vertex_count),
            0 <= v < vertex_count,
            tris.len() <= u32::MAX,
        ensures
            self.offset@[v] <= self.offset@[v + 1] <= self.incident@.len(),
            forall|j: int|
                self.offset@[v] <= j < self.offset@[v + 1] ==> (#[trigger] self.incident@[j] as int) < tris.len(),
    {
        assert(self.valence@[v] == corner_count(tris, tris.len() as int, v));
        lemma_offsets_mono(self.offset@, self.valence@, vertex_count, v);
        lemma_incident_below(tris, tris.len() as int, v);
        let lo = self.offset@[v] as int;
        let hi = self.offset@[v + 1] as int;
        let list = incident_list(tris, tris.len() as int, v);
        assert(self.incident@.subrange(lo, hi) == list);
        assert forall|j: int| lo <= j < hi implies (#[trigger] self.incident@[j] as int) < tris.len() by {
            assert(self.incident@.subrange(lo, hi)[j - lo] == self.incident@[j]);
            assert((list[j - lo] as int) < tris.len());
        }
    }

    /// The slice of vertex `v` lists exactly the triangles that use `v`.
    pub proof fn lemma_slice_members(&self, tris: Seq<[u32; 3]>, vertex_count: usize, v: int)
        requires
            self.describes(tris, vertex_count),
            0 <= v < vertex_count,
            tris.len() <= u32::MAX,
        ensures
            forall|j: int|
                self.offset@[v] <= j < self.offset@[v + 1] ==> uses_vertex(tris[#[trigger] self.incident@[j] as int], v),
            forall|t: int|
                0 <= t < tris.len() && #[trigger] uses_vertex(tris[t], v) ==> exists|j: int|
                    self.offset@[v] <= j < self.offset@[v + 1] && self.incident@[j] as int == t,
    {
        self.lemma_slice(tris, vertex_count, v);
        lemma_incident_members(tris, tris.len() as int, v);
        let lo = self.offset@[v] as int;
        let hi = self.offset@[v + 1] as int;
        let list = incident_list(tris, tris.len() as int, v);
        assert(self.valence@[v] == corner_count(tris, tris.len() as int, v));
        assert(self.incident@.subrange(lo, hi) == list);
        assert forall|j: int| lo <= j < hi implies uses_vertex(tris[#[trigger] self.incident@[j] as int], v) by {
            assert(self.incident@.subrange(lo, hi)[j - lo] == self.incident@[j]);
            assert(list[j - lo] == self.incident@[j]);
        }
        assert forall|t: int| 0 <= t < tris.len() && #[trigger] uses_vertex(tris[t], v) implies exists|j: int|
            lo <= j < hi && self.incident@[j] as int == t by {
            assert(list.contains(t as u32));
            let i = list.index_of(t as u32);
            assert(self.incident@.subrange(lo, hi)[i] == self.incident@[lo + i]);
            assert(self.incident@[lo + i] as int == t);
        }
    }

    /// Build the incidence table of `tris`, whose corners all lie inside a
    /// pool of `vertex_count` vertices.
    pub fn build(tris: &Vec<[u32; 3]>, vertex_count: usize) -> (r: Incidence)
        requires
            forall|t: int| 0 <= t < tris@.len() ==> (#[trigger] tris@[t][0] as int) < vertex_count
                && (tris@[t][1] as int) < vertex_count && (tris@[t][2] as int) < vertex_count,
            tris@.len() <= u32::MAX,
            3 * tris@.len() <= usize::MAX,
            valence_fits(tris@, vertex_count),
            vertex_count < usize::MAX,
        ensures
            r.describes(tris@, vertex_count),
    {
        let nt = tris.len();
        let mut valence: Vec<u32> = Vec::new();
        let mut v: usize = 0;
        while v < vertex_count
            invariant
                v <= vertex_count,
                valence@ == Seq::new(v as nat, |w: int| 0u32),
            decreases vertex_count - v,
        {
            valence.push(0);
            v = v + 1;
        }
        assert(forall|w: int| 0 <= w < vertex_count ==> #[trigger] valence@[w] == corner_count(tris@, 0, w));
        let mut t: usize = 0;
        while t < nt
            invariant
                nt == tris@.len(),
                t <= nt,
                nt <= u32::MAX,
                3 * nt <= usize::MAX,
                valence_fits(tris@, vertex_count),
                valence@.len() == vertex_count,
                forall|u: int| 0 <= u < tris@.len() ==> (#[trigger] tris@[u][0] as int) < vertex_count
                    && (tris@[u][1] as int) < vertex_count && (tris@[u][2] as int) < vertex_count,
                forall|w: int| 0 <= w < vertex_count ==> #[trigger] valence@[w] == corner_count(tris@, t as int, w),
            decreases nt - t,
        {
            let tri = tris[t];
            assert((tris@[t as int][0] as int) < vertex_count);
            let mut c: usize = 0;
            while c < 3
                invariant
                    c <= 3,
                    t < nt,
                    nt == tris@.len(),
                    nt <= u32::MAX,
                3 * nt <= usize::MAX,
                valence_fits(tris@, vertex_count),
                    tri == tris@[t as int],
                    valence@.len() == vertex_count,
                    (tri[0] as int) < vertex_count && (tri[1] as int) < vertex_count && (tri[2] as int) < vertex_count,
                    forall|w: int| 0 <= w < vertex_count ==> #[trigger] valence@[w] == corner_count(tris@, t as int, w)
                        + (if c > 0 && tri[0] as int == w { 1nat } else { 0nat })
                        + (if c > 1 && tri[1] as int == w { 1nat } else { 0nat })
                        + (if c > 2 && tri[2] as int == w { 1nat } else { 0nat }),
                decreases 3 - c,
            {
                let x = tri[c] as usize;
                proof {
                    lemma_incident_len(tris@, t as int + 1, x as int);
                    lemma_incident_len(tris@, nt as int, x as int);
                    lemma_corner_mono(tris@, t as int + 1, nt as int, x as int);
                    assert(valence@[x as int] == corner_count(tris@, t as int, x as int)
                        + (if c > 0 && tri[0] as int == x { 1nat } else { 0nat })
                        + (if c > 1 && tri[1] as int == x { 1nat } else { 0nat })
                        + (if c > 2 && tri[2] as int == x { 1nat } else { 0nat }));
                }
                valence.set(x, valence[x] + 1);
                c = c + 1;
            }
            t = t + 1;
        }
        let mut offset: Vec<usize> = Vec::new();
        offset.push(0);
        let mut v: usize = 0;
        while v < vertex_count
            invariant
                v <= vertex_count,
                vertex_count < usize::MAX,
                valence@.len() == vertex_count,
                offset@.len() == v + 1,
                offset@[0] == 0,
                forall|w: int| 0 <= w < vertex_count ==> #[trigger] valence@[w] == corner_count(tris@, tris@.len() as int, w),
                forall|w: int| 0 <= w < v ==> #[trigger] offset@[w + 1] == offset@[w] + valence@[w],
                offset@[v as int] == total_corners(tris@, v as int),
                3 * tris@.len() <= usize::MAX,
            decreases vertex_count - v,
        {
            proof {
                lemma_total_le(tris@, v as int + 1);
            }
            offset.push(offset[v] + valence[v] as usize);
            v = v + 1;
        }
        let mut incident: Vec<u32> = Vec::new();
        let mut i: usize = 0;
        let total = offset[vertex_count];
        proof {
            lemma_total_le(tris@, vertex_count as int);
        }
        while i < total
            invariant
                i <= total,
                incident@.len() == i,
                total == offset@[vertex_count as int],
            decreases total - i,
        {
            incident.push(0);
            i = i + 1;
        }
        let mut cursor: Vec<usize> = Vec::new();
        let mut v: usize = 0;
        while v < vertex_count
            invariant
                v <= vertex_count,
                cursor@ == offset@.subrange(0, v as int),
                offset@.len() == vertex_count + 1,
            decreases vertex_count - v,
        {
            cursor.push(offset[v]);
            v = v + 1;
        }
        proof {
            assert forall|w: int| 0 <= w < vertex_count implies #[trigger] cursor@[w] == offset@[w] + corner_count(tris@, 0, w)
                && incident@.subrange(offset@[w] as int, cursor@[w] as int) == incident_list(tris@, 0, w) by {
                assert(cursor@[w] == offset@[w]);
                lemma_offsets_mono(offset@, valence@, vertex_count, w);
                lemma_offsets_le(offset@, valence@, vertex_count, w, w + 1);
                assert(incident@.subrange(offset@[w] as int, cursor@[w] as int) =~= Seq::empty());
            }
        }
        let mut t: usize = 0;
        while t < nt
            invariant
                nt == tris@.len(),
                t <= nt,
                nt <= u32::MAX,
                3 * nt <= usize::MAX,
                valence_fits(tris@, vertex_count),
                cursor@.len() == vertex_count,
                offset@.len() == vertex_count + 1,
                valence@.len() == vertex_count,
                offset@[0] == 0,
                incident@.len() == offset@[vertex_count as int],
                forall|u: int| 0 <= u < tris@.len() ==> (#[trigger] tris@[u][0] as int) < vertex_count
                    && (tris@[u][1] as int) < vertex_count && (tris@[u][2] as int) < vertex_count,
                forall|w: int| 0 <= w < vertex_count ==> #[trigger] valence@[w] == corner_count(tris@, tris@.len() as int, w)
                    && offset@[w + 1] == offset@[w] + valence@[w],
                forall|w: int| 0 <= w < vertex_count ==> #[trigger] cursor@[w] == offset@[w] + corner_count(tris@, t as int, w)
                    && incident@.subrange(offset@[w] as int, cursor@[w] as int) == incident_list(tris@, t as int, w),
            decreases nt - t,
        {
            let tri = tris[t];
            assert((tris@[t as int][0] as int) < vertex_count);
            proof {
                assert forall|w: int| 0 <= w < vertex_count implies #[trigger] cursor@[w] == offset@[w] + corner_count(tris@, t as int, w)
                    + (if 0 > 0 && tri[0] as int == w { 1nat } else { 0nat })
                    + (if 0 > 1 && tri[1] as int == w { 1nat } else { 0nat })
                    + (if 0 > 2 && tri[2] as int == w { 1nat } else { 0nat })
                    && incident@.subrange(offset@[w] as int, cursor@[w] as int) == partial_list(tris@, t as int, w, 0) by {}
            }
            let mut c: usize = 0;
            while c < 3
                invariant
                    c <= 3,
                    t < nt,
                    nt == tris@.len(),
                    nt <= u32::MAX,
                3 * nt <= usize::MAX,
                valence_fits(tris@, vertex_count),
                    tri == tris@[t as int],
                    cursor@.len() == vertex_count,
                    offset@.len() == vertex_count + 1,
                    valence@.len() == vertex_count,
                    incident@.len() == offset@[vertex_count as int],
                    (tri[0] as int) < vertex_count && (tri[1] as int) < vertex_count && (tri[2] as int) < vertex_count,
                    forall|w: int| 0 <= w < vertex_count ==> #[trigger] valence@[w] == corner_count(tris@, tris@.len() as int, w)
                        && offset@[w + 1] == offset@[w] + valence@[w],
                    forall|w: int| 0 <= w < vertex_count ==> #[trigger] cursor@[w] == offset@[w] + corner_count(tris@, t as int, w)
                        + (if c > 0 && tri[0] as int == w { 1nat } else { 0nat })
                        + (if c > 1 && tri[1] as int == w { 1nat } else { 0nat })
                        + (if c > 2 && tri[2] as int == w { 1nat } else { 0nat })
                        && incident@.subrange(offset@[w] as int, cursor@[w] as int) == partial_list(tris@, t as int, w, c as int),
                decreases 3 - c,
            {
                let x = tri[c] as usize;
                proof {
                    lemma_corner_mono(tris@, t as int + 1, nt as int, x as int);
                    lemma_offsets_mono(offset@, valence@, vertex_count, x as int);
                    assert(valence@[x as int] == corner_count(tris@, tris@.len() as int, x as int));
                    assert(offset@[x as int + 1] == offset@[x as int] + valence@[x as int]);
                    assert(cursor@[x as int] == offset@[x as int] + corner_count(tris@, t as int, x as int)
                        + (if c > 0 && tri[0] as int == x { 1nat } else { 0nat })
                        + (if c > 1 && tri[1] as int == x { 1nat } else { 0nat })
                        + (if c > 2 && tri[2] as int == x { 1nat } else { 0nat }));
                    assert(cursor@[x as int] < offset@[x as int + 1]);
                }
                let pos = cursor[x];
                let ghost before = incident@;
                incident.set(pos, t as u32);
                cursor.set(x, pos + 1);
                proof {
                    assert forall|w: int| 0 <= w < vertex_count implies #[trigger] cursor@[w] == offset@[w] + corner_count(tris@, t as int, w)
                        + (if c + 1 > 0 && tri[0] as int == w { 1nat } else { 0nat })
                        + (if c + 1 > 1 && tri[1] as int == w { 1nat } else { 0nat })
                        + (if c + 1 > 2 && tri[2] as int == w { 1nat } else { 0nat })
                        && incident@.subrange(offset@[w] as int, cursor@[w] as int) == partial_list(tris@, t as int, w, c + 1) by {
                        assert(valence@[w] == corner_count(tris@, tris@.len() as int, w));
                        lemma_offsets_mono(offset@, valence@, vertex_count, w);
                        if w == x as int {
                            assert(incident@.subrange(offset@[w] as int, cursor@[w] as int) =~= before.subrange(offset@[w] as int, pos as int).push(t as u32));
                        } else {
                            lemma_offsets_disjoint(offset@, valence@, vertex_count, x as int, w);
                            lemma_corner_mono(tris@, t as int + 1, nt as int, w);
                            assert(offset@[w + 1] == offset@[w] + valence@[w]);
                            assert(cursor@[w] <= offset@[w + 1]);
                            assert(pos < offset@[w] || pos >= cursor@[w]);
                            assert(incident@.subrange(offset@[w] as int, cursor@[w] as int) =~= before.subrange(offset@[w] as int, cursor@[w] as int));
                        }
                    }
                }
                c = c + 1;
            }
            proof {
                assert forall|w: int| 0 <= w < vertex_count implies #[trigger] cursor@[w] == offset@[w] + corner_count(tris@, t + 1, w)
                    && incident@.subrange(offset@[w] as int, cursor@[w] as int) == incident_list(tris@, t + 1, w) by {
                }
            }
            t = t + 1;
        }
        proof {
            assert forall|w: int| 0 <= w < vertex_count implies #[trigger] valence@[w] == corner_count(tris@, tris@.len() as int, w)
                && offset@[w + 1] == offset@[w] + valence@[w]
                && incident@.subrange(offset@[w] as int, offset@[w + 1] as int) == incident_list(tris@, tris@.len() as int, w) by {
                assert(cursor@[w] == offset@[w + 1]);
            }
        }
        Incidence { valence, offset, incident }
    }
}

/// Every vertex below `n` is a corner of at most `u32::MAX` corners of
/// `tris`, so its valence fits the `u32` counters.
pub open spec fn valence_fits(tris: Seq<[u32; 3]>, n: usize) -> bool {
    forall|v: int| 0 <= v < n ==> #[trigger] corner_count(tris, tris.len() as int, v) <= u32::MAX
}

/// A vertex is a corner at most once per triangle with pairwise distinct
/// corners, so over such triangles its valence is at most their number.
pub proof fn lemma_distinct_corner_count(tris: Seq<[u32; 3]>, k: int, v: int)
    requires
        0 <= k <= tris.len(),
        forall|t: int| 0 <= t < tris.len() ==> #[trigger] tris[t][0] != tris[t][1] && tris[t][1] != tris[t][2] && tris[t][0] != tris[t][2],
    ensures
        corner_count(tris, k, v) <= k,
    decreases k,
{
    if k > 0 {
        lemma_distinct_corner_count(tris, k - 1, v);
        let t = tris[k - 1];
        assert(t[0] != t[1] && t[1] != t[2] && t[0] != t[2]);
    }
}

/// The incident list of `v` after the first `c` corners of triangle `t`.
spec fn partial_list(tris: Seq<[u32; 3]>, t: int, v: int, c: int) -> Seq<u32> {
    let p = incident_list(tris, t, v);
    let tr = tris[t];
    let p0 = if c > 0 && tr[0] as int == v { p.push(t as u32) } else { p };
    let p1 = if c > 1 && tr[1] as int == v { p0.push(t as u32) } else { p0 };
    if c > 2 && tr[2] as int == v { p1.push(t as u32) } else { p1 }
}

/// Corner counts only grow with the prefix.
proof fn lemma_corner_mono(tris: Seq<[u32; 3]>, a: int, b: int, v: int)
    requires
        0 <= a <= b,
    ensures
        corner_count(tris, a, v) <= corner_count(tris, b, v),
    decreases b - a,
{
    if a < b {
        lemma_corner_mono(tris, a, b - 1, v);
    }
}

/// Sum of the valences of the vertices below `v`.
spec fn total_corners(tris: Seq<[u32; 3]>, v: int) -> nat {
    total_upto(tris, tris.len() as int, v)
}

/// Sum over the vertices `w < v` of their corner counts in `tris[..k]`.
spec fn total_upto(tris: Seq<[u32; 3]>, k: int, v: int) -> nat
    decreases v,
{
    if v <= 0 {
        0
    } else {
        total_upto(tris, k, v - 1) + corner_count(tris, k, v - 1)
    }
}

/// Number of corners of `t` below `v`.
spec fn corners_below(t: [u32; 3], v: int) -> nat {
    (if (t[0] as int) < v { 1nat } else { 0nat }) + (if (t[1] as int) < v { 1nat } else { 0nat }) + (
    if (t[2] as int) < v {
        1nat
    } else {
        0nat
    })
}

proof fn lemma_total_step(tris: Seq<[u32; 3]>, k: int, v: int)
    requires
        k > 0,
        v >= 0,
    ensures
        total_upto(tris, k, v) == total_upto(tris, k - 1, v) + corners_below(tris[k - 1], v),
    decreases v,
{
    if v > 0 {
        lemma_total_step(tris, k, v - 1);
    }
}

proof fn lemma_total_upto_le(tris: Seq<[u32; 3]>, k: int, v: int)
    requires
        k >= 0,
        v >= 0,
    ensures
        total_upto(tris, k, v) <= 3 * k,
    decreases k,
{
    if k == 0 {
        lemma_total_zero(tris, v);
    } else {
        lemma_total_upto_le(tris, k - 1, v);
        lemma_total_step(tris, k, v);
    }
}

proof fn lemma_total_zero(tris: Seq<[u32; 3]>, v: int)
    requires
        v >= 0,
    ensures
        total_upto(tris, 0, v) == 0,
    decreases v,
{
    if v > 0 {
        lemma_total_zero(tris, v - 1);
    }
}

proof fn lemma_total_le(tris: Seq<[u32; 3]>, v: int)
    requires
        v >= 0,
    ensures
        total_corners(tris, v) <= 3 * tris.len(),
{
    lemma_total_upto_le(tris, tris.len() as int, v);
}

proof fn lemma_offsets_le(offset: Seq<usize>, valence: Seq<u32>, n: usize, a: int, b: int)
    requires
        0 <= a <= b <= n,
        offset.len() == n + 1,
        valence.len() == n,
        forall|w: int| 0 <= w < n ==> offset[w + 1] == offset[w] + valence[w],
    ensures
        offset[a] <= offset[b],
    decreases b - a,
{
    if a < b {
        lemma_offsets_le(offset, valence, n, a, b - 1);
        assert(offset[b - 1 + 1] == offset[b - 1] + valence[b - 1]);
    }
}

proof fn lemma_offsets_mono(offset: Seq<usize>, valence: Seq<u32>, n: usize, x: int)
    requires
        0 <= x < n,
        offset.len() == n + 1,
        valence.len() == n,
        forall|w: int| 0 <= w < n ==> offset[w + 1] == offset[w] + valence[w],
    ensures
        offset[x + 1] <= offset[n as int],
{
    lemma_offsets_le(offset, valence, n, x + 1, n as int);
}

proof fn lemma_offsets_disjoint(offset: Seq<usize>, valence: Seq<u32>, n: usize, x: int, w: int)
    requires
        0 <= x < n,
        0 <= w < n,
        x != w,
        offset.len() == n + 1,
        valence.len() == n,
        forall|u: int| 0 <= u < n ==> offset[u + 1] == offset[u] + valence[u],
    ensures
        x < w ==> offset[x + 1] <= offset[w],
        w < x ==> offset[w + 1] <= offset[x],
{
    if x < w {
        lemma_offsets_le(offset, valence, n, x + 1, w);
    } else {
        lemma_offsets_le(offset, valence, n, w + 1, x);
    }
}

} // verus!
