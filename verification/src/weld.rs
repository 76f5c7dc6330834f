//! Vertex welding: merging vertices whose attribute keys are identical
//! into one shared pool entry.
//!
//! Each vertex is described by a key, the canonical bit pattern of every
//! attribute slot it carries. Two vertices merge exactly when their keys
//! are equal; the pool keeps the first vertex of each key in source order.
use vstd::prelude::*;
use std::collections::HashMap;
use crate::mesh::{Connectivity, Indices};
use crate::optimize::{is_packed, pack_indices};

verus! {

broadcast use vstd::std_specs::hash::group_hash_axioms;

/// FNV-1a offset basis, the hash of an empty key.
pub const KEY_HASH_BASIS: u64 = 0xcbf2_9ce4_8422_2325;

/// FNV-1a prime.
pub const KEY_HASH_PRIME: u64 = 0x0000_0100_0000_01b3;

/// Bucket hash of a key: FNV-1a over its 32-bit words. Only equality of
/// hashes matters for correctness; keys are always compared in full.
pub open spec fn key_hash(k: Seq<u32>) -> u64
    decreases k.len(),
{
    if k.len() == 0 {
        KEY_HASH_BASIS
    } else {
        (key_hash(k.drop_last()) ^ (k.last() as u64)).wrapping_mul(KEY_HASH_PRIME)
    }
}

/// The key of vertex `i`.
pub open spec fn key_at(keys: Seq<Vec<u32>>, i: int) -> Seq<u32> {
    keys[i]@
}

/// Vertex `i` is the first one carrying its key.
pub open spec fn is_first(keys: Seq<Vec<u32>>, i: int) -> bool {
    forall|j: int| 0 <= j < i ==> #[trigger] key_at(keys, j) != key_at(keys, i)
}

/// `remap` and `sources` weld the vertices described by `keys`: the pool
/// `sources` lists, ascending, exactly the first vertex of each distinct
/// key, and `remap[i]` is the pool slot whose vertex carries the key of
/// vertex `i`.
pub open spec fn is_weld_plan(keys: Seq<Vec<u32>>, remap: Seq<u32>, sources: Seq<usize>) -> bool {
    &&& remap.len() == keys.len()
    &&& forall|a: int, b: int| 0 <= a < b < sources.len() ==> sources[a] < sources[b]
    &&& forall|s: int|
        0 <= s < sources.len() ==> (#[trigger] sources[s] as int) < keys.len() && is_first(keys, sources[s] as int)
    &&& forall|i: int| 0 <= i < keys.len() && is_first(keys, i) ==> #[trigger] sources.contains(i as usize)
    &&& forall|i: int|
        0 <= i < keys.len() ==> (#[trigger] remap[i] as int) < sources.len() && key_at(
            keys,
            sources[remap[i] as int] as int,
        ) == key_at(keys, i)
}

/// Hash one key.
fn hash_key(k: &Vec<u32>) -> (h: u64)
    ensures
        h == key_hash(k@),
{
    let mut h: u64 = KEY_HASH_BASIS;
    let mut i: usize = 0;
    while i < k.len()
        invariant
            i <= k@.len(),
            h == key_hash(k@.take(i as int)),
        decreases k@.len() - i,
    {
        proof {
            assert(k@.take(i + 1).drop_last() =~= k@.take(i as int));
        }
        h = (h ^ (k[i] as u64)).wrapping_mul(KEY_HASH_PRIME);
        i = i + 1;
    }
    proof {
        assert(k@.take(k@.len() as int) =~= k@);
    }
    h
}

/// Word-by-word key comparison.
fn same_key(a: &Vec<u32>, b: &Vec<u32>) -> (r: bool)
    ensures
        r == (a@ == b@),
{
    if a.len() != b.len() {
        return false;
    }
    let mut i: usize = 0;
    while i < a.len()
        invariant
            a@.len() == b@.len(),
            i <= a@.len(),
            forall|j: int| 0 <= j < i ==> a@[j] == b@[j],
        decreases a@.len() - i,
    {
        if a[i] != b[i] {
            return false;
        }
        i = i + 1;
    }
    assert(a@ =~= b@);
    true
}

/// The welding bookkeeping while the vertices are scanned: the pool so
/// far, the cached hash of each pool slot, and per hash a chain through
/// the slots carrying it, newest first.
struct WeldTable {
    sources: Vec<usize>,
    hashes: Vec<u64>,
    /// Previous slot with the same hash.
    prev: Vec<Option<usize>>,
    /// Newest slot of each hash.
    head: HashMap<u64, usize>,
}

impl WeldTable {
    spec fn chains_ok(&self, keys: Seq<Vec<u32>>) -> bool {
        let m = self.sources@.len();
        &&& self.hashes@.len() == m
        &&& self.prev@.len() == m
        &&& forall|s: int|
            0 <= s < m ==> (#[trigger] self.sources@[s] as int) < keys.len()
                && self.hashes@[s] == key_hash(key_at(keys, self.sources@[s] as int))
        &&& forall|s: int|
            0 <= s < m ==> match #[trigger] self.prev@[s] {
                None => forall|t: int| 0 <= t < s ==> self.hashes@[t] != self.hashes@[s],
                Some(p) => p < s && self.hashes@[p as int] == self.hashes@[s] && forall|t: int|
                    p < t < s ==> self.hashes@[t] != self.hashes@[s],
            }
        &&& forall|h: u64|
            #[trigger] self.head@.contains_key(h) ==> self.head@[h] < m && self.hashes@[self.head@[h] as int] == h
                && forall|t: int| self.head@[h] < t < m ==> self.hashes@[t] != h
        &&& forall|s: int| 0 <= s < m ==> #[trigger] self.head@.contains_key(self.hashes@[s])
    }

    /// The pool slot whose vertex carries key `k` (with hash `h`), if any.
    fn find(&self, keys: &Vec<Vec<u32>>, k: &Vec<u32>, h: u64) -> (r: Option<usize>)
        requires
            self.chains_ok(keys@),
            h == key_hash(k@),
        ensures
            r matches Some(s) ==> s < self.sources@.len() && key_at(keys@, self.sources@[s as int] as int) == k@,
            r is None ==> forall|s: int|
                0 <= s < self.sources@.len() ==> key_at(keys@, #[trigger] self.sources@[s] as int) != k@,
    {
        let m = self.sources.len();
        let mut cur: usize = match self.head.get(&h) {
            Some(s) => *s,
            None => {
                proof {
                    assert forall|s: int| 0 <= s < m implies key_at(keys@, #[trigger] self.sources@[s] as int)
                        != k@ by {
                        if key_at(keys@, self.sources@[s] as int) == k@ {
                            assert(self.head@.contains_key(self.hashes@[s]));
                        }
                    }
                }
                return None;
            },
        };
        loop
            invariant
                self.chains_ok(keys@),
                h == key_hash(k@),
                m == self.sources@.len(),
                cur < m,
                self.hashes@[cur as int] == h,
                forall|t: int| cur < t < m && self.hashes@[t] == h ==> key_at(keys@, #[trigger] self.sources@[t] as int) != k@,
            decreases cur,
        {
            if same_key(&keys[self.sources[cur]], k) {
                return Some(cur);
            }
            match self.prev[cur] {
                Some(p) => {
                    cur = p;
                },
                None => {
                    proof {
                        assert forall|s: int| 0 <= s < m implies key_at(keys@, #[trigger] self.sources@[s] as int)
                            != k@ by {
                            if key_at(keys@, self.sources@[s] as int) == k@ {
                                assert(self.hashes@[s] == h);
                            }
                        }
                    }
                    return None;
                },
            }
        }
    }
}

/// Weld the vertices described by `keys` (one key per source vertex):
/// returns `(remap, sources)` where `sources` is the pool of first-seen
/// vertices and `remap[i]` the pool slot of vertex `i`. Two vertices share
/// a slot exactly when their keys are equal.
pub fn weld_plan(keys: &Vec<Vec<u32>>) -> (r: (Vec<u32>, Vec<usize>))
    requires
        keys@.len() <= 0x1_0000_0000,
    ensures
        is_weld_plan(keys@, r.0@, r.1@),
        forall|i: int, j: int|
            0 <= i < keys@.len() && 0 <= j < keys@.len() ==> (r.0@[i] == r.0@[j] <==> key_at(keys@, i) == key_at(
                keys@,
                j,
            )),
{
    let n = keys.len();
    let mut table = WeldTable { sources: Vec::new(), hashes: Vec::new(), prev: Vec::new(), head: HashMap::new() };
    let mut remap: Vec<u32> = Vec::new();
    let mut i: usize = 0;
    while i < n
        invariant
            n == keys@.len(),
            n <= 0x1_0000_0000,
            i <= n,
            table.chains_ok(keys@),
            remap@.len() == i,
            table.sources@.len() <= i,
            forall|a: int, b: int| 0 <= a < b < table.sources@.len() ==> table.sources@[a] < table.sources@[b],
            forall|s: int|
                0 <= s < table.sources@.len() ==> (#[trigger] table.sources@[s] as int) < i && is_first(
                    keys@,
                    table.sources@[s] as int,
                ),
            forall|j: int| 0 <= j < i && is_first(keys@, j) ==> #[trigger] table.sources@.contains(j as usize),
            forall|j: int|
                0 <= j < i ==> (#[trigger] remap@[j] as int) < table.sources@.len() && key_at(
                    keys@,
                    table.sources@[remap@[j] as int] as int,
                ) == key_at(keys@, j),
        decreases n - i,
    {
        let k = &keys[i];
        let h = hash_key(k);
        match table.find(keys, k, h) {
            Some(s) => {
                proof {
                    let src = table.sources@[s as int] as int;
                    assert(key_at(keys@, src) == key_at(keys@, i as int));
                    assert(!is_first(keys@, i as int));
                }
                remap.push(s as u32);
            },
            None => {
                let m = table.sources.len();
                proof {
                    assert forall|j: int| 0 <= j < i implies #[trigger] key_at(keys@, j) != key_at(keys@, i as int) by {
                        let s = remap@[j] as int;
                        assert(key_at(keys@, table.sources@[s] as int) == key_at(keys@, j));
                    }
                    assert(is_first(keys@, i as int));
                }
                let before = if table.head.contains_key(&h) {
                    Some(*table.head.get(&h).unwrap())
                } else {
                    None
                };
                let ghost old_t = table;
                remap.push(m as u32);
                table.sources.push(i);
                table.hashes.push(h);
                table.prev.push(before);
                table.head.insert(h, m);
                proof {
                    assert forall|s: int|
                        0 <= s < table.sources@.len() implies match #[trigger] table.prev@[s] {
                            None => forall|t: int| 0 <= t < s ==> table.hashes@[t] != table.hashes@[s],
                            Some(p) => p < s && table.hashes@[p as int] == table.hashes@[s] && forall|t: int|
                                p < t < s ==> table.hashes@[t] != table.hashes@[s],
                        } by {
                        if s < m {
                            assert(table.prev@[s] == old_t.prev@[s]);
                            assert(old_t.prev@[s] matches None ==> forall|t: int|
                                0 <= t < s ==> old_t.hashes@[t] != old_t.hashes@[s]);
                        } else {
                            if !old_t.head@.contains_key(h) {
                                assert forall|t: int| 0 <= t < s implies table.hashes@[t] != table.hashes@[s] by {
                                    if table.hashes@[t] == h {
                                        assert(old_t.head@.contains_key(old_t.hashes@[t]));
                                    }
                                }
                            }
                        }
                    }
                    assert forall|h2: u64| #[trigger] table.head@.contains_key(h2) implies table.head@[h2]
                        < table.sources@.len() && table.hashes@[table.head@[h2] as int] == h2 && forall|t: int|
                        table.head@[h2] < t < table.sources@.len() ==> table.hashes@[t] != h2 by {
                        if h2 != h {
                            assert(old_t.head@.contains_key(h2));
                        }
                    }
                    assert forall|s: int| 0 <= s < table.sources@.len() implies #[trigger] table.head@.contains_key(
                        table.hashes@[s],
                    ) by {
                        if s < m {
                            assert(old_t.head@.contains_key(old_t.hashes@[s]));
                        }
                    }
                    assert forall|s: int|
                        0 <= s < table.sources@.len() implies (#[trigger] table.sources@[s] as int) < keys@.len()
                        && table.hashes@[s] == key_hash(key_at(keys@, table.sources@[s] as int)) by {
                        if s < m {
                            assert(old_t.sources@[s] == table.sources@[s]);
                        }
                    }
                    assert forall|j: int| 0 <= j < i + 1 && is_first(keys@, j) implies #[trigger] table.sources@.contains(
                        j as usize,
                    ) by {
                        if j < i {
                            assert(old_t.sources@.contains(j as usize));
                            let q = choose|q: int| 0 <= q < old_t.sources@.len() && old_t.sources@[q] == j as usize;
                            assert(table.sources@[q] == j as usize);
                        } else {
                            assert(table.sources@[m as int] == i);
                        }
                    }
                }
            },
        }
        proof {
            assert forall|j: int| 0 <= j < i + 1 && is_first(keys@, j) implies #[trigger] table.sources@.contains(j as usize) by {
                if j == i {
                    assert(is_first(keys@, i as int));
                }
            }
        }
        i = i + 1;
    }
    let remap_out = remap;
    let sources = table.sources;
    proof {
        assert forall|a: int, b: int|
            0 <= a < n && 0 <= b < n implies (remap_out@[a] == remap_out@[b] <==> key_at(keys@, a) == key_at(keys@, b)) by {
            let sa = remap_out@[a] as int;
            let sb = remap_out@[b] as int;
            if key_at(keys@, a) == key_at(keys@, b) && sa != sb {
                let pa = sources@[sa] as int;
                let pb = sources@[sb] as int;
                assert(is_first(keys@, pa));
                assert(is_first(keys@, pb));
                if sa < sb {
                    assert(pa < pb);
                    assert(key_at(keys@, pa) != key_at(keys@, pb));
                } else {
                    assert(pb < pa);
                    assert(key_at(keys@, pb) != key_at(keys@, pa));
                }
            }
        }
    }
    (remap_out, sources)
}

/// Look up an index in `remap`; out-of-range indices have no entry.
pub open spec fn remap_entry(remap: Seq<u32>) -> spec_fn(u32) -> Option<u32> {
    |x: u32| if (x as int) < remap.len() { Some(remap[x as int]) } else { None }
}

/// An index stream rewritten through `remap`, dropping the entries that
/// fall outside it.
pub open spec fn remap_stream(s: Seq<u32>, remap: Seq<u32>) -> Seq<u32> {
    s.filter_map(remap_entry(remap))
}

/// The draw order of `c` after welding with `remap`: an existing index
/// buffer rewritten through `remap`, or, for a non-indexed primitive, the
/// implicit order `0, 1, 2, …` rewritten, which is `remap` itself.
pub open spec fn welded_stream(c: Connectivity, remap: Seq<u32>) -> Seq<u32> {
    match c.indices {
        Some(ix) => remap_stream(ix@, remap),
        None => remap,
    }
}

/// Source entries of `s` that address one of `n` vertices.
pub open spec fn in_pool(s: Seq<u32>, n: nat) -> Seq<u32> {
    s.filter(|x: u32| (x as int) < n)
}

/// The outcome of welding a primitive: its new connectivity over the
/// welded pool, the pool itself (`sources[j]` is the source vertex that
/// pool slot `j` keeps), and the pool slot of every source vertex.
pub struct Weld {
    pub connectivity: Connectivity,
    pub sources: Vec<usize>,
    pub remap: Vec<u32>,
}

/// Rewrite an index stream through `remap`, dropping out-of-range entries.
fn remap_indices(s: &Vec<u32>, remap: &Vec<u32>, m: usize) -> (out: Vec<u32>)
    requires
        forall|j: int| 0 <= j < remap@.len() ==> (#[trigger] remap@[j] as int) < m,
    ensures
        out@ == remap_stream(s@, remap@),
        forall|j: int| 0 <= j < out@.len() ==> (#[trigger] out@[j] as int) < m,
{
    let mut out: Vec<u32> = Vec::new();
    let mut i: usize = 0;
    while i < s.len()
        invariant
            i <= s@.len(),
            forall|j: int| 0 <= j < remap@.len() ==> (#[trigger] remap@[j] as int) < m,
            out@ == s@.take(i as int).filter_map(remap_entry(remap@)),
            forall|j: int| 0 <= j < out@.len() ==> (#[trigger] out@[j] as int) < m,
        decreases s@.len() - i,
    {
        let x = s[i];
        proof {
            assert(s@.take(i + 1).drop_last() =~= s@.take(i as int));
            assert(s@.take(i + 1).last() == x);
        }
        if (x as usize) < remap.len() {
            let ghost before = out@;
            out.push(remap[x as usize]);
            proof {
                assert(before + seq![remap@[x as int]] =~= out@);
            }
        }
        i = i + 1;
    }
    proof {
        assert(s@.take(s@.len() as int) =~= s@);
    }
    out
}

impl Connectivity {
    /// Merge the vertices whose keys are identical (`keys[i]` describes
    /// source vertex `i`) into a shared pool and rewrite the draw order to
    /// reference it. The topology is kept; an existing index buffer is
    /// rewritten through the dedup table, dropping entries outside the
    /// pool, and a non-indexed primitive gets its implicit order made
    /// explicit. The index width is `U16` while the welded pool holds at
    /// most 65 536 vertices, else `U32`.
    pub fn weld_vertices(&self, keys: &Vec<Vec<u32>>) -> (w: Weld)
        requires
            keys@.len() == self.vertex_count,
            self.vertex_count <= 0x1_0000_0000,
        ensures
            is_weld_plan(keys@, w.remap@, w.sources@),
            forall|i: int, j: int|
                0 <= i < keys@.len() && 0 <= j < keys@.len() ==> (w.remap@[i] == w.remap@[j] <==> key_at(
                    keys@,
                    i,
                ) == key_at(keys@, j)),
            w.connectivity.topology == self.topology,
            w.connectivity.vertex_count == w.sources@.len(),
            w.connectivity.indices matches Some(ix) && is_packed(ix, welded_stream(*self, w.remap@), w.sources.len()),
            w.connectivity.stream() == welded_stream(*self, w.remap@),
    {
        let (remap, sources) = weld_plan(keys);
        let m = sources.len();
        let flat: Vec<u32> = match &self.indices {
            Some(ix) => {
                let s = ix.to_u32_vec();
                remap_indices(&s, &remap, m)
            },
            None => remap.clone(),
        };
        proof {
            assert(flat@ == welded_stream(*self, remap@));
            assert forall|j: int| 0 <= j < flat@.len() implies (#[trigger] flat@[j] as int) < m by {
                if self.indices is None {
                    assert(flat@[j] == remap@[j]);
                }
            }
        }
        let ix = pack_indices(flat, m);
        proof {
            if m <= 65536 {
                assert(ix@ =~= flat@) by {
                    assert forall|j: int| 0 <= j < flat@.len() implies #[trigger] ix@[j] == flat@[j] by {
                        let e = flat@[j];
                        assert((e as u16) as u32 == e) by (bit_vector)
                            requires
                                e < 65536u32,
                        ;
                    }
                }
            }
        }
        let connectivity = Connectivity { topology: self.topology, indices: Some(ix), vertex_count: m };
        Weld { connectivity, sources, remap }
    }
}

proof fn lemma_remap_stream(s: Seq<u32>, remap: Seq<u32>)
    ensures
        remap_stream(s, remap) == in_pool(s, remap.len()).map_values(|x: u32| remap[x as int]),
    decreases s.len(),
{
    let g = |x: u32| remap[x as int];
    let p = |x: u32| (x as int) < remap.len();
    let f = remap_entry(remap);
    if s.len() > 0 {
        let rest = s.drop_last();
        let x = s.last();
        lemma_remap_stream(rest, remap);
        reveal(Seq::filter);
        assert(in_pool(s, remap.len()) == s.filter(p));
        assert(in_pool(rest, remap.len()) == rest.filter(p));
        assert(remap_stream(rest, remap) == rest.filter_map(f));
        assert(remap_stream(s, remap) == s.filter_map(f));
        if (x as int) < remap.len() {
            assert(f(x) == Some(remap[x as int]));
            assert(s.filter_map(f) == rest.filter_map(f) + seq![remap[x as int]]);
            assert(s.filter(p) == rest.filter(p).push(x));
            assert(rest.filter(p).push(x).map_values(g) =~= rest.filter(p).map_values(g) + seq![remap[x as int]]);
        } else {
            assert(f(x) == None::<u32>);
            assert(s.filter_map(f) == rest.filter_map(f));
            assert(s.filter(p) == rest.filter(p));
        }
    } else {
        reveal(Seq::filter);
        assert(remap_stream(s, remap) =~= in_pool(s, remap.len()).map_values(g));
    }
}

/// Welding keeps every drawn corner: entry `k` of the welded draw order
/// is a pool vertex carrying the same key as the `k`-th source corner
/// that addresses the pool, and no other corner survives.
pub proof fn law_weld_keeps_corners(keys: Seq<Vec<u32>>, remap: Seq<u32>, sources: Seq<usize>, s: Seq<u32>)
    requires
        is_weld_plan(keys, remap, sources),
    ensures
        remap_stream(s, remap).len() == in_pool(s, keys.len()).len(),
        forall|k: int|
            0 <= k < remap_stream(s, remap).len() ==> key_at(
                keys,
                sources[#[trigger] remap_stream(s, remap)[k] as int] as int,
            ) == key_at(keys, in_pool(s, keys.len())[k] as int),
{
    lemma_remap_stream(s, remap);
    let f = in_pool(s, keys.len());
    assert forall|k: int| 0 <= k < remap_stream(s, remap).len() implies key_at(
        keys,
        sources[#[trigger] remap_stream(s, remap)[k] as int] as int,
    ) == key_at(keys, f[k] as int) by {
        s.lemma_filter_pred(|x: u32| (x as int) < keys.len(), k);
        assert(remap_stream(s, remap)[k] == remap[f[k] as int]);
    }
}

/// A strictly increasing list of slots below `n` that lists every slot
/// below `n` is `0, 1, …, n - 1`.
proof fn lemma_increasing_cover_at(s: Seq<usize>, n: nat, i: int)
    requires
        forall|a: int, b: int| 0 <= a < b < s.len() ==> s[a] < s[b],
        forall|k: int| 0 <= k < s.len() ==> (#[trigger] s[k] as int) < n,
        forall|v: int| 0 <= v < n ==> #[trigger] s.contains(v as usize),
        n <= usize::MAX,
        0 <= i < s.len(),
    ensures
        s[i] == i,
    decreases i,
{
    if i > 0 {
        lemma_increasing_cover_at(s, n, i - 1);
    }
    if s[i] as int > i {
        assert(s.contains(i as usize));
        let j = choose|j: int| 0 <= j < s.len() && s[j] == i as usize;
        if j < i {
            lemma_increasing_cover_at(s, n, j);
        } else {
            assert(s[i] < s[j]);
        }
    }
}

/// Welding is idempotent: the welded pool carries pairwise distinct keys,
/// so welding it again keeps every vertex where it is — the pool is the
/// identity list and every vertex maps to itself.
pub proof fn law_weld_idempotent(
    keys: Seq<Vec<u32>>,
    remap: Seq<u32>,
    sources: Seq<usize>,
    keys2: Seq<Vec<u32>>,
    remap2: Seq<u32>,
    sources2: Seq<usize>,
)
    requires
        is_weld_plan(keys, remap, sources),
        keys2.len() == sources.len(),
        keys2.len() <= usize::MAX,
        forall|p: int| 0 <= p < keys2.len() ==> #[trigger] key_at(keys2, p) == key_at(keys, sources[p] as int),
        is_weld_plan(keys2, remap2, sources2),
    ensures
        sources2 == Seq::new(keys2.len(), |i: int| i as usize),
        forall|i: int| 0 <= i < keys2.len() ==> #[trigger] remap2[i] == i,
{
    let n = keys2.len();
    assert forall|a: int, b: int| 0 <= a < n && 0 <= b < n && a != b implies key_at(keys2, a) != key_at(keys2, b) by {
        let (x, y) = if a < b { (a, b) } else { (b, a) };
        assert(sources[x] < sources[y]);
        assert(is_first(keys, sources[y] as int));
        assert(key_at(keys, sources[x] as int) != key_at(keys, sources[y] as int));
        assert(key_at(keys2, x) == key_at(keys, sources[x] as int));
        assert(key_at(keys2, y) == key_at(keys, sources[y] as int));
    }
    assert forall|v: int| 0 <= v < n implies #[trigger] sources2.contains(v as usize) by {
        assert forall|j: int| 0 <= j < v implies #[trigger] key_at(keys2, j) != key_at(keys2, v) by {}
        assert(is_first(keys2, v));
    }
    assert forall|i: int| 0 <= i < sources2.len() implies #[trigger] sources2[i] == i by {
        lemma_increasing_cover_at(sources2, n, i);
    }
    if n > 0 {
        assert(sources2.contains((n - 1) as usize));
        let j = choose|j: int| 0 <= j < sources2.len() && sources2[j] == (n - 1) as usize;
        assert(sources2[j] == j);
    }
    if sources2.len() > n {
        assert(sources2[n as int] == n);
    }
    assert(sources2 =~= Seq::new(n, |i: int| i as usize));
    assert forall|i: int| 0 <= i < n implies #[trigger] remap2[i] == i by {
        let r = remap2[i] as int;
        assert(key_at(keys2, sources2[r] as int) == key_at(keys2, i));
        assert(sources2[r] == r);
    }
}

} // verus!
