//! Greedy post-transform vertex-cache triangle ordering.
//!
//! The ordering keeps a per-triangle score and, at each step, emits the
//! best-scoring triangle among those touching the most recently pushed
//! vertices (or the first unemitted triangle in input order when that
//! frontier is exhausted). The score itself is supplied by the caller, so
//! the bookkeeping below is verified for every scoring rule.
use vstd::prelude::*;
use crate::mesh::{flatten, Connectivity, Indices, Topology};
use crate::optimize::{valence_fits, corner_count, lemma_distinct_corner_count, apply_triangle_order, drawable_triangles, is_packed, tris_drawable, uses_vertex, Incidence};
use crate::topology::face_ok;
use crate::sort::sort_u64;

verus! {

/// Number of most recent triangles whose vertices form the frontier:
/// `cache_size / 3`, at least one.
pub open spec fn frontier_span(cache_size: usize) -> int {
    if cache_size / 3 >= 1 {
        (cache_size / 3) as int
    } else {
        1
    }
}

/// First position of `order` inside the frontier window.
pub open spec fn frontier_start(len: int, cache_size: usize) -> int {
    if len > frontier_span(cache_size) {
        len - frontier_span(cache_size)
    } else {
        0
    }
}

/// `x` is a corner of one of the triangles emitted by the last
/// `frontier_span(cache_size)` entries of `order`.
pub open spec fn in_frontier(order: Seq<usize>, tris: Seq<[u32; 3]>, cache_size: usize, x: int) -> bool {
    exists|k: int, c: int|
        frontier_start(order.len() as int, cache_size) <= k < order.len() && 0 <= c < 3
            && #[trigger] tris[order[k] as int][c] as int == x
}

/// Triangle `t` has a corner on the frontier of `prev`.
pub open spec fn touches_frontier(tris: Seq<[u32; 3]>, cache_size: usize, prev: Seq<usize>, t: int) -> bool {
    exists|c: int| 0 <= c < 3 && #[trigger] in_frontier(prev, tris, cache_size, tris[t][c] as int)
}

/// `chosen` is a greedy pick after the triangles `prev` were emitted: an
/// unemitted triangle with a corner on the frontier when there is one,
/// otherwise the lowest unemitted triangle.
pub open spec fn is_greedy_pick(tris: Seq<[u32; 3]>, cache_size: usize, prev: Seq<usize>, chosen: int) -> bool {
    &&& 0 <= chosen < tris.len()
    &&& !prev.contains(chosen as usize)
    &&& if exists|t: int|
        0 <= t < tris.len() && !prev.contains(t as usize) && #[trigger] touches_frontier(tris, cache_size, prev, t) {
        touches_frontier(tris, cache_size, prev, chosen)
    } else {
        forall|t: int| 0 <= t < chosen ==> #[trigger] prev.contains(t as usize)
    }
}

/// `better` behaves as a strict order on scores: it answers the same for
/// the same pair, never prefers a score to itself, and is transitive.
pub open spec fn strict_order<S, B: Fn(S, S) -> bool>(better: B) -> bool {
    &&& forall|a: S, b: S| #[trigger] better.ensures((a, b), false) ==> !better.ensures((a, b), true)
    &&& forall|a: S| !#[trigger] better.ensures((a, a), true)
    &&& forall|a: S, b: S, c: S|
        #[trigger] better.ensures((a, b), true) && #[trigger] better.ensures((b, c), true) ==> better.ensures((a, c), true)
}

/// The corners of the emitted triangles `prev`, in the order they are
/// pushed to the cache.
pub open spec fn emitted_corners(tris: Seq<[u32; 3]>, prev: Seq<usize>) -> Seq<u32>
    decreases prev.len(),
{
    if prev.len() == 0 {
        Seq::empty()
    } else {
        let t = tris[prev.last() as int];
        emitted_corners(tris, prev.drop_last()) + seq![t[0], t[1], t[2]]
    }
}

/// The valence of each vertex below `n`: how many corners of `tris` it is.
pub open spec fn valences(tris: Seq<[u32; 3]>, n: usize) -> Seq<u32> {
    Seq::new(n as nat, |v: int| corner_count(tris, tris.len() as int, v) as u32)
}

/// The remaining valences after the corners `corners` were pushed: each
/// push spends one unit of its vertex's valence (never below zero).
pub open spec fn live_after(valence: Seq<u32>, corners: Seq<u32>) -> Seq<u32>
    decreases corners.len(),
{
    if corners.len() == 0 {
        valence
    } else {
        let l = live_after(valence, corners.drop_last());
        let x = corners.last() as int;
        if l[x] > 0 {
            l.update(x, (l[x] - 1) as u32)
        } else {
            l
        }
    }
}

/// The clock after `len` pushes: it ticks once per push and wraps.
pub open spec fn clock_at(len: nat) -> u32 {
    (len % 0x1_0000_0000) as u32
}

/// The clock tick of each vertex's last push after the corners `corners`
/// were pushed (`u32::MAX` for a vertex never pushed).
pub open spec fn push_after(n: nat, corners: Seq<u32>) -> Seq<u32>
    decreases corners.len(),
{
    if corners.len() == 0 {
        Seq::new(n, |v: int| u32::MAX)
    } else {
        push_after(n, corners.drop_last()).update(corners.last() as int, clock_at(corners.len()))
    }
}

/// One more push ticks the clock by one, wrapping.
proof fn lemma_clock_tick(len: nat)
    ensures
        vstd::wrapping::u32_specs::wrapping_add(clock_at(len), 1) == clock_at(len + 1),
{
    let m: int = 0x1_0000_0000;
    let x = len as int;
    vstd::arithmetic::div_mod::lemma_mod_pos_bound(x, m);
    vstd::arithmetic::div_mod::lemma_add_mod_noop(x, 1, m);
    vstd::arithmetic::div_mod::lemma_small_mod(1, m as nat);
    let a = x % m;
    if a + 1 < m {
        vstd::arithmetic::div_mod::lemma_small_mod((a + 1) as nat, m as nat);
    } else {
        vstd::arithmetic::div_mod::lemma_mod_self_0(m);
    }
}

/// The corners of one more emitted triangle follow those already out.
proof fn lemma_emitted_push(tris: Seq<[u32; 3]>, prev: Seq<usize>, t: usize)
    ensures
        emitted_corners(tris, prev.push(t)) == emitted_corners(tris, prev) + seq![
            tris[t as int][0],
            tris[t as int][1],
            tris[t as int][2],
        ],
{
    assert(prev.push(t).drop_last() =~= prev);
}

/// Three corners per emitted triangle.
proof fn lemma_emitted_len(tris: Seq<[u32; 3]>, prev: Seq<usize>)
    ensures
        emitted_corners(tris, prev).len() == 3 * prev.len(),
    decreases prev.len(),
{
    if prev.len() > 0 {
        lemma_emitted_len(tris, prev.drop_last());
    }
}

/// Triangle `q` has one of the corners `c..3` of triangle `t`: it still
/// waits to be re-scored around those corners.
spec fn awaiting(tris: Seq<[u32; 3]>, t: [u32; 3], q: int, c: int) -> bool {
    ||| c <= 0 && uses_vertex(tris[q], t[0] as int)
    ||| c <= 1 && uses_vertex(tris[q], t[1] as int)
    ||| c <= 2 && uses_vertex(tris[q], t[2] as int)
}

proof fn lemma_last_touch_le(tris: Seq<[u32; 3]>, prev: Seq<usize>, t: int)
    ensures
        last_touch(tris, prev, t) <= prev.len(),
    decreases prev.len(),
{
    if prev.len() > 0 {
        lemma_last_touch_le(tris, prev.drop_last(), t);
    }
}

/// Triangle `b` has a corner of triangle `a`.
pub open spec fn shares_corner(a: [u32; 3], b: [u32; 3]) -> bool {
    uses_vertex(b, a[0] as int) || uses_vertex(b, a[1] as int) || uses_vertex(b, a[2] as int)
}

/// How many of the emitted triangles `prev` were out when triangle `t`
/// was last re-scored: up to and including the last one sharing a corner
/// with `t`, or none.
pub open spec fn last_touch(tris: Seq<[u32; 3]>, prev: Seq<usize>, t: int) -> nat
    decreases prev.len(),
{
    if prev.len() == 0 {
        0
    } else if shares_corner(tris[prev.last() as int], tris[t]) {
        prev.len()
    } else {
        last_touch(tris, prev.drop_last(), t)
    }
}

/// `v` is the score `score` returned for triangle `t` in the state of the
/// cache when `t` was last re-scored after the emitted triangles `prev`:
/// the remaining valences, the last-push ticks and the clock after the
/// first [`last_touch`] of them.
pub open spec fn cached_by<S, F: Fn([u32; 3], &Vec<u32>, &Vec<u32>, u32, usize) -> S>(
    score: F,
    tris: Seq<[u32; 3]>,
    n: usize,
    cache_size: usize,
    prev: Seq<usize>,
    t: int,
    v: S,
) -> bool {
    let c = emitted_corners(tris, prev.take(last_touch(tris, prev, t) as int));
    exists|l: Vec<u32>, p: Vec<u32>|
        l@ == live_after(valences(tris, n), c) && p@ == push_after(n as nat, c) && #[trigger] score.ensures(
            (tris[t], &l, &p, clock_at(c.len()), cache_size),
            v,
        )
}

/// Step `k` of `order` picked, by the cached scores `table` (for each
/// unemitted triangle, the score `score` returned in the cache state of its
/// last re-scoring, [`cached_by`]), a candidate that no other
/// candidate on the frontier beats under `better` when `better` is a
/// strict order.
pub open spec fn scored_step<S, F: Fn([u32; 3], &Vec<u32>, &Vec<u32>, u32, usize) -> S, B: Fn(S, S) -> bool>(
    score: F,
    better: B,
    tris: Seq<[u32; 3]>,
    n: usize,
    cache_size: usize,
    order: Seq<usize>,
    table: Seq<S>,
    k: int,
) -> bool {
    &&& table.len() == tris.len()
    &&& forall|t: int|
        0 <= t < tris.len() && !order.take(k).contains(t as usize) ==> #[trigger] cached_by(
            score,
            tris,
            n,
            cache_size,
            order.take(k),
            t,
            table[t],
        )
    &&& strict_order(better) ==> forall|t: int|
        0 <= t < tris.len() && !order.take(k).contains(t as usize) && #[trigger] touches_frontier(
            tris,
            cache_size,
            order.take(k),
            t,
        ) ==> !better.ensures((table[t], table[order[k] as int]), true)
}

/// The vertices pushed by the last `cache_size / 3` (at least one) emitted
/// triangles, ascending and without repeats: the frontier whose incident
/// triangles are the next candidates.
pub fn recent_vertices(order: &Vec<usize>, tris: &Vec<[u32; 3]>, cache_size: usize) -> (out: Vec<usize>)
    requires
        forall|k: int| 0 <= k < order@.len() ==> #[trigger] order@[k] < tris@.len(),
    ensures
        forall|i: int, j: int| 0 <= i < j < out@.len() ==> out@[i] < out@[j],
        forall|x: usize| out@.contains(x) <==> in_frontier(order@, tris@, cache_size, x as int),
{
    let span: usize = if cache_size / 3 > 1 { cache_size / 3 } else { 1 };
    let start: usize = if order.len() > span { order.len() - span } else { 0 };
    let ghost st = frontier_start(order@.len() as int, cache_size);
    assert(start == st);
    let mut buf: Vec<u64> = Vec::new();
    let mut k: usize = start;
    while k < order.len()
        invariant
            start <= k <= order@.len(),
            forall|q: int| 0 <= q < order@.len() ==> #[trigger] order@[q] < tris@.len(),
            forall|i: int| 0 <= i < buf@.len() ==> #[trigger] buf@[i] <= u32::MAX,
            forall|x: u64|
                buf@.contains(x) <==> exists|j: int, c: int|
                    start <= j < k && 0 <= c < 3 && #[trigger] tris@[order@[j] as int][c] as u64 == x,
        decreases order@.len() - k,
    {
        let t = tris[order[k]];
        let ghost before = buf@;
        buf.push(t[0] as u64);
        buf.push(t[1] as u64);
        buf.push(t[2] as u64);
        proof {
            assert(buf@ =~= before + seq![t[0] as u64, t[1] as u64, t[2] as u64]);
            assert forall|x: u64|
                buf@.contains(x) implies exists|j: int, c: int|
                    start <= j < k + 1 && 0 <= c < 3 && #[trigger] tris@[order@[j] as int][c] as u64 == x by {
                let i = choose|i: int| 0 <= i < buf@.len() && buf@[i] == x;
                if i < before.len() {
                    assert(before[i] == x);
                    assert(before.contains(x));
                } else {
                    let c = i - before.len();
                    assert(tris@[order@[k as int] as int][c] as u64 == x);
                }
            }
            assert forall|x: u64|
                (exists|j: int, c: int|
                    start <= j < k + 1 && 0 <= c < 3 && #[trigger] tris@[order@[j] as int][c] as u64 == x)
                    implies buf@.contains(x) by {
                let (j, c) = choose|j: int, c: int|
                    start <= j < k + 1 && 0 <= c < 3 && #[trigger] tris@[order@[j] as int][c] as u64 == x;
                if j < k {
                    assert(before.contains(x));
                    let i = choose|i: int| 0 <= i < before.len() && before[i] == x;
                    assert(buf@[i] == x);
                } else {
                    assert(buf@[before.len() + c] == x);
                }
            }
        }
        k = k + 1;
    }
    let ghost unsorted = buf@;
    sort_u64(&mut buf);
    proof {
        assert forall|x: u64| #[trigger] buf@.contains(x) <==> unsorted.contains(x) by {
            vstd::seq_lib::to_multiset_contains(buf@, x);
            vstd::seq_lib::to_multiset_contains(unsorted, x);
        }
        assert forall|i: int| 0 <= i < buf@.len() implies #[trigger] buf@[i] <= u32::MAX by {
            assert(buf@.contains(buf@[i]));
            assert(unsorted.contains(buf@[i]));
        }
    }
    let mut out: Vec<usize> = Vec::new();
    let mut i: usize = 0;
    while i < buf.len()
        invariant
            i <= buf@.len(),
            forall|a: int, b: int| 0 <= a < b < buf@.len() ==> buf@[a] <= buf@[b],
            forall|a: int| 0 <= a < buf@.len() ==> #[trigger] buf@[a] <= u32::MAX,
            forall|a: int, b: int| 0 <= a < b < out@.len() ==> out@[a] < out@[b],
            i > 0 ==> out@.len() > 0 && out@[out@.len() - 1] as u64 == buf@[i - 1],
            i == 0 ==> out@.len() == 0,
            forall|x: usize| out@.contains(x) <==> exists|j: int| 0 <= j < i && #[trigger] buf@[j] == x as u64,
        decreases buf@.len() - i,
    {
        let x = buf[i];
        let ghost before = out@;
        if out.len() == 0 || out[out.len() - 1] as u64 != x {
            out.push(x as usize);
            proof {
                if i > 0 {
                    assert(buf@[i - 1] <= x);
                }
                assert forall|y: usize| out@.contains(y) <==> exists|j: int| 0 <= j < i + 1 && #[trigger] buf@[j] == y as u64 by {
                    if out@.contains(y) {
                        let q = choose|q: int| 0 <= q < out@.len() && out@[q] == y;
                        if q < before.len() {
                            assert(before.contains(y));
                        } else {
                            assert(buf@[i as int] == y as u64);
                        }
                    }
                    if exists|j: int| 0 <= j < i + 1 && #[trigger] buf@[j] == y as u64 {
                        let j = choose|j: int| 0 <= j < i + 1 && #[trigger] buf@[j] == y as u64;
                        if j < i {
                            assert(before.contains(y));
                            let q = choose|q: int| 0 <= q < before.len() && before[q] == y;
                            assert(out@[q] == y);
                        } else {
                            assert(out@[before.len() as int] == y);
                        }
                    }
                }
            }
        } else {
            proof {
                assert forall|y: usize| out@.contains(y) <==> exists|j: int| 0 <= j < i + 1 && #[trigger] buf@[j] == y as u64 by {
                    if exists|j: int| 0 <= j < i + 1 && #[trigger] buf@[j] == y as u64 {
                        let j = choose|j: int| 0 <= j < i + 1 && #[trigger] buf@[j] == y as u64;
                        if j == i {
                            assert(buf@[i - 1] == y as u64);
                        }
                    }
                }
            }
        }
        i = i + 1;
    }
    proof {
        assert forall|x: usize| out@.contains(x) <==> in_frontier(order@, tris@, cache_size, x as int) by {
            if out@.contains(x) {
                let j = choose|j: int| 0 <= j < buf@.len() && #[trigger] buf@[j] == x as u64;
                assert(buf@.contains(x as u64));
                assert(unsorted.contains(x as u64));
                let (q, c) = choose|q: int, c: int|
                    start <= q < order@.len() && 0 <= c < 3 && #[trigger] tris@[order@[q] as int][c] as u64 == x as u64;
                assert(tris@[order@[q] as int][c] as int == x as int);
            }
            if in_frontier(order@, tris@, cache_size, x as int) {
                let (q, c) = choose|q: int, c: int|
                    st <= q < order@.len() && 0 <= c < 3 && #[trigger] tris@[order@[q] as int][c] as int == x as int;
                assert(tris@[order@[q] as int][c] as u64 == x as u64);
                assert(unsorted.contains(x as u64));
                assert(buf@.contains(x as u64));
                let j = choose|j: int| 0 <= j < buf@.len() && buf@[j] == x as u64;
                assert(buf@[j] == x as u64);
            }
        }
    }
    out
}

/// Greedy post-transform-cache triangle ordering of `tris`, whose corners
/// all lie inside a pool of `vertex_count` vertices.
///
/// `score(t, live, last_push, clock, cache_size)` rates triangle `t` from
/// the remaining valence of each vertex (`live`), the clock tick at which
/// each vertex was last pushed (`last_push`, `u32::MAX` for never) and the
/// current clock; `better(a, b)` says that score `a` beats score `b`.
/// Scores are cached per triangle and refreshed for the triangles that
/// share a vertex with the one just emitted.
///
/// Each step emits the cached-best unemitted triangle among the last
/// step's refresh winner and the triangles incident to the frontier of
/// [`recent_vertices`]; with no such candidate it emits the first
/// unemitted triangle in input order. The result is a permutation of the
/// triangle positions, starting with triangle `0`, and every entry is a
/// greedy pick ([`is_greedy_pick`]) after the entries before it. When
/// `better` is a strict order ([`strict_order`]), no frontier candidate's
/// cached score beats the emitted triangle's ([`scored_step`]); each cached
/// score is what `score` returned in the cache state — remaining valences,
/// last-push ticks, wrapping clock — right after the last emitted triangle
/// that shares a corner with it ([`cached_by`]).
pub fn greedy_cache_order<S: Copy>(
    tris: &Vec<[u32; 3]>,
    vertex_count: usize,
    cache_size: usize,
    score: impl Fn([u32; 3], &Vec<u32>, &Vec<u32>, u32, usize) -> S,
    better: impl Fn(S, S) -> bool,
) -> (order: Vec<usize>)
    requires
        forall|t: int|
            0 <= t < tris@.len() ==> (#[trigger] tris@[t][0] as int) < vertex_count
                && (tris@[t][1] as int) < vertex_count && (tris@[t][2] as int) < vertex_count,
        tris@.len() <= u32::MAX,
        3 * tris@.len() <= usize::MAX,
        valence_fits(tris@, vertex_count),
        vertex_count < usize::MAX,
        forall|t: [u32; 3], l: &Vec<u32>, p: &Vec<u32>, c: u32, z: usize| #[trigger] score.requires((t, l, p, c, z)),
        forall|a: S, b: S| #[trigger] better.requires((a, b)),
    ensures
        order@.len() == tris@.len(),
        order@.no_duplicates(),
        forall|k: int| 0 <= k < order@.len() ==> #[trigger] order@[k] < tris@.len(),
        tris@.len() > 0 ==> order@[0] == 0,
        forall|k: int| 0 <= k < order@.len() ==> #[trigger] is_greedy_pick(tris@, cache_size, order@.take(k), order@[k] as int),
        exists|tables: Seq<Seq<S>>|
            tables.len() == order@.len() && forall|k: int|
                0 <= k < order@.len() ==> #[trigger] scored_step(score, better, tris@, vertex_count, cache_size, order@, tables[k], k),
{
    let nt = tris.len();
    let inc = Incidence::build(tris, vertex_count);
    let mut live: Vec<u32> = inc.valence.clone();
    let mut last_push: Vec<u32> = Vec::new();
    let mut v: usize = 0;
    while v < vertex_count
        invariant
            v <= vertex_count,
            last_push@ == Seq::new(v as nat, |k: int| u32::MAX),
        decreases vertex_count - v,
    {
        last_push.push(u32::MAX);
        v = v + 1;
    }
    let mut clock: u32 = 0;
    proof {
        assert(live@ =~= valences(tris@, vertex_count)) by {
            assert forall|w: int| 0 <= w < vertex_count implies live@[w] == valences(tris@, vertex_count)[w] by {
                assert(inc.valence@[w] == corner_count(tris@, tris@.len() as int, w));
            }
        }
        assert(last_push@ =~= push_after(vertex_count as nat, Seq::empty()));
        assert(emitted_corners(tris@, Seq::<usize>::empty()) =~= Seq::<u32>::empty());
    }
    let mut emitted: Vec<bool> = Vec::new();
    let mut tri_score: Vec<S> = Vec::new();
    let mut ti: usize = 0;
    while ti < nt
        invariant
            nt == tris@.len(),
            ti <= nt,
            emitted@.len() == ti,
            tri_score@.len() == ti,
            forall|q: int| 0 <= q < ti ==> !(#[trigger] emitted@[q]),
            forall|t: [u32; 3], l: &Vec<u32>, p: &Vec<u32>, c: u32, z: usize| #[trigger] score.requires((t, l, p, c, z)),
            live@ == valences(tris@, vertex_count),
            last_push@ == push_after(vertex_count as nat, Seq::empty()),
            clock == 0,
            forall|q: int|
                0 <= q < ti ==> #[trigger] cached_by(score, tris@, vertex_count, cache_size, Seq::<usize>::empty(), q, tri_score@[q]),
        decreases nt - ti,
    {
        let s = score(tris[ti], &live, &last_push, clock, cache_size);
        proof {
            let e = Seq::<usize>::empty();
            assert(e.take(0) =~= e);
            assert(emitted_corners(tris@, e) =~= Seq::<u32>::empty());
            assert(score.ensures((tris@[ti as int], &live, &last_push, clock_at(0), cache_size), s));
            assert(cached_by(score, tris@, vertex_count, cache_size, e, ti as int, s));
        }
        tri_score.push(s);
        emitted.push(false);
        ti = ti + 1;
    }
    let mut order: Vec<usize> = Vec::new();
    let ghost mut tables: Seq<Seq<S>> = Seq::empty();
    let mut next_seed: usize = 0;
    let mut best_hint: Option<usize> = None;
    let mut step: usize = 0;
    while step < nt
        invariant
            nt == tris@.len(),
            nt <= u32::MAX,
            vertex_count < usize::MAX,
            forall|r: int|
                0 <= r < tris@.len() ==> (#[trigger] tris@[r][0] as int) < vertex_count
                    && (tris@[r][1] as int) < vertex_count && (tris@[r][2] as int) < vertex_count,
            forall|t: [u32; 3], l: &Vec<u32>, p: &Vec<u32>, c: u32, z: usize| #[trigger] score.requires((t, l, p, c, z)),
            forall|a: S, b: S| #[trigger] better.requires((a, b)),
            inc.describes(tris@, vertex_count),
            step <= nt,
            order@.len() == step,
            emitted@.len() == nt,
            tri_score@.len() == nt,
            live@.len() == vertex_count,
            last_push@.len() == vertex_count,
            order@.no_duplicates(),
            forall|k: int| 0 <= k < order@.len() ==> #[trigger] order@[k] < nt,
            forall|q: int| 0 <= q < nt ==> (#[trigger] emitted@[q] <==> order@.contains(q as usize)),
            next_seed <= nt,
            forall|q: int| 0 <= q < next_seed ==> #[trigger] emitted@[q],
            best_hint matches Some(h) ==> h < nt,
            step == 0 ==> best_hint is None,
            step > 0 ==> order@[0] == 0,
            forall|k: int| 0 <= k < order@.len() ==> #[trigger] is_greedy_pick(tris@, cache_size, order@.take(k), order@[k] as int),
            tables.len() == step,
            forall|k: int| 0 <= k < order@.len() ==> #[trigger] scored_step(score, better, tris@, vertex_count, cache_size, order@, tables[k], k),
            live@ == live_after(valences(tris@, vertex_count), emitted_corners(tris@, order@)),
            last_push@ == push_after(vertex_count as nat, emitted_corners(tris@, order@)),
            clock == clock_at(emitted_corners(tris@, order@).len()),
            emitted_corners(tris@, order@).len() == 3 * order@.len(),
            forall|q: int|
                0 <= q < nt && !emitted@[q] ==> #[trigger] cached_by(score, tris@, vertex_count, cache_size, order@, q, tri_score@[q]),
            best_hint matches Some(h) ==> step > 0 && exists|c1: int, c2: int|
                0 <= c1 < 3 && 0 <= c2 < 3 && #[trigger] tris@[h as int][c1] == #[trigger] tris@[order@[step - 1] as int][c2],
        decreases nt - step,
    {
        // Candidates: the last refresh winner, then the triangles around the
        // frontier vertices.
        assert(forall|r: int| 0 <= r < tris@.len() ==> (tris@[r][0] as int) < vertex_count);
        let mut best: Option<usize> = match best_hint {
            Some(h) => if !emitted[h] { Some(h) } else { None },
            None => None,
        };
        let mut best_val: Option<S> = match best {
            Some(h) => Some(tri_score[h]),
            None => None,
        };
        let ghost hint0 = best;
        let front = recent_vertices(&order, tris, cache_size);
        proof {
            if step == 0 && front@.len() > 0 {
                assert(front@.contains(front@[0]));
            }
            if let Some(h) = best {
                let (c1, c2) = choose|c1: int, c2: int|
                    0 <= c1 < 3 && 0 <= c2 < 3 && #[trigger] tris@[h as int][c1] == #[trigger] tris@[order@[step - 1] as int][c2];
                let k = step - 1;
                assert(frontier_start(order@.len() as int, cache_size) <= k);
                assert(tris@[order@[k] as int][c2] as int == tris@[h as int][c1] as int);
                assert(in_frontier(order@, tris@, cache_size, tris@[h as int][c1] as int));
                assert(touches_frontier(tris@, cache_size, order@, h as int));
            }
        }
        let mut fi: usize = 0;
        while fi < front.len()
            invariant
                nt == tris@.len(),
                nt <= u32::MAX,
                inc.describes(tris@, vertex_count),
                emitted@.len() == nt,
                tri_score@.len() == nt,
                forall|x: usize| front@.contains(x) <==> in_frontier(order@, tris@, cache_size, x as int),
                forall|k: int| 0 <= k < order@.len() ==> #[trigger] order@[k] < nt,
                forall|r: int|
                    0 <= r < tris@.len() ==> (#[trigger] tris@[r][0] as int) < vertex_count
                        && (tris@[r][1] as int) < vertex_count && (tris@[r][2] as int) < vertex_count,
                forall|a: S, b: S| #[trigger] better.requires((a, b)),
                fi <= front@.len(),
                best matches Some(h) ==> h < nt && !emitted@[h as int],
                best is None <==> best_val is None,
                step == 0 ==> best is None,
                step == 0 ==> front@.len() == 0,
                vertex_count < usize::MAX,
                best matches Some(h) ==> touches_frontier(tris@, cache_size, order@, h as int),
                best is None ==> forall|q: int, t: int|
                    0 <= q < fi && 0 <= t < nt && #[trigger] uses_vertex(tris@[t], front@[q] as int) ==> emitted@[t],
                best matches Some(h) ==> best_val == Some(tri_score@[h as int]),
                hint0 is Some ==> best is Some,
                hint0 matches Some(h0) ==> h0 < nt,
                strict_order(better) && best is Some ==> (hint0 matches Some(h0) ==> !better.ensures(
                    (tri_score@[h0 as int], tri_score@[best->0 as int]),
                    true,
                )),
                strict_order(better) && best is Some ==> forall|q: int, t: int|
                    0 <= q < fi && 0 <= t < nt && !emitted@[t] && #[trigger] uses_vertex(tris@[t], front@[q] as int)
                        ==> !better.ensures((tri_score@[t], tri_score@[best->0 as int]), true),
            decreases front@.len() - fi,
        {
            let v = front[fi];
            proof {
                assert(front@.contains(v));
                let (k, c) = choose|k: int, c: int|
                    frontier_start(order@.len() as int, cache_size) <= k < order@.len() && 0 <= c < 3
                        && #[trigger] tris@[order@[k] as int][c] as int == v as int;
                assert(order@[k] < nt);
                assert((tris@[order@[k] as int][0] as int) < vertex_count);
                assert(v < vertex_count);
                inc.lemma_slice(tris@, vertex_count, v as int);
                inc.lemma_slice_members(tris@, vertex_count, v as int);
            }
            let hi = inc.offset[v + 1];
            let mut j = inc.offset[v];
            let ghost best0 = best;
            while j < hi
                invariant
                    nt == tris@.len(),
                    emitted@.len() == nt,
                    tri_score@.len() == nt,
                    hi <= inc.incident@.len(),
                    hi == inc.offset@[v as int + 1],
                    best0 is Some ==> best is Some,
                    forall|q: int| inc.offset@[v as int] <= q < hi ==> (#[trigger] inc.incident@[q] as int) < nt,
                    forall|q: int| inc.offset@[v as int] <= q < hi ==> uses_vertex(tris@[#[trigger] inc.incident@[q] as int], v as int),
                    in_frontier(order@, tris@, cache_size, v as int),
                    inc.offset@[v as int] <= j <= hi,
                    forall|a: S, b: S| #[trigger] better.requires((a, b)),
                    best matches Some(h) ==> h < nt && !emitted@[h as int],
                    best is None <==> best_val is None,
                    step > 0,
                    best matches Some(h) ==> touches_frontier(tris@, cache_size, order@, h as int),
                    best is None ==> forall|q: int| inc.offset@[v as int] <= q < j ==> emitted@[#[trigger] inc.incident@[q] as int],
                    best0 is None ==> forall|q: int, t: int|
                        0 <= q < fi && 0 <= t < nt && #[trigger] uses_vertex(tris@[t], front@[q] as int) ==> emitted@[t],
                    best matches Some(h) ==> best_val == Some(tri_score@[h as int]),
                    hint0 is Some ==> best0 is Some,
                    hint0 matches Some(h0) ==> h0 < nt,
                    strict_order(better) && best is Some ==> (hint0 matches Some(h0) ==> !better.ensures(
                        (tri_score@[h0 as int], tri_score@[best->0 as int]),
                        true,
                    )),
                    strict_order(better) && best is Some ==> forall|q: int, t: int|
                        0 <= q < fi && 0 <= t < nt && !emitted@[t] && #[trigger] uses_vertex(tris@[t], front@[q] as int)
                            ==> !better.ensures((tri_score@[t], tri_score@[best->0 as int]), true),
                    strict_order(better) && best is Some ==> forall|q: int|
                        inc.offset@[v as int] <= q < j && !emitted@[#[trigger] inc.incident@[q] as int]
                            ==> !better.ensures((tri_score@[inc.incident@[q] as int], tri_score@[best->0 as int]), true),
                    fi < front@.len(),
                    v == front@[fi as int],
                decreases hi - j,
            {
                let cand = inc.incident[j] as usize;
                let ghost ob = best;
                if !emitted[cand] {
                    let s = tri_score[cand];
                    let take = match best_val {
                        None => true,
                        Some(bv) => better(s, bv),
                    };
                    proof {
                        if let Some(o) = ob {
                            assert(best_val == Some(tri_score@[o as int]));
                            assert(better.ensures((s, tri_score@[o as int]), take));
                        }
                    }
                    if take {
                        best_val = Some(s);
                        best = Some(cand);
                        proof {
                            if strict_order(better) {
                                assert(!better.ensures((tri_score@[cand as int], tri_score@[cand as int]), true));
                                if let Some(o) = ob {
                                    assert(better.ensures((tri_score@[cand as int], tri_score@[o as int]), true));
                                    assert forall|x: int| 0 <= x < nt && !better.ensures((tri_score@[x], tri_score@[o as int]), true)
                                        implies !better.ensures((tri_score@[x], tri_score@[cand as int]), true) by {
                                        if better.ensures((tri_score@[x], tri_score@[cand as int]), true) {
                                            assert(better.ensures((tri_score@[x], tri_score@[o as int]), true));
                                        }
                                    }
                                }
                            }
                        }
                        proof {
                            assert(uses_vertex(tris@[cand as int], v as int));
                            let c: int = if tris@[cand as int][0] as int == v as int { 0 } else if tris@[cand as int][1] as int == v as int { 1 } else { 2 };
                            assert(in_frontier(order@, tris@, cache_size, tris@[cand as int][c] as int));
                        }
                    }
                }
                j = j + 1;
            }
            proof {
                inc.lemma_slice_members(tris@, vertex_count, v as int);
                if strict_order(better) && best is Some {
                    assert forall|q: int, t: int|
                        0 <= q < fi + 1 && 0 <= t < nt && !emitted@[t] && #[trigger] uses_vertex(tris@[t], front@[q] as int)
                            implies !better.ensures((tri_score@[t], tri_score@[best->0 as int]), true) by {
                        if q == fi as int {
                            let jj = choose|jj: int| inc.offset@[v as int] <= jj < inc.offset@[v as int + 1] && inc.incident@[jj] as int == t;
                            assert(!emitted@[inc.incident@[jj] as int]);
                        }
                    }
                }
                if best is None {
                    assert forall|q: int, t: int|
                        0 <= q < fi + 1 && 0 <= t < nt && #[trigger] uses_vertex(tris@[t], front@[q] as int) implies emitted@[t] by {
                        if q == fi as int {
                            let jj = choose|jj: int| inc.offset@[v as int] <= jj < inc.offset@[v as int + 1] && inc.incident@[jj] as int == t;
                            assert(emitted@[inc.incident@[jj] as int]);
                        }
                    }
                }
            }
            fi = fi + 1;
        }
        let ghost from_candidates = best is Some;
        let ghost table = tri_score@;
        proof {
            if strict_order(better) && best is Some {
                assert forall|t: int|
                    0 <= t < nt && !order@.contains(t as usize) && #[trigger] touches_frontier(tris@, cache_size, order@, t)
                        implies !better.ensures((table[t], table[best->0 as int]), true) by {
                    let c = choose|c: int| 0 <= c < 3 && #[trigger] in_frontier(order@, tris@, cache_size, tris@[t][c] as int);
                    let x = tris@[t][c];
                    assert(in_frontier(order@, tris@, cache_size, x as usize as int));
                    assert(front@.contains(x as usize));
                    let q = front@.index_of(x as usize);
                    assert(uses_vertex(tris@[t], front@[q] as int));
                    assert(!emitted@[t]) by {
                        if emitted@[t] {
                            assert(order@.contains(t as usize));
                        }
                    }
                }
            }
            if best is None {
                assert forall|t: int|
                    0 <= t < nt && !order@.contains(t as usize) implies !#[trigger] touches_frontier(tris@, cache_size, order@, t) by {
                    if touches_frontier(tris@, cache_size, order@, t) {
                        let c = choose|c: int| 0 <= c < 3 && #[trigger] in_frontier(order@, tris@, cache_size, tris@[t][c] as int);
                        let x = tris@[t][c];
                        assert(in_frontier(order@, tris@, cache_size, x as usize as int));
                        assert(front@.contains(x as usize));
                        let q = front@.index_of(x as usize);
                        assert(uses_vertex(tris@[t], front@[q] as int));
                        assert(emitted@[t]);
                    }
                }
            }
        }
        let chosen: usize = match best {
            Some(h) => h,
            None => {
                proof {
                    // Fewer than `nt` triangles are out, so one below `nt` is not.
                    if forall|w: usize| (w as int) < nt ==> #[trigger] order@.contains(w) {
                        crate::optimize::lemma_all_below_len(order@, nt as nat);
                    }
                }
                let ghost w = choose|w: usize| (w as int) < nt && !(#[trigger] order@.contains(w));
                assert(!emitted@[w as int]);
                while next_seed < nt && emitted[next_seed]
                    invariant
                        next_seed <= w < nt,
                        emitted@.len() == nt,
                        !emitted@[w as int],
                        forall|q: int| 0 <= q < next_seed ==> #[trigger] emitted@[q],
                    decreases nt - next_seed,
                {
                    next_seed = next_seed + 1;
                }
                next_seed
            },
        };
        proof {
            if step == 0 {
                assert(!order@.contains(0usize));
                assert(!emitted@[0]);
                assert(chosen == 0);
            }
        }
        assert(!order@.contains(chosen)) by {
            if order@.contains(chosen) {
                assert(emitted@[chosen as int]);
            }
        }
        let ghost before = order@;
        let ghost emitted_before = emitted@;
        emitted.set(chosen, true);
        order.push(chosen);
        proof {
            assert(before.push(chosen) == order@);
            assert(order@.take(step as int) =~= before);
            assert(!before.contains(chosen)) by {
                if before.contains(chosen) {
                    assert(emitted_before[chosen as int]);
                }
            }
            if from_candidates {
                assert(touches_frontier(tris@, cache_size, before, chosen as int));
            } else {
                assert forall|t: int| 0 <= t < chosen implies #[trigger] before.contains(t as usize) by {
                    assert(emitted_before[t]);
                }
            }
            assert(is_greedy_pick(tris@, cache_size, before, chosen as int));
            assert(order@.take(step as int) =~= before);
            assert(scored_step(score, better, tris@, vertex_count, cache_size, order@, table, step as int));
            tables = tables.push(table);
            assert forall|k: int| 0 <= k < order@.len() implies #[trigger] is_greedy_pick(
                tris@,
                cache_size,
                order@.take(k),
                order@[k] as int,
            ) by {
                if k < before.len() {
                    assert(order@.take(k) =~= before.take(k));
                    assert(order@[k] == before[k]);
                }
            }
            assert forall|k: int| 0 <= k < order@.len() implies #[trigger] scored_step(
                score,
                better,
                tris@,
                vertex_count,
                cache_size,
                order@,
                tables[k],
                k,
            ) by {
                if k < before.len() {
                    assert(order@.take(k) =~= before.take(k));
                    assert(order@[k] == before[k]);
                    assert(scored_step(score, better, tris@, vertex_count, cache_size, before, tables[k], k));
                }
            }
            assert(order@.no_duplicates()) by {
                assert forall|a: int, b: int| 0 <= a < b < order@.len() implies order@[a] != order@[b] by {
                    if b == order@.len() - 1 {
                        assert(before.contains(order@[a]));
                    } else {
                        assert(before[a] != before[b]);
                    }
                }
            }
            assert forall|q: int| 0 <= q < nt implies (#[trigger] emitted@[q] <==> order@.contains(q as usize)) by {
                if q == chosen as int {
                    assert(order@[order@.len() - 1] == chosen);
                } else {
                    if order@.contains(q as usize) {
                        let a = choose|a: int| 0 <= a < order@.len() && order@[a] == q as usize;
                        assert(a < before.len());
                        assert(before.contains(q as usize));
                    }
                    if before.contains(q as usize) {
                        let a = choose|a: int| 0 <= a < before.len() && before[a] == q as usize;
                        assert(order@[a] == q as usize);
                    }
                }
            }
        }
        // Spend the remaining valence and push the three corners.
        let t = tris[chosen];
        let ghost ec0 = emitted_corners(tris@, before);
        let ghost ts = seq![t[0], t[1], t[2]];
        proof {
            lemma_emitted_push(tris@, before, chosen);
            lemma_emitted_len(tris@, before);
            assert(emitted_corners(tris@, order@) == ec0 + ts);
            assert(ec0 + ts.take(0) =~= ec0);
        }
        let mut c: usize = 0;
        while c < 3
            invariant
                c <= 3,
                live@.len() == vertex_count,
                (t[0] as int) < vertex_count && (t[1] as int) < vertex_count && (t[2] as int) < vertex_count,
                ts == seq![t[0], t[1], t[2]],
                live@ == live_after(valences(tris@, vertex_count), ec0 + ts.take(c as int)),
            decreases 3 - c,
        {
            let x = t[c] as usize;
            proof {
                let nx = ec0 + ts.take(c + 1);
                assert(nx.drop_last() =~= ec0 + ts.take(c as int));
                assert(nx.last() == t[c as int]);
            }
            if live[x] > 0 {
                live.set(x, live[x] - 1);
            }
            c = c + 1;
        }
        proof {
            assert(ts.take(3) =~= ts);
            assert(ec0 + ts.take(0) =~= ec0);
        }
        c = 0;
        while c < 3
            invariant
                c <= 3,
                last_push@.len() == vertex_count,
                (t[0] as int) < vertex_count && (t[1] as int) < vertex_count && (t[2] as int) < vertex_count,
                ts == seq![t[0], t[1], t[2]],
                last_push@ == push_after(vertex_count as nat, ec0 + ts.take(c as int)),
                clock == clock_at((ec0.len() + c) as nat),
            decreases 3 - c,
        {
            proof {
                let nx = ec0 + ts.take(c + 1);
                assert(nx.drop_last() =~= ec0 + ts.take(c as int));
                assert(nx.last() == t[c as int]);
                assert(nx.len() == ec0.len() + c + 1);
                lemma_clock_tick((ec0.len() + c) as nat);
            }
            clock = clock.wrapping_add(1);
            last_push.set(t[c] as usize, clock);
            c = c + 1;
        }
        proof {
            assert(ts.take(3) =~= ts);
        }
        // Refresh the scores around the pushed corners; the best of them is
        // the next step's hint.
        let mut hint: Option<usize> = None;
        let mut hint_score: Option<S> = None;
        proof {
            assert(order@.drop_last() =~= before);
            assert forall|q: int|
                0 <= q < nt && !emitted@[q] implies #[trigger] cached_by(score, tris@, vertex_count, cache_size, order@, q, tri_score@[q])
                    || awaiting(tris@, t, q, 0) by {
                if !awaiting(tris@, t, q, 0) {
                    assert(!shares_corner(tris@[chosen as int], tris@[q]));
                    assert(emitted_before[q] == emitted@[q]);
                    assert(last_touch(tris@, order@, q) == last_touch(tris@, before, q));
                    let j = last_touch(tris@, before, q) as int;
                    lemma_last_touch_le(tris@, before, q);
                    assert(order@.take(j) =~= before.take(j));
                    assert(cached_by(score, tris@, vertex_count, cache_size, before, q, table[q]));
                }
            }
        }
        c = 0;
        while c < 3
            invariant
                c <= 3,
                nt == tris@.len(),
                nt <= u32::MAX,
                inc.describes(tris@, vertex_count),
                emitted@.len() == nt,
                tri_score@.len() == nt,
                (t[0] as int) < vertex_count && (t[1] as int) < vertex_count && (t[2] as int) < vertex_count,
                forall|t: [u32; 3], l: &Vec<u32>, p: &Vec<u32>, c: u32, z: usize| #[trigger] score.requires((t, l, p, c, z)),
                forall|a: S, b: S| #[trigger] better.requires((a, b)),
                hint matches Some(h) ==> h < nt,
                hint is None <==> hint_score is None,
                vertex_count < usize::MAX,
                hint matches Some(h) ==> exists|c1: int, c2: int|
                    0 <= c1 < 3 && 0 <= c2 < 3 && #[trigger] tris@[h as int][c1] == #[trigger] t[c2],
                order@.len() > 0,
                order@[order@.len() - 1] == chosen,
                chosen < nt,
                t == tris@[chosen as int],
                live@ == live_after(valences(tris@, vertex_count), emitted_corners(tris@, order@)),
                last_push@ == push_after(vertex_count as nat, emitted_corners(tris@, order@)),
                clock == clock_at(emitted_corners(tris@, order@).len()),
                forall|q: int|
                    0 <= q < nt && !emitted@[q] ==> #[trigger] cached_by(score, tris@, vertex_count, cache_size, order@, q, tri_score@[q])
                        || awaiting(tris@, t, q, c as int),
            decreases 3 - c,
        {
            let x = t[c] as usize;
            proof {
                inc.lemma_slice(tris@, vertex_count, x as int);
                inc.lemma_slice_members(tris@, vertex_count, x as int);
            }
            let hi = inc.offset[x + 1];
            let mut j = inc.offset[x];
            proof {
                assert(inc.incident@.subrange(inc.offset@[x as int] as int, j as int).len() == 0);
                assert forall|q: int|
                    0 <= q < nt && !emitted@[q] implies #[trigger] cached_by(score, tris@, vertex_count, cache_size, order@, q, tri_score@[q])
                        || (uses_vertex(tris@[q], x as int) && !inc.incident@.subrange(
                        inc.offset@[x as int] as int,
                        j as int,
                    ).contains(q as u32)) || awaiting(tris@, t, q, c + 1) by {}
            }
            while j < hi
                invariant
                    nt == tris@.len(),
                    emitted@.len() == nt,
                    tri_score@.len() == nt,
                    hi <= inc.incident@.len(),
                    hi == inc.offset@[x as int + 1],
                    inc.describes(tris@, vertex_count),
                    nt <= u32::MAX,
                    forall|q: int| inc.offset@[x as int] <= q < hi ==> (#[trigger] inc.incident@[q] as int) < nt,
                    inc.offset@[x as int] <= j <= hi,
                    forall|t: [u32; 3], l: &Vec<u32>, p: &Vec<u32>, c: u32, z: usize| #[trigger] score.requires((t, l, p, c, z)),
                    forall|a: S, b: S| #[trigger] better.requires((a, b)),
                    hint matches Some(h) ==> h < nt,
                    hint is None <==> hint_score is None,
                    c < 3,
                    x == t[c as int] as usize,
                    forall|q: int| inc.offset@[x as int] <= q < hi ==> uses_vertex(tris@[#[trigger] inc.incident@[q] as int], x as int),
                    hint matches Some(h) ==> exists|c1: int, c2: int|
                        0 <= c1 < 3 && 0 <= c2 < 3 && #[trigger] tris@[h as int][c1] == #[trigger] t[c2],
                    order@.len() > 0,
                    order@[order@.len() - 1] == chosen,
                    chosen < nt,
                    t == tris@[chosen as int],
                    live@ == live_after(valences(tris@, vertex_count), emitted_corners(tris@, order@)),
                    last_push@ == push_after(vertex_count as nat, emitted_corners(tris@, order@)),
                    clock == clock_at(emitted_corners(tris@, order@).len()),
                    forall|q: int|
                        0 <= q < nt && !emitted@[q] ==> #[trigger] cached_by(score, tris@, vertex_count, cache_size, order@, q, tri_score@[q])
                            || (uses_vertex(tris@[q], x as int) && !inc.incident@.subrange(
                            inc.offset@[x as int] as int,
                            j as int,
                        ).contains(q as u32)) || awaiting(tris@, t, q, c + 1),
                decreases hi - j,
            {
                let other = inc.incident[j] as usize;
                let ghost ts_before = tri_score@;
                if !emitted[other] {
                    let s = score(tris[other], &live, &last_push, clock, cache_size);
                    proof {
                        assert(uses_vertex(tris@[inc.incident@[j as int] as int], x as int));
                        assert(shares_corner(tris@[chosen as int], tris@[other as int]));
                        assert(order@.drop_last().push(chosen) =~= order@);
                        assert(last_touch(tris@, order@, other as int) == order@.len());
                        assert(order@.take(order@.len() as int) =~= order@);
                        assert(score.ensures(
                            (tris@[other as int], &live, &last_push, clock_at(emitted_corners(tris@, order@).len()), cache_size),
                            s,
                        ));
                        assert(cached_by(score, tris@, vertex_count, cache_size, order@, other as int, s));
                    }
                    tri_score.set(other, s);
                    let take = match hint_score {
                        None => true,
                        Some(hs) => better(s, hs),
                    };
                    if take {
                        hint_score = Some(s);
                        hint = Some(other);
                        proof {
                            assert(uses_vertex(tris@[inc.incident@[j as int] as int], x as int));
                            assert(other as int == inc.incident@[j as int] as int);
                            let c1: int = if tris@[other as int][0] as int == x as int { 0 } else if tris@[other as int][1] as int == x as int { 1 } else { 2 };
                            let c2: int = c as int;
                            assert(tris@[other as int][c1] == t[c2]);
                            assert(0 <= c1 < 3 && 0 <= c2 < 3);
                        }
                    }
                }
                proof {
                    if let Some(h) = hint {
                        assert(exists|c1: int, c2: int|
                            0 <= c1 < 3 && 0 <= c2 < 3 && #[trigger] tris@[h as int][c1] == #[trigger] t[c2]);
                    }
                }
                proof {
                    assert(!emitted@[other as int] ==> cached_by(score, tris@, vertex_count, cache_size, order@, other as int, tri_score@[other as int]));
                    let sub0 = inc.incident@.subrange(inc.offset@[x as int] as int, j as int);
                    let sub1 = inc.incident@.subrange(inc.offset@[x as int] as int, j + 1);
                    assert(sub1 =~= sub0.push(other as u32));
                    assert forall|q: int|
                        0 <= q < nt && !emitted@[q] implies #[trigger] cached_by(score, tris@, vertex_count, cache_size, order@, q, tri_score@[q])
                            || (uses_vertex(tris@[q], x as int) && !sub1.contains(q as u32)) || awaiting(tris@, t, q, c + 1) by {
                        if q != other as int {
                            assert(tri_score@[q] == ts_before[q]);
                            if sub0.contains(q as u32) {
                                let kk = choose|kk: int| 0 <= kk < sub0.len() && sub0[kk] == q as u32;
                                assert(sub1[kk] == q as u32);
                            }
                            if sub1.contains(q as u32) {
                                let kk = choose|kk: int| 0 <= kk < sub1.len() && sub1[kk] == q as u32;
                                if kk < sub0.len() {
                                    assert(sub0[kk] == q as u32);
                                } else {
                                    assert(sub1[kk] == other as u32);
                                }
                            }
                        } else {
                            assert(cached_by(score, tris@, vertex_count, cache_size, order@, other as int, tri_score@[other as int]));
                        }
                    }
                }
                j = j + 1;
            }
            proof {
                inc.lemma_slice_members(tris@, vertex_count, x as int);
                let sub = inc.incident@.subrange(inc.offset@[x as int] as int, hi as int);
                assert forall|q: int|
                    0 <= q < nt && !emitted@[q] implies #[trigger] cached_by(score, tris@, vertex_count, cache_size, order@, q, tri_score@[q])
                        || awaiting(tris@, t, q, c + 1) by {
                    if uses_vertex(tris@[q], x as int) {
                        let jj = choose|jj: int| inc.offset@[x as int] <= jj < inc.offset@[x as int + 1] && inc.incident@[jj] as int == q;
                        assert(sub[jj - inc.offset@[x as int]] == q as u32);
                        assert(sub.contains(q as u32));
                    }
                }
            }
            c = c + 1;
        }
        best_hint = hint;
        step = step + 1;
        proof {
            if let Some(h) = best_hint {
                let (c1, c2) = choose|c1: int, c2: int|
                    0 <= c1 < 3 && 0 <= c2 < 3 && #[trigger] tris@[h as int][c1] == #[trigger] t[c2];
                assert(order@[step - 1] == chosen);
                assert(tris@[order@[step - 1] as int][c2] == t[c2]);
            }
        }
    }
    order
}

/// Simulated cache size the reordering scores against by default.
pub const DEFAULT_CACHE_SIZE: usize = 32;

/// The cache size the reordering scores against: at least 3.
pub open spec fn scoring_cache_size(cache_size: usize) -> usize {
    if cache_size < 3 {
        3
    } else {
        cache_size
    }
}

/// `order` lists each of the positions `0..n` exactly once.
pub open spec fn is_permutation(order: Seq<usize>, n: nat) -> bool {
    &&& order.len() == n
    &&& order.no_duplicates()
    &&& forall|k: int| 0 <= k < order.len() ==> #[trigger] order[k] < n
}

/// `tris` re-emitted in the given triangle order.
pub open spec fn reordered(tris: Seq<[u32; 3]>, order: Seq<usize>) -> Seq<[u32; 3]> {
    Seq::new(order.len(), |k: int| tris[order[k] as int])
}

impl Connectivity {
    /// Reorder the triangles for the post-transform vertex cache, scoring
    /// against a simulated cache of `cache_size` entries (at least 3).
    ///
    /// A non-triangle topology is left alone (`None`). Otherwise the
    /// result is a `Triangles` connectivity over the same pool: the
    /// de-stripped triangles whose corners lie inside the pool and are
    /// pairwise distinct (degenerate and out-of-range triangles are
    /// dropped), in the order of [`greedy_cache_order`] (so the first one keeps its place),
    /// packed in the narrowest index width. With no such triangle the
    /// index buffer is an empty `U32` list.
    pub fn optimize_vertex_cache_sized<S: Copy>(
        &self,
        cache_size: usize,
        score: impl Fn([u32; 3], &Vec<u32>, &Vec<u32>, u32, usize) -> S,
        better: impl Fn(S, S) -> bool,
    ) -> (r: Option<Connectivity>)
        requires
            self.vertex_count <= u32::MAX,
            self.vertex_count < usize::MAX,
            self.triangles().len() <= u32::MAX,
            3 * self.triangles().len() <= usize::MAX,
            forall|t: [u32; 3], l: &Vec<u32>, p: &Vec<u32>, c: u32, z: usize| #[trigger] score.requires((t, l, p, c, z)),
            forall|a: S, b: S| #[trigger] better.requires((a, b)),
        ensures
            r is None <==> !self.topology.spec_is_triangle(),
            r matches Some(out) ==> {
                let tris = tris_drawable(self.triangles(), self.vertex_count);
                &&& out.topology == Topology::Triangles
                &&& out.vertex_count == self.vertex_count
                &&& tris.len() == 0 ==> (out.indices matches Some(Indices::U32(v)) && v@.len() == 0)
                &&& tris.len() > 0 ==> exists|order: Seq<usize>|
                    #![trigger reordered(tris, order)]
                    is_permutation(order, tris.len()) && order[0] == 0
                        && (forall|k: int| 0 <= k < order.len() ==> #[trigger] is_greedy_pick(
                        tris,
                        scoring_cache_size(cache_size),
                        order.take(k),
                        order[k] as int,
                    )) && (exists|tables: Seq<Seq<S>>|
                        tables.len() == order.len() && forall|k: int|
                            0 <= k < order.len() ==> #[trigger] scored_step(score, better, tris, self.vertex_count, scoring_cache_size(cache_size), order, tables[k], k))
                        && (out.indices matches Some(ix) && is_packed(ix, flatten(reordered(tris, order)), self.vertex_count))
            },
    {
        if !self.topology.is_triangle() {
            return None;
        }
        let size: usize = if cache_size < 3 { 3 } else { cache_size };
        let tris = drawable_triangles(self);
        let ghost want = tris_drawable(self.triangles(), self.vertex_count);
        proof {
            let pred = |t: [u32; 3]| face_ok(t, self.vertex_count);
            self.triangles().lemma_filter_len(pred);
            assert forall|q: int| 0 <= q < tris@.len() implies (#[trigger] tris@[q][0] as int) < self.vertex_count
                && (tris@[q][1] as int) < self.vertex_count && (tris@[q][2] as int) < self.vertex_count by {
                self.triangles().lemma_filter_pred(pred, q);
            }
            assert forall|q: int| 0 <= q < tris@.len() implies #[trigger] tris@[q][0] != tris@[q][1] && tris@[q][1]
                != tris@[q][2] && tris@[q][0] != tris@[q][2] by {
                self.triangles().lemma_filter_pred(pred, q);
            }
            assert forall|v: int| 0 <= v < self.vertex_count implies #[trigger] corner_count(tris@, tris@.len() as int, v)
                <= u32::MAX by {
                lemma_distinct_corner_count(tris@, tris@.len() as int, v);
            }
            assert(valence_fits(tris@, self.vertex_count));
        }
        if tris.len() == 0 {
            return Some(Connectivity {
                topology: Topology::Triangles,
                indices: Some(Indices::U32(Vec::new())),
                vertex_count: self.vertex_count,
            });
        }
        let order = greedy_cache_order(&tris, self.vertex_count, size, score, better);
        let out = apply_triangle_order(&tris, &order, self.vertex_count);
        proof {
            assert(reordered(want, order@) =~= Seq::new(order@.len(), |k: int| tris@[order@[k] as int]));
        }
        Some(out)
    }

    /// [`Connectivity::optimize_vertex_cache_sized`] at the reference size
    /// [`DEFAULT_CACHE_SIZE`].
    pub fn optimize_vertex_cache<S: Copy>(
        &self,
        score: impl Fn([u32; 3], &Vec<u32>, &Vec<u32>, u32, usize) -> S,
        better: impl Fn(S, S) -> bool,
    ) -> (r: Option<Connectivity>)
        requires
            self.vertex_count <= u32::MAX,
            self.vertex_count < usize::MAX,
            self.triangles().len() <= u32::MAX,
            3 * self.triangles().len() <= usize::MAX,
            forall|t: [u32; 3], l: &Vec<u32>, p: &Vec<u32>, c: u32, z: usize| #[trigger] score.requires((t, l, p, c, z)),
            forall|a: S, b: S| #[trigger] better.requires((a, b)),
        ensures
            r is None <==> !self.topology.spec_is_triangle(),
            r matches Some(out) ==> {
                let tris = tris_drawable(self.triangles(), self.vertex_count);
                &&& out.topology == Topology::Triangles
                &&& out.vertex_count == self.vertex_count
                &&& tris.len() == 0 ==> (out.indices matches Some(Indices::U32(v)) && v@.len() == 0)
                &&& tris.len() > 0 ==> exists|order: Seq<usize>|
                    #![trigger reordered(tris, order)]
                    is_permutation(order, tris.len()) && order[0] == 0
                        && (forall|k: int| 0 <= k < order.len() ==> #[trigger] is_greedy_pick(
                        tris,
                        DEFAULT_CACHE_SIZE,
                        order.take(k),
                        order[k] as int,
                    )) && (exists|tables: Seq<Seq<S>>|
                        tables.len() == order.len() && forall|k: int|
                            0 <= k < order.len() ==> #[trigger] scored_step(score, better, tris, self.vertex_count, DEFAULT_CACHE_SIZE, order, tables[k], k))
                        && (out.indices matches Some(ix) && is_packed(ix, flatten(reordered(tris, order)), self.vertex_count))
            },
    {
        assert(scoring_cache_size(DEFAULT_CACHE_SIZE) == DEFAULT_CACHE_SIZE);
        self.optimize_vertex_cache_sized(DEFAULT_CACHE_SIZE, score, better)
    }
}

} // verus!
