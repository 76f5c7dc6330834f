//! Primitive concatenation: the vertex pools of several primitives laid
//! end to end, their triangles re-based onto the combined pool, and the
//! per-vertex buffers kept aligned by padding or truncation.
use vstd::prelude::*;
use crate::ids::MaterialId;
use crate::mesh::{flatten, flatten_triangles, Connectivity, Indices, Topology};
use crate::optimize::{cache_order_triangles, tris_in_range};

verus! {

/// `src` cut or padded to exactly `vcount` rows: its first
/// `min(src.len(), vcount)` rows, then `fill` for the rest.
pub open spec fn fitted<T>(src: Seq<T>, vcount: nat, fill: T) -> Seq<T> {
    let take = if src.len() < vcount { src.len() } else { vcount };
    src.take(take as int) + Seq::new((vcount - take) as nat, |i: int| fill)
}

/// Append `src` to `dst`, padding with `fill` if `src` is shorter than
/// `vcount` and truncating if it is longer, so that exactly `vcount` rows
/// are added and every per-vertex buffer stays aligned with the pool.
pub fn append_or_fill<T: Copy>(dst: &mut Vec<T>, src: &Vec<T>, vcount: usize, fill: T)
    ensures
        final(dst)@ == old(dst)@ + fitted(src@, vcount as nat, fill),
{
    let take = if src.len() < vcount { src.len() } else { vcount };
    let ghost base = dst@;
    let mut i: usize = 0;
    while i < take
        invariant
            take <= src@.len(),
            take <= vcount,
            i <= take,
            dst@ == base + src@.take(i as int),
        decreases take - i,
    {
        dst.push(src[i]);
        assert(dst@ =~= base + src@.take(i + 1));
        i = i + 1;
    }
    let ghost mid = dst@;
    let mut k: usize = take;
    while k < vcount
        invariant
            take <= k <= vcount,
            dst@ == mid + Seq::new((k - take) as nat, |q: int| fill),
        decreases vcount - k,
    {
        dst.push(fill);
        assert(dst@ =~= mid + Seq::new((k + 1 - take) as nat, |q: int| fill));
        k = k + 1;
    }
    assert(dst@ =~= base + fitted(src@, vcount as nat, fill));
}

/// Total vertex count of `parts[..k]`: where part `k`'s pool starts in the
/// combined pool.
pub open spec fn pool_base(parts: Seq<Connectivity>, k: int) -> nat
    decreases k,
{
    if k <= 0 {
        0
    } else {
        pool_base(parts, k - 1) + parts[k - 1].vertex_count as nat
    }
}

/// The in-range triangles of `c`, moved up by `base`.
pub open spec fn rebased(c: Connectivity, base: nat) -> Seq<[u32; 3]> {
    tris_in_range(c.triangles(), c.vertex_count).map_values(
        |t: [u32; 3]| [(t[0] + base) as u32, (t[1] + base) as u32, (t[2] + base) as u32],
    )
}

/// The triangles of `parts[..k]`, each part's in-range triangles moved up
/// to where its pool starts.
pub open spec fn merged_triangles(parts: Seq<Connectivity>, k: int) -> Seq<[u32; 3]>
    decreases k,
{
    if k <= 0 {
        Seq::empty()
    } else {
        merged_triangles(parts, k - 1) + rebased(parts[k - 1], pool_base(parts, k - 1))
    }
}

proof fn lemma_pool_base_mono(parts: Seq<Connectivity>, a: int, b: int)
    requires
        0 <= a <= b,
    ensures
        pool_base(parts, a) <= pool_base(parts, b),
    decreases b - a,
{
    if a < b {
        lemma_pool_base_mono(parts, a, b - 1);
    }
}

/// Concatenate the connectivity of `parts` into one `Triangles`
/// connectivity with a `U32` index buffer over the combined pool: each
/// part's triangles with a corner outside its own pool are dropped, the
/// rest are moved up to where that part's vertices start. Non-triangle
/// parts add vertices but no triangles.
pub fn merge_connectivity(parts: &Vec<Connectivity>) -> (out: Connectivity)
    requires
        pool_base(parts@, parts@.len() as int) <= u32::MAX,
        3 * merged_triangles(parts@, parts@.len() as int).len() <= usize::MAX,
    ensures
        out.topology == Topology::Triangles,
        out.vertex_count == pool_base(parts@, parts@.len() as int),
        out.indices matches Some(Indices::U32(v)) && v@ == flatten(merged_triangles(parts@, parts@.len() as int)),
{
    let ghost total = pool_base(parts@, parts@.len() as int);
    let mut tris: Vec<[u32; 3]> = Vec::new();
    let mut base: usize = 0;
    let mut k: usize = 0;
    while k < parts.len()
        invariant
            k <= parts@.len(),
            total == pool_base(parts@, parts@.len() as int),
            total <= u32::MAX,
            base == pool_base(parts@, k as int),
            tris@ == merged_triangles(parts@, k as int),
        decreases parts@.len() - k,
    {
        let p = &parts[k];
        proof {
            lemma_pool_base_mono(parts@, k + 1, parts@.len() as int);
        }
        let own = cache_order_triangles(p);
        let ghost before = tris@;
        let mut i: usize = 0;
        while i < own.len()
            invariant
                k < parts@.len(),
                *p == parts@[k as int],
                base == pool_base(parts@, k as int),
                base + p.vertex_count <= u32::MAX,
                own@ == tris_in_range(p.triangles(), p.vertex_count),
                i <= own@.len(),
                tris@ == before + rebased(*p, base as nat).take(i as int),
            decreases own@.len() - i,
        {
            let t = own[i];
            proof {
                let pred = |t: [u32; 3]| (t[0] as int) < p.vertex_count && (t[1] as int) < p.vertex_count
                    && (t[2] as int) < p.vertex_count;
                p.triangles().lemma_filter_pred(pred, i as int);
            }
            let b = base as u32;
            tris.push([b + t[0], b + t[1], b + t[2]]);
            proof {
                assert(tris@ =~= before + rebased(*p, base as nat).take(i + 1));
            }
            i = i + 1;
        }
        proof {
            assert(rebased(*p, base as nat).take(own@.len() as int) =~= rebased(*p, base as nat));
        }
        base = base + p.vertex_count;
        k = k + 1;
    }
    let flat = flatten_triangles(&tris);
    Connectivity { topology: Topology::Triangles, indices: Some(Indices::U32(flat)), vertex_count: base }
}

/// Item `i` sits in one of the groups.
pub open spec fn grouped(groups: Seq<Vec<usize>>, i: int) -> bool {
    exists|g: int, m: int| 0 <= g < groups.len() && 0 <= m < groups[g]@.len() && #[trigger] groups[g]@[m] == i as usize
}

/// Partition items into groups by key, groups in order of first
/// appearance, each group's members in source order: the material
/// grouping of a mesh's primitives.
pub fn group_by_material(keys: &Vec<Option<MaterialId>>) -> (groups: Vec<Vec<usize>>)
    ensures
        forall|g: int| 0 <= g < groups@.len() ==> #[trigger] groups@[g]@.len() > 0,
        forall|g: int, m: int|
            0 <= g < groups@.len() && 0 <= m < groups@[g]@.len() ==> (#[trigger] groups@[g]@[m] as int) < keys@.len()
                && keys@[groups@[g]@[m] as int] == keys@[groups@[g]@[0] as int],
        forall|g: int, h: int|
            0 <= g < h < groups@.len() ==> keys@[groups@[g]@[0] as int] != keys@[groups@[h]@[0] as int]
                && groups@[g]@[0] < groups@[h]@[0],
        forall|g: int, a: int, b: int|
            0 <= g < groups@.len() && 0 <= a < b < groups@[g]@.len() ==> groups@[g]@[a] < groups@[g]@[b],
        forall|i: int| 0 <= i < keys@.len() ==> #[trigger] grouped(groups@, i),
{
    let mut groups: Vec<Vec<usize>> = Vec::new();
    let mut i: usize = 0;
    while i < keys.len()
        invariant
            i <= keys@.len(),
            forall|g: int| 0 <= g < groups@.len() ==> #[trigger] groups@[g]@.len() > 0,
            forall|g: int, m: int|
                0 <= g < groups@.len() && 0 <= m < groups@[g]@.len() ==> (#[trigger] groups@[g]@[m] as int) < i
                    && keys@[groups@[g]@[m] as int] == keys@[groups@[g]@[0] as int],
            forall|g: int, h: int|
                0 <= g < h < groups@.len() ==> keys@[groups@[g]@[0] as int] != keys@[groups@[h]@[0] as int]
                    && groups@[g]@[0] < groups@[h]@[0],
            forall|g: int, a: int, b: int|
                0 <= g < groups@.len() && 0 <= a < b < groups@[g]@.len() ==> groups@[g]@[a] < groups@[g]@[b],
            forall|q: int| 0 <= q < i ==> #[trigger] grouped(groups@, q),
        decreases keys@.len() - i,
    {
        let key = keys[i];
        let mut g: usize = 0;
        let mut found = false;
        while g < groups.len()
            invariant
                g <= groups@.len(),
                i < keys@.len(),
                key == keys@[i as int],
                forall|x: int| 0 <= x < groups@.len() ==> #[trigger] groups@[x]@.len() > 0,
                !found ==> forall|x: int| 0 <= x < g ==> keys@[#[trigger] groups@[x]@[0] as int] != key,
                found ==> g < groups@.len() && keys@[groups@[g as int]@[0] as int] == key,
                forall|x: int, m: int|
                    0 <= x < groups@.len() && 0 <= m < groups@[x]@.len() ==> (#[trigger] groups@[x]@[m] as int) < i,
            ensures
                found ==> g < groups@.len() && keys@[groups@[g as int]@[0] as int] == key,
                !found ==> forall|x: int| 0 <= x < groups@.len() ==> keys@[#[trigger] groups@[x]@[0] as int] != key,
            decreases groups@.len() - g + (if found { 0int } else { 1int }),
        {
            let first = groups[g][0];
            proof {
                assert(groups@[g as int]@.len() > 0);
            }
            if same_material(keys[first], key) {
                found = true;
                break;
            }
            g = g + 1;
        }
        let ghost old_groups = groups@;
        if found {
            let mut grp = copy_group(&groups[g]);
            grp.push(i);
            groups.set(g, grp);
            proof {
                assert forall|x: int, m: int|
                    0 <= x < groups@.len() && 0 <= m < groups@[x]@.len() implies (#[trigger] groups@[x]@[m] as int) < i + 1
                        && keys@[groups@[x]@[m] as int] == keys@[groups@[x]@[0] as int] by {
                    if x != g as int {
                        assert(groups@[x] == old_groups[x]);
                    }
                }
                assert forall|q: int| 0 <= q < i + 1 implies #[trigger] grouped(groups@, q) by {
                    if q == i as int {
                        assert(groups@[g as int]@[groups@[g as int]@.len() - 1] == q as usize);
                    } else {
                        assert(grouped(old_groups, q));
                        let (x, m) = choose|x: int, m: int|
                            0 <= x < old_groups.len() && 0 <= m < old_groups[x]@.len() && #[trigger] old_groups[x]@[m] == q as usize;
                        if x == g as int {
                            assert(groups@[x]@[m] == q as usize);
                        } else {
                            assert(groups@[x] == old_groups[x]);
                        }
                    }
                }
                assert forall|x: int, a: int, b: int|
                    0 <= x < groups@.len() && 0 <= a < b < groups@[x]@.len() implies groups@[x]@[a] < groups@[x]@[b] by {
                    if x != g as int {
                        assert(groups@[x] == old_groups[x]);
                    } else if b == groups@[x]@.len() - 1 {
                        assert((old_groups[x]@[a] as int) < i);
                    }
                }
                assert forall|x: int, h: int| 0 <= x < h < groups@.len() implies keys@[groups@[x]@[0] as int]
                    != keys@[groups@[h]@[0] as int] && groups@[x]@[0] < groups@[h]@[0] by {
                    assert(groups@[x]@[0] == old_groups[x]@[0]);
                    assert(groups@[h]@[0] == old_groups[h]@[0]);
                }
            }
        } else {
            let mut grp: Vec<usize> = Vec::new();
            grp.push(i);
            groups.push(grp);
            proof {
                assert forall|x: int, m: int|
                    0 <= x < groups@.len() && 0 <= m < groups@[x]@.len() implies (#[trigger] groups@[x]@[m] as int) < i + 1
                        && keys@[groups@[x]@[m] as int] == keys@[groups@[x]@[0] as int] by {
                    if x < old_groups.len() {
                        assert(groups@[x] == old_groups[x]);
                    }
                }
                assert forall|q: int| 0 <= q < i + 1 implies #[trigger] grouped(groups@, q) by {
                    if q == i as int {
                        assert(groups@[old_groups.len() as int]@[0] == q as usize);
                    } else {
                        assert(grouped(old_groups, q));
                        let (x, m) = choose|x: int, m: int|
                            0 <= x < old_groups.len() && 0 <= m < old_groups[x]@.len() && #[trigger] old_groups[x]@[m] == q as usize;
                        assert(groups@[x] == old_groups[x]);
                    }
                }
                assert forall|x: int, a: int, b: int|
                    0 <= x < groups@.len() && 0 <= a < b < groups@[x]@.len() implies groups@[x]@[a] < groups@[x]@[b] by {
                    if x < old_groups.len() {
                        assert(groups@[x] == old_groups[x]);
                    }
                }
                assert forall|x: int, h: int| 0 <= x < h < groups@.len() implies keys@[groups@[x]@[0] as int]
                    != keys@[groups@[h]@[0] as int] && groups@[x]@[0] < groups@[h]@[0] by {
                    assert(groups@[x] == old_groups[x]);
                    if h < old_groups.len() {
                        assert(groups@[h] == old_groups[h]);
                    } else {
                        assert((old_groups[x]@[0] as int) < i);
                    }
                }
            }
        }
        i = i + 1;
    }
    groups
}

fn same_material(a: Option<MaterialId>, b: Option<MaterialId>) -> (r: bool)
    ensures
        r == (a == b),
{
    match (a, b) {
        (Some(x), Some(y)) => x.0 == y.0,
        (None, None) => true,
        _ => false,
    }
}

fn copy_group(v: &Vec<usize>) -> (r: Vec<usize>)
    ensures
        r@ == v@,
{
    let mut r: Vec<usize> = Vec::new();
    let mut i: usize = 0;
    while i < v.len()
        invariant
            i <= v@.len(),
            r@ == v@.take(i as int),
        decreases v@.len() - i,
    {
        r.push(v[i]);
        assert(r@ =~= v@.take(i + 1));
        i = i + 1;
    }
    assert(v@.take(v@.len() as int) =~= v@);
    r
}

/// Which optional per-vertex buffers a primitive carries, and how many UV
/// and colour sets.
#[derive(Clone, Copy, Debug, PartialEq, Eq, Structural)]
pub struct AttributeShape {
    pub normals: bool,
    pub tangents: bool,
    pub joints: bool,
    pub weights: bool,
    pub uv_sets: usize,
    pub color_sets: usize,
}

/// The buffers a merge of primitives of the given shapes carries: an
/// optional buffer when any input has it, the largest set counts.
pub open spec fn is_union_shape(u: AttributeShape, shapes: Seq<AttributeShape>) -> bool {
    &&& u.normals == exists|i: int| 0 <= i < shapes.len() && (#[trigger] shapes[i]).normals
    &&& u.tangents == exists|i: int| 0 <= i < shapes.len() && (#[trigger] shapes[i]).tangents
    &&& u.joints == exists|i: int| 0 <= i < shapes.len() && (#[trigger] shapes[i]).joints
    &&& u.weights == exists|i: int| 0 <= i < shapes.len() && (#[trigger] shapes[i]).weights
    &&& forall|i: int| 0 <= i < shapes.len() ==> (#[trigger] shapes[i]).uv_sets <= u.uv_sets && shapes[i].color_sets <= u.color_sets
    &&& (u.uv_sets == 0 || exists|i: int| 0 <= i < shapes.len() && (#[trigger] shapes[i]).uv_sets == u.uv_sets)
    &&& (u.color_sets == 0 || exists|i: int| 0 <= i < shapes.len() && (#[trigger] shapes[i]).color_sets == u.color_sets)
}

/// Union of attribute shapes: what [`merge_connectivity`]'s companion
/// buffers must hold so every input's data has a slot.
pub fn union_shape(shapes: &Vec<AttributeShape>) -> (u: AttributeShape)
    ensures
        is_union_shape(u, shapes@),
{
    let mut u = AttributeShape { normals: false, tangents: false, joints: false, weights: false, uv_sets: 0, color_sets: 0 };
    let mut i: usize = 0;
    while i < shapes.len()
        invariant
            i <= shapes@.len(),
            is_union_shape(u, shapes@.take(i as int)),
        decreases shapes@.len() - i,
    {
        let s = shapes[i];
        let ghost pre = shapes@.take(i as int);
        let ghost cur = shapes@.take(i + 1);
        let ghost old_u = u;
        u.normals = u.normals || s.normals;
        u.tangents = u.tangents || s.tangents;
        u.joints = u.joints || s.joints;
        u.weights = u.weights || s.weights;
        if s.uv_sets > u.uv_sets {
            u.uv_sets = s.uv_sets;
        }
        if s.color_sets > u.color_sets {
            u.color_sets = s.color_sets;
        }
        proof {
            assert(cur.len() == pre.len() + 1);
            assert forall|k: int| 0 <= k < pre.len() implies #[trigger] cur[k] == pre[k] by {}
            assert(cur[i as int] == s);
            if old_u.normals {
                let k = choose|k: int| 0 <= k < pre.len() && (#[trigger] pre[k]).normals;
                assert(cur[k].normals);
            }
            if old_u.tangents {
                let k = choose|k: int| 0 <= k < pre.len() && (#[trigger] pre[k]).tangents;
                assert(cur[k].tangents);
            }
            if old_u.joints {
                let k = choose|k: int| 0 <= k < pre.len() && (#[trigger] pre[k]).joints;
                assert(cur[k].joints);
            }
            if old_u.weights {
                let k = choose|k: int| 0 <= k < pre.len() && (#[trigger] pre[k]).weights;
                assert(cur[k].weights);
            }
            if u.uv_sets != 0 && u.uv_sets == old_u.uv_sets {
                let k = choose|k: int| 0 <= k < pre.len() && (#[trigger] pre[k]).uv_sets == old_u.uv_sets;
                assert(cur[k].uv_sets == u.uv_sets);
            }
            if u.color_sets != 0 && u.color_sets == old_u.color_sets {
                let k = choose|k: int| 0 <= k < pre.len() && (#[trigger] pre[k]).color_sets == old_u.color_sets;
                assert(cur[k].color_sets == u.color_sets);
            }
            assert forall|k: int| 0 <= k < cur.len() implies (#[trigger] cur[k]).uv_sets <= u.uv_sets && cur[k].color_sets
                <= u.color_sets by {
                if k < pre.len() {
                    assert(pre[k].uv_sets <= old_u.uv_sets);
                }
            }
        }
        i = i + 1;
    }
    assert(shapes@.take(shapes@.len() as int) =~= shapes@);
    u
}

} // verus!
