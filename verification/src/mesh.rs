//! Index buffers, primitive topology, and the de-stripping of a
//! primitive's connectivity into a flat triangle list.
use vstd::prelude::*;

verus! {

/// How the vertex buffer is interpreted as primitives.
#[derive(Clone, Copy, Debug, PartialEq, Eq, Structural)]
pub enum Topology {
    /// Disjoint triangles — every 3 vertices form one triangle.
    Triangles,
    /// `(0,1,2), (1,2,3), (2,3,4), …` (alternating winding).
    TriangleStrip,
    /// `(0,1,2), (0,2,3), (0,3,4), …` (shared anchor).
    TriangleFan,
    /// Disjoint line segments — every 2 vertices form one segment.
    Lines,
    /// `(0,1), (1,2), (2,3), …`.
    LineStrip,
    /// LineStrip closed back to vertex 0.
    LineLoop,
    /// One point per vertex.
    Points,
}

impl Topology {
    /// `true` for the three triangle-producing topologies.
    pub open spec fn spec_is_triangle(self) -> bool {
        self == Topology::Triangles || self == Topology::TriangleStrip || self
            == Topology::TriangleFan
    }

    /// `true` for the three triangle-producing topologies.
    pub fn is_triangle(&self) -> (r: bool)
        ensures
            r == self.spec_is_triangle(),
    {
        match self {
            Topology::Triangles | Topology::TriangleStrip | Topology::TriangleFan => true,
            _ => false,
        }
    }
}

/// Index buffer payload. `U16` is glTF's default for compactness;
/// formats with more than 65 536 vertices per primitive promote to `U32`.
#[derive(Clone, Debug, PartialEq, Eq)]
pub enum Indices {
    U16(Vec<u16>),
    U32(Vec<u32>),
}

/// Widen a `u16` index sequence to `u32`.
pub open spec fn widen16(s: Seq<u16>) -> Seq<u32> {
    Seq::new(s.len(), |i: int| s[i] as u32)
}

impl View for Indices {
    /// The stored indices, widened to `u32`.
    type V = Seq<u32>;

    open spec fn view(&self) -> Seq<u32> {
        match self {
            Indices::U16(v) => widen16(v@),
            Indices::U32(v) => v@,
        }
    }
}

impl Indices {
    /// Number of indices, regardless of width.
    pub fn len(&self) -> (n: usize)
        ensures
            n == self@.len(),
    {
        match self {
            Indices::U16(v) => v.len(),
            Indices::U32(v) => v.len(),
        }
    }

    /// `true` if no indices are stored.
    pub fn is_empty(&self) -> (r: bool)
        ensures
            r == (self@.len() == 0),
    {
        self.len() == 0
    }

    /// The stored indices widened to `u32`, in order.
    pub fn to_u32_vec(&self) -> (out: Vec<u32>)
        ensures
            out@ == self@,
    {
        match self {
            Indices::U16(v) => {
                let mut out: Vec<u32> = Vec::with_capacity(v.len());
                let mut i: usize = 0;
                while i < v.len()
                    invariant
                        i <= v.len(),
                        out@ == widen16(v@).subrange(0, i as int),
                    decreases v.len() - i,
                {
                    out.push(v[i] as u32);
                    i = i + 1;
                }
                assert(out@ =~= widen16(v@));
                out
            },
            Indices::U32(v) => {
                let mut out: Vec<u32> = Vec::with_capacity(v.len());
                let mut i: usize = 0;
                while i < v.len()
                    invariant
                        i <= v.len(),
                        out@ == v@.subrange(0, i as int),
                    decreases v.len() - i,
                {
                    out.push(v[i]);
                    i = i + 1;
                }
                assert(out@ =~= v@);
                out
            },
        }
    }
}

/// The implicit draw order `0, 1, 2, …` of a non-indexed primitive whose
/// vertex pool holds `n` vertices. The count is taken as a `u32`, so a pool
/// of more than `u32::MAX` vertices wraps.
pub open spec fn implicit_stream(n: usize) -> Seq<u32> {
    Seq::new((n as u32) as nat, |i: int| i as u32)
}

/// Number of triangles a topology assembles from `n` stream entries.
pub open spec fn spec_triangle_count(t: Topology, n: nat) -> nat {
    match t {
        Topology::Triangles => n / 3,
        Topology::TriangleStrip | Topology::TriangleFan => if n >= 2 {
            (n - 2) as nat
        } else {
            0
        },
        _ => 0,
    }
}

/// The OpenGL / glTF primitive-assembly rule: the triangles a topology
/// stitches out of an index stream, in draw order. Strips alternate their
/// winding (every odd triangle swaps its last two corners); fans share the
/// first entry as anchor; non-triangle topologies assemble nothing.
pub open spec fn assemble(t: Topology, s: Seq<u32>) -> Seq<[u32; 3]> {
    match t {
        Topology::Triangles => Seq::new(
            s.len() / 3,
            |k: int| [s[3 * k], s[3 * k + 1], s[3 * k + 2]],
        ),
        Topology::TriangleStrip => if s.len() < 3 {
            Seq::empty()
        } else {
            Seq::new(
                (s.len() - 2) as nat,
                |k: int|
                    if k % 2 == 0 {
                        [s[k], s[k + 1], s[k + 2]]
                    } else {
                        [s[k], s[k + 2], s[k + 1]]
                    },
            )
        },
        Topology::TriangleFan => if s.len() < 3 {
            Seq::empty()
        } else {
            Seq::new((s.len() - 2) as nat, |k: int| [s[0], s[k + 1], s[k + 2]])
        },
        _ => Seq::empty(),
    }
}

/// Flatten a triangle list into its corner stream `t0.0, t0.1, t0.2, t1.0, …`.
pub open spec fn flatten(tris: Seq<[u32; 3]>) -> Seq<u32> {
    Seq::new(3 * tris.len(), |i: int| tris[i / 3][i % 3])
}

/// The connectivity of one drawable primitive: how its vertex pool is
/// stitched into primitives. This is everything the topology analyses read
/// of a primitive — the stitching rule, the optional index buffer and the
/// size of the vertex pool — held as plain values.
#[derive(Clone, Debug, PartialEq, Eq)]
pub struct Connectivity {
    pub topology: Topology,
    pub indices: Option<Indices>,
    /// Number of vertices in the pool (`positions.len()`).
    pub vertex_count: usize,
}

impl Connectivity {
    /// The stream of vertex indices in draw order: the index buffer widened
    /// to `u32`, or the implicit `0, 1, 2, …` order of a non-indexed
    /// primitive.
    pub open spec fn stream(&self) -> Seq<u32> {
        match self.indices {
            Some(ix) => ix@,
            None => implicit_stream(self.vertex_count),
        }
    }

    /// The de-stripped triangle list of this primitive.
    pub open spec fn triangles(&self) -> Seq<[u32; 3]> {
        assemble(self.topology, self.stream())
    }

    /// Length of the index buffer, or the pool size when there is none.
    pub open spec fn draw_len(&self) -> nat {
        match self.indices {
            Some(ix) => ix@.len(),
            None => self.vertex_count as nat,
        }
    }

    /// The flat index stream this primitive draws, honouring an explicit
    /// index buffer or materialising the implicit `0..n` order.
    pub fn draw_index_stream(&self) -> (out: Vec<u32>)
        ensures
            out@ == self.stream(),
    {
        match &self.indices {
            Some(ix) => ix.to_u32_vec(),
            None => {
                let n = self.vertex_count as u32;
                let mut out: Vec<u32> = Vec::with_capacity(n as usize);
                let mut i: u32 = 0;
                while i < n
                    invariant
                        i <= n,
                        n == self.vertex_count as u32,
                        out@ == implicit_stream(self.vertex_count).subrange(0, i as int),
                    decreases n - i,
                {
                    out.push(i);
                    i = i + 1;
                }
                assert(out@ =~= implicit_stream(self.vertex_count));
                out
            },
        }
    }

    /// Number of triangles produced by tessellating this primitive: the
    /// index buffer length when present, or the pool size otherwise, fed
    /// through the topology's assembly count. Non-triangle topologies
    /// return 0.
    pub fn triangle_count(&self) -> (n: usize)
        ensures
            n == spec_triangle_count(self.topology, self.draw_len()),
    {
        let n = match &self.indices {
            Some(ix) => ix.len(),
            None => self.vertex_count,
        };
        match self.topology {
            Topology::Triangles => n / 3,
            Topology::TriangleStrip | Topology::TriangleFan => n.saturating_sub(2),
            _ => 0,
        }
    }
}


/// De-strip an index stream `s` under topology `t` (see [`assemble`]).
pub fn assemble_stream(t: Topology, s: &Vec<u32>) -> (out: Vec<[u32; 3]>)
    ensures
        out@ == assemble(t, s@),
{
    let n = s.len();
    let mut out: Vec<[u32; 3]> = Vec::new();
    match t {
        Topology::Triangles => {
            let tris = n / 3;
            let mut k: usize = 0;
            while k < tris
                invariant
                    tris == s@.len() / 3,
                    n == s@.len(),
                    k <= tris,
                    out@ == assemble(t, s@).subrange(0, k as int),
                    t == Topology::Triangles,
                decreases tris - k,
            {
                out.push([s[3 * k], s[3 * k + 1], s[3 * k + 2]]);
                k = k + 1;
            }
            assert(out@ =~= assemble(t, s@));
        },
        Topology::TriangleStrip => {
            if n < 3 {
                assert(out@ =~= assemble(t, s@));
                return out;
            }
            let mut k: usize = 0;
            while k < n - 2
                invariant
                    n == s@.len(),
                    n >= 3,
                    k <= n - 2,
                    out@ == assemble(t, s@).subrange(0, k as int),
                    t == Topology::TriangleStrip,
                decreases n - 2 - k,
            {
                if k % 2 == 0 {
                    out.push([s[k], s[k + 1], s[k + 2]]);
                } else {
                    out.push([s[k], s[k + 2], s[k + 1]]);
                }
                k = k + 1;
            }
            assert(out@ =~= assemble(t, s@));
        },
        Topology::TriangleFan => {
            if n < 3 {
                assert(out@ =~= assemble(t, s@));
                return out;
            }
            let anchor = s[0];
            let mut k: usize = 0;
            while k < n - 2
                invariant
                    n == s@.len(),
                    n >= 3,
                    anchor == s@[0],
                    k <= n - 2,
                    out@ == assemble(t, s@).subrange(0, k as int),
                    t == Topology::TriangleFan,
                decreases n - 2 - k,
            {
                out.push([anchor, s[k + 1], s[k + 2]]);
                k = k + 1;
            }
            assert(out@ =~= assemble(t, s@));
        },
        _ => {
            assert(out@ =~= assemble(t, s@));
        },
    }
    out
}

/// Flatten a triangle list into its corner stream.
pub fn flatten_triangles(tris: &Vec<[u32; 3]>) -> (out: Vec<u32>)
    requires
        3 * tris@.len() <= usize::MAX,
    ensures
        out@ == flatten(tris@),
{
    let mut out: Vec<u32> = Vec::new();
    let mut k: usize = 0;
    while k < tris.len()
        invariant
            k <= tris@.len(),
            3 * tris@.len() <= usize::MAX,
            out@ == flatten(tris@).subrange(0, 3 * k as int),
        decreases tris@.len() - k,
    {
        let t = tris[k];
        out.push(t[0]);
        out.push(t[1]);
        out.push(t[2]);
        proof {
            assert(flatten(tris@).subrange(0, 3 * (k + 1) as int) =~= flatten(tris@).subrange(
                0,
                3 * k as int,
            ).push(t[0]).push(t[1]).push(t[2]));
        }
        k = k + 1;
    }
    assert(out@ =~= flatten(tris@));
    out
}

impl Connectivity {
    /// De-strip this primitive's topology into a flat triangle list of
    /// vertex indices, each triple being one triangle in the winding the
    /// source topology specifies (strips alternate, fans share the anchor;
    /// non-triangle topologies yield an empty list).
    pub fn triangle_indices(&self) -> (out: Vec<[u32; 3]>)
        ensures
            out@ == self.triangles(),
    {
        let s = self.draw_index_stream();
        assemble_stream(self.topology, &s)
    }

    /// The index buffer of this primitive rewritten as a `Triangles` list:
    /// the corners of [`Connectivity::triangle_indices`], flattened.
    pub fn triangle_list_indices(&self) -> (out: Vec<u32>)
        requires
            3 * self.triangles().len() <= usize::MAX,
        ensures
            out@ == flatten(self.triangles()),
    {
        let tris = self.triangle_indices();
        flatten_triangles(&tris)
    }

    /// This primitive de-stripped into an equivalent `Triangles`
    /// connectivity with an explicit `U32` index buffer over the same pool.
    pub fn to_triangle_list(&self) -> (out: Connectivity)
        requires
            3 * self.triangles().len() <= usize::MAX,
        ensures
            out.topology == Topology::Triangles,
            out.vertex_count == self.vertex_count,
            out.indices matches Some(Indices::U32(v)) && v@ == flatten(self.triangles()),
            out.stream() == flatten(self.triangles()),
            out.triangles() == self.triangles(),
    {
        let flat = self.triangle_list_indices();
        let out = Connectivity {
            topology: Topology::Triangles,
            indices: Some(Indices::U32(flat)),
            vertex_count: self.vertex_count,
        };
        proof {
            lemma_assemble_flatten(self.triangles());
        }
        out
    }
}

/// The assembled list is no longer than its stream, so its flattening
/// fits in memory whenever the stream does.
pub proof fn lemma_assemble_len(t: Topology, s: Seq<u32>)
    ensures
        assemble(t, s).len() <= s.len(),
        3 * assemble(t, s).len() <= 3 * s.len(),
        assemble(t, s).len() == spec_triangle_count(t, s.len()),
{
}

/// Re-assembling a flattened triangle list as `Triangles` gives the list back.
pub proof fn lemma_assemble_flatten(tris: Seq<[u32; 3]>)
    ensures
        assemble(Topology::Triangles, flatten(tris)) == tris,
{
    let f = flatten(tris);
    assert forall|k: int| 0 <= k < tris.len() implies #[trigger] assemble(
        Topology::Triangles,
        f,
    )[k] == tris[k] by {
        assert(f[3 * k] == tris[k][0]);
        assert(f[3 * k + 1] == tris[k][1]);
        assert(f[3 * k + 2] == tris[k][2]);
        assert(tris[k] =~= [tris[k][0], tris[k][1], tris[k][2]]);
    }
    assert(assemble(Topology::Triangles, f) =~= tris);
}

/// The triangle count reported by [`Connectivity::triangle_count`] is the
/// length of [`Connectivity::triangle_indices`] whenever the draw stream is
/// not wrapped — that is, whenever the primitive is indexed or its pool
/// holds at most `u32::MAX` vertices.
pub proof fn law_triangle_count_matches_indices(c: Connectivity)
    requires
        c.indices is Some || c.vertex_count <= u32::MAX,
    ensures
        spec_triangle_count(c.topology, c.draw_len()) == c.triangles().len(),
{
    lemma_assemble_len(c.topology, c.stream());
}

} // verus!
