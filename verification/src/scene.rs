//! The reference skeleton of a scene: every cross-arena id and every
//! buffer length the scene's consistency rules read, as plain values.
//!
//! A full scene also carries transforms, vertex data and material
//! factors; those never decide whether an id dangles or a buffer is
//! mis-sized, so the model keeps only counts, ids and the outcome of the
//! few per-value numeric checks (an inverse-bind matrix's last row, the
//! ordering of keyframe times).
use vstd::prelude::*;
use vstd::seq_lib::lemma_flatten_concat;
use crate::ids::{
    AnimationTarget, AudioEmitterId, AudioSourceId, CameraId, Interpolation, LightId, MaterialId, MeshId, NodeId,
    SkeletonId, SkinId, TextureId,
};
use crate::material::MaterialTextures;
use crate::mesh::{lemma_assemble_len, spec_triangle_count, Connectivity, Indices, Topology};

verus! {

/// The ids a node refers to.
pub struct NodeRefs {
    pub children: Vec<NodeId>,
    pub mesh: Option<MeshId>,
    pub camera: Option<CameraId>,
    pub light: Option<LightId>,
    pub skin: Option<SkinId>,
    pub audio_emitter: Option<AudioEmitterId>,
}

/// Lengths of the per-vertex delta buffers of one morph target.
#[derive(Clone, Copy, Debug)]
pub struct TargetShape {
    pub position: Option<usize>,
    pub normal: Option<usize>,
    pub tangent: Option<usize>,
}

/// Topology, buffer lengths, index buffer and material reference of a
/// primitive.
pub struct PrimitiveShape {
    pub topology: Topology,
    /// `positions.len()`.
    pub vertex_count: usize,
    pub normals: Option<usize>,
    pub tangents: Option<usize>,
    /// Length of each UV set.
    pub uvs: Vec<usize>,
    /// Length of each colour set.
    pub colors: Vec<usize>,
    pub joints: Option<usize>,
    pub weights: Option<usize>,
    pub indices: Option<Indices>,
    pub material: Option<MaterialId>,
    pub targets: Vec<TargetShape>,
}

/// A mesh: the length of its default morph-weight vector and its
/// primitives.
pub struct MeshShape {
    pub weights: usize,
    pub primitives: Vec<PrimitiveShape>,
}

/// A skeleton's joints, and for each inverse-bind matrix whether its last
/// row is exactly `[0, 0, 0, 1]`.
pub struct SkeletonShape {
    pub joints: Vec<NodeId>,
    pub bind_affine: Vec<bool>,
}

/// The ids a skin refers to.
#[derive(Clone, Copy, Debug)]
pub struct SkinRefs {
    pub skeleton: SkeletonId,
    pub root_node: Option<NodeId>,
}

/// Element kind of an animation sampler's value buffer.
#[derive(Clone, Copy, Debug, PartialEq, Eq, Structural)]
pub enum ValueKind {
    Vec3,
    Quat,
    Scalar,
}

/// One animation channel: its target, and the shape of its sampler.
#[derive(Clone, Copy, Debug)]
pub struct ChannelShape {
    pub target: AnimationTarget,
    /// Number of keyframe times.
    pub keyframes: usize,
    /// The first keyframe whose time is not greater than the one before
    /// it (the first one compared against negative infinity), if any.
    pub first_unordered_keyframe: Option<usize>,
    pub values: ValueKind,
    /// Number of stored values, whatever their arity.
    pub value_count: usize,
    pub interpolation: Interpolation,
}

/// Every arena of a scene as the consistency rules see it.
pub struct SceneRefs {
    pub nodes: Vec<NodeRefs>,
    pub roots: Vec<NodeId>,
    pub meshes: Vec<MeshShape>,
    pub materials: Vec<MaterialTextures>,
    /// Number of textures.
    pub textures: usize,
    pub skeletons: Vec<SkeletonShape>,
    pub skins: Vec<SkinRefs>,
    /// The channels of each animation.
    pub animations: Vec<Vec<ChannelShape>>,
    /// Number of cameras.
    pub cameras: usize,
    /// Number of lights.
    pub lights: usize,
    /// Number of audio sources.
    pub audio_sources: usize,
    /// The source each audio emitter plays.
    pub audio_emitters: Vec<AudioSourceId>,
}

/// Index-stream length a primitive draws: its index buffer, or its pool.
pub open spec fn prim_draw_len(p: PrimitiveShape) -> nat {
    match p.indices {
        Some(ix) => ix@.len(),
        None => p.vertex_count as nat,
    }
}

/// Triangles a primitive tessellates into.
pub open spec fn prim_triangles(p: PrimitiveShape) -> nat {
    spec_triangle_count(p.topology, prim_draw_len(p))
}

/// A primitive's triangle count is the length of the triangle list its
/// topology assembles from its draw stream: `n / 3` for a list, `n - 2`
/// for a strip or fan of `n >= 2` entries.
pub proof fn law_prim_triangles_assembled(p: PrimitiveShape)
    requires
        p.indices is Some || p.vertex_count <= u32::MAX,
    ensures
        prim_triangles(p) == (Connectivity {
            topology: p.topology,
            indices: p.indices,
            vertex_count: p.vertex_count,
        }).triangles().len(),
{
    let c = Connectivity { topology: p.topology, indices: p.indices, vertex_count: p.vertex_count };
    lemma_assemble_len(c.topology, c.stream());
    assert(c.stream().len() == prim_draw_len(p));
}

/// Sum of `f` over `prims`.
pub open spec fn sum_prims(prims: Seq<PrimitiveShape>, f: spec_fn(PrimitiveShape) -> nat) -> nat
    decreases prims.len(),
{
    if prims.len() == 0 {
        0
    } else {
        sum_prims(prims.drop_last(), f) + f(prims.last())
    }
}

/// Every primitive of the scene, mesh by mesh.
pub open spec fn all_prims(s: SceneRefs) -> Seq<PrimitiveShape> {
    s.meshes@.map_values(|m: MeshShape| m.primitives@).flatten()
}

/// Total triangles over every mesh primitive.
pub open spec fn scene_triangles(s: SceneRefs) -> nat {
    sum_prims(all_prims(s), |p: PrimitiveShape| prim_triangles(p))
}

/// Total pool size over every mesh primitive.
pub open spec fn scene_vertices(s: SceneRefs) -> nat {
    sum_prims(all_prims(s), |p: PrimitiveShape| p.vertex_count as nat)
}

proof fn lemma_sum_prims_concat(a: Seq<PrimitiveShape>, b: Seq<PrimitiveShape>, f: spec_fn(PrimitiveShape) -> nat)
    ensures
        sum_prims(a + b, f) == sum_prims(a, f) + sum_prims(b, f),
    decreases b.len(),
{
    if b.len() == 0 {
        assert(a + b =~= a);
    } else {
        assert((a + b).drop_last() =~= a + b.drop_last());
        lemma_sum_prims_concat(a, b.drop_last(), f);
    }
}

impl PrimitiveShape {
    /// Triangles this primitive tessellates into (see
    /// [`crate::mesh::Connectivity::triangle_count`]).
    pub fn triangle_count(&self) -> (n: usize)
        ensures
            n == prim_triangles(*self),
            self.indices is Some || self.vertex_count <= u32::MAX ==> n == (Connectivity {
                topology: self.topology,
                indices: self.indices,
                vertex_count: self.vertex_count,
            }).triangles().len(),
    {
        proof {
            if self.indices is Some || self.vertex_count <= u32::MAX {
                law_prim_triangles_assembled(*self);
            }
        }
        let n = match &self.indices {
            Some(ix) => ix.len(),
            None => self.vertex_count,
        };
        match self.topology {
            Topology::Triangles => n / 3,
            Topology::TriangleStrip | Topology::TriangleFan => n.saturating_sub(2),
            _ => 0,
        }
    }
}

impl SceneRefs {
    /// Triangle count (`triangles`) or pool size summed over every mesh
    /// primitive.
    fn primitive_total(&self, triangles: bool) -> (n: usize)
        requires
            triangles ==> scene_triangles(*self) <= usize::MAX,
            !triangles ==> scene_vertices(*self) <= usize::MAX,
        ensures
            triangles ==> n == scene_triangles(*self),
            !triangles ==> n == scene_vertices(*self),
    {
        let ghost f = if triangles {
            |p: PrimitiveShape| prim_triangles(p)
        } else {
            |p: PrimitiveShape| p.vertex_count as nat
        };
        let ghost all = self.meshes@.map_values(|x: MeshShape| x.primitives@);
        proof {
            assert(sum_prims(all.flatten(), f) <= usize::MAX);
        }
        let mut total: usize = 0;
        let mut m: usize = 0;
        while m < self.meshes.len()
            invariant
                m <= self.meshes@.len(),
                all == self.meshes@.map_values(|x: MeshShape| x.primitives@),
                sum_prims(all.flatten(), f) <= usize::MAX,
                forall|p: PrimitiveShape| #[trigger] f(p) == if triangles { prim_triangles(p) } else { p.vertex_count as nat },
                total == sum_prims(self.meshes@.take(m as int).map_values(|x: MeshShape| x.primitives@).flatten(), f),
            decreases self.meshes@.len() - m,
        {
            let ghost done = self.meshes@.take(m as int).map_values(|x: MeshShape| x.primitives@);
            let prims = &self.meshes[m].primitives;
            let mut k: usize = 0;
            while k < prims.len()
                invariant
                    m < self.meshes@.len(),
                    *prims == self.meshes@[m as int].primitives,
                    k <= prims@.len(),
                    all == self.meshes@.map_values(|x: MeshShape| x.primitives@),
                    sum_prims(all.flatten(), f) <= usize::MAX,
                    forall|p: PrimitiveShape| #[trigger] f(p) == if triangles { prim_triangles(p) } else { p.vertex_count as nat },
                    done == self.meshes@.take(m as int).map_values(|x: MeshShape| x.primitives@),
                    total == sum_prims(done.flatten() + prims@.take(k as int), f),
                decreases prims@.len() - k,
            {
                let c = if triangles {
                    prims[k].triangle_count()
                } else {
                    prims[k].vertex_count
                };
                proof {
                    let head = done.flatten() + prims@.take(k + 1);
                    assert(prims@.take(k + 1) =~= prims@.take(k as int).push(prims@[k as int]));
                    assert(head.drop_last() =~= done.flatten() + prims@.take(k as int));
                    assert(head.last() == prims@[k as int]);
                    assert(all =~= done.push(prims@) + all.skip(m + 1));
                    lemma_flatten_concat(done.push(prims@), all.skip(m + 1));
                    done.lemma_flatten_push(prims@);
                    assert(prims@ =~= prims@.take(k + 1) + prims@.skip(k + 1));
                    assert(all.flatten() =~= head + (prims@.skip(k + 1) + all.skip(m + 1).flatten()));
                    lemma_sum_prims_concat(head, prims@.skip(k + 1) + all.skip(m + 1).flatten(), f);
                }
                total = total + c;
                k = k + 1;
            }
            proof {
                assert(prims@.take(prims@.len() as int) =~= prims@);
                assert(self.meshes@.take(m + 1).map_values(|x: MeshShape| x.primitives@) =~= done.push(prims@));
                done.lemma_flatten_push(prims@);
            }
            m = m + 1;
        }
        proof {
            assert(self.meshes@.take(self.meshes@.len() as int) =~= self.meshes@);
        }
        total
    }

    /// Total triangle count over every mesh primitive, unscaled by
    /// instancing.
    pub fn triangle_count(&self) -> (n: usize)
        requires
            scene_triangles(*self) <= usize::MAX,
        ensures
            n == scene_triangles(*self),
    {
        self.primitive_total(true)
    }

    /// Total vertex-pool size over every mesh primitive.
    pub fn vertex_count(&self) -> (n: usize)
        requires
            scene_vertices(*self) <= usize::MAX,
        ensures
            n == scene_vertices(*self),
    {
        self.primitive_total(false)
    }
}

impl SceneRefs {
    /// A scene with every arena empty.
    pub fn new() -> (s: SceneRefs)
        ensures
            s.nodes@.len() == 0,
            s.roots@.len() == 0,
            s.meshes@.len() == 0,
            s.materials@.len() == 0,
            s.textures == 0,
            s.skeletons@.len() == 0,
            s.skins@.len() == 0,
            s.animations@.len() == 0,
            s.cameras == 0,
            s.lights == 0,
            s.audio_sources == 0,
            s.audio_emitters@.len() == 0,
    {
        SceneRefs {
            nodes: Vec::new(),
            roots: Vec::new(),
            meshes: Vec::new(),
            materials: Vec::new(),
            textures: 0,
            skeletons: Vec::new(),
            skins: Vec::new(),
            animations: Vec::new(),
            cameras: 0,
            lights: 0,
            audio_sources: 0,
            audio_emitters: Vec::new(),
        }
    }

    /// Append a node; its id is the previous node count (as a `u32`).
    pub fn add_node(&mut self, node: NodeRefs) -> (id: NodeId)
        ensures
            final(self).nodes@ == old(self).nodes@.push(node),
            id.0 == old(self).nodes@.len() as u32,
            *final(self) == (SceneRefs { nodes: final(self).nodes, ..*old(self) }),
    {
        let id = NodeId(#[verifier::truncate] (self.nodes.len() as u32));
        self.nodes.push(node);
        id
    }

    /// Promote a node to a root of the forest.
    pub fn add_root(&mut self, node: NodeId)
        ensures
            final(self).roots@ == old(self).roots@.push(node),
            *final(self) == (SceneRefs { roots: final(self).roots, ..*old(self) }),
    {
        self.roots.push(node);
    }

    /// Append a mesh; its id is the previous mesh count.
    pub fn add_mesh(&mut self, mesh: MeshShape) -> (id: MeshId)
        ensures
            final(self).meshes@ == old(self).meshes@.push(mesh),
            id.0 == old(self).meshes@.len() as u32,
            *final(self) == (SceneRefs { meshes: final(self).meshes, ..*old(self) }),
    {
        let id = MeshId(#[verifier::truncate] (self.meshes.len() as u32));
        self.meshes.push(mesh);
        id
    }

    /// Append a material; its id is the previous material count.
    pub fn add_material(&mut self, material: MaterialTextures) -> (id: MaterialId)
        ensures
            final(self).materials@ == old(self).materials@.push(material),
            id.0 == old(self).materials@.len() as u32,
            *final(self) == (SceneRefs { materials: final(self).materials, ..*old(self) }),
    {
        let id = MaterialId(#[verifier::truncate] (self.materials.len() as u32));
        self.materials.push(material);
        id
    }

    /// Count one more texture; its id is the previous texture count.
    pub fn add_texture(&mut self) -> (id: TextureId)
        requires
            old(self).textures < usize::MAX,
        ensures
            final(self).textures == old(self).textures + 1,
            id.0 == old(self).textures as u32,
            *final(self) == (SceneRefs { textures: final(self).textures, ..*old(self) }),
    {
        let id = TextureId(#[verifier::truncate] (self.textures as u32));
        self.textures = self.textures + 1;
        id
    }

    /// Append a skeleton; its id is the previous skeleton count.
    pub fn add_skeleton(&mut self, skeleton: SkeletonShape) -> (id: SkeletonId)
        ensures
            final(self).skeletons@ == old(self).skeletons@.push(skeleton),
            id.0 == old(self).skeletons@.len() as u32,
            *final(self) == (SceneRefs { skeletons: final(self).skeletons, ..*old(self) }),
    {
        let id = SkeletonId(#[verifier::truncate] (self.skeletons.len() as u32));
        self.skeletons.push(skeleton);
        id
    }

    /// Append a skin; its id is the previous skin count.
    pub fn add_skin(&mut self, skin: SkinRefs) -> (id: SkinId)
        ensures
            final(self).skins@ == old(self).skins@.push(skin),
            id.0 == old(self).skins@.len() as u32,
            *final(self) == (SceneRefs { skins: final(self).skins, ..*old(self) }),
    {
        let id = SkinId(#[verifier::truncate] (self.skins.len() as u32));
        self.skins.push(skin);
        id
    }

    /// Append an animation (its channels); returns its position.
    pub fn add_animation(&mut self, channels: Vec<ChannelShape>) -> (idx: usize)
        ensures
            final(self).animations@ == old(self).animations@.push(channels),
            idx == old(self).animations@.len(),
            *final(self) == (SceneRefs { animations: final(self).animations, ..*old(self) }),
    {
        let idx = self.animations.len();
        self.animations.push(channels);
        idx
    }

    /// Count one more camera; its id is the previous camera count.
    pub fn add_camera(&mut self) -> (id: CameraId)
        requires
            old(self).cameras < usize::MAX,
        ensures
            final(self).cameras == old(self).cameras + 1,
            id.0 == old(self).cameras as u32,
            *final(self) == (SceneRefs { cameras: final(self).cameras, ..*old(self) }),
    {
        let id = CameraId(#[verifier::truncate] (self.cameras as u32));
        self.cameras = self.cameras + 1;
        id
    }

    /// Count one more light; its id is the previous light count.
    pub fn add_light(&mut self) -> (id: LightId)
        requires
            old(self).lights < usize::MAX,
        ensures
            final(self).lights == old(self).lights + 1,
            id.0 == old(self).lights as u32,
            *final(self) == (SceneRefs { lights: final(self).lights, ..*old(self) }),
    {
        let id = LightId(#[verifier::truncate] (self.lights as u32));
        self.lights = self.lights + 1;
        id
    }

    /// Count one more audio source; its id is the previous source count.
    pub fn add_audio_source(&mut self) -> (id: AudioSourceId)
        requires
            old(self).audio_sources < usize::MAX,
        ensures
            final(self).audio_sources == old(self).audio_sources + 1,
            id.0 == old(self).audio_sources as u32,
            *final(self) == (SceneRefs { audio_sources: final(self).audio_sources, ..*old(self) }),
    {
        let id = AudioSourceId(#[verifier::truncate] (self.audio_sources as u32));
        self.audio_sources = self.audio_sources + 1;
        id
    }

    /// Append an audio emitter playing `source`; its id is the previous
    /// emitter count.
    pub fn add_audio_emitter(&mut self, source: AudioSourceId) -> (id: AudioEmitterId)
        ensures
            final(self).audio_emitters@ == old(self).audio_emitters@.push(source),
            id.0 == old(self).audio_emitters@.len() as u32,
            *final(self) == (SceneRefs { audio_emitters: final(self).audio_emitters, ..*old(self) }),
    {
        let id = AudioEmitterId(#[verifier::truncate] (self.audio_emitters.len() as u32));
        self.audio_emitters.push(source);
        id
    }
}

} // verus!
