//! Scene consistency checking: every dangling cross-arena id and every
//! mis-sized buffer, reported in one pass.
use vstd::prelude::*;
use crate::ids::{AnimationProperty, Interpolation, TextureRef};
use crate::material::TextureSlot;
use crate::mesh::Indices;
use crate::scene::{ChannelShape, NodeRefs, PrimitiveShape, SceneRefs, SkeletonShape, TargetShape, ValueKind};

verus! {

/// The arena a dangling id points into.
#[derive(Clone, Copy, Debug, PartialEq, Eq, Structural)]
pub enum Arena {
    Nodes,
    Meshes,
    Materials,
    Textures,
    Cameras,
    Lights,
    Skeletons,
    Skins,
    AudioSources,
    AudioEmitters,
}

/// A field of a primitive.
#[derive(Clone, Copy, Debug, PartialEq, Eq, Structural)]
pub enum PrimField {
    Normals,
    Tangents,
    Uvs(usize),
    Colors(usize),
    Joints,
    Weights,
    Indices,
    Material,
    TargetPosition(usize),
    TargetNormal(usize),
    TargetTangent(usize),
    Targets,
}

/// Where in the scene a problem sits.
#[derive(Clone, Copy, Debug, PartialEq, Eq, Structural)]
pub enum Location {
    /// `roots[i]`.
    Root(usize),
    /// `nodes[i].children[j]`.
    NodeChild(usize, usize),
    NodeMesh(usize),
    NodeCamera(usize),
    NodeLight(usize),
    NodeSkin(usize),
    NodeAudioEmitter(usize),
    /// `meshes[m].primitives[p].<field>`.
    Primitive(usize, usize, PrimField),
    /// `materials[m].<slot>`.
    MaterialSlot(usize, TextureSlot),
    /// `skeletons[s].joints[j]`.
    SkeletonJoint(usize, usize),
    /// `skeletons[s]`.
    Skeleton(usize),
    /// `skeletons[s].inverse_bind_matrices[j]`.
    SkeletonBindMatrix(usize, usize),
    SkinSkeleton(usize),
    SkinRoot(usize),
    /// `audio_emitters[e].source`.
    EmitterSource(usize),
    /// `animations[a].channels[c].target.node`.
    ChannelTargetNode(usize, usize),
    /// `animations[a].channels[c].sampler`.
    ChannelSampler(usize, usize),
    /// `animations[a].channels[c].sampler.keyframes[k]`.
    ChannelKeyframe(usize, usize, usize),
    /// `animations[a].channels[c]`.
    Channel(usize, usize),
}

/// One problem found by [`SceneRefs::validate`].
#[derive(Clone, Copy, Debug, PartialEq, Eq, Structural)]
pub enum ValidationError {
    /// An id points outside its arena.
    DanglingId { location: Location, id: u32, arena: Arena },
    /// A present per-vertex buffer disagrees with the vertex count.
    AttributeLengthMismatch { location: Location, expected: usize, actual: usize },
    /// An index buffer addresses a vertex past the vertex count.
    IndexOutOfRange { location: Location, vertex_count: usize },
    /// The mesh's morph weights disagree with a primitive's target count.
    MorphWeightCountMismatch { location: Location, mesh_weights: usize, primitive_targets: usize },
    /// A skeleton has inverse-bind matrices, but not one per joint.
    SkeletonBindMatrixCountMismatch { location: Location, joints: usize, inverse_bind_matrices: usize },
    /// An inverse-bind matrix's last row is not `[0, 0, 0, 1]`.
    SkeletonBindMatrixNotAffine { location: Location },
    /// A sampler has no keyframes.
    AnimationSamplerEmpty { location: Location },
    /// A keyframe time is not greater than the one before it.
    AnimationKeyframesNotStrictlyIncreasing { location: Location },
    /// The sampler's value kind does not suit the animated property.
    AnimationValueVariantMismatch {
        location: Location,
        property: AnimationProperty,
        expected_variant: ValueKind,
        actual_variant: ValueKind,
    },
    /// The sampler's value count does not match its keyframes.
    AnimationSamplerLengthMismatch {
        location: Location,
        keyframes: usize,
        values: usize,
        interpolation: Interpolation,
    },
}

/// The errors of items `0..k`, item by item.
pub open spec fn concat_upto(f: spec_fn(int) -> Seq<ValidationError>, k: int) -> Seq<ValidationError>
    decreases k,
{
    if k <= 0 {
        Seq::empty()
    } else {
        concat_upto(f, k - 1) + f(k - 1)
    }
}

/// `e` when `bad` holds, nothing otherwise.
pub open spec fn flag(bad: bool, e: ValidationError) -> Seq<ValidationError> {
    if bad {
        seq![e]
    } else {
        Seq::empty()
    }
}

/// A present buffer whose length is not `expected`.
pub open spec fn length_error(len: Option<usize>, expected: usize, location: Location) -> Seq<ValidationError> {
    match len {
        Some(l) => flag(
            l != expected,
            ValidationError::AttributeLengthMismatch { location, expected, actual: l },
        ),
        None => Seq::empty(),
    }
}

// ---------------------------------------------------------------- roots

pub open spec fn root_error(s: SceneRefs, i: int) -> Seq<ValidationError> {
    flag(
        s.roots@[i].0 >= s.nodes@.len(),
        ValidationError::DanglingId { location: Location::Root(i as usize), id: s.roots@[i].0, arena: Arena::Nodes },
    )
}

pub open spec fn root_fn(s: SceneRefs) -> spec_fn(int) -> Seq<ValidationError> {
    |i: int| root_error(s, i)
}

pub open spec fn root_errors(s: SceneRefs, k: int) -> Seq<ValidationError> {
    concat_upto(root_fn(s), k)
}

// ---------------------------------------------------------------- nodes

pub open spec fn child_error(s: SceneRefs, i: int, j: int) -> Seq<ValidationError> {
    let c = s.nodes@[i].children@[j];
    flag(
        c.0 >= s.nodes@.len(),
        ValidationError::DanglingId { location: Location::NodeChild(i as usize, j as usize), id: c.0, arena: Arena::Nodes },
    )
}

pub open spec fn child_fn(s: SceneRefs, i: int) -> spec_fn(int) -> Seq<ValidationError> {
    |j: int| child_error(s, i, j)
}

pub open spec fn child_errors(s: SceneRefs, i: int, k: int) -> Seq<ValidationError> {
    concat_upto(child_fn(s, i), k)
}

pub open spec fn mesh_ref_error(s: SceneRefs, i: int) -> Seq<ValidationError> {
    match s.nodes@[i].mesh {
        Some(m) => flag(
            m.0 >= s.meshes@.len(),
            ValidationError::DanglingId { location: Location::NodeMesh(i as usize), id: m.0, arena: Arena::Meshes },
        ),
        None => Seq::empty(),
    }
}

pub open spec fn camera_ref_error(s: SceneRefs, i: int) -> Seq<ValidationError> {
    match s.nodes@[i].camera {
        Some(c) => flag(
            c.0 >= s.cameras,
            ValidationError::DanglingId { location: Location::NodeCamera(i as usize), id: c.0, arena: Arena::Cameras },
        ),
        None => Seq::empty(),
    }
}

pub open spec fn light_ref_error(s: SceneRefs, i: int) -> Seq<ValidationError> {
    match s.nodes@[i].light {
        Some(l) => flag(
            l.0 >= s.lights,
            ValidationError::DanglingId { location: Location::NodeLight(i as usize), id: l.0, arena: Arena::Lights },
        ),
        None => Seq::empty(),
    }
}

pub open spec fn skin_ref_error(s: SceneRefs, i: int) -> Seq<ValidationError> {
    match s.nodes@[i].skin {
        Some(k) => flag(
            k.0 >= s.skins@.len(),
            ValidationError::DanglingId { location: Location::NodeSkin(i as usize), id: k.0, arena: Arena::Skins },
        ),
        None => Seq::empty(),
    }
}

pub open spec fn emitter_ref_error(s: SceneRefs, i: int) -> Seq<ValidationError> {
    match s.nodes@[i].audio_emitter {
        Some(e) => flag(
            e.0 >= s.audio_emitters@.len(),
            ValidationError::DanglingId {
                location: Location::NodeAudioEmitter(i as usize),
                id: e.0,
                arena: Arena::AudioEmitters,
            },
        ),
        None => Seq::empty(),
    }
}

/// Errors of the non-child references of node `i`: mesh, camera, light,
/// skin, audio emitter.
pub open spec fn node_ref_errors(s: SceneRefs, i: int) -> Seq<ValidationError> {
    mesh_ref_error(s, i) + camera_ref_error(s, i) + light_ref_error(s, i) + skin_ref_error(s, i) + emitter_ref_error(s, i)
}

pub open spec fn node_error(s: SceneRefs, i: int) -> Seq<ValidationError> {
    child_errors(s, i, s.nodes@[i].children@.len() as int) + node_ref_errors(s, i)
}

pub open spec fn node_fn(s: SceneRefs) -> spec_fn(int) -> Seq<ValidationError> {
    |i: int| node_error(s, i)
}

pub open spec fn node_errors(s: SceneRefs, k: int) -> Seq<ValidationError> {
    concat_upto(node_fn(s), k)
}

// ---------------------------------------------------------------- meshes

pub open spec fn prim_of(s: SceneRefs, mi: int, pi: int) -> PrimitiveShape {
    s.meshes@[mi].primitives@[pi]
}

pub open spec fn ploc(mi: int, pi: int, f: PrimField) -> Location {
    Location::Primitive(mi as usize, pi as usize, f)
}

pub open spec fn uv_error(s: SceneRefs, mi: int, pi: int, q: int) -> Seq<ValidationError> {
    let p = prim_of(s, mi, pi);
    length_error(Some(p.uvs@[q]), p.vertex_count, ploc(mi, pi, PrimField::Uvs(q as usize)))
}

pub open spec fn uv_fn(s: SceneRefs, mi: int, pi: int) -> spec_fn(int) -> Seq<ValidationError> {
    |q: int| uv_error(s, mi, pi, q)
}

pub open spec fn uv_errors(s: SceneRefs, mi: int, pi: int, k: int) -> Seq<ValidationError> {
    concat_upto(uv_fn(s, mi, pi), k)
}

pub open spec fn color_error(s: SceneRefs, mi: int, pi: int, q: int) -> Seq<ValidationError> {
    let p = prim_of(s, mi, pi);
    length_error(Some(p.colors@[q]), p.vertex_count, ploc(mi, pi, PrimField::Colors(q as usize)))
}

pub open spec fn color_fn(s: SceneRefs, mi: int, pi: int) -> spec_fn(int) -> Seq<ValidationError> {
    |q: int| color_error(s, mi, pi, q)
}

pub open spec fn color_errors(s: SceneRefs, mi: int, pi: int, k: int) -> Seq<ValidationError> {
    concat_upto(color_fn(s, mi, pi), k)
}

pub open spec fn target_error(s: SceneRefs, mi: int, pi: int, t: int) -> Seq<ValidationError> {
    let p = prim_of(s, mi, pi);
    let tg = p.targets@[t];
    let u = t as usize;
    length_error(tg.position, p.vertex_count, ploc(mi, pi, PrimField::TargetPosition(u))) + length_error(
        tg.normal,
        p.vertex_count,
        ploc(mi, pi, PrimField::TargetNormal(u)),
    ) + length_error(tg.tangent, p.vertex_count, ploc(mi, pi, PrimField::TargetTangent(u)))
}

pub open spec fn target_fn(s: SceneRefs, mi: int, pi: int) -> spec_fn(int) -> Seq<ValidationError> {
    |t: int| target_error(s, mi, pi, t)
}

pub open spec fn target_errors(s: SceneRefs, mi: int, pi: int, k: int) -> Seq<ValidationError> {
    concat_upto(target_fn(s, mi, pi), k)
}

/// Some index of the buffer addresses a vertex at or past `limit`.
pub open spec fn has_index_at_least(ix: Indices, limit: u32) -> bool {
    exists|k: int| 0 <= k < ix@.len() && ix@[k] >= limit
}

pub open spec fn index_error(s: SceneRefs, mi: int, pi: int) -> Seq<ValidationError> {
    let p = prim_of(s, mi, pi);
    match p.indices {
        Some(ix) => flag(
            has_index_at_least(ix, p.vertex_count as u32),
            ValidationError::IndexOutOfRange { location: ploc(mi, pi, PrimField::Indices), vertex_count: p.vertex_count },
        ),
        None => Seq::empty(),
    }
}

pub open spec fn prim_material_error(s: SceneRefs, mi: int, pi: int) -> Seq<ValidationError> {
    match prim_of(s, mi, pi).material {
        Some(m) => flag(
            m.0 >= s.materials@.len(),
            ValidationError::DanglingId { location: ploc(mi, pi, PrimField::Material), id: m.0, arena: Arena::Materials },
        ),
        None => Seq::empty(),
    }
}

pub open spec fn weight_count_error(s: SceneRefs, mi: int, pi: int) -> Seq<ValidationError> {
    let p = prim_of(s, mi, pi);
    let w = s.meshes@[mi].weights;
    flag(
        w != 0 && p.targets@.len() != w,
        ValidationError::MorphWeightCountMismatch {
            location: ploc(mi, pi, PrimField::Targets),
            mesh_weights: w,
            primitive_targets: p.targets@.len() as usize,
        },
    )
}

/// Errors of primitive `pi` of mesh `mi`: its optional buffers (normals,
/// tangents, UV sets, colour sets, joints, weights), its index buffer,
/// its material, its morph targets, and the mesh's weight count.
pub open spec fn prim_error(s: SceneRefs, mi: int, pi: int) -> Seq<ValidationError> {
    let p = prim_of(s, mi, pi);
    let n = p.vertex_count;
    length_error(p.normals, n, ploc(mi, pi, PrimField::Normals)) + length_error(
        p.tangents,
        n,
        ploc(mi, pi, PrimField::Tangents),
    ) + uv_errors(s, mi, pi, p.uvs@.len() as int) + color_errors(s, mi, pi, p.colors@.len() as int)
        + length_error(p.joints, n, ploc(mi, pi, PrimField::Joints)) + length_error(
        p.weights,
        n,
        ploc(mi, pi, PrimField::Weights),
    ) + index_error(s, mi, pi) + prim_material_error(s, mi, pi) + target_errors(s, mi, pi, p.targets@.len() as int)
        + weight_count_error(s, mi, pi)
}

pub open spec fn prim_fn(s: SceneRefs, mi: int) -> spec_fn(int) -> Seq<ValidationError> {
    |pi: int| prim_error(s, mi, pi)
}

pub open spec fn prim_errors(s: SceneRefs, mi: int, k: int) -> Seq<ValidationError> {
    concat_upto(prim_fn(s, mi), k)
}

pub open spec fn mesh_error(s: SceneRefs, mi: int) -> Seq<ValidationError> {
    prim_errors(s, mi, s.meshes@[mi].primitives@.len() as int)
}

pub open spec fn mesh_fn(s: SceneRefs) -> spec_fn(int) -> Seq<ValidationError> {
    |mi: int| mesh_error(s, mi)
}

pub open spec fn mesh_errors(s: SceneRefs, k: int) -> Seq<ValidationError> {
    concat_upto(mesh_fn(s), k)
}

// ---------------------------------------------------------------- materials

pub open spec fn slot_error(s: SceneRefs, mi: int, slot: TextureSlot, r: Option<TextureRef>) -> Seq<ValidationError> {
    match r {
        Some(t) => flag(
            t.texture.0 >= s.textures,
            ValidationError::DanglingId {
                location: Location::MaterialSlot(mi as usize, slot),
                id: t.texture.0,
                arena: Arena::Textures,
            },
        ),
        None => Seq::empty(),
    }
}

/// Only the five core maps are checked against the texture arena.
pub open spec fn material_error(s: SceneRefs, mi: int) -> Seq<ValidationError> {
    let m = s.materials@[mi];
    slot_error(s, mi, TextureSlot::BaseColor, m.base_color_texture) + slot_error(
        s,
        mi,
        TextureSlot::MetallicRoughness,
        m.metallic_roughness_texture,
    ) + slot_error(s, mi, TextureSlot::Normal, m.normal_texture) + slot_error(
        s,
        mi,
        TextureSlot::Occlusion,
        m.occlusion_texture,
    ) + slot_error(s, mi, TextureSlot::Emissive, m.emissive_texture)
}

pub open spec fn material_fn(s: SceneRefs) -> spec_fn(int) -> Seq<ValidationError> {
    |mi: int| material_error(s, mi)
}

pub open spec fn material_errors(s: SceneRefs, k: int) -> Seq<ValidationError> {
    concat_upto(material_fn(s), k)
}

// ---------------------------------------------------------------- skeletons

pub open spec fn joint_error(s: SceneRefs, si: int, j: int) -> Seq<ValidationError> {
    let sk = s.skeletons@[si];
    flag(
        sk.joints@[j].0 >= s.nodes@.len(),
        ValidationError::DanglingId {
            location: Location::SkeletonJoint(si as usize, j as usize),
            id: sk.joints@[j].0,
            arena: Arena::Nodes,
        },
    )
}

pub open spec fn joint_fn(s: SceneRefs, si: int) -> spec_fn(int) -> Seq<ValidationError> {
    |j: int| joint_error(s, si, j)
}

pub open spec fn joint_errors(s: SceneRefs, si: int, k: int) -> Seq<ValidationError> {
    concat_upto(joint_fn(s, si), k)
}

pub open spec fn bind_error(s: SceneRefs, si: int, j: int) -> Seq<ValidationError> {
    flag(
        !s.skeletons@[si].bind_affine@[j],
        ValidationError::SkeletonBindMatrixNotAffine { location: Location::SkeletonBindMatrix(si as usize, j as usize) },
    )
}

pub open spec fn bind_fn(s: SceneRefs, si: int) -> spec_fn(int) -> Seq<ValidationError> {
    |j: int| bind_error(s, si, j)
}

pub open spec fn bind_errors(s: SceneRefs, si: int, k: int) -> Seq<ValidationError> {
    concat_upto(bind_fn(s, si), k)
}

pub open spec fn skeleton_error(s: SceneRefs, si: int) -> Seq<ValidationError> {
    let sk = s.skeletons@[si];
    let nj = sk.joints@.len();
    let nb = sk.bind_affine@.len();
    joint_errors(s, si, nj as int) + flag(
        nb != 0 && nb != nj,
        ValidationError::SkeletonBindMatrixCountMismatch {
            location: Location::Skeleton(si as usize),
            joints: nj as usize,
            inverse_bind_matrices: nb as usize,
        },
    ) + bind_errors(s, si, nb as int)
}

pub open spec fn skeleton_fn(s: SceneRefs) -> spec_fn(int) -> Seq<ValidationError> {
    |si: int| skeleton_error(s, si)
}

pub open spec fn skeleton_errors(s: SceneRefs, k: int) -> Seq<ValidationError> {
    concat_upto(skeleton_fn(s), k)
}

// ---------------------------------------------------------------- skins, emitters

pub open spec fn skin_error(s: SceneRefs, si: int) -> Seq<ValidationError> {
    let sk = s.skins@[si];
    flag(
        sk.skeleton.0 >= s.skeletons@.len(),
        ValidationError::DanglingId {
            location: Location::SkinSkeleton(si as usize),
            id: sk.skeleton.0,
            arena: Arena::Skeletons,
        },
    ) + match sk.root_node {
        Some(r) => flag(
            r.0 >= s.nodes@.len(),
            ValidationError::DanglingId { location: Location::SkinRoot(si as usize), id: r.0, arena: Arena::Nodes },
        ),
        None => Seq::empty(),
    }
}

pub open spec fn skin_fn(s: SceneRefs) -> spec_fn(int) -> Seq<ValidationError> {
    |si: int| skin_error(s, si)
}

pub open spec fn skin_errors(s: SceneRefs, k: int) -> Seq<ValidationError> {
    concat_upto(skin_fn(s), k)
}

pub open spec fn emitter_error(s: SceneRefs, ei: int) -> Seq<ValidationError> {
    flag(
        s.audio_emitters@[ei].0 >= s.audio_sources,
        ValidationError::DanglingId {
            location: Location::EmitterSource(ei as usize),
            id: s.audio_emitters@[ei].0,
            arena: Arena::AudioSources,
        },
    )
}

pub open spec fn emitter_fn(s: SceneRefs) -> spec_fn(int) -> Seq<ValidationError> {
    |ei: int| emitter_error(s, ei)
}

pub open spec fn emitter_errors(s: SceneRefs, k: int) -> Seq<ValidationError> {
    concat_upto(emitter_fn(s), k)
}

// ---------------------------------------------------------------- animations

/// The value kind a property is animated with.
pub open spec fn expected_kind(p: AnimationProperty) -> ValueKind {
    match p {
        AnimationProperty::Translation | AnimationProperty::Scale => ValueKind::Vec3,
        AnimationProperty::Rotation => ValueKind::Quat,
        AnimationProperty::MorphWeights => ValueKind::Scalar,
    }
}

/// Values stored per keyframe: three (in-tangent, value, out-tangent)
/// for a cubic spline, one otherwise.
pub open spec fn values_per_keyframe(i: Interpolation) -> nat {
    if i == Interpolation::CubicSpline {
        3
    } else {
        1
    }
}

/// The sampler's value count fits its keyframes. A morph-weight channel
/// stores one value per target per keyframe, so only a positive multiple
/// is asked of it.
pub open spec fn sampler_length_ok(c: ChannelShape) -> bool {
    let denom = c.keyframes * values_per_keyframe(c.interpolation);
    if c.target.property == AnimationProperty::MorphWeights && c.values == ValueKind::Scalar {
        denom != 0 && (c.value_count as int) % denom == 0 && c.value_count >= denom
    } else {
        c.value_count == denom
    }
}

pub open spec fn channel_error(s: SceneRefs, ai: int, ci: int) -> Seq<ValidationError> {
    let c = s.animations@[ai]@[ci];
    let a = ai as usize;
    let k = ci as usize;
    flag(
        c.target.node.0 >= s.nodes@.len(),
        ValidationError::DanglingId {
            location: Location::ChannelTargetNode(a, k),
            id: c.target.node.0,
            arena: Arena::Nodes,
        },
    ) + (if c.keyframes == 0 {
        seq![ValidationError::AnimationSamplerEmpty { location: Location::ChannelSampler(a, k) }]
    } else {
        match c.first_unordered_keyframe {
            Some(q) => seq![
                ValidationError::AnimationKeyframesNotStrictlyIncreasing {
                    location: Location::ChannelKeyframe(a, k, q),
                },
            ],
            None => Seq::empty(),
        }
    }) + flag(
        c.values != expected_kind(c.target.property),
        ValidationError::AnimationValueVariantMismatch {
            location: Location::Channel(a, k),
            property: c.target.property,
            expected_variant: expected_kind(c.target.property),
            actual_variant: c.values,
        },
    ) + flag(
        c.keyframes != 0 && !sampler_length_ok(c),
        ValidationError::AnimationSamplerLengthMismatch {
            location: Location::ChannelSampler(a, k),
            keyframes: c.keyframes,
            values: c.value_count,
            interpolation: c.interpolation,
        },
    )
}

pub open spec fn channel_fn(s: SceneRefs, ai: int) -> spec_fn(int) -> Seq<ValidationError> {
    |ci: int| channel_error(s, ai, ci)
}

pub open spec fn channel_errors(s: SceneRefs, ai: int, k: int) -> Seq<ValidationError> {
    concat_upto(channel_fn(s, ai), k)
}

pub open spec fn animation_error(s: SceneRefs, ai: int) -> Seq<ValidationError> {
    channel_errors(s, ai, s.animations@[ai]@.len() as int)
}

pub open spec fn animation_fn(s: SceneRefs) -> spec_fn(int) -> Seq<ValidationError> {
    |ai: int| animation_error(s, ai)
}

pub open spec fn animation_errors(s: SceneRefs, k: int) -> Seq<ValidationError> {
    concat_upto(animation_fn(s), k)
}

/// Every problem of the scene, in the order the arenas are walked: roots,
/// nodes, meshes, materials, skeletons, skins, audio emitters,
/// animations.
pub open spec fn scene_errors(s: SceneRefs) -> Seq<ValidationError> {
    root_errors(s, s.roots@.len() as int) + node_errors(s, s.nodes@.len() as int) + mesh_errors(
        s,
        s.meshes@.len() as int,
    ) + material_errors(s, s.materials@.len() as int) + skeleton_errors(s, s.skeletons@.len() as int)
        + skin_errors(s, s.skins@.len() as int) + emitter_errors(s, s.audio_emitters@.len() as int)
        + animation_errors(s, s.animations@.len() as int)
}

/// Every sampler's keyframe count can be scaled by the cubic-spline
/// factor without overflow (a keyframe buffer that large cannot exist).
pub open spec fn keyframe_counts_fit(s: SceneRefs) -> bool {
    forall|ai: int, ci: int|
        0 <= ai < s.animations@.len() && 0 <= ci < s.animations@[ai]@.len() ==> 3 * (
        #[trigger] s.animations@[ai]@[ci]).keyframes <= usize::MAX
}


proof fn lemma_concat6<A>(a: Seq<A>, b: Seq<A>, c: Seq<A>, d: Seq<A>, e: Seq<A>, f: Seq<A>, g: Seq<A>)
    ensures
        (((((a + b) + c) + d) + e) + f) + g == a + (b + ((((c + d) + e) + f) + g)),
{
    assert((((((a + b) + c) + d) + e) + f) + g =~= a + (b + ((((c + d) + e) + f) + g)));
}

proof fn lemma_concat10<A>(
    a: Seq<A>,
    b: Seq<A>,
    c: Seq<A>,
    d: Seq<A>,
    e: Seq<A>,
    f: Seq<A>,
    g: Seq<A>,
    h: Seq<A>,
    i: Seq<A>,
    j: Seq<A>,
    k: Seq<A>,
)
    ensures
        ((((((((((a + b) + c) + d) + e) + f) + g) + h) + i) + j) + k) == a + (((((((((b + c) + d) + e) + f) + g)
            + h) + i) + j) + k),
{
    assert(((((((((((a + b) + c) + d) + e) + f) + g) + h) + i) + j) + k) =~= a + (((((((((b + c) + d) + e) + f)
        + g) + h) + i) + j) + k));
}

/// Append `e` when `bad` holds.
fn push_flag(errors: &mut Vec<ValidationError>, bad: bool, e: ValidationError)
    ensures
        final(errors)@ == old(errors)@ + flag(bad, e),
{
    if bad {
        errors.push(e);
        assert(final(errors)@ =~= old(errors)@ + flag(bad, e));
    } else {
        assert(errors@ =~= old(errors)@ + flag(bad, e));
    }
}

/// Append the length error of a present buffer, if any.
fn push_length_error(errors: &mut Vec<ValidationError>, len: Option<usize>, expected: usize, location: Location)
    ensures
        final(errors)@ == old(errors)@ + length_error(len, expected, location),
{
    match len {
        Some(l) => push_flag(
            errors,
            l != expected,
            ValidationError::AttributeLengthMismatch { location, expected, actual: l },
        ),
        None => {
            assert(errors@ =~= old(errors)@ + length_error(len, expected, location));
        },
    }
}

/// Whether some index of `ix` is `limit` or more.
fn any_index_at_least(ix: &Indices, limit: u32) -> (r: bool)
    ensures
        r == has_index_at_least(*ix, limit),
{
    match ix {
        Indices::U16(v) => {
            let mut i: usize = 0;
            while i < v.len()
                invariant
                    i <= v@.len(),
                    ix@ == crate::mesh::widen16(v@),
                    forall|k: int| 0 <= k < i ==> (v@[k] as u32) < limit,
                decreases v@.len() - i,
            {
                if (v[i] as u32) >= limit {
                    assert(ix@[i as int] == v@[i as int] as u32);
                    return true;
                }
                i = i + 1;
            }
            proof {
                assert forall|k: int| 0 <= k < ix@.len() implies !(ix@[k] >= limit) by {
                    assert(ix@[k] == v@[k] as u32);
                }
            }
            false
        },
        Indices::U32(v) => {
            let mut i: usize = 0;
            while i < v.len()
                invariant
                    i <= v@.len(),
                    ix@ == v@,
                    forall|k: int| 0 <= k < i ==> v@[k] < limit,
                decreases v@.len() - i,
            {
                if v[i] >= limit {
                    return true;
                }
                i = i + 1;
            }
            false
        },
    }
}

impl SceneRefs {
    fn push_root_errors(&self, errors: &mut Vec<ValidationError>)
        ensures
            final(errors)@ == old(errors)@ + root_errors(*self, self.roots@.len() as int),
    {
        let n = self.nodes.len();
        let mut i: usize = 0;
        while i < self.roots.len()
            invariant
                i <= self.roots@.len(),
                n == self.nodes@.len(),
                errors@ == old(errors)@ + root_errors(*self, i as int),
            decreases self.roots@.len() - i,
        {
            let r = self.roots[i];
            push_flag(
                errors,
                (r.0 as usize) >= n,
                ValidationError::DanglingId { location: Location::Root(i), id: r.0, arena: Arena::Nodes },
            );
            assert(errors@ =~= old(errors)@ + root_errors(*self, i + 1));
            i = i + 1;
        }
    }

    #[verifier::rlimit(60)]
    #[verifier::spinoff_prover]
    fn push_node_error(&self, i: usize, errors: &mut Vec<ValidationError>)
        requires
            i < self.nodes@.len(),
        ensures
            final(errors)@ == old(errors)@ + node_error(*self, i as int),
    {
        let n = self.nodes.len();
        let node = &self.nodes[i];
        let mut j: usize = 0;
        while j < node.children.len()
            invariant
                i < self.nodes@.len(),
                *node == self.nodes@[i as int],
                j <= node.children@.len(),
                n == self.nodes@.len(),
                errors@ == old(errors)@ + child_errors(*self, i as int, j as int),
            decreases node.children@.len() - j,
        {
            let c = node.children[j];
            push_flag(
                errors,
                (c.0 as usize) >= n,
                ValidationError::DanglingId { location: Location::NodeChild(i, j), id: c.0, arena: Arena::Nodes },
            );
            assert(errors@ =~= old(errors)@ + child_errors(*self, i as int, j + 1));
            j = j + 1;
        }
        let ghost g0 = errors@;
        match node.mesh {
            Some(m) => push_flag(
                errors,
                (m.0 as usize) >= self.meshes.len(),
                ValidationError::DanglingId { location: Location::NodeMesh(i), id: m.0, arena: Arena::Meshes },
            ),
            None => {},
        }
        assert(errors@ =~= g0 + mesh_ref_error(*self, i as int));
        let ghost g1 = errors@;
        match node.camera {
            Some(c) => push_flag(
                errors,
                (c.0 as usize) >= self.cameras,
                ValidationError::DanglingId { location: Location::NodeCamera(i), id: c.0, arena: Arena::Cameras },
            ),
            None => {},
        }
        assert(errors@ =~= g1 + camera_ref_error(*self, i as int));
        let ghost g2 = errors@;
        match node.light {
            Some(l) => push_flag(
                errors,
                (l.0 as usize) >= self.lights,
                ValidationError::DanglingId { location: Location::NodeLight(i), id: l.0, arena: Arena::Lights },
            ),
            None => {},
        }
        assert(errors@ =~= g2 + light_ref_error(*self, i as int));
        let ghost g3 = errors@;
        match node.skin {
            Some(k) => push_flag(
                errors,
                (k.0 as usize) >= self.skins.len(),
                ValidationError::DanglingId { location: Location::NodeSkin(i), id: k.0, arena: Arena::Skins },
            ),
            None => {},
        }
        assert(errors@ =~= g3 + skin_ref_error(*self, i as int));
        let ghost g4 = errors@;
        match node.audio_emitter {
            Some(e) => push_flag(
                errors,
                (e.0 as usize) >= self.audio_emitters.len(),
                ValidationError::DanglingId {
                    location: Location::NodeAudioEmitter(i),
                    id: e.0,
                    arena: Arena::AudioEmitters,
                },
            ),
            None => {},
        }
        assert(errors@ =~= g4 + emitter_ref_error(*self, i as int));
        proof {
            lemma_concat6(
                old(errors)@,
                child_errors(*self, i as int, node.children@.len() as int),
                mesh_ref_error(*self, i as int),
                camera_ref_error(*self, i as int),
                light_ref_error(*self, i as int),
                skin_ref_error(*self, i as int),
                emitter_ref_error(*self, i as int),
            );
        }
    }

    fn push_node_errors(&self, errors: &mut Vec<ValidationError>)
        ensures
            final(errors)@ == old(errors)@ + node_errors(*self, self.nodes@.len() as int),
    {
        let mut i: usize = 0;
        while i < self.nodes.len()
            invariant
                i <= self.nodes@.len(),
                errors@ == old(errors)@ + node_errors(*self, i as int),
            decreases self.nodes@.len() - i,
        {
            self.push_node_error(i, errors);
            assert(errors@ =~= old(errors)@ + node_errors(*self, i + 1));
            i = i + 1;
        }
    }

    #[verifier::rlimit(60)]
    #[verifier::spinoff_prover]
    fn push_prim_error(&self, mi: usize, pi: usize, errors: &mut Vec<ValidationError>)
        requires
            mi < self.meshes@.len(),
            pi < self.meshes@[mi as int].primitives@.len(),
        ensures
            final(errors)@ == old(errors)@ + prim_error(*self, mi as int, pi as int),
    {
        let mesh = &self.meshes[mi];
        let p = &mesh.primitives[pi];
        let n = p.vertex_count;
        let ghost e0 = errors@;
        push_length_error(errors, p.normals, n, Location::Primitive(mi, pi, PrimField::Normals));
        let ghost ea = errors@;
        push_length_error(errors, p.tangents, n, Location::Primitive(mi, pi, PrimField::Tangents));
        let ghost e1 = errors@;
        let mut k: usize = 0;
        while k < p.uvs.len()
            invariant
                mi < self.meshes@.len(),
                pi < self.meshes@[mi as int].primitives@.len(),
                *p == prim_of(*self, mi as int, pi as int),
                n == p.vertex_count,
                k <= p.uvs@.len(),
                errors@ == e1 + uv_errors(*self, mi as int, pi as int, k as int),
            decreases p.uvs@.len() - k,
        {
            push_length_error(errors, Some(p.uvs[k]), n, Location::Primitive(mi, pi, PrimField::Uvs(k)));
            assert(errors@ =~= e1 + uv_errors(*self, mi as int, pi as int, k + 1));
            k = k + 1;
        }
        let ghost e2 = errors@;
        k = 0;
        while k < p.colors.len()
            invariant
                mi < self.meshes@.len(),
                pi < self.meshes@[mi as int].primitives@.len(),
                *p == prim_of(*self, mi as int, pi as int),
                n == p.vertex_count,
                k <= p.colors@.len(),
                errors@ == e2 + color_errors(*self, mi as int, pi as int, k as int),
            decreases p.colors@.len() - k,
        {
            push_length_error(errors, Some(p.colors[k]), n, Location::Primitive(mi, pi, PrimField::Colors(k)));
            assert(errors@ =~= e2 + color_errors(*self, mi as int, pi as int, k + 1));
            k = k + 1;
        }
        let ghost e3 = errors@;
        push_length_error(errors, p.joints, n, Location::Primitive(mi, pi, PrimField::Joints));
        let ghost eb = errors@;
        push_length_error(errors, p.weights, n, Location::Primitive(mi, pi, PrimField::Weights));
        let ghost ec = errors@;
        match &p.indices {
            Some(ix) => {
                let limit = #[verifier::truncate] (n as u32);
                let bad = any_index_at_least(ix, limit);
                push_flag(
                    errors,
                    bad,
                    ValidationError::IndexOutOfRange {
                        location: Location::Primitive(mi, pi, PrimField::Indices),
                        vertex_count: n,
                    },
                );
            },
            None => {},
        }
        assert(errors@ =~= ec + index_error(*self, mi as int, pi as int));
        let ghost ed = errors@;
        match p.material {
            Some(m) => push_flag(
                errors,
                (m.0 as usize) >= self.materials.len(),
                ValidationError::DanglingId {
                    location: Location::Primitive(mi, pi, PrimField::Material),
                    id: m.0,
                    arena: Arena::Materials,
                },
            ),
            None => {},
        }
        assert(errors@ =~= ed + prim_material_error(*self, mi as int, pi as int));
        let ghost e4 = errors@;
        let mut t: usize = 0;
        while t < p.targets.len()
            invariant
                mi < self.meshes@.len(),
                pi < self.meshes@[mi as int].primitives@.len(),
                *p == prim_of(*self, mi as int, pi as int),
                n == p.vertex_count,
                t <= p.targets@.len(),
                errors@ == e4 + target_errors(*self, mi as int, pi as int, t as int),
            decreases p.targets@.len() - t,
        {
            let tg = p.targets[t];
            let ghost b = errors@;
            push_length_error(errors, tg.position, n, Location::Primitive(mi, pi, PrimField::TargetPosition(t)));
            push_length_error(errors, tg.normal, n, Location::Primitive(mi, pi, PrimField::TargetNormal(t)));
            push_length_error(errors, tg.tangent, n, Location::Primitive(mi, pi, PrimField::TargetTangent(t)));
            assert(errors@ =~= b + target_error(*self, mi as int, pi as int, t as int));
            assert(errors@ =~= e4 + target_errors(*self, mi as int, pi as int, t + 1));
            t = t + 1;
        }
        let w = mesh.weights;
        push_flag(
            errors,
            w != 0 && p.targets.len() != w,
            ValidationError::MorphWeightCountMismatch {
                location: Location::Primitive(mi, pi, PrimField::Targets),
                mesh_weights: w,
                primitive_targets: p.targets.len(),
            },
        );
        proof {
            let ps = prim_of(*self, mi as int, pi as int);
            lemma_concat10(
                e0,
                length_error(ps.normals, n, ploc(mi as int, pi as int, PrimField::Normals)),
                length_error(ps.tangents, n, ploc(mi as int, pi as int, PrimField::Tangents)),
                uv_errors(*self, mi as int, pi as int, ps.uvs@.len() as int),
                color_errors(*self, mi as int, pi as int, ps.colors@.len() as int),
                length_error(ps.joints, n, ploc(mi as int, pi as int, PrimField::Joints)),
                length_error(ps.weights, n, ploc(mi as int, pi as int, PrimField::Weights)),
                index_error(*self, mi as int, pi as int),
                prim_material_error(*self, mi as int, pi as int),
                target_errors(*self, mi as int, pi as int, ps.targets@.len() as int),
                weight_count_error(*self, mi as int, pi as int),
            );
        }
    }

    fn push_mesh_errors(&self, errors: &mut Vec<ValidationError>)
        ensures
            final(errors)@ == old(errors)@ + mesh_errors(*self, self.meshes@.len() as int),
    {
        let mut mi: usize = 0;
        while mi < self.meshes.len()
            invariant
                mi <= self.meshes@.len(),
                errors@ == old(errors)@ + mesh_errors(*self, mi as int),
            decreases self.meshes@.len() - mi,
        {
            let ghost b = errors@;
            let mut pi: usize = 0;
            while pi < self.meshes[mi].primitives.len()
                invariant
                    mi < self.meshes@.len(),
                    pi <= self.meshes@[mi as int].primitives@.len(),
                    errors@ == b + prim_errors(*self, mi as int, pi as int),
                decreases self.meshes@[mi as int].primitives@.len() - pi,
            {
                self.push_prim_error(mi, pi, errors);
                assert(errors@ =~= b + prim_errors(*self, mi as int, pi + 1));
                pi = pi + 1;
            }
            assert(errors@ =~= old(errors)@ + mesh_errors(*self, mi + 1));
            mi = mi + 1;
        }
    }

    fn push_slot_error(&self, mi: usize, slot: TextureSlot, r: Option<TextureRef>, errors: &mut Vec<ValidationError>)
        ensures
            final(errors)@ == old(errors)@ + slot_error(*self, mi as int, slot, r),
    {
        match r {
            Some(t) => push_flag(
                errors,
                (t.texture.0 as usize) >= self.textures,
                ValidationError::DanglingId {
                    location: Location::MaterialSlot(mi, slot),
                    id: t.texture.0,
                    arena: Arena::Textures,
                },
            ),
            None => {
                assert(errors@ =~= old(errors)@ + slot_error(*self, mi as int, slot, r));
            },
        }
    }

    #[verifier::rlimit(60)]
    #[verifier::spinoff_prover]
    fn push_material_errors(&self, errors: &mut Vec<ValidationError>)
        ensures
            final(errors)@ == old(errors)@ + material_errors(*self, self.materials@.len() as int),
    {
        let mut mi: usize = 0;
        while mi < self.materials.len()
            invariant
                mi <= self.materials@.len(),
                errors@ == old(errors)@ + material_errors(*self, mi as int),
            decreases self.materials@.len() - mi,
        {
            let m = self.materials[mi];
            let ghost b = errors@;
            self.push_slot_error(mi, TextureSlot::BaseColor, m.base_color_texture, errors);
            self.push_slot_error(mi, TextureSlot::MetallicRoughness, m.metallic_roughness_texture, errors);
            self.push_slot_error(mi, TextureSlot::Normal, m.normal_texture, errors);
            self.push_slot_error(mi, TextureSlot::Occlusion, m.occlusion_texture, errors);
            self.push_slot_error(mi, TextureSlot::Emissive, m.emissive_texture, errors);
            assert(errors@ =~= b + material_error(*self, mi as int));
            assert(errors@ =~= old(errors)@ + material_errors(*self, mi + 1));
            mi = mi + 1;
        }
    }

    fn push_skeleton_error(&self, si: usize, errors: &mut Vec<ValidationError>)
        requires
            si < self.skeletons@.len(),
        ensures
            final(errors)@ == old(errors)@ + skeleton_error(*self, si as int),
    {
        let sk = &self.skeletons[si];
        let n = self.nodes.len();
        let ghost e0 = errors@;
        let mut j: usize = 0;
        while j < sk.joints.len()
            invariant
                si < self.skeletons@.len(),
                *sk == self.skeletons@[si as int],
                n == self.nodes@.len(),
                j <= sk.joints@.len(),
                errors@ == e0 + joint_errors(*self, si as int, j as int),
            decreases sk.joints@.len() - j,
        {
            let jn = sk.joints[j];
            push_flag(
                errors,
                (jn.0 as usize) >= n,
                ValidationError::DanglingId { location: Location::SkeletonJoint(si, j), id: jn.0, arena: Arena::Nodes },
            );
            assert(errors@ =~= e0 + joint_errors(*self, si as int, j + 1));
            j = j + 1;
        }
        let nj = sk.joints.len();
        let nb = sk.bind_affine.len();
        push_flag(
            errors,
            nb != 0 && nb != nj,
            ValidationError::SkeletonBindMatrixCountMismatch {
                location: Location::Skeleton(si),
                joints: nj,
                inverse_bind_matrices: nb,
            },
        );
        let ghost e1 = errors@;
        j = 0;
        while j < nb
            invariant
                si < self.skeletons@.len(),
                *sk == self.skeletons@[si as int],
                nb == sk.bind_affine@.len(),
                j <= nb,
                errors@ == e1 + bind_errors(*self, si as int, j as int),
            decreases nb - j,
        {
            push_flag(
                errors,
                !sk.bind_affine[j],
                ValidationError::SkeletonBindMatrixNotAffine { location: Location::SkeletonBindMatrix(si, j) },
            );
            assert(errors@ =~= e1 + bind_errors(*self, si as int, j + 1));
            j = j + 1;
        }
        assert(errors@ =~= e0 + skeleton_error(*self, si as int));
    }

    fn push_skeleton_errors(&self, errors: &mut Vec<ValidationError>)
        ensures
            final(errors)@ == old(errors)@ + skeleton_errors(*self, self.skeletons@.len() as int),
    {
        let mut si: usize = 0;
        while si < self.skeletons.len()
            invariant
                si <= self.skeletons@.len(),
                errors@ == old(errors)@ + skeleton_errors(*self, si as int),
            decreases self.skeletons@.len() - si,
        {
            self.push_skeleton_error(si, errors);
            assert(errors@ =~= old(errors)@ + skeleton_errors(*self, si + 1));
            si = si + 1;
        }
    }

    fn push_skin_and_emitter_errors(&self, errors: &mut Vec<ValidationError>)
        ensures
            final(errors)@ == old(errors)@ + skin_errors(*self, self.skins@.len() as int) + emitter_errors(
                *self,
                self.audio_emitters@.len() as int,
            ),
    {
        let mut si: usize = 0;
        while si < self.skins.len()
            invariant
                si <= self.skins@.len(),
                errors@ == old(errors)@ + skin_errors(*self, si as int),
            decreases self.skins@.len() - si,
        {
            let sk = self.skins[si];
            let ghost b = errors@;
            push_flag(
                errors,
                (sk.skeleton.0 as usize) >= self.skeletons.len(),
                ValidationError::DanglingId {
                    location: Location::SkinSkeleton(si),
                    id: sk.skeleton.0,
                    arena: Arena::Skeletons,
                },
            );
            match sk.root_node {
                Some(r) => push_flag(
                    errors,
                    (r.0 as usize) >= self.nodes.len(),
                    ValidationError::DanglingId { location: Location::SkinRoot(si), id: r.0, arena: Arena::Nodes },
                ),
                None => {},
            }
            assert(errors@ =~= b + skin_error(*self, si as int));
            assert(errors@ =~= old(errors)@ + skin_errors(*self, si + 1));
            si = si + 1;
        }
        let ghost mid = errors@;
        let mut ei: usize = 0;
        while ei < self.audio_emitters.len()
            invariant
                ei <= self.audio_emitters@.len(),
                errors@ == mid + emitter_errors(*self, ei as int),
            decreases self.audio_emitters@.len() - ei,
        {
            let src = self.audio_emitters[ei];
            push_flag(
                errors,
                (src.0 as usize) >= self.audio_sources,
                ValidationError::DanglingId { location: Location::EmitterSource(ei), id: src.0, arena: Arena::AudioSources },
            );
            assert(errors@ =~= mid + emitter_errors(*self, ei + 1));
            ei = ei + 1;
        }
    }

    #[verifier::rlimit(60)]
    #[verifier::spinoff_prover]
    fn push_channel_error(&self, ai: usize, ci: usize, errors: &mut Vec<ValidationError>)
        requires
            ai < self.animations@.len(),
            ci < self.animations@[ai as int]@.len(),
            keyframe_counts_fit(*self),
        ensures
            final(errors)@ == old(errors)@ + channel_error(*self, ai as int, ci as int),
    {
        let c = self.animations[ai][ci];
        let ghost e0 = errors@;
        push_flag(
            errors,
            (c.target.node.0 as usize) >= self.nodes.len(),
            ValidationError::DanglingId {
                location: Location::ChannelTargetNode(ai, ci),
                id: c.target.node.0,
                arena: Arena::Nodes,
            },
        );
        let ghost e1 = errors@;
        if c.keyframes == 0 {
            errors.push(ValidationError::AnimationSamplerEmpty { location: Location::ChannelSampler(ai, ci) });
        } else {
            match c.first_unordered_keyframe {
                Some(q) => {
                    errors.push(
                        ValidationError::AnimationKeyframesNotStrictlyIncreasing {
                            location: Location::ChannelKeyframe(ai, ci, q),
                        },
                    );
                },
                None => {},
            }
        }
        let ghost e2 = errors@;
        let expected = match c.target.property {
            AnimationProperty::Translation | AnimationProperty::Scale => ValueKind::Vec3,
            AnimationProperty::Rotation => ValueKind::Quat,
            AnimationProperty::MorphWeights => ValueKind::Scalar,
        };
        push_flag(
            errors,
            c.values != expected,
            ValidationError::AnimationValueVariantMismatch {
                location: Location::Channel(ai, ci),
                property: c.target.property,
                expected_variant: expected,
                actual_variant: c.values,
            },
        );
        let length_bad = if c.keyframes != 0 {
            assert(3 * self.animations@[ai as int]@[ci as int].keyframes <= usize::MAX);
            let factor: usize = match c.interpolation {
                Interpolation::CubicSpline => 3,
                _ => 1,
            };
            let denom = c.keyframes * factor;
            let ok = match (c.target.property, c.values) {
                (AnimationProperty::MorphWeights, ValueKind::Scalar) => denom != 0 && c.value_count % denom == 0
                    && c.value_count >= denom,
                _ => c.value_count == denom,
            };
            !ok
        } else {
            false
        };
        push_flag(
            errors,
            length_bad,
            ValidationError::AnimationSamplerLengthMismatch {
                location: Location::ChannelSampler(ai, ci),
                keyframes: c.keyframes,
                values: c.value_count,
                interpolation: c.interpolation,
            },
        );
        assert(errors@ =~= e0 + channel_error(*self, ai as int, ci as int));
    }

    fn push_animation_errors(&self, errors: &mut Vec<ValidationError>)
        requires
            keyframe_counts_fit(*self),
        ensures
            final(errors)@ == old(errors)@ + animation_errors(*self, self.animations@.len() as int),
    {
        let mut ai: usize = 0;
        while ai < self.animations.len()
            invariant
                ai <= self.animations@.len(),
                keyframe_counts_fit(*self),
                errors@ == old(errors)@ + animation_errors(*self, ai as int),
            decreases self.animations@.len() - ai,
        {
            let ghost b = errors@;
            let mut ci: usize = 0;
            while ci < self.animations[ai].len()
                invariant
                    ai < self.animations@.len(),
                    keyframe_counts_fit(*self),
                    ci <= self.animations@[ai as int]@.len(),
                    errors@ == b + channel_errors(*self, ai as int, ci as int),
                decreases self.animations@[ai as int]@.len() - ci,
            {
                self.push_channel_error(ai, ci, errors);
                assert(errors@ =~= b + channel_errors(*self, ai as int, ci + 1));
                ci = ci + 1;
            }
            assert(errors@ =~= old(errors)@ + animation_errors(*self, ai + 1));
            ai = ai + 1;
        }
    }

    /// Walk every cross-arena reference and every per-vertex buffer and
    /// report each dangling id and mis-sized buffer; `Ok(())` when there
    /// is none. The walk does not stop at the first problem: the error
    /// list is [`scene_errors`], complete and in walk order.
    pub fn validate(&self) -> (r: Result<(), Vec<ValidationError>>)
        requires
            keyframe_counts_fit(*self),
        ensures
            r is Ok <==> scene_errors(*self).len() == 0,
            r matches Err(e) ==> e@ == scene_errors(*self),
            r is Ok ==> forall|i: int| 0 <= i < self.nodes@.len() ==> #[trigger] node_refs_valid(*self, i),
    {
        proof {
            law_clean_scene_has_valid_node_refs(*self);
        }
        let mut errors: Vec<ValidationError> = Vec::new();
        self.push_root_errors(&mut errors);
        self.push_node_errors(&mut errors);
        self.push_mesh_errors(&mut errors);
        self.push_material_errors(&mut errors);
        self.push_skeleton_errors(&mut errors);
        self.push_skin_and_emitter_errors(&mut errors);
        self.push_animation_errors(&mut errors);
        assert(errors@ =~= scene_errors(*self));
        if errors.len() == 0 {
            Ok(())
        } else {
            Err(errors)
        }
    }
}

/// Every reference held by node `i` — its children and its mesh, camera,
/// light, skin and audio emitter — names an element that exists.
pub open spec fn node_refs_valid(s: SceneRefs, i: int) -> bool {
    let nd = s.nodes@[i];
    &&& forall|j: int| 0 <= j < nd.children@.len() ==> (#[trigger] nd.children@[j]).0 < s.nodes@.len()
    &&& (nd.mesh matches Some(m) ==> m.0 < s.meshes@.len())
    &&& (nd.camera matches Some(c) ==> c.0 < s.cameras)
    &&& (nd.light matches Some(l) ==> l.0 < s.lights)
    &&& (nd.skin matches Some(k) ==> k.0 < s.skins@.len())
    &&& (nd.audio_emitter matches Some(e) ==> e.0 < s.audio_emitters@.len())
}

/// An empty concatenation has every part empty.
proof fn lemma_concat_upto_empty(f: spec_fn(int) -> Seq<ValidationError>, k: int)
    requires
        concat_upto(f, k).len() == 0,
    ensures
        forall|i: int| 0 <= i < k ==> #[trigger] f(i).len() == 0,
    decreases k,
{
    if k > 0 {
        lemma_concat_upto_empty(f, k - 1);
    }
}

/// A scene that validates clean has no dangling node reference: every
/// root, and every child, mesh, camera, light, skin and audio-emitter id a
/// node holds, is below the size of its arena.
pub proof fn law_clean_scene_has_valid_node_refs(s: SceneRefs)
    ensures
        scene_errors(s).len() == 0 ==> forall|i: int| 0 <= i < s.nodes@.len() ==> #[trigger] node_refs_valid(s, i),
        scene_errors(s).len() == 0 ==> forall|r: int| 0 <= r < s.roots@.len() ==> (#[trigger] s.roots@[r]).0 < s.nodes@.len(),
{
    if scene_errors(s).len() == 0 {
        lemma_concat_upto_empty(root_fn(s), s.roots@.len() as int);
        assert forall|r: int| 0 <= r < s.roots@.len() implies (#[trigger] s.roots@[r]).0 < s.nodes@.len() by {
            assert(root_fn(s)(r).len() == 0);
        }
        let ne = node_errors(s, s.nodes@.len() as int);
        assert(ne.len() == 0);
        lemma_concat_upto_empty(node_fn(s), s.nodes@.len() as int);
        assert forall|i: int| 0 <= i < s.nodes@.len() implies #[trigger] node_refs_valid(s, i) by {
            assert(node_fn(s)(i).len() == 0);
            assert(node_error(s, i).len() == 0);
            let nd = s.nodes@[i];
            lemma_concat_upto_empty(child_fn(s, i), nd.children@.len() as int);
            assert forall|j: int| 0 <= j < nd.children@.len() implies (#[trigger] nd.children@[j]).0 < s.nodes@.len() by {
                assert(child_fn(s, i)(j).len() == 0);
                assert(child_error(s, i, j).len() == 0);
            }
            assert(camera_ref_error(s, i).len() == 0);
            assert(mesh_ref_error(s, i).len() == 0);
            assert(light_ref_error(s, i).len() == 0);
            assert(skin_ref_error(s, i).len() == 0);
            assert(emitter_ref_error(s, i).len() == 0);
        }
    }
}

} // verus!
