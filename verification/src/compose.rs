//! Scene composition: splicing every arena of one scene onto the end of
//! another's, with every internal id moved by its arena's offset.
use vstd::prelude::*;
use crate::ids::{
    AnimationTarget, AudioEmitterId, AudioSourceId, CameraId, LightId, MaterialId, MeshId, NodeId, SkeletonId,
    SkinId,
};
use crate::material::{shift_fits, shift_list, MaterialTextures};
use crate::mesh::Indices;
use crate::scene::{ChannelShape, MeshShape, NodeRefs, PrimitiveShape, SceneRefs, SkeletonShape, SkinRefs};
use crate::validate::{
    animation_errors, animation_fn, bind_fn, channel_fn, child_fn, color_fn, concat_upto, emitter_errors, emitter_fn,
    has_index_at_least, index_error, joint_fn, material_errors, material_fn, mesh_errors, mesh_fn, node_errors, node_fn,
    prim_error, prim_fn, prim_material_error, root_errors, root_fn, sampler_length_ok, scene_errors, skeleton_error,
    skeleton_errors, skeleton_fn, skin_errors, skin_fn, target_fn, uv_fn, ValidationError,
};


verus! {

/// Per-arena starting offsets produced by [`SceneRefs::append`]: the
/// length each destination arena had before the append. Source id `i` of
/// a kind now lives at that kind's offset plus `i`.
#[derive(Clone, Copy, Debug, Default, PartialEq, Eq, Structural)]
pub struct AppendOffsets {
    pub nodes: u32,
    pub meshes: u32,
    pub materials: u32,
    pub textures: u32,
    pub skeletons: u32,
    pub skins: u32,
    pub animations: u32,
    pub cameras: u32,
    pub lights: u32,
    pub audio_sources: u32,
    pub audio_emitters: u32,
}

/// An optional id moved by `d`.
pub open spec fn moved_opt(new: Option<u32>, old: Option<u32>, d: u32) -> bool {
    match (new, old) {
        (Some(a), Some(b)) => a == b + d,
        (None, None) => true,
        _ => false,
    }
}

pub open spec fn mesh_raw(o: Option<MeshId>) -> Option<u32> {
    match o {
        Some(x) => Some(x.0),
        None => None,
    }
}

pub open spec fn camera_raw(o: Option<CameraId>) -> Option<u32> {
    match o {
        Some(x) => Some(x.0),
        None => None,
    }
}

pub open spec fn light_raw(o: Option<LightId>) -> Option<u32> {
    match o {
        Some(x) => Some(x.0),
        None => None,
    }
}

pub open spec fn skin_raw(o: Option<SkinId>) -> Option<u32> {
    match o {
        Some(x) => Some(x.0),
        None => None,
    }
}

pub open spec fn emitter_raw(o: Option<AudioEmitterId>) -> Option<u32> {
    match o {
        Some(x) => Some(x.0),
        None => None,
    }
}

pub open spec fn material_raw(o: Option<MaterialId>) -> Option<u32> {
    match o {
        Some(x) => Some(x.0),
        None => None,
    }
}

pub open spec fn node_raw(o: Option<NodeId>) -> Option<u32> {
    match o {
        Some(x) => Some(x.0),
        None => None,
    }
}

/// `new` is node `old` of the appended scene, every id moved into the
/// destination's arenas.
pub open spec fn node_moved(new: NodeRefs, old: NodeRefs, off: AppendOffsets) -> bool {
    &&& new.children@.len() == old.children@.len()
    &&& forall|j: int| 0 <= j < old.children@.len() ==> #[trigger] new.children@[j].0 == old.children@[j].0 + off.nodes
    &&& moved_opt(mesh_raw(new.mesh), mesh_raw(old.mesh), off.meshes)
    &&& moved_opt(camera_raw(new.camera), camera_raw(old.camera), off.cameras)
    &&& moved_opt(light_raw(new.light), light_raw(old.light), off.lights)
    &&& moved_opt(skin_raw(new.skin), skin_raw(old.skin), off.skins)
    &&& moved_opt(emitter_raw(new.audio_emitter), emitter_raw(old.audio_emitter), off.audio_emitters)
}

/// Two index buffers hold the same indices in the same width.
pub open spec fn same_indices(a: Option<Indices>, b: Option<Indices>) -> bool {
    match (a, b) {
        (Some(Indices::U16(x)), Some(Indices::U16(y))) => x@ == y@,
        (Some(Indices::U32(x)), Some(Indices::U32(y))) => x@ == y@,
        (None, None) => true,
        _ => false,
    }
}

/// `new` has the buffers of `old` and its material moved by `d`.
pub open spec fn prim_moved(new: PrimitiveShape, old: PrimitiveShape, d: u32) -> bool {
    &&& new.topology == old.topology
    &&& new.vertex_count == old.vertex_count
    &&& new.normals == old.normals
    &&& new.tangents == old.tangents
    &&& new.uvs@ == old.uvs@
    &&& new.colors@ == old.colors@
    &&& new.joints == old.joints
    &&& new.weights == old.weights
    &&& same_indices(new.indices, old.indices)
    &&& moved_opt(material_raw(new.material), material_raw(old.material), d)
    &&& new.targets@ == old.targets@
}

pub open spec fn mesh_moved(new: MeshShape, old: MeshShape, d: u32) -> bool {
    &&& new.weights == old.weights
    &&& new.primitives@.len() == old.primitives@.len()
    &&& forall|p: int| 0 <= p < old.primitives@.len() ==> prim_moved(#[trigger] new.primitives@[p], old.primitives@[p], d)
}

pub open spec fn skeleton_moved(new: SkeletonShape, old: SkeletonShape, d: u32) -> bool {
    &&& new.joints@.len() == old.joints@.len()
    &&& forall|j: int| 0 <= j < old.joints@.len() ==> #[trigger] new.joints@[j].0 == old.joints@[j].0 + d
    &&& new.bind_affine@ == old.bind_affine@
}

pub open spec fn skin_moved(new: SkinRefs, old: SkinRefs, off: AppendOffsets) -> bool {
    &&& new.skeleton.0 == old.skeleton.0 + off.skeletons
    &&& moved_opt(node_raw(new.root_node), node_raw(old.root_node), off.nodes)
}

pub open spec fn channels_moved(new: Seq<ChannelShape>, old: Seq<ChannelShape>, d: u32) -> bool {
    &&& new.len() == old.len()
    &&& forall|c: int|
        0 <= c < old.len() ==> {
            let (n, o) = (#[trigger] new[c], old[c]);
            &&& n.target.node.0 == o.target.node.0 + d
            &&& n.target.property == o.target.property
            &&& n.keyframes == o.keyframes
            &&& n.first_unordered_keyframe == o.first_unordered_keyframe
            &&& n.values == o.values
            &&& n.value_count == o.value_count
            &&& n.interpolation == o.interpolation
        }
}

/// Every id of `other` stays inside the `u32` id space when moved by the
/// lengths of `s`'s arenas, and the combined arenas fit in memory.
pub open spec fn append_fits(s: SceneRefs, o: SceneRefs) -> bool {
    &&& s.nodes@.len() + o.nodes@.len() <= u32::MAX
    &&& s.meshes@.len() + o.meshes@.len() <= u32::MAX
    &&& s.materials@.len() + o.materials@.len() <= u32::MAX
    &&& s.textures + o.textures <= u32::MAX
    &&& s.skeletons@.len() + o.skeletons@.len() <= u32::MAX
    &&& s.skins@.len() + o.skins@.len() <= u32::MAX
    &&& s.animations@.len() + o.animations@.len() <= u32::MAX
    &&& s.cameras + o.cameras <= u32::MAX
    &&& s.lights + o.lights <= u32::MAX
    &&& s.audio_sources + o.audio_sources <= u32::MAX
    &&& s.audio_emitters@.len() + o.audio_emitters@.len() <= u32::MAX
    &&& s.roots@.len() + o.roots@.len() <= usize::MAX
    &&& forall|i: int| 0 <= i < o.roots@.len() ==> #[trigger] o.roots@[i].0 + s.nodes@.len() <= u32::MAX
    &&& forall|i: int|
        0 <= i < o.nodes@.len() ==> {
            let n = #[trigger] o.nodes@[i];
            &&& forall|j: int| 0 <= j < n.children@.len() ==> #[trigger] n.children@[j].0 + s.nodes@.len() <= u32::MAX
            &&& n.mesh matches Some(m) ==> m.0 + s.meshes@.len() <= u32::MAX
            &&& n.camera matches Some(c) ==> c.0 + s.cameras <= u32::MAX
            &&& n.light matches Some(l) ==> l.0 + s.lights <= u32::MAX
            &&& n.skin matches Some(k) ==> k.0 + s.skins@.len() <= u32::MAX
            &&& n.audio_emitter matches Some(e) ==> e.0 + s.audio_emitters@.len() <= u32::MAX
        }
    &&& forall|m: int, p: int|
        0 <= m < o.meshes@.len() && 0 <= p < o.meshes@[m].primitives@.len() ==> ((
        #[trigger] o.meshes@[m].primitives@[p]).material matches Some(x) ==> x.0 + s.materials@.len() <= u32::MAX)
    &&& forall|m: int| 0 <= m < o.materials@.len() ==> shift_fits(#[trigger] o.materials@[m], s.textures as u32)
    &&& forall|k: int, j: int|
        0 <= k < o.skeletons@.len() && 0 <= j < o.skeletons@[k].joints@.len() ==> (
        #[trigger] o.skeletons@[k].joints@[j]).0 + s.nodes@.len() <= u32::MAX
    &&& forall|k: int|
        0 <= k < o.skins@.len() ==> (#[trigger] o.skins@[k]).skeleton.0 + s.skeletons@.len() <= u32::MAX && (
        o.skins@[k].root_node matches Some(r) ==> r.0 + s.nodes@.len() <= u32::MAX)
    &&& forall|a: int, c: int|
        0 <= a < o.animations@.len() && 0 <= c < o.animations@[a]@.len() ==> (
        #[trigger] o.animations@[a]@[c]).target.node.0 + s.nodes@.len() <= u32::MAX
    &&& forall|e: int| 0 <= e < o.audio_emitters@.len() ==> (#[trigger] o.audio_emitters@[e]).0 + s.audio_sources <= u32::MAX
}

/// Copy a vector of plain values.
fn copy_vec<T: Copy>(v: &Vec<T>) -> (r: Vec<T>)
    ensures
        r@ == v@,
{
    let mut r: Vec<T> = Vec::new();
    let mut i: usize = 0;
    while i < v.len()
        invariant
            i <= v@.len(),
            r@ == v@.take(i as int),
        decreases v@.len() - i,
    {
        r.push(v[i]);
        assert(r@ =~= v@.take(i + 1));
        i = i + 1;
    }
    assert(v@.take(v@.len() as int) =~= v@);
    r
}

/// Copy an index buffer, keeping its width.
fn copy_indices(ix: &Option<Indices>) -> (r: Option<Indices>)
    ensures
        same_indices(r, *ix),
{
    match ix {
        Some(Indices::U16(v)) => Some(Indices::U16(copy_vec(v))),
        Some(Indices::U32(v)) => Some(Indices::U32(copy_vec(v))),
        None => None,
    }
}

/// Node ids moved by `d`.
fn move_node_ids(v: &Vec<NodeId>, d: u32) -> (r: Vec<NodeId>)
    requires
        forall|j: int| 0 <= j < v@.len() ==> #[trigger] v@[j].0 + d <= u32::MAX,
    ensures
        r@.len() == v@.len(),
        forall|j: int| 0 <= j < v@.len() ==> #[trigger] r@[j].0 == v@[j].0 + d,
{
    let mut r: Vec<NodeId> = Vec::new();
    let mut j: usize = 0;
    while j < v.len()
        invariant
            j <= v@.len(),
            forall|q: int| 0 <= q < v@.len() ==> #[trigger] v@[q].0 + d <= u32::MAX,
            r@.len() == j,
            forall|q: int| 0 <= q < j ==> #[trigger] r@[q].0 == v@[q].0 + d,
        decreases v@.len() - j,
    {
        r.push(NodeId(v[j].0 + d));
        j = j + 1;
    }
    r
}

/// `n`'s ids stay inside the `u32` id space when moved by `off`.
pub open spec fn node_fits(n: NodeRefs, off: AppendOffsets) -> bool {
    &&& forall|j: int| 0 <= j < n.children@.len() ==> #[trigger] n.children@[j].0 + off.nodes <= u32::MAX
    &&& n.mesh matches Some(m) ==> m.0 + off.meshes <= u32::MAX
    &&& n.camera matches Some(c) ==> c.0 + off.cameras <= u32::MAX
    &&& n.light matches Some(l) ==> l.0 + off.lights <= u32::MAX
    &&& n.skin matches Some(k) ==> k.0 + off.skins <= u32::MAX
    &&& n.audio_emitter matches Some(e) ==> e.0 + off.audio_emitters <= u32::MAX
}

fn move_opt_mesh(o: Option<MeshId>, d: u32) -> (r: Option<MeshId>)
    requires
        o matches Some(x) ==> x.0 + d <= u32::MAX,
    ensures
        moved_opt(mesh_raw(r), mesh_raw(o), d),
{
    match o {
        Some(x) => Some(MeshId(x.0 + d)),
        None => None,
    }
}

fn move_opt_camera(o: Option<CameraId>, d: u32) -> (r: Option<CameraId>)
    requires
        o matches Some(x) ==> x.0 + d <= u32::MAX,
    ensures
        moved_opt(camera_raw(r), camera_raw(o), d),
{
    match o {
        Some(x) => Some(CameraId(x.0 + d)),
        None => None,
    }
}

fn move_opt_light(o: Option<LightId>, d: u32) -> (r: Option<LightId>)
    requires
        o matches Some(x) ==> x.0 + d <= u32::MAX,
    ensures
        moved_opt(light_raw(r), light_raw(o), d),
{
    match o {
        Some(x) => Some(LightId(x.0 + d)),
        None => None,
    }
}

fn move_opt_skin(o: Option<SkinId>, d: u32) -> (r: Option<SkinId>)
    requires
        o matches Some(x) ==> x.0 + d <= u32::MAX,
    ensures
        moved_opt(skin_raw(r), skin_raw(o), d),
{
    match o {
        Some(x) => Some(SkinId(x.0 + d)),
        None => None,
    }
}

fn move_opt_emitter(o: Option<AudioEmitterId>, d: u32) -> (r: Option<AudioEmitterId>)
    requires
        o matches Some(x) ==> x.0 + d <= u32::MAX,
    ensures
        moved_opt(emitter_raw(r), emitter_raw(o), d),
{
    match o {
        Some(x) => Some(AudioEmitterId(x.0 + d)),
        None => None,
    }
}

fn move_opt_material(o: Option<MaterialId>, d: u32) -> (r: Option<MaterialId>)
    requires
        o matches Some(x) ==> x.0 + d <= u32::MAX,
    ensures
        moved_opt(material_raw(r), material_raw(o), d),
{
    match o {
        Some(x) => Some(MaterialId(x.0 + d)),
        None => None,
    }
}

fn move_opt_node(o: Option<NodeId>, d: u32) -> (r: Option<NodeId>)
    requires
        o matches Some(x) ==> x.0 + d <= u32::MAX,
    ensures
        moved_opt(node_raw(r), node_raw(o), d),
{
    match o {
        Some(x) => Some(NodeId(x.0 + d)),
        None => None,
    }
}

fn extend_nodes(dst: &mut Vec<NodeRefs>, src: &Vec<NodeRefs>, off: AppendOffsets)
    requires
        forall|i: int| 0 <= i < src@.len() ==> node_fits(#[trigger] src@[i], off),
    ensures
        final(dst)@.len() == old(dst)@.len() + src@.len(),
        forall|i: int| 0 <= i < old(dst)@.len() ==> #[trigger] final(dst)@[i] == old(dst)@[i],
        forall|i: int|
            0 <= i < src@.len() ==> node_moved(#[trigger] final(dst)@[old(dst)@.len() + i], src@[i], off),
{
    let base = dst.len();
    let mut i: usize = 0;
    while i < src.len()
        invariant
            base == old(dst)@.len(),
            i <= src@.len(),
            dst@.len() == base + i,
            forall|q: int| 0 <= q < src@.len() ==> node_fits(#[trigger] src@[q], off),
            forall|q: int| 0 <= q < base ==> #[trigger] dst@[q] == old(dst)@[q],
            forall|q: int| 0 <= q < i ==> node_moved(#[trigger] dst@[base + q], src@[q], off),
        decreases src@.len() - i,
    {
        let n = &src[i];
        assert(node_fits(src@[i as int], off));
        let moved = NodeRefs {
            children: move_node_ids(&n.children, off.nodes),
            mesh: move_opt_mesh(n.mesh, off.meshes),
            camera: move_opt_camera(n.camera, off.cameras),
            light: move_opt_light(n.light, off.lights),
            skin: move_opt_skin(n.skin, off.skins),
            audio_emitter: move_opt_emitter(n.audio_emitter, off.audio_emitters),
        };
        dst.push(moved);
        i = i + 1;
    }
}

/// The primitives of `m` can have their materials moved by `d`.
pub open spec fn mesh_fits(m: MeshShape, d: u32) -> bool {
    forall|p: int|
        0 <= p < m.primitives@.len() ==> ((#[trigger] m.primitives@[p]).material matches Some(x) ==> x.0 + d <= u32::MAX)
}

fn move_mesh(m: &MeshShape, d: u32) -> (r: MeshShape)
    requires
        mesh_fits(*m, d),
    ensures
        mesh_moved(r, *m, d),
{
    let mut prims: Vec<PrimitiveShape> = Vec::new();
    let mut p: usize = 0;
    while p < m.primitives.len()
        invariant
            p <= m.primitives@.len(),
            mesh_fits(*m, d),
            prims@.len() == p,
            forall|q: int| 0 <= q < p ==> prim_moved(#[trigger] prims@[q], m.primitives@[q], d),
        decreases m.primitives@.len() - p,
    {
        let src = &m.primitives[p];
        assert(src.material matches Some(x) ==> x.0 + d <= u32::MAX);
        prims.push(
            PrimitiveShape {
                topology: src.topology,
                vertex_count: src.vertex_count,
                normals: src.normals,
                tangents: src.tangents,
                uvs: copy_vec(&src.uvs),
                colors: copy_vec(&src.colors),
                joints: src.joints,
                weights: src.weights,
                indices: copy_indices(&src.indices),
                material: move_opt_material(src.material, d),
                targets: copy_vec(&src.targets),
            },
        );
        p = p + 1;
    }
    MeshShape { weights: m.weights, primitives: prims }
}

fn extend_meshes(dst: &mut Vec<MeshShape>, src: &Vec<MeshShape>, d: u32)
    requires
        forall|i: int| 0 <= i < src@.len() ==> mesh_fits(#[trigger] src@[i], d),
    ensures
        final(dst)@.len() == old(dst)@.len() + src@.len(),
        forall|i: int| 0 <= i < old(dst)@.len() ==> #[trigger] final(dst)@[i] == old(dst)@[i],
        forall|i: int| 0 <= i < src@.len() ==> mesh_moved(#[trigger] final(dst)@[old(dst)@.len() + i], src@[i], d),
{
    let base = dst.len();
    let mut i: usize = 0;
    while i < src.len()
        invariant
            base == old(dst)@.len(),
            i <= src@.len(),
            dst@.len() == base + i,
            forall|q: int| 0 <= q < src@.len() ==> mesh_fits(#[trigger] src@[q], d),
            forall|q: int| 0 <= q < base ==> #[trigger] dst@[q] == old(dst)@[q],
            forall|q: int| 0 <= q < i ==> mesh_moved(#[trigger] dst@[base + q], src@[q], d),
        decreases src@.len() - i,
    {
        assert(mesh_fits(src@[i as int], d));
        dst.push(move_mesh(&src[i], d));
        i = i + 1;
    }
}

fn extend_materials(dst: &mut Vec<MaterialTextures>, src: &Vec<MaterialTextures>, d: u32)
    requires
        forall|i: int| 0 <= i < src@.len() ==> shift_fits(#[trigger] src@[i], d),
    ensures
        final(dst)@.len() == old(dst)@.len() + src@.len(),
        forall|i: int| 0 <= i < old(dst)@.len() ==> #[trigger] final(dst)@[i] == old(dst)@[i],
        forall|i: int|
            0 <= i < src@.len() ==> (#[trigger] final(dst)@[old(dst)@.len() + i]).slots() == shift_list(
                src@[i].slots(),
                d,
            ),
{
    let base = dst.len();
    let mut i: usize = 0;
    while i < src.len()
        invariant
            base == old(dst)@.len(),
            i <= src@.len(),
            dst@.len() == base + i,
            forall|q: int| 0 <= q < src@.len() ==> shift_fits(#[trigger] src@[q], d),
            forall|q: int| 0 <= q < base ==> #[trigger] dst@[q] == old(dst)@[q],
            forall|q: int| 0 <= q < i ==> (#[trigger] dst@[base + q]).slots() == shift_list(src@[q].slots(), d),
        decreases src@.len() - i,
    {
        assert(shift_fits(src@[i as int], d));
        dst.push(src[i].shift_texture_ids(d));
        i = i + 1;
    }
}

/// The joints of `k` can be moved by `d`.
pub open spec fn skeleton_fits(k: SkeletonShape, d: u32) -> bool {
    forall|j: int| 0 <= j < k.joints@.len() ==> #[trigger] k.joints@[j].0 + d <= u32::MAX
}

fn extend_skeletons(dst: &mut Vec<SkeletonShape>, src: &Vec<SkeletonShape>, d: u32)
    requires
        forall|i: int| 0 <= i < src@.len() ==> skeleton_fits(#[trigger] src@[i], d),
    ensures
        final(dst)@.len() == old(dst)@.len() + src@.len(),
        forall|i: int| 0 <= i < old(dst)@.len() ==> #[trigger] final(dst)@[i] == old(dst)@[i],
        forall|i: int|
            0 <= i < src@.len() ==> skeleton_moved(#[trigger] final(dst)@[old(dst)@.len() + i], src@[i], d),
{
    let base = dst.len();
    let mut i: usize = 0;
    while i < src.len()
        invariant
            base == old(dst)@.len(),
            i <= src@.len(),
            dst@.len() == base + i,
            forall|q: int| 0 <= q < src@.len() ==> skeleton_fits(#[trigger] src@[q], d),
            forall|q: int| 0 <= q < base ==> #[trigger] dst@[q] == old(dst)@[q],
            forall|q: int| 0 <= q < i ==> skeleton_moved(#[trigger] dst@[base + q], src@[q], d),
        decreases src@.len() - i,
    {
        assert(skeleton_fits(src@[i as int], d));
        let k = &src[i];
        dst.push(SkeletonShape { joints: move_node_ids(&k.joints, d), bind_affine: copy_vec(&k.bind_affine) });
        i = i + 1;
    }
}

/// The ids of skin `k` can be moved by `off`.
pub open spec fn skin_fits(k: SkinRefs, off: AppendOffsets) -> bool {
    &&& k.skeleton.0 + off.skeletons <= u32::MAX
    &&& k.root_node matches Some(r) ==> r.0 + off.nodes <= u32::MAX
}

fn extend_skins(dst: &mut Vec<SkinRefs>, src: &Vec<SkinRefs>, off: AppendOffsets)
    requires
        forall|i: int| 0 <= i < src@.len() ==> skin_fits(#[trigger] src@[i], off),
    ensures
        final(dst)@.len() == old(dst)@.len() + src@.len(),
        forall|i: int| 0 <= i < old(dst)@.len() ==> #[trigger] final(dst)@[i] == old(dst)@[i],
        forall|i: int| 0 <= i < src@.len() ==> skin_moved(#[trigger] final(dst)@[old(dst)@.len() + i], src@[i], off),
{
    let base = dst.len();
    let mut i: usize = 0;
    while i < src.len()
        invariant
            base == old(dst)@.len(),
            i <= src@.len(),
            dst@.len() == base + i,
            forall|q: int| 0 <= q < src@.len() ==> skin_fits(#[trigger] src@[q], off),
            forall|q: int| 0 <= q < base ==> #[trigger] dst@[q] == old(dst)@[q],
            forall|q: int| 0 <= q < i ==> skin_moved(#[trigger] dst@[base + q], src@[q], off),
        decreases src@.len() - i,
    {
        let k = src[i];
        assert(skin_fits(src@[i as int], off));
        dst.push(SkinRefs { skeleton: SkeletonId(k.skeleton.0 + off.skeletons), root_node: move_opt_node(k.root_node, off.nodes) });
        i = i + 1;
    }
}

/// The channel targets of an animation can be moved by `d`.
pub open spec fn channels_fit(c: Seq<ChannelShape>, d: u32) -> bool {
    forall|k: int| 0 <= k < c.len() ==> (#[trigger] c[k]).target.node.0 + d <= u32::MAX
}

fn extend_animations(dst: &mut Vec<Vec<ChannelShape>>, src: &Vec<Vec<ChannelShape>>, d: u32)
    requires
        forall|i: int| 0 <= i < src@.len() ==> channels_fit((#[trigger] src@[i])@, d),
    ensures
        final(dst)@.len() == old(dst)@.len() + src@.len(),
        forall|i: int| 0 <= i < old(dst)@.len() ==> #[trigger] final(dst)@[i] == old(dst)@[i],
        forall|i: int|
            0 <= i < src@.len() ==> channels_moved((#[trigger] final(dst)@[old(dst)@.len() + i])@, src@[i]@, d),
{
    let base = dst.len();
    let mut i: usize = 0;
    while i < src.len()
        invariant
            base == old(dst)@.len(),
            i <= src@.len(),
            dst@.len() == base + i,
            forall|q: int| 0 <= q < src@.len() ==> channels_fit((#[trigger] src@[q])@, d),
            forall|q: int| 0 <= q < base ==> #[trigger] dst@[q] == old(dst)@[q],
            forall|q: int| 0 <= q < i ==> channels_moved((#[trigger] dst@[base + q])@, src@[q]@, d),
        decreases src@.len() - i,
    {
        let chans = &src[i];
        assert(channels_fit(src@[i as int]@, d));
        let mut out: Vec<ChannelShape> = Vec::new();
        let mut c: usize = 0;
        while c < chans.len()
            invariant
                c <= chans@.len(),
                channels_fit(chans@, d),
                out@.len() == c,
                channels_moved(out@, chans@.take(c as int), d),
            decreases chans@.len() - c,
        {
            let ch = chans[c];
            assert((chans@[c as int]).target.node.0 + d <= u32::MAX);
            out.push(
                ChannelShape {
                    target: AnimationTarget { node: NodeId(ch.target.node.0 + d), property: ch.target.property },
                    keyframes: ch.keyframes,
                    first_unordered_keyframe: ch.first_unordered_keyframe,
                    values: ch.values,
                    value_count: ch.value_count,
                    interpolation: ch.interpolation,
                },
            );
            c = c + 1;
            assert forall|k: int| 0 <= k < c implies #[trigger] chans@.take(c as int)[k] == chans@[k] by {}
        }
        assert(chans@.take(chans@.len() as int) =~= chans@);
        dst.push(out);
        i = i + 1;
    }
}

fn extend_sources(dst: &mut Vec<AudioSourceId>, src: &Vec<AudioSourceId>, d: u32)
    requires
        forall|i: int| 0 <= i < src@.len() ==> (#[trigger] src@[i]).0 + d <= u32::MAX,
    ensures
        final(dst)@.len() == old(dst)@.len() + src@.len(),
        forall|i: int| 0 <= i < old(dst)@.len() ==> #[trigger] final(dst)@[i] == old(dst)@[i],
        forall|i: int| 0 <= i < src@.len() ==> #[trigger] final(dst)@[old(dst)@.len() + i].0 == src@[i].0 + d,
{
    let base = dst.len();
    let mut i: usize = 0;
    while i < src.len()
        invariant
            base == old(dst)@.len(),
            i <= src@.len(),
            dst@.len() == base + i,
            forall|q: int| 0 <= q < src@.len() ==> (#[trigger] src@[q]).0 + d <= u32::MAX,
            forall|q: int| 0 <= q < base ==> #[trigger] dst@[q] == old(dst)@[q],
            forall|q: int| 0 <= q < i ==> #[trigger] dst@[base + q].0 == src@[q].0 + d,
        decreases src@.len() - i,
    {
        dst.push(AudioSourceId(src[i].0 + d));
        i = i + 1;
    }
}

fn extend_roots(dst: &mut Vec<NodeId>, src: &Vec<NodeId>, d: u32)
    requires
        old(dst)@.len() + src@.len() <= usize::MAX,
        forall|i: int| 0 <= i < src@.len() ==> (#[trigger] src@[i]).0 + d <= u32::MAX,
    ensures
        final(dst)@.len() == old(dst)@.len() + src@.len(),
        forall|i: int| 0 <= i < old(dst)@.len() ==> #[trigger] final(dst)@[i] == old(dst)@[i],
        forall|i: int| 0 <= i < src@.len() ==> #[trigger] final(dst)@[old(dst)@.len() + i].0 == src@[i].0 + d,
{
    let base = dst.len();
    let mut i: usize = 0;
    while i < src.len()
        invariant
            base == old(dst)@.len(),
            i <= src@.len(),
            dst@.len() == base + i,
            forall|q: int| 0 <= q < src@.len() ==> (#[trigger] src@[q]).0 + d <= u32::MAX,
            forall|q: int| 0 <= q < base ==> #[trigger] dst@[q] == old(dst)@[q],
            forall|q: int| 0 <= q < i ==> #[trigger] dst@[base + q].0 == src@[q].0 + d,
        decreases src@.len() - i,
    {
        dst.push(NodeId(src[i].0 + d));
        i = i + 1;
    }
}

/// `new` is `a` with every arena of `b` appended and `b`'s ids moved by
/// the offsets `off`, which are `a`'s arena lengths.
pub open spec fn appended(new: SceneRefs, a: SceneRefs, b: SceneRefs, off: AppendOffsets) -> bool {
    &&& off.nodes == a.nodes@.len()
    &&& off.meshes == a.meshes@.len()
    &&& off.materials == a.materials@.len()
    &&& off.textures == a.textures
    &&& off.skeletons == a.skeletons@.len()
    &&& off.skins == a.skins@.len()
    &&& off.animations == a.animations@.len()
    &&& off.cameras == a.cameras
    &&& off.lights == a.lights
    &&& off.audio_sources == a.audio_sources
    &&& off.audio_emitters == a.audio_emitters@.len()
    &&& new.textures == a.textures + b.textures
    &&& new.cameras == a.cameras + b.cameras
    &&& new.lights == a.lights + b.lights
    &&& new.audio_sources == a.audio_sources + b.audio_sources
    &&& new.nodes@.len() == a.nodes@.len() + b.nodes@.len()
    &&& forall|i: int| 0 <= i < a.nodes@.len() ==> #[trigger] new.nodes@[i] == a.nodes@[i]
    &&& forall|i: int| 0 <= i < b.nodes@.len() ==> node_moved(#[trigger] new.nodes@[a.nodes@.len() + i], b.nodes@[i], off)
    &&& new.roots@.len() == a.roots@.len() + b.roots@.len()
    &&& forall|i: int| 0 <= i < a.roots@.len() ==> #[trigger] new.roots@[i] == a.roots@[i]
    &&& forall|i: int| 0 <= i < b.roots@.len() ==> #[trigger] new.roots@[a.roots@.len() + i].0 == b.roots@[i].0 + off.nodes
    &&& new.meshes@.len() == a.meshes@.len() + b.meshes@.len()
    &&& forall|i: int| 0 <= i < a.meshes@.len() ==> #[trigger] new.meshes@[i] == a.meshes@[i]
    &&& forall|i: int| 0 <= i < b.meshes@.len() ==> mesh_moved(#[trigger] new.meshes@[a.meshes@.len() + i], b.meshes@[i], off.materials)
    &&& new.materials@.len() == a.materials@.len() + b.materials@.len()
    &&& forall|i: int| 0 <= i < a.materials@.len() ==> #[trigger] new.materials@[i] == a.materials@[i]
    &&& forall|i: int| 0 <= i < b.materials@.len() ==> (#[trigger] new.materials@[a.materials@.len() + i]).slots() == shift_list(b.materials@[i].slots(), off.textures)
    &&& new.skeletons@.len() == a.skeletons@.len() + b.skeletons@.len()
    &&& forall|i: int| 0 <= i < a.skeletons@.len() ==> #[trigger] new.skeletons@[i] == a.skeletons@[i]
    &&& forall|i: int| 0 <= i < b.skeletons@.len() ==> skeleton_moved(#[trigger] new.skeletons@[a.skeletons@.len() + i], b.skeletons@[i], off.nodes)
    &&& new.skins@.len() == a.skins@.len() + b.skins@.len()
    &&& forall|i: int| 0 <= i < a.skins@.len() ==> #[trigger] new.skins@[i] == a.skins@[i]
    &&& forall|i: int| 0 <= i < b.skins@.len() ==> skin_moved(#[trigger] new.skins@[a.skins@.len() + i], b.skins@[i], off)
    &&& new.animations@.len() == a.animations@.len() + b.animations@.len()
    &&& forall|i: int| 0 <= i < a.animations@.len() ==> #[trigger] new.animations@[i] == a.animations@[i]
    &&& forall|i: int| 0 <= i < b.animations@.len() ==> channels_moved( (#[trigger] new.animations@[a.animations@.len() + i])@, b.animations@[i]@, off.nodes)
    &&& new.audio_emitters@.len() == a.audio_emitters@.len() + b.audio_emitters@.len()
    &&& forall|i: int| 0 <= i < a.audio_emitters@.len() ==> #[trigger] new.audio_emitters@[i] == a.audio_emitters@[i]
    &&& forall|i: int| 0 <= i < b.audio_emitters@.len() ==> #[trigger] new.audio_emitters@[a.audio_emitters@.len() + i].0 == b.audio_emitters@[i].0 + off.audio_sources
}

impl SceneRefs {
    /// Append every arena of `other` onto `self`, moving each internal id
    /// of the appended entries by its arena's offset, and return the
    /// offsets. `other`'s roots, moved, follow `self`'s; textures,
    /// cameras, lights and audio sources carry no ids and only add to the
    /// counts.
    pub fn append(&mut self, other: &SceneRefs) -> (off: AppendOffsets)
        requires
            append_fits(*old(self), *other),
        ensures
            appended(*final(self), *old(self), *other, off),
    {
        let off = AppendOffsets {
            nodes: self.nodes.len() as u32,
            meshes: self.meshes.len() as u32,
            materials: self.materials.len() as u32,
            textures: self.textures as u32,
            skeletons: self.skeletons.len() as u32,
            skins: self.skins.len() as u32,
            animations: self.animations.len() as u32,
            cameras: self.cameras as u32,
            lights: self.lights as u32,
            audio_sources: self.audio_sources as u32,
            audio_emitters: self.audio_emitters.len() as u32,
        };
        proof {
            assert forall|i: int| 0 <= i < other.nodes@.len() implies node_fits(#[trigger] other.nodes@[i], off) by {
                let n = other.nodes@[i];
                assert forall|j: int| 0 <= j < n.children@.len() implies #[trigger] n.children@[j].0 + off.nodes
                    <= u32::MAX by {}
            }
            assert forall|i: int| 0 <= i < other.meshes@.len() implies mesh_fits(#[trigger] other.meshes@[i], off.materials) by {
                assert forall|p: int| 0 <= p < other.meshes@[i].primitives@.len() implies ((
                #[trigger] other.meshes@[i].primitives@[p]).material matches Some(x) ==> x.0 + off.materials <= u32::MAX) by {}
            }
            assert forall|i: int| 0 <= i < other.skeletons@.len() implies skeleton_fits(#[trigger] other.skeletons@[i], off.nodes) by {
                assert forall|j: int| 0 <= j < other.skeletons@[i].joints@.len() implies #[trigger] other.skeletons@[i].joints@[j].0
                    + off.nodes <= u32::MAX by {}
            }
            assert forall|i: int| 0 <= i < other.skins@.len() implies skin_fits(#[trigger] other.skins@[i], off) by {}
            assert forall|i: int| 0 <= i < other.animations@.len() implies channels_fit((#[trigger] other.animations@[i])@, off.nodes) by {
                assert forall|k: int| 0 <= k < other.animations@[i]@.len() implies (#[trigger] other.animations@[i]@[k]).target.node.0
                    + off.nodes <= u32::MAX by {}
            }
        }
        extend_nodes(&mut self.nodes, &other.nodes, off);
        extend_meshes(&mut self.meshes, &other.meshes, off.materials);
        extend_materials(&mut self.materials, &other.materials, off.textures);
        self.textures = self.textures + other.textures;
        extend_skeletons(&mut self.skeletons, &other.skeletons, off.nodes);
        extend_skins(&mut self.skins, &other.skins, off);
        extend_animations(&mut self.animations, &other.animations, off.nodes);
        self.cameras = self.cameras + other.cameras;
        self.lights = self.lights + other.lights;
        self.audio_sources = self.audio_sources + other.audio_sources;
        extend_sources(&mut self.audio_emitters, &other.audio_emitters, off.audio_sources);
        extend_roots(&mut self.roots, &other.roots, off.nodes);
        off
    }
}

/// The errors of items `0..k` are none exactly when each item has none.
proof fn lemma_concat_empty(f: spec_fn(int) -> Seq<ValidationError>, k: int)
    ensures
        concat_upto(f, k).len() == 0 <==> forall|i: int| 0 <= i < k ==> #[trigger] f(i).len() == 0,
    decreases k,
{
    if k > 0 {
        lemma_concat_empty(f, k - 1);
    }
}

proof fn lemma_roots_ok(new: SceneRefs, a: SceneRefs, b: SceneRefs, off: AppendOffsets)
    requires
        appended(new, a, b, off),
        root_errors(a, a.roots@.len() as int).len() == 0,
        root_errors(b, b.roots@.len() as int).len() == 0,
    ensures
        root_errors(new, new.roots@.len() as int).len() == 0,
{
    lemma_concat_empty(root_fn(a), a.roots@.len() as int);
    lemma_concat_empty(root_fn(b), b.roots@.len() as int);
    assert forall|i: int| 0 <= i < new.roots@.len() implies #[trigger] root_fn(new)(i).len() == 0 by {
        if i < a.roots@.len() {
            assert(root_fn(a)(i).len() == 0);
            assert(new.roots@[i] == a.roots@[i]);
        } else {
            let j = i - a.roots@.len();
            assert(root_fn(b)(j).len() == 0);
            assert(new.roots@[a.roots@.len() + j].0 == b.roots@[j].0 + off.nodes);
        }
    }
    lemma_concat_empty(root_fn(new), new.roots@.len() as int);
}

proof fn lemma_nodes_ok(new: SceneRefs, a: SceneRefs, b: SceneRefs, off: AppendOffsets)
    requires
        appended(new, a, b, off),
        node_errors(a, a.nodes@.len() as int).len() == 0,
        node_errors(b, b.nodes@.len() as int).len() == 0,
    ensures
        node_errors(new, new.nodes@.len() as int).len() == 0,
{
    lemma_concat_empty(node_fn(a), a.nodes@.len() as int);
    lemma_concat_empty(node_fn(b), b.nodes@.len() as int);
    assert forall|i: int| 0 <= i < new.nodes@.len() implies #[trigger] node_fn(new)(i).len() == 0 by {
        if i < a.nodes@.len() {
            assert(node_fn(a)(i).len() == 0);
            let n = a.nodes@[i];
            assert(new.nodes@[i] == n);
            lemma_concat_empty(child_fn(a, i), n.children@.len() as int);
            assert forall|j: int| 0 <= j < n.children@.len() implies #[trigger] child_fn(new, i)(j).len() == 0 by {
                assert(child_fn(a, i)(j).len() == 0);
            }
            lemma_concat_empty(child_fn(new, i), n.children@.len() as int);
        } else {
            let q = i - a.nodes@.len();
            assert(node_fn(b)(q).len() == 0);
            let n = b.nodes@[q];
            let m = new.nodes@[a.nodes@.len() + q];
            assert(node_moved(m, n, off));
            lemma_concat_empty(child_fn(b, q), n.children@.len() as int);
            assert forall|j: int| 0 <= j < m.children@.len() implies #[trigger] child_fn(new, i)(j).len() == 0 by {
                assert(child_fn(b, q)(j).len() == 0);
                assert(m.children@[j].0 == n.children@[j].0 + off.nodes);
            }
            lemma_concat_empty(child_fn(new, i), m.children@.len() as int);
        }
    }
    lemma_concat_empty(node_fn(new), new.nodes@.len() as int);
}

proof fn lemma_prim_ok(new: SceneRefs, old: SceneRefs, mi: int, pi: int, nmi: int, d: u32)
    requires
        0 <= mi < old.meshes@.len(),
        0 <= pi < old.meshes@[mi].primitives@.len(),
        0 <= nmi < new.meshes@.len(),
        prim_moved(new.meshes@[nmi].primitives@[pi], old.meshes@[mi].primitives@[pi], d),
        new.meshes@[nmi].weights == old.meshes@[mi].weights,
        new.meshes@[nmi].primitives@.len() == old.meshes@[mi].primitives@.len(),
        prim_error(old, mi, pi).len() == 0,
        old.meshes@[mi].primitives@[pi].material matches Some(x) ==> x.0 + d < new.materials@.len(),
    ensures
        prim_error(new, nmi, pi).len() == 0,
{
    let p = old.meshes@[mi].primitives@[pi];
    let q = new.meshes@[nmi].primitives@[pi];
    lemma_concat_empty(uv_fn(old, mi, pi), p.uvs@.len() as int);
    assert forall|k: int| 0 <= k < q.uvs@.len() implies #[trigger] uv_fn(new, nmi, pi)(k).len() == 0 by {
        assert(uv_fn(old, mi, pi)(k).len() == 0);
    }
    lemma_concat_empty(uv_fn(new, nmi, pi), q.uvs@.len() as int);
    lemma_concat_empty(color_fn(old, mi, pi), p.colors@.len() as int);
    assert forall|k: int| 0 <= k < q.colors@.len() implies #[trigger] color_fn(new, nmi, pi)(k).len() == 0 by {
        assert(color_fn(old, mi, pi)(k).len() == 0);
    }
    lemma_concat_empty(color_fn(new, nmi, pi), q.colors@.len() as int);
    lemma_concat_empty(target_fn(old, mi, pi), p.targets@.len() as int);
    assert forall|t: int| 0 <= t < q.targets@.len() implies #[trigger] target_fn(new, nmi, pi)(t).len() == 0 by {
        assert(target_fn(old, mi, pi)(t).len() == 0);
    }
    lemma_concat_empty(target_fn(new, nmi, pi), q.targets@.len() as int);
    assert(index_error(new, nmi, pi).len() == 0) by {
        if let Some(ix) = q.indices {
            assert(index_error(old, mi, pi).len() == 0);
            let ox = p.indices->0;
            assert(ix@ == ox@);
            assert(has_index_at_least(ix, q.vertex_count as u32) == has_index_at_least(ox, p.vertex_count as u32));
        }
    }
}

proof fn lemma_meshes_ok(new: SceneRefs, a: SceneRefs, b: SceneRefs, off: AppendOffsets)
    requires
        appended(new, a, b, off),
        mesh_errors(a, a.meshes@.len() as int).len() == 0,
        mesh_errors(b, b.meshes@.len() as int).len() == 0,
    ensures
        mesh_errors(new, new.meshes@.len() as int).len() == 0,
{
    lemma_concat_empty(mesh_fn(a), a.meshes@.len() as int);
    lemma_concat_empty(mesh_fn(b), b.meshes@.len() as int);
    assert forall|mi: int| 0 <= mi < new.meshes@.len() implies #[trigger] mesh_fn(new)(mi).len() == 0 by {
        if mi < a.meshes@.len() {
            let m = a.meshes@[mi];
            assert(new.meshes@[mi] == m);
            assert(mesh_fn(a)(mi).len() == 0);
            lemma_concat_empty(prim_fn(a, mi), m.primitives@.len() as int);
            assert forall|pi: int| 0 <= pi < m.primitives@.len() implies #[trigger] prim_fn(new, mi)(pi).len() == 0 by {
                assert(prim_fn(a, mi)(pi).len() == 0);
                let p = m.primitives@[pi];
                assert(prim_moved(p, p, 0)) by {
                    assert(same_indices(p.indices, p.indices)) by {
                        match p.indices {
                            Some(Indices::U16(x)) => {},
                            Some(Indices::U32(x)) => {},
                            None => {},
                        }
                    }
                }
                assert(prim_material_error(a, mi, pi).len() == 0);
                lemma_prim_ok(new, a, mi, pi, mi, 0);
            }
            lemma_concat_empty(prim_fn(new, mi), m.primitives@.len() as int);
        } else {
            let k = mi - a.meshes@.len();
            let m = b.meshes@[k];
            let nm = new.meshes@[a.meshes@.len() + k];
            assert(mesh_moved(nm, m, off.materials));
            assert(mesh_fn(b)(k).len() == 0);
            lemma_concat_empty(prim_fn(b, k), m.primitives@.len() as int);
            assert forall|pi: int| 0 <= pi < nm.primitives@.len() implies #[trigger] prim_fn(new, mi)(pi).len() == 0 by {
                assert(prim_fn(b, k)(pi).len() == 0);
                assert(prim_moved(nm.primitives@[pi], m.primitives@[pi], off.materials));
                assert(prim_material_error(b, k, pi).len() == 0);
                lemma_prim_ok(new, b, k, pi, mi, off.materials);
            }
            lemma_concat_empty(prim_fn(new, mi), nm.primitives@.len() as int);
        }
    }
    lemma_concat_empty(mesh_fn(new), new.meshes@.len() as int);
}

/// The core slots of a material whose slot list was shifted are the
/// shifted core slots.
proof fn lemma_shift_core(nm: MaterialTextures, om: MaterialTextures, d: u32)
    requires
        nm.slots() == shift_list(om.slots(), d),
    ensures
        nm.base_color_texture == crate::material::shifted(om.base_color_texture, d),
        nm.metallic_roughness_texture == crate::material::shifted(om.metallic_roughness_texture, d),
        nm.normal_texture == crate::material::shifted(om.normal_texture, d),
        nm.occlusion_texture == crate::material::shifted(om.occlusion_texture, d),
        nm.emissive_texture == crate::material::shifted(om.emissive_texture, d),
{
    assert(nm.slots()[0].1 == nm.base_color_texture);
    assert(om.slots()[0].1 == om.base_color_texture);
    assert(nm.slots()[1].1 == nm.metallic_roughness_texture);
    assert(om.slots()[1].1 == om.metallic_roughness_texture);
    assert(nm.slots()[2].1 == nm.normal_texture);
    assert(om.slots()[2].1 == om.normal_texture);
    assert(nm.slots()[3].1 == nm.occlusion_texture);
    assert(om.slots()[3].1 == om.occlusion_texture);
    assert(nm.slots()[4].1 == nm.emissive_texture);
    assert(om.slots()[4].1 == om.emissive_texture);
}

proof fn lemma_materials_ok(new: SceneRefs, a: SceneRefs, b: SceneRefs, off: AppendOffsets)
    requires
        appended(new, a, b, off),
        material_errors(a, a.materials@.len() as int).len() == 0,
        material_errors(b, b.materials@.len() as int).len() == 0,
    ensures
        material_errors(new, new.materials@.len() as int).len() == 0,
{
    lemma_concat_empty(material_fn(a), a.materials@.len() as int);
    lemma_concat_empty(material_fn(b), b.materials@.len() as int);
    assert forall|mi: int| 0 <= mi < new.materials@.len() implies #[trigger] material_fn(new)(mi).len() == 0 by {
        if mi < a.materials@.len() {
            assert(material_fn(a)(mi).len() == 0);
            assert(new.materials@[mi] == a.materials@[mi]);
        } else {
            let k = mi - a.materials@.len();
            assert(material_fn(b)(k).len() == 0);
            let om = b.materials@[k];
            let nm = new.materials@[a.materials@.len() + k];
            lemma_shift_core(nm, om, off.textures);
        }
    }
    lemma_concat_empty(material_fn(new), new.materials@.len() as int);
}

proof fn lemma_skeleton_ok(new: SceneRefs, src: SceneRefs, k: int, si: int, d: u32)
    requires
        0 <= k < src.skeletons@.len(),
        0 <= si < new.skeletons@.len(),
        new.skeletons@[si].joints@.len() == src.skeletons@[k].joints@.len(),
        new.skeletons@[si].bind_affine@ == src.skeletons@[k].bind_affine@,
        forall|j: int|
            0 <= j < src.skeletons@[k].joints@.len() ==> #[trigger] new.skeletons@[si].joints@[j].0
                == src.skeletons@[k].joints@[j].0 + d,
        src.nodes@.len() + d <= new.nodes@.len(),
        skeleton_error(src, k).len() == 0,
    ensures
        skeleton_error(new, si).len() == 0,
{
    let os = src.skeletons@[k];
    let ns = new.skeletons@[si];
    lemma_concat_empty(joint_fn(src, k), os.joints@.len() as int);
    assert forall|j: int| 0 <= j < ns.joints@.len() implies #[trigger] joint_fn(new, si)(j).len() == 0 by {
        assert(joint_fn(src, k)(j).len() == 0);
    }
    lemma_concat_empty(joint_fn(new, si), ns.joints@.len() as int);
    lemma_concat_empty(bind_fn(src, k), os.bind_affine@.len() as int);
    assert forall|j: int| 0 <= j < ns.bind_affine@.len() implies #[trigger] bind_fn(new, si)(j).len() == 0 by {
        assert(bind_fn(src, k)(j).len() == 0);
    }
    lemma_concat_empty(bind_fn(new, si), ns.bind_affine@.len() as int);
}

proof fn lemma_skeletons_ok(new: SceneRefs, a: SceneRefs, b: SceneRefs, off: AppendOffsets)
    requires
        appended(new, a, b, off),
        skeleton_errors(a, a.skeletons@.len() as int).len() == 0,
        skeleton_errors(b, b.skeletons@.len() as int).len() == 0,
    ensures
        skeleton_errors(new, new.skeletons@.len() as int).len() == 0,
{
    lemma_concat_empty(skeleton_fn(a), a.skeletons@.len() as int);
    lemma_concat_empty(skeleton_fn(b), b.skeletons@.len() as int);
    assert forall|si: int| 0 <= si < new.skeletons@.len() implies #[trigger] skeleton_fn(new)(si).len() == 0 by {
        if si < a.skeletons@.len() {
            assert(skeleton_fn(a)(si).len() == 0);
            assert(new.skeletons@[si] == a.skeletons@[si]);
            lemma_skeleton_ok(new, a, si, si, 0);
        } else {
            let k = si - a.skeletons@.len();
            assert(skeleton_fn(b)(k).len() == 0);
            assert(skeleton_moved(new.skeletons@[a.skeletons@.len() + k], b.skeletons@[k], off.nodes));
            lemma_skeleton_ok(new, b, k, si, off.nodes);
        }
    }
    lemma_concat_empty(skeleton_fn(new), new.skeletons@.len() as int);
}

proof fn lemma_skins_emitters_ok(new: SceneRefs, a: SceneRefs, b: SceneRefs, off: AppendOffsets)
    requires
        appended(new, a, b, off),
        skin_errors(a, a.skins@.len() as int).len() == 0,
        skin_errors(b, b.skins@.len() as int).len() == 0,
        emitter_errors(a, a.audio_emitters@.len() as int).len() == 0,
        emitter_errors(b, b.audio_emitters@.len() as int).len() == 0,
    ensures
        skin_errors(new, new.skins@.len() as int).len() == 0,
        emitter_errors(new, new.audio_emitters@.len() as int).len() == 0,
{
    lemma_concat_empty(skin_fn(a), a.skins@.len() as int);
    lemma_concat_empty(skin_fn(b), b.skins@.len() as int);
    assert forall|si: int| 0 <= si < new.skins@.len() implies #[trigger] skin_fn(new)(si).len() == 0 by {
        if si < a.skins@.len() {
            assert(skin_fn(a)(si).len() == 0);
            assert(new.skins@[si] == a.skins@[si]);
        } else {
            let k = si - a.skins@.len();
            assert(skin_fn(b)(k).len() == 0);
            assert(skin_moved(new.skins@[a.skins@.len() + k], b.skins@[k], off));
        }
    }
    lemma_concat_empty(skin_fn(new), new.skins@.len() as int);
    lemma_concat_empty(emitter_fn(a), a.audio_emitters@.len() as int);
    lemma_concat_empty(emitter_fn(b), b.audio_emitters@.len() as int);
    assert forall|ei: int| 0 <= ei < new.audio_emitters@.len() implies #[trigger] emitter_fn(new)(ei).len() == 0 by {
        if ei < a.audio_emitters@.len() {
            assert(emitter_fn(a)(ei).len() == 0);
            assert(new.audio_emitters@[ei] == a.audio_emitters@[ei]);
        } else {
            let k = ei - a.audio_emitters@.len();
            assert(emitter_fn(b)(k).len() == 0);
            assert(new.audio_emitters@[a.audio_emitters@.len() + k].0 == b.audio_emitters@[k].0 + off.audio_sources);
        }
    }
    lemma_concat_empty(emitter_fn(new), new.audio_emitters@.len() as int);
}

proof fn lemma_channel_ok(new: SceneRefs, src: SceneRefs, ai: int, k: int, ci: int, d: u32)
    requires
        0 <= k < src.animations@.len(),
        0 <= ai < new.animations@.len(),
        channels_moved(new.animations@[ai]@, src.animations@[k]@, d),
        0 <= ci < src.animations@[k]@.len(),
        src.nodes@.len() + d <= new.nodes@.len(),
        crate::validate::channel_error(src, k, ci).len() == 0,
    ensures
        crate::validate::channel_error(new, ai, ci).len() == 0,
{
    let (n, o) = (new.animations@[ai]@[ci], src.animations@[k]@[ci]);
    assert(n.target.node.0 == o.target.node.0 + d);
    assert(sampler_length_ok(n) == sampler_length_ok(o));
}

proof fn lemma_animations_ok(new: SceneRefs, a: SceneRefs, b: SceneRefs, off: AppendOffsets)
    requires
        appended(new, a, b, off),
        animation_errors(a, a.animations@.len() as int).len() == 0,
        animation_errors(b, b.animations@.len() as int).len() == 0,
    ensures
        animation_errors(new, new.animations@.len() as int).len() == 0,
{
    lemma_concat_empty(animation_fn(a), a.animations@.len() as int);
    lemma_concat_empty(animation_fn(b), b.animations@.len() as int);
    assert forall|ai: int| 0 <= ai < new.animations@.len() implies #[trigger] animation_fn(new)(ai).len() == 0 by {
        if ai < a.animations@.len() {
            let ch = a.animations@[ai]@;
            assert(new.animations@[ai] == a.animations@[ai]);
            assert(animation_fn(a)(ai).len() == 0);
            lemma_concat_empty(channel_fn(a, ai), ch.len() as int);
            assert forall|ci: int| 0 <= ci < ch.len() implies #[trigger] channel_fn(new, ai)(ci).len() == 0 by {
                assert(channel_fn(a, ai)(ci).len() == 0);
            }
            lemma_concat_empty(channel_fn(new, ai), ch.len() as int);
        } else {
            let k = ai - a.animations@.len();
            let ch = b.animations@[k]@;
            let nch = new.animations@[a.animations@.len() + k]@;
            assert(channels_moved(nch, ch, off.nodes));
            assert(animation_fn(b)(k).len() == 0);
            lemma_concat_empty(channel_fn(b, k), ch.len() as int);
            assert forall|ci: int| 0 <= ci < nch.len() implies #[trigger] channel_fn(new, ai)(ci).len() == 0 by {
                assert(channel_fn(b, k)(ci).len() == 0);
                lemma_channel_ok(new, b, ai, k, ci, off.nodes);
            }
            lemma_concat_empty(channel_fn(new, ai), nch.len() as int);
        }
    }
    lemma_concat_empty(animation_fn(new), new.animations@.len() as int);
}

/// Appending a consistent scene to a consistent scene gives a consistent
/// scene: every relocated id lands inside the relocated block of its
/// arena, so the moved resources still reference each other and only each
/// other, and nothing already there is disturbed.
pub proof fn law_append_keeps_valid(new: SceneRefs, a: SceneRefs, b: SceneRefs, off: AppendOffsets)
    requires
        appended(new, a, b, off),
        scene_errors(a).len() == 0,
        scene_errors(b).len() == 0,
    ensures
        scene_errors(new).len() == 0,
{
    lemma_roots_ok(new, a, b, off);
    lemma_nodes_ok(new, a, b, off);
    lemma_meshes_ok(new, a, b, off);
    lemma_materials_ok(new, a, b, off);
    lemma_skeletons_ok(new, a, b, off);
    lemma_skins_emitters_ok(new, a, b, off);
    lemma_animations_ok(new, a, b, off);
}

} // verus!
