//! Arena ids, coordinate metadata, and the small plain enums shared by the
//! scene model.
use vstd::prelude::*;

verus! {

/// Index into the scene's node arena.
#[derive(Clone, Copy, Debug, PartialEq, Eq, Hash, PartialOrd, Ord, Structural)]
pub struct NodeId(pub u32);

/// Index into the scene's mesh arena.
#[derive(Clone, Copy, Debug, PartialEq, Eq, Hash, PartialOrd, Ord, Structural)]
pub struct MeshId(pub u32);

/// Index into the scene's material arena.
#[derive(Clone, Copy, Debug, PartialEq, Eq, Hash, PartialOrd, Ord, Structural)]
pub struct MaterialId(pub u32);

/// Index into the scene's texture arena.
#[derive(Clone, Copy, Debug, PartialEq, Eq, Hash, PartialOrd, Ord, Structural)]
pub struct TextureId(pub u32);

/// Index into the scene's skeleton arena.
#[derive(Clone, Copy, Debug, PartialEq, Eq, Hash, PartialOrd, Ord, Structural)]
pub struct SkeletonId(pub u32);

/// Index into the scene's skin arena.
#[derive(Clone, Copy, Debug, PartialEq, Eq, Hash, PartialOrd, Ord, Structural)]
pub struct SkinId(pub u32);

/// Index into the scene's camera arena.
#[derive(Clone, Copy, Debug, PartialEq, Eq, Hash, PartialOrd, Ord, Structural)]
pub struct CameraId(pub u32);

/// Index into the scene's light arena.
#[derive(Clone, Copy, Debug, PartialEq, Eq, Hash, PartialOrd, Ord, Structural)]
pub struct LightId(pub u32);

/// Index into the scene's audio-source arena.
#[derive(Clone, Copy, Debug, PartialEq, Eq, Hash, PartialOrd, Ord, Structural)]
pub struct AudioSourceId(pub u32);

/// Index into the scene's audio-emitter arena.
#[derive(Clone, Copy, Debug, PartialEq, Eq, Hash, PartialOrd, Ord, Structural)]
pub struct AudioEmitterId(pub u32);

/// Coordinate-system principal axis.
#[derive(Clone, Copy, Debug, PartialEq, Eq, Structural)]
pub enum Axis {
    PosX,
    NegX,
    PosY,
    NegY,
    PosZ,
    NegZ,
}

/// Linear unit a single coordinate-space 1.0 represents in the file.
#[derive(Clone, Copy, Debug, PartialEq, Eq, Structural)]
pub enum Unit {
    Metres,
    Centimetres,
    Millimetres,
    Inches,
    Feet,
    Yards,
}

/// Acoustic-modelling regime the renderer should apply.
#[derive(Clone, Copy, Debug, PartialEq, Eq, Structural)]
pub enum AuralMode {
    /// Panning + distance attenuation only.
    SpatialNonAcoustic,
    /// Full acoustic modelling: HRTF, occlusion, reverb.
    SpatialAcoustic,
}

/// Distance-attenuation curve of a spatial audio emitter.
#[derive(Clone, Copy, Debug, PartialEq, Eq, Structural)]
pub enum DistanceModel {
    Linear,
    Inverse,
    Exponential,
}

/// Property of a node that an animation channel drives.
#[derive(Clone, Copy, Debug, PartialEq, Eq, Structural)]
pub enum AnimationProperty {
    Translation,
    Rotation,
    Scale,
    /// Per-morph-target weight vector.
    MorphWeights,
}

/// What an animation channel writes to.
#[derive(Clone, Copy, Debug, PartialEq, Eq, Structural)]
pub struct AnimationTarget {
    pub node: NodeId,
    pub property: AnimationProperty,
}

/// How values between keyframes are interpolated.
#[derive(Clone, Copy, Debug, PartialEq, Eq, Structural)]
pub enum Interpolation {
    /// Hold the previous keyframe's value until the next one.
    Step,
    /// Linear interpolation.
    Linear,
    /// glTF cubic spline: each keyframe stores `(in_tangent, value, out_tangent)`.
    CubicSpline,
}

/// Reference to one texture along with the UV set of the consuming
/// primitive that samples it.
#[derive(Clone, Copy, Debug, PartialEq, Eq, Structural)]
pub struct TextureRef {
    pub texture: TextureId,
    pub uv_set: u32,
}

impl TextureRef {
    /// Bind a texture to UV set 0 (the most common case).
    pub fn new(texture: TextureId) -> (r: Self)
        ensures
            r.texture == texture,
            r.uv_set == 0,
    {
        TextureRef { texture, uv_set: 0 }
    }
}

} // verus!
