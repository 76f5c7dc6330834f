use oxideav_mesh3d::animation::{channel_for, flatten_rows, morph_weights, morph_weights_cubic, uniform_stride};
use oxideav_mesh3d::ids::{AnimationProperty, AnimationTarget, Interpolation, NodeId};
use oxideav_mesh3d::scene::{ChannelShape, ValueKind};

fn weights_channel(keyframes: usize, value_count: usize, interpolation: Interpolation) -> ChannelShape {
    ChannelShape {
        target: AnimationTarget { node: NodeId(0), property: AnimationProperty::MorphWeights },
        keyframes,
        first_unordered_keyframe: None,
        values: ValueKind::Scalar,
        value_count,
        interpolation,
    }
}

fn slice_range(values: &[f32], r: (usize, usize)) -> Vec<f32> {
    values[r.0..r.1].to_vec()
}

#[test]
fn stride_of_linear_weights() {
    let c = weights_channel(2, 6, Interpolation::Linear);
    assert_eq!(c.morph_weight_stride(), Some(3));
    assert_eq!(c.morph_weight_frame(0), Some((0, 3)));
    assert_eq!(c.morph_weight_frame(1), Some((3, 6)));
    assert_eq!(c.morph_weight_frame(2), None);
    assert_eq!(c.morph_weight_frames(), Some(vec![(0, 3), (3, 6)]));
    assert_eq!(c.morph_weight_cubic_frame(0), None);
}

#[test]
fn stride_of_cubic_weights() {
    let c = weights_channel(2, 12, Interpolation::CubicSpline);
    assert_eq!(c.morph_weight_stride(), Some(2));
    assert_eq!(c.morph_weight_frame(0), Some((2, 4)));
    assert_eq!(c.morph_weight_frame(1), Some((8, 10)));
    assert_eq!(c.morph_weight_cubic_frame(1), Some([(6, 8), (8, 10), (10, 12)]));
    assert_eq!(c.morph_weight_cubic_frame(2), None);
}

#[test]
fn malformed_weight_tables_have_no_stride() {
    assert_eq!(weights_channel(2, 7, Interpolation::Step).morph_weight_stride(), None);
    assert_eq!(weights_channel(0, 6, Interpolation::Step).morph_weight_stride(), None);
    assert_eq!(weights_channel(2, 0, Interpolation::Step).morph_weight_stride(), None);
    assert_eq!(weights_channel(2, 6, Interpolation::CubicSpline).morph_weight_stride(), Some(1));
    assert_eq!(weights_channel(2, 8, Interpolation::CubicSpline).morph_weight_stride(), None);
    let mut vec3 = weights_channel(2, 6, Interpolation::Linear);
    vec3.values = ValueKind::Vec3;
    assert_eq!(vec3.morph_weight_stride(), None);
    assert_eq!(vec3.morph_weight_frames(), None);
}

#[test]
fn uniform_stride_gate() {
    assert_eq!(uniform_stride(2, true, &vec![vec![3, 3]]), Some(3));
    assert_eq!(uniform_stride(2, false, &vec![vec![3, 3]]), None);
    assert_eq!(uniform_stride(2, true, &vec![vec![3, 2]]), None);
    assert_eq!(uniform_stride(2, true, &vec![vec![3]]), None);
    assert_eq!(uniform_stride(2, true, &vec![vec![0, 0]]), None);
    assert_eq!(uniform_stride(0, true, &vec![vec![]]), None);
    assert_eq!(uniform_stride(1, true, &vec![vec![2], vec![2], vec![3]]), None);
    assert_eq!(uniform_stride(1, true, &Vec::new()), None);
}

#[test]
fn flatten_concatenates_rows() {
    assert_eq!(flatten_rows(&vec![vec![1u8, 2], vec![], vec![3]]), vec![1, 2, 3]);
}

#[test]
fn morph_weights_builds_flat_table() {
    let frames = vec![vec![0.0f32, 0.0], vec![1.0, 0.5]];
    assert_eq!(morph_weights(2, true, &frames, Interpolation::Linear), Some(vec![0.0, 0.0, 1.0, 0.5]));
    assert_eq!(morph_weights(2, true, &frames, Interpolation::CubicSpline), None);
    assert_eq!(morph_weights(3, true, &frames, Interpolation::Step), None);
    assert_eq!(morph_weights(2, false, &frames, Interpolation::Step), None);
}

#[test]
fn morph_weights_read_back_losslessly() {
    let frames = vec![vec![0.25f32, -1.0, 2.0], vec![1.0, 0.5, 0.0], vec![3.0, 3.0, 3.0]];
    let flat = morph_weights(3, true, &frames, Interpolation::Step).expect("uniform frames");
    let c = weights_channel(3, flat.len(), Interpolation::Step);
    let ranges = c.morph_weight_frames().expect("a stride");
    let back: Vec<Vec<f32>> = ranges.into_iter().map(|r| slice_range(&flat, r)).collect();
    assert_eq!(back, frames);
}

#[test]
fn cubic_morph_weights_interleave_and_read_back() {
    let a = vec![vec![1.0f32, 2.0], vec![3.0, 4.0]];
    let v = vec![vec![5.0f32, 6.0], vec![7.0, 8.0]];
    let b = vec![vec![9.0f32, 10.0], vec![11.0, 12.0]];
    let flat = morph_weights_cubic(2, true, &a, &v, &b).expect("uniform tables");
    assert_eq!(flat, vec![1.0, 2.0, 5.0, 6.0, 9.0, 10.0, 3.0, 4.0, 7.0, 8.0, 11.0, 12.0]);
    let c = weights_channel(2, flat.len(), Interpolation::CubicSpline);
    for k in 0..2 {
        let [ra, rv, rb] = c.morph_weight_cubic_frame(k).expect("in range");
        assert_eq!(slice_range(&flat, ra), a[k]);
        assert_eq!(slice_range(&flat, rv), v[k]);
        assert_eq!(slice_range(&flat, rb), b[k]);
        assert_eq!(c.morph_weight_frame(k), Some(rv));
    }
    assert_eq!(morph_weights_cubic(2, true, &a, &v, &vec![vec![1.0f32]]), None);
}

#[test]
fn last_matching_channel_wins() {
    let mut t0 = weights_channel(1, 1, Interpolation::Step);
    t0.target = AnimationTarget { node: NodeId(0), property: AnimationProperty::Translation };
    let mut r1 = t0;
    r1.target = AnimationTarget { node: NodeId(1), property: AnimationProperty::Rotation };
    let channels = vec![t0, r1, t0];
    assert_eq!(channel_for(&channels, NodeId(0), AnimationProperty::Translation), Some(2));
    assert_eq!(channel_for(&channels, NodeId(1), AnimationProperty::Rotation), Some(1));
    assert_eq!(channel_for(&channels, NodeId(1), AnimationProperty::Scale), None);
}
