use oxideav_mesh3d::compose::AppendOffsets;
use oxideav_mesh3d::ids::{AudioSourceId, MaterialId, MeshId, NodeId, SkeletonId, SkinId, TextureId, TextureRef};
use oxideav_mesh3d::material::MaterialTextures;
use oxideav_mesh3d::mesh::{Indices, Topology};
use oxideav_mesh3d::scene::{MeshShape, NodeRefs, PrimitiveShape, SceneRefs, SkeletonShape, SkinRefs};
use oxideav_mesh3d::validate::{Arena, Location, PrimField, ValidationError};

fn plain_node(children: Vec<u32>) -> NodeRefs {
    NodeRefs {
        children: children.into_iter().map(NodeId).collect(),
        mesh: None,
        camera: None,
        light: None,
        skin: None,
        audio_emitter: None,
    }
}

fn triangle_prim(vertex_count: usize, indices: Option<Indices>, material: Option<MaterialId>) -> PrimitiveShape {
    PrimitiveShape {
        topology: Topology::Triangles,
        vertex_count,
        normals: None,
        tangents: None,
        uvs: Vec::new(),
        colors: Vec::new(),
        joints: None,
        weights: None,
        indices,
        material,
        targets: Vec::new(),
    }
}

/// 0 → [1, 2], 1 → [3]; root 0.
fn small_tree() -> SceneRefs {
    let mut s = SceneRefs::new();
    s.add_node(plain_node(vec![1, 2]));
    s.add_node(plain_node(vec![3]));
    s.add_node(plain_node(vec![]));
    s.add_node(plain_node(vec![]));
    s.add_root(NodeId(0));
    s
}

#[test]
fn add_returns_sequential_ids() {
    let mut s = SceneRefs::new();
    assert_eq!(s.add_node(plain_node(vec![])), NodeId(0));
    assert_eq!(s.add_node(plain_node(vec![])), NodeId(1));
    assert_eq!(s.add_mesh(MeshShape { weights: 0, primitives: Vec::new() }), MeshId(0));
    assert_eq!(s.add_material(MaterialTextures::new()), MaterialId(0));
    assert_eq!(s.add_texture(), TextureId(0));
    assert_eq!(s.add_texture(), TextureId(1));
    assert_eq!(s.add_skeleton(SkeletonShape { joints: Vec::new(), bind_affine: Vec::new() }), SkeletonId(0));
    assert_eq!(s.add_skin(SkinRefs { skeleton: SkeletonId(0), root_node: None }), SkinId(0));
    assert_eq!(s.add_animation(Vec::new()), 0);
    assert_eq!(s.add_audio_source(), AudioSourceId(0));
    assert_eq!(s.add_audio_emitter(AudioSourceId(0)).0, 0);
    assert_eq!(s.add_camera().0, 0);
    assert_eq!(s.add_light().0, 0);
    assert_eq!(s.nodes.len(), 2);
    assert_eq!(s.textures, 2);
}

#[test]
fn parents_of_small_tree() {
    let s = small_tree();
    assert_eq!(s.parents(), vec![None, Some(NodeId(0)), Some(NodeId(0)), Some(NodeId(1))]);
}

#[test]
fn root_reached_as_child_stays_a_root_in_parents() {
    let mut s = SceneRefs::new();
    s.add_node(plain_node(vec![1]));
    s.add_node(plain_node(vec![]));
    s.add_root(NodeId(0));
    s.add_root(NodeId(1));
    assert_eq!(s.parents(), vec![None, None]);
}

#[test]
fn ancestors_run_root_first() {
    let s = small_tree();
    assert_eq!(s.ancestors(NodeId(3)), vec![NodeId(0), NodeId(1)]);
    assert_eq!(s.ancestors(NodeId(0)), Vec::<NodeId>::new());
    assert_eq!(s.ancestors(NodeId(9)), Vec::<NodeId>::new());
}

#[test]
fn ancestor_is_proper() {
    let s = small_tree();
    assert!(s.is_ancestor_of(NodeId(0), NodeId(3)));
    assert!(s.is_ancestor_of(NodeId(1), NodeId(3)));
    assert!(!s.is_ancestor_of(NodeId(3), NodeId(3)));
    assert!(!s.is_ancestor_of(NodeId(2), NodeId(3)));
}

#[test]
fn descendants_in_depth_first_order() {
    let s = small_tree();
    assert_eq!(s.descendants(NodeId(0)), vec![NodeId(0), NodeId(1), NodeId(3), NodeId(2)]);
    assert_eq!(s.descendants(NodeId(1)), vec![NodeId(1), NodeId(3)]);
    assert_eq!(s.descendants(NodeId(7)), Vec::<NodeId>::new());
}

#[test]
fn cycle_terminates_in_descendants() {
    let mut s = SceneRefs::new();
    s.add_node(plain_node(vec![1]));
    s.add_node(plain_node(vec![0, 5]));
    s.add_root(NodeId(0));
    assert_eq!(s.descendants(NodeId(0)), vec![NodeId(0), NodeId(1)]);
    assert_eq!(s.parents(), vec![None, Some(NodeId(0))]);
}

#[test]
fn world_walk_of_small_tree() {
    let s = small_tree();
    assert_eq!(
        s.world_walk(),
        vec![
            (NodeId(0), None),
            (NodeId(1), Some(NodeId(0))),
            (NodeId(3), Some(NodeId(1))),
            (NodeId(2), Some(NodeId(0))),
        ]
    );
}

#[test]
fn world_walk_reaches_later_root_through_ancestor() {
    let mut s = SceneRefs::new();
    s.add_node(plain_node(vec![1]));
    s.add_node(plain_node(vec![]));
    s.add_node(plain_node(vec![]));
    s.add_root(NodeId(0));
    s.add_root(NodeId(1));
    s.add_root(NodeId(8));
    assert_eq!(s.world_walk(), vec![(NodeId(0), None), (NodeId(1), Some(NodeId(0)))]);
}

#[test]
fn scene_counts_sum_primitives() {
    let mut s = SceneRefs::new();
    s.add_mesh(MeshShape {
        weights: 0,
        primitives: vec![triangle_prim(4, Some(Indices::U32(vec![0, 1, 2, 2, 1, 3])), None), triangle_prim(3, None, None)],
    });
    let mut strip = triangle_prim(5, None, None);
    strip.topology = Topology::TriangleStrip;
    s.add_mesh(MeshShape { weights: 0, primitives: vec![strip] });
    assert_eq!(s.triangle_count(), 2 + 1 + 3);
    assert_eq!(s.vertex_count(), 4 + 3 + 5);
    assert_eq!(s.meshes[1].primitives[0].triangle_count(), 3);
}

#[test]
fn valid_scene_passes() {
    let mut s = small_tree();
    s.add_mesh(MeshShape { weights: 0, primitives: vec![triangle_prim(3, Some(Indices::U16(vec![0, 1, 2])), None)] });
    s.nodes[3].mesh = Some(MeshId(0));
    assert_eq!(s.validate(), Ok(()));
}

#[test]
fn dangling_root_and_child_are_reported_in_order() {
    let mut s = small_tree();
    s.add_root(NodeId(9));
    s.nodes[2].children.push(NodeId(4));
    assert_eq!(
        s.validate(),
        Err(vec![
            ValidationError::DanglingId { location: Location::Root(1), id: 9, arena: Arena::Nodes },
            ValidationError::DanglingId { location: Location::NodeChild(2, 0), id: 4, arena: Arena::Nodes },
        ])
    );
}

#[test]
fn index_out_of_range_is_reported() {
    let mut s = SceneRefs::new();
    s.add_mesh(MeshShape { weights: 0, primitives: vec![triangle_prim(3, Some(Indices::U32(vec![0, 1, 3])), None)] });
    assert_eq!(
        s.validate(),
        Err(vec![ValidationError::IndexOutOfRange { location: Location::Primitive(0, 0, PrimField::Indices), vertex_count: 3 }])
    );
}

#[test]
fn short_normals_and_missing_material_are_reported() {
    let mut s = SceneRefs::new();
    let mut p = triangle_prim(3, None, Some(MaterialId(0)));
    p.normals = Some(2);
    s.add_mesh(MeshShape { weights: 0, primitives: vec![p] });
    assert_eq!(
        s.validate(),
        Err(vec![
            ValidationError::AttributeLengthMismatch {
                location: Location::Primitive(0, 0, PrimField::Normals),
                expected: 3,
                actual: 2,
            },
            ValidationError::DanglingId {
                location: Location::Primitive(0, 0, PrimField::Material),
                id: 0,
                arena: Arena::Materials,
            },
        ])
    );
}

#[test]
fn dangling_texture_is_reported() {
    let mut s = SceneRefs::new();
    let mut m = MaterialTextures::new();
    m.normal_texture = Some(TextureRef::new(TextureId(3)));
    s.add_material(m);
    match s.validate() {
        Err(errors) => {
            assert_eq!(errors.len(), 1);
            match errors[0] {
                ValidationError::DanglingId { id, arena, .. } => {
                    assert_eq!(id, 3);
                    assert_eq!(arena, Arena::Textures);
                },
                other => panic!("unexpected error {:?}", other),
            }
        },
        Ok(()) => panic!("the texture does not exist"),
    }
}

#[test]
fn append_moves_ids_by_offsets() {
    let mut a = small_tree();
    a.add_texture();
    let mut b = SceneRefs::new();
    b.add_node(plain_node(vec![1]));
    b.add_node(plain_node(vec![]));
    b.add_root(NodeId(0));
    let mut m = MaterialTextures::new();
    m.base_color_texture = Some(TextureRef::new(TextureId(0)));
    b.add_material(m);
    b.add_texture();
    b.add_mesh(MeshShape { weights: 0, primitives: vec![triangle_prim(3, None, Some(MaterialId(0)))] });
    b.nodes[1].mesh = Some(MeshId(0));
    let off = a.append(&b);
    assert_eq!(
        off,
        AppendOffsets {
            nodes: 4,
            meshes: 0,
            materials: 0,
            textures: 1,
            skeletons: 0,
            skins: 0,
            animations: 0,
            cameras: 0,
            lights: 0,
            audio_sources: 0,
            audio_emitters: 0,
        }
    );
    assert_eq!(a.nodes.len(), 6);
    assert_eq!(a.nodes[4].children, vec![NodeId(5)]);
    assert_eq!(a.nodes[5].mesh, Some(MeshId(0)));
    assert_eq!(a.roots, vec![NodeId(0), NodeId(4)]);
    assert_eq!(a.textures, 2);
    assert_eq!(a.materials[0].base_color_texture, Some(TextureRef::new(TextureId(1))));
    assert_eq!(a.meshes[0].primitives[0].material, Some(MaterialId(0)));
    assert_eq!(a.validate(), Ok(()));
}

#[test]
fn appending_valid_scenes_stays_valid() {
    let mut a = small_tree();
    let b = small_tree();
    assert_eq!(a.validate(), Ok(()));
    assert_eq!(b.validate(), Ok(()));
    a.append(&b);
    assert_eq!(a.validate(), Ok(()));
    assert_eq!(a.descendants(NodeId(4)), vec![NodeId(4), NodeId(5), NodeId(7), NodeId(6)]);
}

#[test]
fn shared_child_binds_to_first_arrival_in_the_walk() {
    let mut s = SceneRefs::new();
    s.add_node(plain_node(vec![1, 2]));
    s.add_node(plain_node(vec![2]));
    s.add_node(plain_node(vec![]));
    s.add_root(NodeId(0));
    assert_eq!(s.parents(), vec![None, Some(NodeId(0)), Some(NodeId(1))]);
    assert_eq!(s.ancestors(NodeId(2)), vec![NodeId(0), NodeId(1)]);
    assert!(s.is_ancestor_of(NodeId(1), NodeId(2)));
    assert_eq!(
        s.world_walk(),
        vec![(NodeId(0), None), (NodeId(1), Some(NodeId(0))), (NodeId(2), Some(NodeId(1)))]
    );
}
