use oxideav_mesh3d::asset::InMemoryAsset;
use oxideav_mesh3d::error::Error;
use oxideav_mesh3d::ids::{TextureId, TextureRef};
use oxideav_mesh3d::material::{MaterialTextures, TextureSlot};

#[test]
fn new_material_has_no_textures() {
    assert!(MaterialTextures::new().texture_refs().is_empty());
}

#[test]
fn texture_refs_list_slots_in_order() {
    let mut m = MaterialTextures::new();
    m.emissive_texture = Some(TextureRef::new(TextureId(4)));
    m.base_color_texture = Some(TextureRef { texture: TextureId(1), uv_set: 1 });
    m.clearcoat = Some([None, Some(TextureRef::new(TextureId(2))), None]);
    m.anisotropy = Some(Some(TextureRef::new(TextureId(3))));
    assert_eq!(
        m.texture_refs(),
        vec![
            (TextureSlot::BaseColor, TextureRef { texture: TextureId(1), uv_set: 1 }),
            (TextureSlot::Emissive, TextureRef::new(TextureId(4))),
            (TextureSlot::ClearcoatRoughness, TextureRef::new(TextureId(2))),
            (TextureSlot::Anisotropy, TextureRef::new(TextureId(3))),
        ]
    );
}

#[test]
fn shift_moves_every_texture_id() {
    let mut m = MaterialTextures::new();
    m.normal_texture = Some(TextureRef { texture: TextureId(0), uv_set: 2 });
    m.sheen = Some([Some(TextureRef::new(TextureId(5))), None]);
    let s = m.shift_texture_ids(10);
    assert_eq!(
        s.texture_refs(),
        vec![
            (TextureSlot::Normal, TextureRef { texture: TextureId(10), uv_set: 2 }),
            (TextureSlot::SheenColor, TextureRef::new(TextureId(15))),
        ]
    );
    assert_eq!(s.sheen, Some([Some(TextureRef::new(TextureId(15))), None]));
}

#[test]
fn slot_names() {
    assert_eq!(TextureSlot::BaseColor.name(), "base_color_texture");
    assert_eq!(TextureSlot::SheenRoughness.name(), "ext.sheen.roughness_texture");
}

#[test]
fn texture_ref_defaults_to_uv_set_zero() {
    let r = TextureRef::new(TextureId(7));
    assert_eq!(r.texture, TextureId(7));
    assert_eq!(r.uv_set, 0);
}

#[test]
fn in_memory_asset_reports_size_and_mime() {
    let a = InMemoryAsset::new(Some("image/png".to_string()), vec![1, 2, 3]);
    assert_eq!(a.mime(), Some("image/png"));
    assert_eq!(a.size_hint(), Some(3));
    assert!(a.raw_storage().is_none());
    let b = InMemoryAsset::new(None, Vec::new());
    assert_eq!(b.mime(), None);
    assert_eq!(b.size_hint(), Some(0));
}

#[test]
fn error_constructors_keep_the_message() {
    match Error::invalid("bad index".to_string()) {
        Error::InvalidData(m) => assert_eq!(m, "bad index"),
        other => panic!("unexpected {:?}", other),
    }
    match Error::unsupported("no such format".to_string()) {
        Error::Unsupported(m) => assert_eq!(m, "no such format"),
        other => panic!("unexpected {:?}", other),
    }
    match Error::other("boom".to_string()) {
        Error::Other(m) => assert_eq!(m, "boom"),
        other => panic!("unexpected {:?}", other),
    }
}

#[test]
fn texture_slot_names_are_field_paths() {
    assert_eq!(TextureSlot::BaseColor.name(), "base_color_texture");
    assert_eq!(TextureSlot::Occlusion.name(), "occlusion_texture");
    assert_eq!(TextureSlot::ClearcoatNormal.name(), "ext.clearcoat.normal_texture");
    assert_eq!(TextureSlot::Anisotropy.name(), "ext.anisotropy.texture");
}
