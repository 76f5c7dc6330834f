//! The texture slots of a PBR material and their enumeration and
//! re-indexing.
use vstd::prelude::*;
use crate::ids::{TextureId, TextureRef};

verus! {

/// One texture slot of a material, core or extension.
#[derive(Clone, Copy, Debug, PartialEq, Eq, Structural)]
pub enum TextureSlot {
    BaseColor,
    MetallicRoughness,
    Normal,
    Occlusion,
    Emissive,
    SpecularFactor,
    SpecularColor,
    ClearcoatFactor,
    ClearcoatRoughness,
    ClearcoatNormal,
    SheenColor,
    SheenRoughness,
    TransmissionFactor,
    VolumeThickness,
    IridescenceFactor,
    IridescenceThickness,
    Anisotropy,
}

/// The field path of a slot on a material, as diagnostics print it.
pub open spec fn slot_path(slot: TextureSlot) -> Seq<char> {
    match slot {
        TextureSlot::BaseColor => "base_color_texture"@,
        TextureSlot::MetallicRoughness => "metallic_roughness_texture"@,
        TextureSlot::Normal => "normal_texture"@,
        TextureSlot::Occlusion => "occlusion_texture"@,
        TextureSlot::Emissive => "emissive_texture"@,
        TextureSlot::SpecularFactor => "ext.specular.factor_texture"@,
        TextureSlot::SpecularColor => "ext.specular.color_texture"@,
        TextureSlot::ClearcoatFactor => "ext.clearcoat.factor_texture"@,
        TextureSlot::ClearcoatRoughness => "ext.clearcoat.roughness_texture"@,
        TextureSlot::ClearcoatNormal => "ext.clearcoat.normal_texture"@,
        TextureSlot::SheenColor => "ext.sheen.color_texture"@,
        TextureSlot::SheenRoughness => "ext.sheen.roughness_texture"@,
        TextureSlot::TransmissionFactor => "ext.transmission.factor_texture"@,
        TextureSlot::VolumeThickness => "ext.volume.thickness_texture"@,
        TextureSlot::IridescenceFactor => "ext.iridescence.factor_texture"@,
        TextureSlot::IridescenceThickness => "ext.iridescence.thickness_texture"@,
        TextureSlot::Anisotropy => "ext.anisotropy.texture"@,
    }
}

impl TextureSlot {
    /// The slot's field path on a material, as diagnostics print it.
    pub fn name(&self) -> (path: &'static str)
        ensures
            path@ == slot_path(*self),
    {
        match self {
            TextureSlot::BaseColor => "base_color_texture",
            TextureSlot::MetallicRoughness => "metallic_roughness_texture",
            TextureSlot::Normal => "normal_texture",
            TextureSlot::Occlusion => "occlusion_texture",
            TextureSlot::Emissive => "emissive_texture",
            TextureSlot::SpecularFactor => "ext.specular.factor_texture",
            TextureSlot::SpecularColor => "ext.specular.color_texture",
            TextureSlot::ClearcoatFactor => "ext.clearcoat.factor_texture",
            TextureSlot::ClearcoatRoughness => "ext.clearcoat.roughness_texture",
            TextureSlot::ClearcoatNormal => "ext.clearcoat.normal_texture",
            TextureSlot::SheenColor => "ext.sheen.color_texture",
            TextureSlot::SheenRoughness => "ext.sheen.roughness_texture",
            TextureSlot::TransmissionFactor => "ext.transmission.factor_texture",
            TextureSlot::VolumeThickness => "ext.volume.thickness_texture",
            TextureSlot::IridescenceFactor => "ext.iridescence.factor_texture",
            TextureSlot::IridescenceThickness => "ext.iridescence.thickness_texture",
            TextureSlot::Anisotropy => "ext.anisotropy.texture",
        }
    }
}

/// The texture slots a material carries: the five core metallic-roughness
/// maps, and the maps of each extension block that is present.
#[derive(Clone, Copy, Debug)]
pub struct MaterialTextures {
    pub base_color_texture: Option<TextureRef>,
    pub metallic_roughness_texture: Option<TextureRef>,
    pub normal_texture: Option<TextureRef>,
    pub occlusion_texture: Option<TextureRef>,
    pub emissive_texture: Option<TextureRef>,
    /// `KHR_materials_specular`: `[factor, color]`.
    pub specular: Option<[Option<TextureRef>; 2]>,
    /// `KHR_materials_clearcoat`: `[factor, roughness, normal]`.
    pub clearcoat: Option<[Option<TextureRef>; 3]>,
    /// `KHR_materials_sheen`: `[color, roughness]`.
    pub sheen: Option<[Option<TextureRef>; 2]>,
    /// `KHR_materials_transmission`: the factor map.
    pub transmission: Option<Option<TextureRef>>,
    /// `KHR_materials_volume`: the thickness map.
    pub volume: Option<Option<TextureRef>>,
    /// `KHR_materials_iridescence`: `[factor, thickness]`.
    pub iridescence: Option<[Option<TextureRef>; 2]>,
    /// `KHR_materials_anisotropy`: the anisotropy map.
    pub anisotropy: Option<Option<TextureRef>>,
}

/// The slots of an extension block, or none when the block is absent.
pub open spec fn block2(b: Option<[Option<TextureRef>; 2]>, s0: TextureSlot, s1: TextureSlot) -> Seq<(TextureSlot, Option<TextureRef>)> {
    match b {
        Some(a) => seq![(s0, a[0]), (s1, a[1])],
        None => Seq::empty(),
    }
}

/// The slot of a one-map extension block, or none when the block is absent.
pub open spec fn block1(b: Option<Option<TextureRef>>, s0: TextureSlot) -> Seq<(TextureSlot, Option<TextureRef>)> {
    match b {
        Some(r) => seq![(s0, r)],
        None => Seq::empty(),
    }
}

/// The present texture references of a slot list, in order.
pub open spec fn present(slots: Seq<(TextureSlot, Option<TextureRef>)>) -> Seq<(TextureSlot, TextureRef)>
    decreases slots.len(),
{
    if slots.len() == 0 {
        Seq::empty()
    } else {
        let rest = present(slots.drop_last());
        match slots.last().1 {
            Some(r) => rest.push((slots.last().0, r)),
            None => rest,
        }
    }
}

impl MaterialTextures {
    /// Every slot the material carries, in a fixed order: the core maps,
    /// then specular, clearcoat, sheen, transmission, volume, iridescence
    /// and anisotropy (each extension only when its block is present).
    pub open spec fn slots(&self) -> Seq<(TextureSlot, Option<TextureRef>)> {
        seq![
            (TextureSlot::BaseColor, self.base_color_texture),
            (TextureSlot::MetallicRoughness, self.metallic_roughness_texture),
            (TextureSlot::Normal, self.normal_texture),
            (TextureSlot::Occlusion, self.occlusion_texture),
            (TextureSlot::Emissive, self.emissive_texture),
        ] + block2(self.specular, TextureSlot::SpecularFactor, TextureSlot::SpecularColor) + match self.clearcoat {
            Some(a) => seq![
                (TextureSlot::ClearcoatFactor, a[0]),
                (TextureSlot::ClearcoatRoughness, a[1]),
                (TextureSlot::ClearcoatNormal, a[2]),
            ],
            None => Seq::empty(),
        } + block2(self.sheen, TextureSlot::SheenColor, TextureSlot::SheenRoughness) + block1(
            self.transmission,
            TextureSlot::TransmissionFactor,
        ) + block1(self.volume, TextureSlot::VolumeThickness) + block2(
            self.iridescence,
            TextureSlot::IridescenceFactor,
            TextureSlot::IridescenceThickness,
        ) + block1(self.anisotropy, TextureSlot::Anisotropy)
    }

    /// A material with no texture slot filled and no extension block.
    pub fn new() -> (m: Self)
        ensures
            present(m.slots()).len() == 0,
            m.slots().len() == 5,
    {
        let m = MaterialTextures {
            base_color_texture: None,
            metallic_roughness_texture: None,
            normal_texture: None,
            occlusion_texture: None,
            emissive_texture: None,
            specular: None,
            clearcoat: None,
            sheen: None,
            transmission: None,
            volume: None,
            iridescence: None,
            anisotropy: None,
        };
        proof {
            let s = m.slots();
            assert(s =~= seq![
                (TextureSlot::BaseColor, None::<TextureRef>),
                (TextureSlot::MetallicRoughness, None),
                (TextureSlot::Normal, None),
                (TextureSlot::Occlusion, None),
                (TextureSlot::Emissive, None),
            ]);
            reveal_with_fuel(present, 6);
        }
        m
    }

    /// Every texture this material references, paired with the slot it
    /// sits in, in the order of [`MaterialTextures::slots`].
    pub fn texture_refs(&self) -> (out: Vec<(TextureSlot, TextureRef)>)
        ensures
            out@ == present(self.slots()),
            forall|s: TextureSlot, r: TextureRef| #[trigger] out@.contains((s, r)) <==> slot_field(*self, s) == Some(Some(r)),
    {
        proof {
            law_texture_refs_read_fields(*self);
        }
        let slots = self.slot_list();
        let mut out: Vec<(TextureSlot, TextureRef)> = Vec::new();
        let mut i: usize = 0;
        while i < slots.len()
            invariant
                i <= slots@.len(),
                out@ == present(slots@.take(i as int)),
            decreases slots@.len() - i,
        {
            proof {
                assert(slots@.take(i + 1).drop_last() =~= slots@.take(i as int));
            }
            let (slot, r) = slots[i];
            if let Some(t) = r {
                out.push((slot, t));
            }
            i = i + 1;
        }
        assert(slots@.take(slots@.len() as int) =~= slots@);
        out
    }
}


fn push_block2(
    v: &mut Vec<(TextureSlot, Option<TextureRef>)>,
    b: Option<[Option<TextureRef>; 2]>,
    s0: TextureSlot,
    s1: TextureSlot,
)
    ensures
        final(v)@ == old(v)@ + block2(b, s0, s1),
{
    if let Some(a) = b {
        v.push((s0, a[0]));
        v.push((s1, a[1]));
        assert(final(v)@ =~= old(v)@ + block2(b, s0, s1));
    } else {
        assert(v@ =~= old(v)@ + block2(b, s0, s1));
    }
}

fn push_block1(v: &mut Vec<(TextureSlot, Option<TextureRef>)>, b: Option<Option<TextureRef>>, s0: TextureSlot)
    ensures
        final(v)@ == old(v)@ + block1(b, s0),
{
    if let Some(r) = b {
        v.push((s0, r));
        assert(final(v)@ =~= old(v)@ + block1(b, s0));
    } else {
        assert(v@ =~= old(v)@ + block1(b, s0));
    }
}

impl MaterialTextures {
    /// The slots of [`MaterialTextures::slots`] as a vector.
    fn slot_list(&self) -> (v: Vec<(TextureSlot, Option<TextureRef>)>)
        ensures
            v@ == self.slots(),
    {
        let mut v: Vec<(TextureSlot, Option<TextureRef>)> = Vec::new();
        v.push((TextureSlot::BaseColor, self.base_color_texture));
        v.push((TextureSlot::MetallicRoughness, self.metallic_roughness_texture));
        v.push((TextureSlot::Normal, self.normal_texture));
        v.push((TextureSlot::Occlusion, self.occlusion_texture));
        v.push((TextureSlot::Emissive, self.emissive_texture));
        let ghost core = v@;
        push_block2(&mut v, self.specular, TextureSlot::SpecularFactor, TextureSlot::SpecularColor);
        let ghost with_spec = v@;
        if let Some(a) = self.clearcoat {
            v.push((TextureSlot::ClearcoatFactor, a[0]));
            v.push((TextureSlot::ClearcoatRoughness, a[1]));
            v.push((TextureSlot::ClearcoatNormal, a[2]));
        }
        let ghost clear_b = match self.clearcoat {
            Some(a) => seq![
                (TextureSlot::ClearcoatFactor, a[0]),
                (TextureSlot::ClearcoatRoughness, a[1]),
                (TextureSlot::ClearcoatNormal, a[2]),
            ],
            None => Seq::empty(),
        };
        assert(v@ =~= with_spec + clear_b);
        push_block2(&mut v, self.sheen, TextureSlot::SheenColor, TextureSlot::SheenRoughness);
        push_block1(&mut v, self.transmission, TextureSlot::TransmissionFactor);
        push_block1(&mut v, self.volume, TextureSlot::VolumeThickness);
        push_block2(&mut v, self.iridescence, TextureSlot::IridescenceFactor, TextureSlot::IridescenceThickness);
        push_block1(&mut v, self.anisotropy, TextureSlot::Anisotropy);
        assert(core =~= seq![
            (TextureSlot::BaseColor, self.base_color_texture),
            (TextureSlot::MetallicRoughness, self.metallic_roughness_texture),
            (TextureSlot::Normal, self.normal_texture),
            (TextureSlot::Occlusion, self.occlusion_texture),
            (TextureSlot::Emissive, self.emissive_texture),
        ]);
        v
    }
}

/// Shift one slot's texture index by `offset`, keeping its UV set.
fn shift_slot(r: Option<TextureRef>, offset: u32) -> (out: Option<TextureRef>)
    requires
        slot_fits(r, offset),
    ensures
        out == shifted(r, offset),
{
    match r {
        Some(t) => Some(TextureRef { texture: TextureId(t.texture.0 + offset), uv_set: t.uv_set }),
        None => None,
    }
}

/// A slot with its texture index moved up by `offset`.
pub open spec fn shifted(r: Option<TextureRef>, offset: u32) -> Option<TextureRef> {
    match r {
        Some(t) => Some(TextureRef { texture: TextureId((t.texture.0 + offset) as u32), uv_set: t.uv_set }),
        None => None,
    }
}

/// The slot can be moved up by `offset` without leaving the `u32` id
/// space.
pub open spec fn slot_fits(r: Option<TextureRef>, offset: u32) -> bool {
    r matches Some(t) ==> t.texture.0 + offset <= u32::MAX
}

/// Every filled slot of `m` can be moved up by `offset`.
pub open spec fn shift_fits(m: MaterialTextures, offset: u32) -> bool {
    &&& slot_fits(m.base_color_texture, offset)
    &&& slot_fits(m.metallic_roughness_texture, offset)
    &&& slot_fits(m.normal_texture, offset)
    &&& slot_fits(m.occlusion_texture, offset)
    &&& slot_fits(m.emissive_texture, offset)
    &&& m.specular matches Some(a) ==> slot_fits(a[0], offset) && slot_fits(a[1], offset)
    &&& m.clearcoat matches Some(a) ==> slot_fits(a[0], offset) && slot_fits(a[1], offset) && slot_fits(a[2], offset)
    &&& m.sheen matches Some(a) ==> slot_fits(a[0], offset) && slot_fits(a[1], offset)
    &&& m.transmission matches Some(r) ==> slot_fits(r, offset)
    &&& m.volume matches Some(r) ==> slot_fits(r, offset)
    &&& m.iridescence matches Some(a) ==> slot_fits(a[0], offset) && slot_fits(a[1], offset)
    &&& m.anisotropy matches Some(r) ==> slot_fits(r, offset)
}

/// A slot list with every texture index moved up by `offset`.
pub open spec fn shift_list(l: Seq<(TextureSlot, Option<TextureRef>)>, offset: u32) -> Seq<(TextureSlot, Option<TextureRef>)> {
    Seq::new(l.len(), |k: int| (l[k].0, shifted(l[k].1, offset)))
}

proof fn lemma_shift_concat(a: Seq<(TextureSlot, Option<TextureRef>)>, b: Seq<(TextureSlot, Option<TextureRef>)>, offset: u32)
    ensures
        shift_list(a + b, offset) == shift_list(a, offset) + shift_list(b, offset),
{
    assert(shift_list(a + b, offset) =~= shift_list(a, offset) + shift_list(b, offset));
}

fn shift_pair(a: [Option<TextureRef>; 2], offset: u32) -> (out: [Option<TextureRef>; 2])
    requires
        slot_fits(a[0], offset),
        slot_fits(a[1], offset),
    ensures
        out[0] == shifted(a[0], offset),
        out[1] == shifted(a[1], offset),
{
    [shift_slot(a[0], offset), shift_slot(a[1], offset)]
}

impl MaterialTextures {
    /// This material with every texture index it references moved up by
    /// `offset` (the UV sets stay): the re-indexing a material needs when
    /// its textures move to the end of another texture arena.
    pub fn shift_texture_ids(&self, offset: u32) -> (out: MaterialTextures)
        requires
            shift_fits(*self, offset),
        ensures
            out.slots() == shift_list(self.slots(), offset),
    {
        let out = MaterialTextures {
            base_color_texture: shift_slot(self.base_color_texture, offset),
            metallic_roughness_texture: shift_slot(self.metallic_roughness_texture, offset),
            normal_texture: shift_slot(self.normal_texture, offset),
            occlusion_texture: shift_slot(self.occlusion_texture, offset),
            emissive_texture: shift_slot(self.emissive_texture, offset),
            specular: match self.specular {
                Some(a) => Some(shift_pair(a, offset)),
                None => None,
            },
            clearcoat: match self.clearcoat {
                Some(a) => Some([shift_slot(a[0], offset), shift_slot(a[1], offset), shift_slot(a[2], offset)]),
                None => None,
            },
            sheen: match self.sheen {
                Some(a) => Some(shift_pair(a, offset)),
                None => None,
            },
            transmission: match self.transmission {
                Some(r) => Some(shift_slot(r, offset)),
                None => None,
            },
            volume: match self.volume {
                Some(r) => Some(shift_slot(r, offset)),
                None => None,
            },
            iridescence: match self.iridescence {
                Some(a) => Some(shift_pair(a, offset)),
                None => None,
            },
            anisotropy: match self.anisotropy {
                Some(r) => Some(shift_slot(r, offset)),
                None => None,
            },
        };
        proof {
            let core = seq![
                (TextureSlot::BaseColor, self.base_color_texture),
                (TextureSlot::MetallicRoughness, self.metallic_roughness_texture),
                (TextureSlot::Normal, self.normal_texture),
                (TextureSlot::Occlusion, self.occlusion_texture),
                (TextureSlot::Emissive, self.emissive_texture),
            ];
            let spec_b = block2(self.specular, TextureSlot::SpecularFactor, TextureSlot::SpecularColor);
            let clear_b = match self.clearcoat {
                Some(a) => seq![
                    (TextureSlot::ClearcoatFactor, a[0]),
                    (TextureSlot::ClearcoatRoughness, a[1]),
                    (TextureSlot::ClearcoatNormal, a[2]),
                ],
                None => Seq::empty(),
            };
            let sheen_b = block2(self.sheen, TextureSlot::SheenColor, TextureSlot::SheenRoughness);
            let trans_b = block1(self.transmission, TextureSlot::TransmissionFactor);
            let vol_b = block1(self.volume, TextureSlot::VolumeThickness);
            let iri_b = block2(self.iridescence, TextureSlot::IridescenceFactor, TextureSlot::IridescenceThickness);
            let ani_b = block1(self.anisotropy, TextureSlot::Anisotropy);
            let o_core = seq![
                (TextureSlot::BaseColor, out.base_color_texture),
                (TextureSlot::MetallicRoughness, out.metallic_roughness_texture),
                (TextureSlot::Normal, out.normal_texture),
                (TextureSlot::Occlusion, out.occlusion_texture),
                (TextureSlot::Emissive, out.emissive_texture),
            ];
            let o_clear = match out.clearcoat {
                Some(a) => seq![
                    (TextureSlot::ClearcoatFactor, a[0]),
                    (TextureSlot::ClearcoatRoughness, a[1]),
                    (TextureSlot::ClearcoatNormal, a[2]),
                ],
                None => Seq::empty(),
            };
            assert(o_core =~= shift_list(core, offset));
            assert(block2(out.specular, TextureSlot::SpecularFactor, TextureSlot::SpecularColor) =~= shift_list(spec_b, offset));
            assert(o_clear =~= shift_list(clear_b, offset));
            assert(block2(out.sheen, TextureSlot::SheenColor, TextureSlot::SheenRoughness) =~= shift_list(sheen_b, offset));
            assert(block1(out.transmission, TextureSlot::TransmissionFactor) =~= shift_list(trans_b, offset));
            assert(block1(out.volume, TextureSlot::VolumeThickness) =~= shift_list(vol_b, offset));
            assert(block2(out.iridescence, TextureSlot::IridescenceFactor, TextureSlot::IridescenceThickness) =~= shift_list(iri_b, offset));
            assert(block1(out.anisotropy, TextureSlot::Anisotropy) =~= shift_list(ani_b, offset));
            lemma_shift_concat(core, spec_b, offset);
            lemma_shift_concat(core + spec_b, clear_b, offset);
            lemma_shift_concat(core + spec_b + clear_b, sheen_b, offset);
            lemma_shift_concat(core + spec_b + clear_b + sheen_b, trans_b, offset);
            lemma_shift_concat(core + spec_b + clear_b + sheen_b + trans_b, vol_b, offset);
            lemma_shift_concat(core + spec_b + clear_b + sheen_b + trans_b + vol_b, iri_b, offset);
            lemma_shift_concat(core + spec_b + clear_b + sheen_b + trans_b + vol_b + iri_b, ani_b, offset);
        }
        out
    }
}

/// The field of material `m` that slot `slot` names: `Some(value)` when the
/// slot exists on `m` (a core slot, or an extension slot whose block is
/// present), `None` when its extension block is absent.
pub open spec fn slot_field(m: MaterialTextures, slot: TextureSlot) -> Option<Option<TextureRef>> {
    match slot {
        TextureSlot::BaseColor => Some(m.base_color_texture),
        TextureSlot::MetallicRoughness => Some(m.metallic_roughness_texture),
        TextureSlot::Normal => Some(m.normal_texture),
        TextureSlot::Occlusion => Some(m.occlusion_texture),
        TextureSlot::Emissive => Some(m.emissive_texture),
        TextureSlot::SpecularFactor => match m.specular { Some(b) => Some(b[0]), None => None },
        TextureSlot::SpecularColor => match m.specular { Some(b) => Some(b[1]), None => None },
        TextureSlot::ClearcoatFactor => match m.clearcoat { Some(b) => Some(b[0]), None => None },
        TextureSlot::ClearcoatRoughness => match m.clearcoat { Some(b) => Some(b[1]), None => None },
        TextureSlot::ClearcoatNormal => match m.clearcoat { Some(b) => Some(b[2]), None => None },
        TextureSlot::SheenColor => match m.sheen { Some(b) => Some(b[0]), None => None },
        TextureSlot::SheenRoughness => match m.sheen { Some(b) => Some(b[1]), None => None },
        TextureSlot::TransmissionFactor => m.transmission,
        TextureSlot::VolumeThickness => m.volume,
        TextureSlot::IridescenceFactor => match m.iridescence { Some(b) => Some(b[0]), None => None },
        TextureSlot::IridescenceThickness => match m.iridescence { Some(b) => Some(b[1]), None => None },
        TextureSlot::Anisotropy => m.anisotropy,
    }
}

/// Every entry of `l` carries the value of the field its slot names.
pub open spec fn reads_fields(m: MaterialTextures, l: Seq<(TextureSlot, Option<TextureRef>)>) -> bool {
    forall|i: int| 0 <= i < l.len() ==> slot_field(m, (#[trigger] l[i]).0) == Some(l[i].1)
}

/// Slot `s` is listed in `l`.
pub open spec fn lists_slot(l: Seq<(TextureSlot, Option<TextureRef>)>, s: TextureSlot) -> bool {
    exists|i: int| 0 <= i < l.len() && (#[trigger] l[i]).0 == s
}

proof fn lemma_concat_fields(m: MaterialTextures, a: Seq<(TextureSlot, Option<TextureRef>)>, b: Seq<(TextureSlot, Option<TextureRef>)>)
    ensures
        reads_fields(m, a) && reads_fields(m, b) ==> reads_fields(m, a + b),
        forall|s: TextureSlot| lists_slot(a, s) || lists_slot(b, s) ==> #[trigger] lists_slot(a + b, s),
{
    if reads_fields(m, a) && reads_fields(m, b) {
        assert forall|i: int| 0 <= i < (a + b).len() implies slot_field(m, (#[trigger] (a + b)[i]).0) == Some((a + b)[i].1) by {
            if i < a.len() {
                assert((a + b)[i] == a[i]);
            } else {
                assert((a + b)[i] == b[i - a.len()]);
            }
        }
    }
    assert forall|s: TextureSlot| lists_slot(a, s) || lists_slot(b, s) implies #[trigger] lists_slot(a + b, s) by {
        if lists_slot(a, s) {
            let i = choose|i: int| 0 <= i < a.len() && (#[trigger] a[i]).0 == s;
            assert((a + b)[i] == a[i]);
        } else {
            let i = choose|i: int| 0 <= i < b.len() && (#[trigger] b[i]).0 == s;
            assert((a + b)[a.len() + i] == b[i]);
        }
    }
}

proof fn lemma_present_contains(l: Seq<(TextureSlot, Option<TextureRef>)>, s: TextureSlot, r: TextureRef)
    ensures
        present(l).contains((s, r)) <==> exists|i: int| 0 <= i < l.len() && #[trigger] l[i] == (s, Some(r)),
    decreases l.len(),
{
    if l.len() > 0 {
        let d = l.drop_last();
        lemma_present_contains(d, s, r);
        if present(l).contains((s, r)) {
            if present(d).contains((s, r)) {
                let i = choose|i: int| 0 <= i < d.len() && #[trigger] d[i] == (s, Some(r));
                assert(l[i] == d[i]);
            } else {
                assert(l[l.len() - 1] == (s, Some(r)));
            }
        }
        if exists|i: int| 0 <= i < l.len() && #[trigger] l[i] == (s, Some(r)) {
            let i = choose|i: int| 0 <= i < l.len() && #[trigger] l[i] == (s, Some(r));
            if i < l.len() - 1 {
                assert(d[i] == l[i]);
                assert(present(d).contains((s, r)));
                let k = choose|k: int| 0 <= k < present(d).len() && present(d)[k] == (s, r);
                assert(present(l)[k] == (s, r));
            } else {
                assert(present(l) == present(d).push((s, r)));
                assert(present(l)[present(d).len() as int] == (s, r));
            }
        }
    }
}

/// The texture references of a material are exactly its filled slots:
/// each listed slot carries the value of the field it names, every slot
/// the material has is listed, and a pair `(slot, r)` is reported exactly
/// when that slot's field holds `r`.
pub proof fn law_texture_refs_read_fields(m: MaterialTextures)
    ensures
        reads_fields(m, m.slots()),
        forall|s: TextureSlot| #[trigger] slot_field(m, s) is Some ==> lists_slot(m.slots(), s),
        forall|s: TextureSlot, r: TextureRef|
            #[trigger] present(m.slots()).contains((s, r)) <==> slot_field(m, s) == Some(Some(r)),
{
    let core = seq![
        (TextureSlot::BaseColor, m.base_color_texture),
        (TextureSlot::MetallicRoughness, m.metallic_roughness_texture),
        (TextureSlot::Normal, m.normal_texture),
        (TextureSlot::Occlusion, m.occlusion_texture),
        (TextureSlot::Emissive, m.emissive_texture),
    ];
    let b1 = block2(m.specular, TextureSlot::SpecularFactor, TextureSlot::SpecularColor);
    let b2: Seq<(TextureSlot, Option<TextureRef>)> = match m.clearcoat {
        Some(a) => seq![
            (TextureSlot::ClearcoatFactor, a[0]),
            (TextureSlot::ClearcoatRoughness, a[1]),
            (TextureSlot::ClearcoatNormal, a[2]),
        ],
        None => Seq::empty(),
    };
    let b3 = block2(m.sheen, TextureSlot::SheenColor, TextureSlot::SheenRoughness);
    let b4 = block1(m.transmission, TextureSlot::TransmissionFactor);
    let b5 = block1(m.volume, TextureSlot::VolumeThickness);
    let b6 = block2(m.iridescence, TextureSlot::IridescenceFactor, TextureSlot::IridescenceThickness);
    let b7 = block1(m.anisotropy, TextureSlot::Anisotropy);
    let p1 = core + b1;
    let p2 = p1 + b2;
    let p3 = p2 + b3;
    let p4 = p3 + b4;
    let p5 = p4 + b5;
    let p6 = p5 + b6;
    let p7 = p6 + b7;
    assert(m.slots() == p7);
    assert(reads_fields(m, core));
    assert(reads_fields(m, b1));
    assert(reads_fields(m, b2));
    assert(reads_fields(m, b3));
    assert(reads_fields(m, b4));
    assert(reads_fields(m, b5));
    assert(reads_fields(m, b6));
    assert(reads_fields(m, b7));
    lemma_concat_fields(m, core, b1);
    lemma_concat_fields(m, p1, b2);
    lemma_concat_fields(m, p2, b3);
    lemma_concat_fields(m, p3, b4);
    lemma_concat_fields(m, p4, b5);
    lemma_concat_fields(m, p5, b6);
    lemma_concat_fields(m, p6, b7);
    assert forall|s: TextureSlot| #[trigger] slot_field(m, s) is Some implies lists_slot(m.slots(), s) by {
        match s {
            TextureSlot::BaseColor => { assert(core[0].0 == s); },
            TextureSlot::MetallicRoughness => { assert(core[1].0 == s); },
            TextureSlot::Normal => { assert(core[2].0 == s); },
            TextureSlot::Occlusion => { assert(core[3].0 == s); },
            TextureSlot::Emissive => { assert(core[4].0 == s); },
            TextureSlot::SpecularFactor => { assert(b1[0].0 == s); },
            TextureSlot::SpecularColor => { assert(b1[1].0 == s); },
            TextureSlot::ClearcoatFactor => { assert(b2[0].0 == s); },
            TextureSlot::ClearcoatRoughness => { assert(b2[1].0 == s); },
            TextureSlot::ClearcoatNormal => { assert(b2[2].0 == s); },
            TextureSlot::SheenColor => { assert(b3[0].0 == s); },
            TextureSlot::SheenRoughness => { assert(b3[1].0 == s); },
            TextureSlot::TransmissionFactor => { assert(b4[0].0 == s); },
            TextureSlot::VolumeThickness => { assert(b5[0].0 == s); },
            TextureSlot::IridescenceFactor => { assert(b6[0].0 == s); },
            TextureSlot::IridescenceThickness => { assert(b6[1].0 == s); },
            TextureSlot::Anisotropy => { assert(b7[0].0 == s); },
        }
    }
    let l = m.slots();
    assert forall|s: TextureSlot, r: TextureRef|
        #[trigger] present(l).contains((s, r)) <==> slot_field(m, s) == Some(Some(r)) by {
        lemma_present_contains(l, s, r);
        if slot_field(m, s) == Some(Some(r)) {
            assert(lists_slot(l, s));
            let i = choose|i: int| 0 <= i < l.len() && (#[trigger] l[i]).0 == s;
            assert(slot_field(m, l[i].0) == Some(l[i].1));
            assert(l[i] == (s, Some(r)));
        }
        if present(l).contains((s, r)) {
            let i = choose|i: int| 0 <= i < l.len() && #[trigger] l[i] == (s, Some(r));
            assert(slot_field(m, l[i].0) == Some(l[i].1));
        }
    }
}

} // verus!
