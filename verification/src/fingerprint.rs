//! Content fingerprints: a resource is fed to std's default hasher piece by
//! piece, field by field in a fixed order, and the hasher's 64-bit digest is
//! the fingerprint. Floating-point parameters enter by their bit patterns.

use vstd::prelude::*;
use vstd::bytes::{
    lemma_auto_spec_u64_to_from_le_bytes, spec_u64_from_le_bytes, spec_u64_to_le_bytes,
    u64_to_le_bytes,
};
use vstd::std_specs::hash::DefaultHasherAdditionalSpecFns;
use std::collections::hash_map::DefaultHasher;
use std::hash::Hasher;

verus! {

/// A colour in linear RGBA, each component as the bit pattern of its `f32`.
#[derive(Clone, Copy, Debug, PartialEq, Eq, Structural)]
pub struct Color {
    pub red: u32,
    pub green: u32,
    pub blue: u32,
    pub alpha: u32,
}

/// How a material's alpha channel is used.
#[derive(Clone, Copy, Debug, PartialEq, Eq, Structural)]
pub enum AlphaMode {
    Opaque,
    /// Alpha test against the cutoff whose bit pattern is given.
    Mask(u32),
    Blend,
    Premultiplied,
    Add,
    Multiply,
    AlphaToCoverage,
}

/// The side of a triangle that is culled.
#[derive(Clone, Copy, Debug, PartialEq, Eq, Structural)]
pub enum Face {
    Front,
    Back,
}

/// How parallax mapping is computed.
#[derive(Clone, Copy, Debug, PartialEq, Eq, Structural)]
pub enum ParallaxMappingMethod {
    Occlusion,
    Relief { max_steps: u32 },
}

/// The lighting pass that draws an opaque material.
#[derive(Clone, Copy, Debug, PartialEq, Eq, Structural)]
pub enum OpaqueRendererMethod {
    Forward,
    Deferred,
    Auto,
}

/// The parameters of a standard material that decide how it looks. Floats
/// are held as bit patterns, textures as the identity of their image.
#[derive(Clone, Copy, Debug, PartialEq, Eq, Structural)]
pub struct StandardMaterial {
    pub base_color: Color,
    pub base_color_texture: Option<u64>,
    pub emissive: Color,
    pub emissive_texture: Option<u64>,
    pub perceptual_roughness: u32,
    pub metallic: u32,
    pub metallic_roughness_texture: Option<u64>,
    pub reflectance: u32,
    pub diffuse_transmission: u32,
    pub specular_transmission: u32,
    pub thickness: u32,
    pub ior: u32,
    pub attenuation_distance: u32,
    pub attenuation_color: Color,
    pub normal_map_texture: Option<u64>,
    pub flip_normal_map_y: bool,
    pub occlusion_texture: Option<u64>,
    pub double_sided: bool,
    pub cull_mode: Option<Face>,
    pub unlit: bool,
    pub fog_enabled: bool,
    pub alpha_mode: AlphaMode,
    pub depth_bias: u32,
    pub depth_map: Option<u64>,
    pub parallax_depth_scale: u32,
    pub parallax_mapping_method: ParallaxMappingMethod,
    pub max_parallax_layer_count: u32,
    pub opaque_render_method: OpaqueRendererMethod,
    pub deferred_lighting_pass_id: u8,
    pub lightmap_exposure: u32,
}

/// One vertex-attribute channel of a mesh: its identifying tag and its
/// values as raw bytes.
pub struct MeshAttribute {
    pub id: u64,
    pub bytes: Vec<u8>,
}

/// A channel as mathematics.
pub struct MeshAttributeView {
    pub id: u64,
    pub bytes: Seq<u8>,
}

impl View for MeshAttribute {
    type V = MeshAttributeView;

    open spec fn view(&self) -> MeshAttributeView {
        MeshAttributeView { id: self.id, bytes: self.bytes@ }
    }
}

/// The vertex data of a mesh: its channels in the order in which the mesh
/// stores them.
pub struct Mesh {
    pub attributes: Vec<MeshAttribute>,
}

impl View for Mesh {
    type V = Seq<MeshAttributeView>;

    open spec fn view(&self) -> Seq<MeshAttributeView> {
        Seq::new(self.attributes@.len(), |i: int| self.attributes@[i]@)
    }
}

/// The word that tags the opaque alpha mode.
pub const ALPHA_OPAQUE: u64 = 798573452;

/// The word that tags the mask alpha mode; the cutoff follows it.
pub const ALPHA_MASK: u64 = 612309751;

/// The word that tags the blend alpha mode.
pub const ALPHA_BLEND: u64 = 1345634567;

/// The word that tags the premultiplied alpha mode.
pub const ALPHA_PREMULTIPLIED: u64 = 297897363;

/// The word that tags the additive alpha mode.
pub const ALPHA_ADD: u64 = 36345667;

/// The word that tags the multiplicative alpha mode.
pub const ALPHA_MULTIPLY: u64 = 48967896;

/// The word that tags the alpha-to-coverage mode.
pub const ALPHA_TO_COVERAGE: u64 = 20935847;

/// The word for a flag.
pub open spec fn flag_word(b: bool) -> u64 {
    if b {
        1
    } else {
        0
    }
}

/// The word that says whether a texture is set.
pub open spec fn texture_flag(t: Option<u64>) -> u64 {
    flag_word(t.is_some())
}

/// The word that names the texture's image; zero where none is set.
pub open spec fn texture_id(t: Option<u64>) -> u64 {
    match t {
        Some(id) => id,
        None => 0,
    }
}

/// The word for the cull mode.
pub open spec fn cull_word(c: Option<Face>) -> u64 {
    match c {
        None => 0,
        Some(Face::Front) => 1,
        Some(Face::Back) => 2,
    }
}

/// The constant that tags the alpha mode.
pub open spec fn alpha_tag(a: AlphaMode) -> u64 {
    match a {
        AlphaMode::Opaque => ALPHA_OPAQUE,
        AlphaMode::Mask(_) => ALPHA_MASK,
        AlphaMode::Blend => ALPHA_BLEND,
        AlphaMode::Premultiplied => ALPHA_PREMULTIPLIED,
        AlphaMode::Add => ALPHA_ADD,
        AlphaMode::Multiply => ALPHA_MULTIPLY,
        AlphaMode::AlphaToCoverage => ALPHA_TO_COVERAGE,
    }
}

/// The cutoff of the mask mode; zero for every other mode.
pub open spec fn alpha_cutoff(a: AlphaMode) -> u64 {
    match a {
        AlphaMode::Mask(cutoff) => cutoff as u64,
        _ => 0,
    }
}

/// The word that tags the parallax mapping method.
pub open spec fn parallax_tag(p: ParallaxMappingMethod) -> u64 {
    match p {
        ParallaxMappingMethod::Occlusion => 0,
        ParallaxMappingMethod::Relief { .. } => 1,
    }
}

/// The step limit of relief mapping; zero for occlusion mapping.
pub open spec fn parallax_steps(p: ParallaxMappingMethod) -> u64 {
    match p {
        ParallaxMappingMethod::Occlusion => 0,
        ParallaxMappingMethod::Relief { max_steps } => max_steps as u64,
    }
}

/// The word for the opaque render method.
pub open spec fn render_word(r: OpaqueRendererMethod) -> u64 {
    match r {
        OpaqueRendererMethod::Forward => 0,
        OpaqueRendererMethod::Deferred => 1,
        OpaqueRendererMethod::Auto => 2,
    }
}

/// The words for the base colour and the emission.
pub open spec fn color_words(m: StandardMaterial) -> Seq<u64> {
    seq![
        m.base_color.red as u64,
        m.base_color.green as u64,
        m.base_color.blue as u64,
        m.base_color.alpha as u64,
        texture_flag(m.base_color_texture),
        texture_id(m.base_color_texture),
        m.emissive.red as u64,
        m.emissive.green as u64,
        m.emissive.blue as u64,
        m.emissive.alpha as u64,
        texture_flag(m.emissive_texture),
        texture_id(m.emissive_texture),
    ]
}

/// The words for roughness, metal, reflectance and transmission.
pub open spec fn surface_words(m: StandardMaterial) -> Seq<u64> {
    seq![
        m.perceptual_roughness as u64,
        m.metallic as u64,
        texture_flag(m.metallic_roughness_texture),
        texture_id(m.metallic_roughness_texture),
        m.reflectance as u64,
        m.diffuse_transmission as u64,
        m.specular_transmission as u64,
        m.thickness as u64,
        m.ior as u64,
        m.attenuation_distance as u64,
    ]
}

/// The words for attenuation, normal and occlusion maps, and the flags.
pub open spec fn shading_words(m: StandardMaterial) -> Seq<u64> {
    seq![
        m.attenuation_color.red as u64,
        m.attenuation_color.green as u64,
        m.attenuation_color.blue as u64,
        m.attenuation_color.alpha as u64,
        texture_flag(m.normal_map_texture),
        texture_id(m.normal_map_texture),
        flag_word(m.flip_normal_map_y),
        texture_flag(m.occlusion_texture),
        texture_id(m.occlusion_texture),
        flag_word(m.double_sided),
        cull_word(m.cull_mode),
        flag_word(m.unlit),
        flag_word(m.fog_enabled),
    ]
}

/// The words for alpha mode, depth, parallax and the lighting pass.
pub open spec fn pass_words(m: StandardMaterial) -> Seq<u64> {
    seq![
        alpha_tag(m.alpha_mode),
        alpha_cutoff(m.alpha_mode),
        m.depth_bias as u64,
        texture_flag(m.depth_map),
        texture_id(m.depth_map),
        m.parallax_depth_scale as u64,
        parallax_tag(m.parallax_mapping_method),
        parallax_steps(m.parallax_mapping_method),
        m.max_parallax_layer_count as u64,
        render_word(m.opaque_render_method),
        m.deferred_lighting_pass_id as u64,
        m.lightmap_exposure as u64,
    ]
}

/// The words of a material, in the order in which they are digested.
pub open spec fn material_words(m: StandardMaterial) -> Seq<u64> {
    color_words(m) + surface_words(m) + shading_words(m) + pass_words(m)
}

/// The pieces in which words are fed to the hasher: each word as eight
/// bytes, lowest byte first.
pub open spec fn word_chunks(words: Seq<u64>) -> Seq<Seq<u8>> {
    Seq::new(words.len(), |i: int| spec_u64_to_le_bytes(words[i]))
}

/// The pieces in which a material is fed to the hasher.
pub open spec fn material_chunks(m: StandardMaterial) -> Seq<Seq<u8>> {
    word_chunks(material_words(m))
}

/// The pieces for one channel: its tag, the length of its content, its
/// content.
pub open spec fn attribute_chunks(a: MeshAttributeView) -> Seq<Seq<u8>> {
    seq![
        spec_u64_to_le_bytes(a.id),
        spec_u64_to_le_bytes(a.bytes.len() as u64),
        a.bytes,
    ]
}

/// The pieces for the channels, one channel after another.
pub open spec fn attributes_chunks(attrs: Seq<MeshAttributeView>) -> Seq<Seq<u8>>
    decreases attrs.len(),
{
    if attrs.len() == 0 {
        Seq::<Seq<u8>>::empty()
    } else {
        attributes_chunks(attrs.drop_last()) + attribute_chunks(attrs.last())
    }
}

/// The pieces in which a mesh is fed to the hasher: the number of its
/// channels, then the channels.
pub open spec fn mesh_chunks(m: Seq<MeshAttributeView>) -> Seq<Seq<u8>> {
    seq![spec_u64_to_le_bytes(m.len() as u64)] + attributes_chunks(m)
}

/// The fingerprint of a material: the digest that std's default hasher gives
/// after the material's pieces.
pub open spec fn material_fingerprint(m: StandardMaterial) -> u64 {
    DefaultHasher::spec_finish(material_chunks(m))
}

/// The fingerprint of a mesh: the digest that std's default hasher gives
/// after the mesh's pieces.
pub open spec fn mesh_fingerprint(m: Seq<MeshAttributeView>) -> u64 {
    DefaultHasher::spec_finish(mesh_chunks(m))
}

/// The words written out one after another.
pub open spec fn words_bytes(words: Seq<u64>) -> Seq<u8>
    decreases words.len(),
{
    if words.len() == 0 {
        Seq::<u8>::empty()
    } else {
        words_bytes(words.drop_last()) + spec_u64_to_le_bytes(words.last())
    }
}

/// One channel written out: its tag, the length of its content, its content.
pub open spec fn attribute_bytes(a: MeshAttributeView) -> Seq<u8> {
    spec_u64_to_le_bytes(a.id) + spec_u64_to_le_bytes(a.bytes.len() as u64) + a.bytes
}

/// The channels written out one after another.
pub open spec fn attributes_bytes(attrs: Seq<MeshAttributeView>) -> Seq<u8>
    decreases attrs.len(),
{
    if attrs.len() == 0 {
        Seq::<u8>::empty()
    } else {
        attributes_bytes(attrs.drop_last()) + attribute_bytes(attrs.last())
    }
}

/// A mesh written out: the number of its channels, then the channels.
pub open spec fn mesh_bytes(m: Seq<MeshAttributeView>) -> Seq<u8> {
    spec_u64_to_le_bytes(m.len() as u64) + attributes_bytes(m)
}

/// A material kind that the consolidator can fingerprint.
pub trait MaterialHash {
    /// The fingerprint as a function of the content.
    spec fn fingerprint(&self) -> u64;

    /// Computes the fingerprint.
    fn generate_hash(&self) -> (h: u64)
        ensures
            h == self.fingerprint(),
    ;
}

fn flag(b: bool) -> (w: u64)
    ensures
        w == flag_word(b),
{
    if b {
        1
    } else {
        0
    }
}

fn write_word(state: &mut DefaultHasher, word: u64)
    ensures
        final(state)@ == old(state)@.push(spec_u64_to_le_bytes(word)),
{
    let bytes = u64_to_le_bytes(word);
    state.write(bytes.as_slice());
}

fn hash_texture(texture: &Option<u64>, state: &mut DefaultHasher)
    ensures
        final(state)@ == old(state)@.push(spec_u64_to_le_bytes(texture_flag(*texture))).push(
            spec_u64_to_le_bytes(texture_id(*texture)),
        ),
{
    match texture {
        Some(id) => {
            write_word(state, 1);
            write_word(state, *id);
        },
        None => {
            write_word(state, 0);
            write_word(state, 0);
        },
    }
}

/// Feeds the four components of `color` to the hasher.
pub fn hash_color(color: &Color, state: &mut DefaultHasher)
    ensures
        final(state)@ == old(state)@.push(spec_u64_to_le_bytes(color.red as u64)).push(
            spec_u64_to_le_bytes(color.green as u64),
        ).push(spec_u64_to_le_bytes(color.blue as u64)).push(
            spec_u64_to_le_bytes(color.alpha as u64),
        ),
{
    write_word(state, color.red as u64);
    write_word(state, color.green as u64);
    write_word(state, color.blue as u64);
    write_word(state, color.alpha as u64);
}

fn alpha_words(mode: &AlphaMode) -> (w: (u64, u64))
    ensures
        w.0 == alpha_tag(*mode),
        w.1 == alpha_cutoff(*mode),
{
    match mode {
        AlphaMode::Opaque => (ALPHA_OPAQUE, 0),
        AlphaMode::Mask(cutoff) => (ALPHA_MASK, *cutoff as u64),
        AlphaMode::Blend => (ALPHA_BLEND, 0),
        AlphaMode::Premultiplied => (ALPHA_PREMULTIPLIED, 0),
        AlphaMode::Add => (ALPHA_ADD, 0),
        AlphaMode::Multiply => (ALPHA_MULTIPLY, 0),
        AlphaMode::AlphaToCoverage => (ALPHA_TO_COVERAGE, 0),
    }
}

fn cull(mode: &Option<Face>) -> (w: u64)
    ensures
        w == cull_word(*mode),
{
    match mode {
        None => 0,
        Some(Face::Front) => 1,
        Some(Face::Back) => 2,
    }
}

fn parallax_words(method: &ParallaxMappingMethod) -> (w: (u64, u64))
    ensures
        w.0 == parallax_tag(*method),
        w.1 == parallax_steps(*method),
{
    match method {
        ParallaxMappingMethod::Occlusion => (0, 0),
        ParallaxMappingMethod::Relief { max_steps } => (1, *max_steps as u64),
    }
}

fn render_method(method: &OpaqueRendererMethod) -> (w: u64)
    ensures
        w == render_word(*method),
{
    match method {
        OpaqueRendererMethod::Forward => 0,
        OpaqueRendererMethod::Deferred => 1,
        OpaqueRendererMethod::Auto => 2,
    }
}

fn hash_colors(m: &StandardMaterial, state: &mut DefaultHasher)
    ensures
        final(state)@ == old(state)@ + word_chunks(color_words(*m)),
{
    hash_color(&m.base_color, state);
    hash_texture(&m.base_color_texture, state);
    hash_color(&m.emissive, state);
    hash_texture(&m.emissive_texture, state);
    assert(state@ =~= old(state)@ + word_chunks(color_words(*m)));
}

fn hash_surface(m: &StandardMaterial, state: &mut DefaultHasher)
    ensures
        final(state)@ == old(state)@ + word_chunks(surface_words(*m)),
{
    write_word(state, m.perceptual_roughness as u64);
    write_word(state, m.metallic as u64);
    hash_texture(&m.metallic_roughness_texture, state);
    write_word(state, m.reflectance as u64);
    write_word(state, m.diffuse_transmission as u64);
    write_word(state, m.specular_transmission as u64);
    write_word(state, m.thickness as u64);
    write_word(state, m.ior as u64);
    write_word(state, m.attenuation_distance as u64);
    assert(state@ =~= old(state)@ + word_chunks(surface_words(*m)));
}

fn hash_shading(m: &StandardMaterial, state: &mut DefaultHasher)
    ensures
        final(state)@ == old(state)@ + word_chunks(shading_words(*m)),
{
    hash_color(&m.attenuation_color, state);
    hash_texture(&m.normal_map_texture, state);
    write_word(state, flag(m.flip_normal_map_y));
    hash_texture(&m.occlusion_texture, state);
    write_word(state, flag(m.double_sided));
    write_word(state, cull(&m.cull_mode));
    write_word(state, flag(m.unlit));
    write_word(state, flag(m.fog_enabled));
    assert(state@ =~= old(state)@ + word_chunks(shading_words(*m)));
}

fn hash_pass(m: &StandardMaterial, state: &mut DefaultHasher)
    ensures
        final(state)@ == old(state)@ + word_chunks(pass_words(*m)),
{
    let alpha = alpha_words(&m.alpha_mode);
    write_word(state, alpha.0);
    write_word(state, alpha.1);
    write_word(state, m.depth_bias as u64);
    hash_texture(&m.depth_map, state);
    write_word(state, m.parallax_depth_scale as u64);
    let parallax = parallax_words(&m.parallax_mapping_method);
    write_word(state, parallax.0);
    write_word(state, parallax.1);
    write_word(state, m.max_parallax_layer_count as u64);
    write_word(state, render_method(&m.opaque_render_method));
    write_word(state, m.deferred_lighting_pass_id as u64);
    write_word(state, m.lightmap_exposure as u64);
    assert(state@ =~= old(state)@ + word_chunks(pass_words(*m)));
}

impl MaterialHash for StandardMaterial {
    open spec fn fingerprint(&self) -> u64 {
        material_fingerprint(*self)
    }

    fn generate_hash(&self) -> (h: u64) {
        let mut state = DefaultHasher::new();
        hash_colors(self, &mut state);
        hash_surface(self, &mut state);
        hash_shading(self, &mut state);
        hash_pass(self, &mut state);
        assert(state@ =~= material_chunks(*self));
        state.finish()
    }
}

/// Computes the fingerprint of a mesh: the number of channels, then each
/// channel's tag and content, in the mesh's own order.
pub fn hash_mesh(mesh: &Mesh) -> (h: u64)
    ensures
        h == mesh_fingerprint(mesh@),
{
    let n = mesh.attributes.len();
    let mut state = DefaultHasher::new();
    write_word(&mut state, n as u64);
    let mut i: usize = 0;
    while i < n
        invariant
            i <= n,
            n == mesh.attributes@.len(),
            state@ == seq![spec_u64_to_le_bytes(n as u64)] + attributes_chunks(
                mesh@.take(i as int),
            ),
        decreases n - i,
    {
        let attribute = &mesh.attributes[i];
        write_word(&mut state, attribute.id);
        write_word(&mut state, attribute.bytes.len() as u64);
        state.write(attribute.bytes.as_slice());
        proof {
            assert(mesh@.take(i + 1).drop_last() =~= mesh@.take(i as int));
            assert(mesh@.take(i + 1).last() == attribute@);
            assert(state@ =~= seq![spec_u64_to_le_bytes(n as u64)] + attributes_chunks(
                mesh@.take(i + 1),
            ));
        }
        i += 1;
    }
    proof {
        assert(mesh@.take(n as int) =~= mesh@);
    }
    state.finish()
}

/// The fingerprint of a mesh depends on its content alone: two meshes in
/// memory with the same channels have the same fingerprint.
pub proof fn lemma_mesh_fingerprint_of_content(a: Mesh, b: Mesh)
    requires
        a@ == b@,
    ensures
        mesh_fingerprint(a@) == mesh_fingerprint(b@),
{
}

/// Every channel, and the list of channels, is short enough for its length
/// to be written in 64 bits: true of every mesh in memory.
pub open spec fn sized(m: Seq<MeshAttributeView>) -> bool {
    &&& m.len() <= u64::MAX
    &&& forall|i: int| 0 <= i < m.len() ==> (#[trigger] m[i]).bytes.len() <= u64::MAX
}

proof fn lemma_split<T>(a: Seq<T>, x: Seq<T>, b: Seq<T>, y: Seq<T>)
    requires
        a + x == b + y,
        a.len() == b.len(),
    ensures
        a == b,
        x == y,
{
    assert((a + x).len() == (b + y).len());
    assert(a =~= (a + x).subrange(0, a.len() as int));
    assert(b =~= (b + y).subrange(0, b.len() as int));
    assert(x =~= (a + x).subrange(a.len() as int, (a + x).len() as int));
    assert(y =~= (b + y).subrange(b.len() as int, (b + y).len() as int));
}

proof fn lemma_word_split(v: u64, x: Seq<u8>, w: u64, y: Seq<u8>)
    requires
        spec_u64_to_le_bytes(v) + x == spec_u64_to_le_bytes(w) + y,
    ensures
        v == w,
        x == y,
{
    lemma_auto_spec_u64_to_from_le_bytes();
    lemma_split(spec_u64_to_le_bytes(v), x, spec_u64_to_le_bytes(w), y);
    assert(spec_u64_from_le_bytes(spec_u64_to_le_bytes(v)) == v);
    assert(spec_u64_from_le_bytes(spec_u64_to_le_bytes(w)) == w);
}

proof fn lemma_words_bytes_len(words: Seq<u64>)
    ensures
        words_bytes(words).len() == 8 * words.len(),
    decreases words.len(),
{
    lemma_auto_spec_u64_to_from_le_bytes();
    if words.len() > 0 {
        lemma_words_bytes_len(words.drop_last());
    }
}

/// The hasher is fed the words written out one after another.
pub proof fn lemma_word_chunks_stream(words: Seq<u64>)
    ensures
        word_chunks(words).flatten() == words_bytes(words),
    decreases words.len(),
{
    if words.len() == 0 {
        assert(word_chunks(words) =~= Seq::<Seq<u8>>::empty());
    } else {
        let front = words.drop_last();
        let last = spec_u64_to_le_bytes(words.last());
        lemma_word_chunks_stream(front);
        assert(word_chunks(words) =~= word_chunks(front).push(last));
        word_chunks(front).lemma_flatten_push(last);
    }
}

/// The hasher is fed a mesh as the mesh written out.
pub proof fn lemma_mesh_chunks_stream(m: Seq<MeshAttributeView>)
    ensures
        mesh_chunks(m).flatten() == mesh_bytes(m),
{
    let head = seq![spec_u64_to_le_bytes(m.len() as u64)];
    lemma_attributes_chunks_stream(m);
    vstd::seq_lib::lemma_flatten_concat(head, attributes_chunks(m));
    head.lemma_flatten_singleton();
}

proof fn lemma_attributes_chunks_stream(attrs: Seq<MeshAttributeView>)
    ensures
        attributes_chunks(attrs).flatten() == attributes_bytes(attrs),
    decreases attrs.len(),
{
    if attrs.len() > 0 {
        let a = attrs.last();
        lemma_attributes_chunks_stream(attrs.drop_last());
        vstd::seq_lib::lemma_flatten_concat(
            attributes_chunks(attrs.drop_last()),
            attribute_chunks(a),
        );
        let empty = Seq::<Seq<u8>>::empty();
        let one = empty.push(spec_u64_to_le_bytes(a.id));
        let two = one.push(spec_u64_to_le_bytes(a.bytes.len() as u64));
        empty.lemma_flatten_push(spec_u64_to_le_bytes(a.id));
        one.lemma_flatten_push(spec_u64_to_le_bytes(a.bytes.len() as u64));
        two.lemma_flatten_push(a.bytes);
        assert(attribute_chunks(a) =~= two.push(a.bytes));
        assert(attribute_chunks(a).flatten() =~= attribute_bytes(a));
    }
}

/// Different words are written out as different bytes.
pub proof fn lemma_words_bytes_injective(a: Seq<u64>, b: Seq<u64>)
    requires
        words_bytes(a) == words_bytes(b),
    ensures
        a == b,
    decreases a.len(),
{
    lemma_auto_spec_u64_to_from_le_bytes();
    lemma_words_bytes_len(a);
    lemma_words_bytes_len(b);
    if a.len() == 0 {
        assert(a =~= b);
    } else {
        lemma_words_bytes_len(a.drop_last());
        lemma_words_bytes_len(b.drop_last());
        let la = spec_u64_to_le_bytes(a.last());
        let lb = spec_u64_to_le_bytes(b.last());
        lemma_split(words_bytes(a.drop_last()), la, words_bytes(b.drop_last()), lb);
        assert(spec_u64_from_le_bytes(la) == a.last());
        assert(spec_u64_from_le_bytes(lb) == b.last());
        lemma_words_bytes_injective(a.drop_last(), b.drop_last());
        assert(a =~= a.drop_last().push(a.last()));
        assert(b =~= b.drop_last().push(b.last()));
    }
}

proof fn lemma_color_words_injective(a: StandardMaterial, b: StandardMaterial)
    requires
        color_words(a) == color_words(b),
    ensures
        a.base_color == b.base_color,
        a.base_color_texture == b.base_color_texture,
        a.emissive == b.emissive,
        a.emissive_texture == b.emissive_texture,
{
    let x = color_words(a);
    let y = color_words(b);
    assert(x[0] == y[0] && x[1] == y[1] && x[2] == y[2] && x[3] == y[3]);
    assert(x[4] == y[4] && x[5] == y[5]);
    assert(x[6] == y[6] && x[7] == y[7] && x[8] == y[8] && x[9] == y[9]);
    assert(x[10] == y[10] && x[11] == y[11]);
}

proof fn lemma_surface_words_injective(a: StandardMaterial, b: StandardMaterial)
    requires
        surface_words(a) == surface_words(b),
    ensures
        a.perceptual_roughness == b.perceptual_roughness,
        a.metallic == b.metallic,
        a.metallic_roughness_texture == b.metallic_roughness_texture,
        a.reflectance == b.reflectance,
        a.diffuse_transmission == b.diffuse_transmission,
        a.specular_transmission == b.specular_transmission,
        a.thickness == b.thickness,
        a.ior == b.ior,
        a.attenuation_distance == b.attenuation_distance,
{
    let x = surface_words(a);
    let y = surface_words(b);
    assert(x[0] == y[0] && x[1] == y[1] && x[2] == y[2] && x[3] == y[3]);
    assert(x[4] == y[4] && x[5] == y[5] && x[6] == y[6] && x[7] == y[7]);
    assert(x[8] == y[8] && x[9] == y[9]);
}

proof fn lemma_shading_words_injective(a: StandardMaterial, b: StandardMaterial)
    requires
        shading_words(a) == shading_words(b),
    ensures
        a.attenuation_color == b.attenuation_color,
        a.normal_map_texture == b.normal_map_texture,
        a.flip_normal_map_y == b.flip_normal_map_y,
        a.occlusion_texture == b.occlusion_texture,
        a.double_sided == b.double_sided,
        a.cull_mode == b.cull_mode,
        a.unlit == b.unlit,
        a.fog_enabled == b.fog_enabled,
{
    let x = shading_words(a);
    let y = shading_words(b);
    assert(x[0] == y[0] && x[1] == y[1] && x[2] == y[2] && x[3] == y[3]);
    assert(x[4] == y[4] && x[5] == y[5] && x[6] == y[6]);
    assert(x[7] == y[7] && x[8] == y[8] && x[9] == y[9]);
    assert(x[10] == y[10] && x[11] == y[11] && x[12] == y[12]);
}

proof fn lemma_pass_words_injective(a: StandardMaterial, b: StandardMaterial)
    requires
        pass_words(a) == pass_words(b),
    ensures
        a.alpha_mode == b.alpha_mode,
        a.depth_bias == b.depth_bias,
        a.depth_map == b.depth_map,
        a.parallax_depth_scale == b.parallax_depth_scale,
        a.parallax_mapping_method == b.parallax_mapping_method,
        a.max_parallax_layer_count == b.max_parallax_layer_count,
        a.opaque_render_method == b.opaque_render_method,
        a.deferred_lighting_pass_id == b.deferred_lighting_pass_id,
        a.lightmap_exposure == b.lightmap_exposure,
{
    let x = pass_words(a);
    let y = pass_words(b);
    assert(x[0] == y[0] && x[1] == y[1] && x[2] == y[2]);
    assert(x[3] == y[3] && x[4] == y[4] && x[5] == y[5]);
    assert(x[6] == y[6] && x[7] == y[7] && x[8] == y[8]);
    assert(x[9] == y[9] && x[10] == y[10] && x[11] == y[11]);
}

/// Materials that differ in any parameter feed different bytes to the
/// hasher: only a collision of the digest itself gives them one fingerprint.
pub proof fn lemma_material_bytes_injective(a: StandardMaterial, b: StandardMaterial)
    requires
        material_chunks(a).flatten() == material_chunks(b).flatten(),
    ensures
        a == b,
{
    lemma_word_chunks_stream(material_words(a));
    lemma_word_chunks_stream(material_words(b));
    lemma_words_bytes_injective(material_words(a), material_words(b));
    let head_a = color_words(a) + surface_words(a) + shading_words(a);
    let head_b = color_words(b) + surface_words(b) + shading_words(b);
    lemma_split(head_a, pass_words(a), head_b, pass_words(b));
    lemma_split(
        color_words(a) + surface_words(a),
        shading_words(a),
        color_words(b) + surface_words(b),
        shading_words(b),
    );
    lemma_split(color_words(a), surface_words(a), color_words(b), surface_words(b));
    lemma_color_words_injective(a, b);
    lemma_surface_words_injective(a, b);
    lemma_shading_words_injective(a, b);
    lemma_pass_words_injective(a, b);
}

proof fn lemma_attributes_from_front(attrs: Seq<MeshAttributeView>)
    requires
        attrs.len() > 0,
    ensures
        attributes_bytes(attrs) == attribute_bytes(attrs.first()) + attributes_bytes(
            attrs.drop_first(),
        ),
    decreases attrs.len(),
{
    if attrs.len() == 1 {
        assert(attrs.drop_last() =~= Seq::<MeshAttributeView>::empty());
        assert(attrs.drop_first() =~= Seq::<MeshAttributeView>::empty());
        assert(attributes_bytes(attrs) =~= attribute_bytes(attrs.first()) + attributes_bytes(
            attrs.drop_first(),
        ));
    } else {
        let front = attrs.drop_last();
        lemma_attributes_from_front(front);
        assert(front.drop_first() =~= attrs.drop_first().drop_last());
        assert(front.first() == attrs.first());
        assert(attrs.drop_first().last() == attrs.last());
        assert(attributes_bytes(attrs) =~= attribute_bytes(attrs.first()) + attributes_bytes(
            attrs.drop_first(),
        ));
    }
}

proof fn lemma_attributes_injective(
    a: Seq<MeshAttributeView>,
    x: Seq<u8>,
    b: Seq<MeshAttributeView>,
    y: Seq<u8>,
)
    requires
        sized(a),
        sized(b),
        a.len() == b.len(),
        attributes_bytes(a) + x == attributes_bytes(b) + y,
    ensures
        a == b,
        x == y,
    decreases a.len(),
{
    if a.len() == 0 {
        assert(a =~= b);
        assert(x =~= attributes_bytes(a) + x);
        assert(y =~= attributes_bytes(b) + y);
    } else {
        lemma_attributes_from_front(a);
        lemma_attributes_from_front(b);
        let (a0, b0) = (a.first(), b.first());
        let (ar, br) = (a.drop_first(), b.drop_first());
        let rest_a = attributes_bytes(ar) + x;
        let rest_b = attributes_bytes(br) + y;
        let len_a = spec_u64_to_le_bytes(a0.bytes.len() as u64);
        let len_b = spec_u64_to_le_bytes(b0.bytes.len() as u64);
        assert(attributes_bytes(a) + x =~= spec_u64_to_le_bytes(a0.id) + (len_a + (a0.bytes
            + rest_a)));
        assert(attributes_bytes(b) + y =~= spec_u64_to_le_bytes(b0.id) + (len_b + (b0.bytes
            + rest_b)));
        lemma_word_split(a0.id, len_a + (a0.bytes + rest_a), b0.id, len_b + (b0.bytes + rest_b));
        lemma_word_split(
            a0.bytes.len() as u64,
            a0.bytes + rest_a,
            b0.bytes.len() as u64,
            b0.bytes + rest_b,
        );
        assert(a0.bytes.len() == b0.bytes.len());
        lemma_split(a0.bytes, rest_a, b0.bytes, rest_b);
        assert(a0 == b0);
        assert forall|i: int| 0 <= i < ar.len() implies (#[trigger] ar[i]).bytes.len()
            <= u64::MAX by {
            assert(ar[i] == a[i + 1]);
        }
        assert forall|i: int| 0 <= i < br.len() implies (#[trigger] br[i]).bytes.len()
            <= u64::MAX by {
            assert(br[i] == b[i + 1]);
        }
        lemma_attributes_injective(ar, x, br, y);
        assert(a =~= seq![a0] + ar);
        assert(b =~= seq![b0] + br);
    }
}

/// Meshes feed the same bytes to the hasher only if they have the same
/// channels in the same order with the same content.
pub proof fn lemma_mesh_bytes_injective(a: Seq<MeshAttributeView>, b: Seq<MeshAttributeView>)
    requires
        sized(a),
        sized(b),
        mesh_chunks(a).flatten() == mesh_chunks(b).flatten(),
    ensures
        a == b,
{
    lemma_mesh_chunks_stream(a);
    lemma_mesh_chunks_stream(b);
    lemma_word_split(a.len() as u64, attributes_bytes(a), b.len() as u64, attributes_bytes(b));
    assert(attributes_bytes(a) + Seq::<u8>::empty() =~= attributes_bytes(a));
    assert(attributes_bytes(b) + Seq::<u8>::empty() =~= attributes_bytes(b));
    lemma_attributes_injective(a, Seq::<u8>::empty(), b, Seq::<u8>::empty());
}

} // verus!
