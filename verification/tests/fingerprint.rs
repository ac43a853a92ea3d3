use auto_instance::{
    hash_color, hash_mesh, AlphaMode, Color, Face, MaterialHash, Mesh, MeshAttribute,
    OpaqueRendererMethod, ParallaxMappingMethod, StandardMaterial,
};
use std::collections::hash_map::DefaultHasher;
use std::hash::Hasher;

fn bits(x: f32) -> u32 {
    x.to_bits()
}

fn white() -> Color {
    Color { red: bits(1.0), green: bits(1.0), blue: bits(1.0), alpha: bits(1.0) }
}

fn black() -> Color {
    Color { red: bits(0.0), green: bits(0.0), blue: bits(0.0), alpha: bits(1.0) }
}

fn material() -> StandardMaterial {
    StandardMaterial {
        base_color: white(),
        base_color_texture: None,
        emissive: black(),
        emissive_texture: None,
        perceptual_roughness: bits(0.5),
        metallic: bits(0.0),
        metallic_roughness_texture: None,
        reflectance: bits(0.5),
        diffuse_transmission: bits(0.0),
        specular_transmission: bits(0.0),
        thickness: bits(0.0),
        ior: bits(1.5),
        attenuation_distance: bits(f32::INFINITY),
        attenuation_color: white(),
        normal_map_texture: None,
        flip_normal_map_y: false,
        occlusion_texture: None,
        double_sided: false,
        cull_mode: Some(Face::Back),
        unlit: false,
        fog_enabled: true,
        alpha_mode: AlphaMode::Opaque,
        depth_bias: bits(0.0),
        depth_map: None,
        parallax_depth_scale: bits(0.1),
        parallax_mapping_method: ParallaxMappingMethod::Occlusion,
        max_parallax_layer_count: bits(16.0),
        opaque_render_method: OpaqueRendererMethod::Auto,
        deferred_lighting_pass_id: 1,
        lightmap_exposure: bits(1.0),
    }
}

fn digest_of_words(words: &[u64]) -> u64 {
    let mut bytes: Vec<u8> = Vec::new();
    for w in words {
        bytes.extend_from_slice(&w.to_le_bytes());
    }
    let mut hasher = DefaultHasher::new();
    hasher.write(&bytes);
    hasher.finish()
}

fn mesh(channels: Vec<(u64, Vec<u8>)>) -> Mesh {
    Mesh {
        attributes: channels.into_iter().map(|(id, bytes)| MeshAttribute { id, bytes }).collect(),
    }
}

#[test]
fn hash_color_feeds_four_components_in_order() {
    let c = Color { red: 1, green: 2, blue: 3, alpha: 0xffff_ffff };
    let mut state = DefaultHasher::new();
    state.write(&[7]);
    hash_color(&c, &mut state);
    let mut expected = DefaultHasher::new();
    expected.write(&[7]);
    expected.write(&1u64.to_le_bytes());
    expected.write(&2u64.to_le_bytes());
    expected.write(&3u64.to_le_bytes());
    expected.write(&0xffff_ffffu64.to_le_bytes());
    assert_eq!(state.finish(), expected.finish());
    let mut swapped = DefaultHasher::new();
    swapped.write(&[7]);
    hash_color(&Color { red: 2, green: 1, blue: 3, alpha: 0xffff_ffff }, &mut swapped);
    assert_ne!(state.finish(), swapped.finish());
}

#[test]
fn material_fingerprint_is_the_digest_of_its_words() {
    let one = bits(1.0) as u64;
    let zero = bits(0.0) as u64;
    let half = bits(0.5) as u64;
    let words: Vec<u64> = vec![
        one, one, one, one, 0, 0,
        zero, zero, zero, one, 0, 0,
        half, zero, 0, 0, half, zero, zero, zero, bits(1.5) as u64, bits(f32::INFINITY) as u64,
        one, one, one, one, 0, 0, 0, 0, 0, 0, 2, 0, 1,
        798573452, 0, zero, 0, 0, bits(0.1) as u64, 0, 0, bits(16.0) as u64, 2, 1, one,
    ];
    assert_eq!(words.len(), 47);
    assert_eq!(material().generate_hash(), digest_of_words(&words));
}

#[test]
fn material_fingerprint_with_every_option_set() {
    let mut m = material();
    m.base_color_texture = Some(11);
    m.emissive_texture = Some(12);
    m.metallic_roughness_texture = Some(13);
    m.normal_map_texture = Some(14);
    m.flip_normal_map_y = true;
    m.occlusion_texture = Some(15);
    m.double_sided = true;
    m.cull_mode = Some(Face::Front);
    m.unlit = true;
    m.fog_enabled = false;
    m.alpha_mode = AlphaMode::Mask(bits(0.5));
    m.depth_map = Some(16);
    m.parallax_mapping_method = ParallaxMappingMethod::Relief { max_steps: 5 };
    m.opaque_render_method = OpaqueRendererMethod::Deferred;
    let one = bits(1.0) as u64;
    let zero = bits(0.0) as u64;
    let half = bits(0.5) as u64;
    let words: Vec<u64> = vec![
        one, one, one, one, 1, 11,
        zero, zero, zero, one, 1, 12,
        half, zero, 1, 13, half, zero, zero, zero, bits(1.5) as u64, bits(f32::INFINITY) as u64,
        one, one, one, one, 1, 14, 1, 1, 15, 1, 1, 1, 0,
        612309751, half, zero, 1, 16, bits(0.1) as u64, 1, 5, bits(16.0) as u64, 1, 1, one,
    ];
    assert_eq!(m.generate_hash(), digest_of_words(&words));
}

#[test]
fn material_fingerprint_is_deterministic() {
    let a = material();
    let b = material();
    assert_eq!(a.generate_hash(), a.generate_hash());
    assert_eq!(a.generate_hash(), b.generate_hash());
}

#[test]
fn material_fingerprint_sees_one_ulp_in_base_color_red() {
    let a = material();
    let mut b = material();
    b.base_color.red = a.base_color.red + 1;
    assert_ne!(a.generate_hash(), b.generate_hash());
}

#[test]
fn material_fingerprint_sees_every_field() {
    let base = material();
    let mut variants: Vec<StandardMaterial> = Vec::new();
    let mut m = base; m.base_color.green ^= 1; variants.push(m);
    let mut m = base; m.base_color.blue ^= 1; variants.push(m);
    let mut m = base; m.base_color.alpha ^= 1; variants.push(m);
    let mut m = base; m.base_color_texture = Some(0); variants.push(m);
    let mut m = base; m.base_color_texture = Some(1); variants.push(m);
    let mut m = base; m.emissive.red ^= 1; variants.push(m);
    let mut m = base; m.emissive_texture = Some(1); variants.push(m);
    let mut m = base; m.perceptual_roughness ^= 1; variants.push(m);
    let mut m = base; m.metallic ^= 1; variants.push(m);
    let mut m = base; m.metallic_roughness_texture = Some(1); variants.push(m);
    let mut m = base; m.reflectance ^= 1; variants.push(m);
    let mut m = base; m.diffuse_transmission ^= 1; variants.push(m);
    let mut m = base; m.specular_transmission ^= 1; variants.push(m);
    let mut m = base; m.thickness ^= 1; variants.push(m);
    let mut m = base; m.ior ^= 1; variants.push(m);
    let mut m = base; m.attenuation_distance ^= 1; variants.push(m);
    let mut m = base; m.attenuation_color.red ^= 1; variants.push(m);
    let mut m = base; m.normal_map_texture = Some(1); variants.push(m);
    let mut m = base; m.flip_normal_map_y = true; variants.push(m);
    let mut m = base; m.occlusion_texture = Some(1); variants.push(m);
    let mut m = base; m.double_sided = true; variants.push(m);
    let mut m = base; m.cull_mode = None; variants.push(m);
    let mut m = base; m.cull_mode = Some(Face::Front); variants.push(m);
    let mut m = base; m.unlit = true; variants.push(m);
    let mut m = base; m.fog_enabled = false; variants.push(m);
    let mut m = base; m.alpha_mode = AlphaMode::Mask(0); variants.push(m);
    let mut m = base; m.alpha_mode = AlphaMode::Mask(bits(0.5)); variants.push(m);
    let mut m = base; m.alpha_mode = AlphaMode::Blend; variants.push(m);
    let mut m = base; m.alpha_mode = AlphaMode::Premultiplied; variants.push(m);
    let mut m = base; m.alpha_mode = AlphaMode::Add; variants.push(m);
    let mut m = base; m.alpha_mode = AlphaMode::Multiply; variants.push(m);
    let mut m = base; m.alpha_mode = AlphaMode::AlphaToCoverage; variants.push(m);
    let mut m = base; m.depth_bias ^= 1; variants.push(m);
    let mut m = base; m.depth_map = Some(1); variants.push(m);
    let mut m = base; m.parallax_depth_scale ^= 1; variants.push(m);
    let mut m = base; m.parallax_mapping_method = ParallaxMappingMethod::Relief { max_steps: 0 }; variants.push(m);
    let mut m = base; m.parallax_mapping_method = ParallaxMappingMethod::Relief { max_steps: 5 }; variants.push(m);
    let mut m = base; m.max_parallax_layer_count ^= 1; variants.push(m);
    let mut m = base; m.opaque_render_method = OpaqueRendererMethod::Forward; variants.push(m);
    let mut m = base; m.opaque_render_method = OpaqueRendererMethod::Deferred; variants.push(m);
    let mut m = base; m.deferred_lighting_pass_id = 2; variants.push(m);
    let mut m = base; m.lightmap_exposure ^= 1; variants.push(m);
    let mut seen: Vec<u64> = vec![base.generate_hash()];
    for v in &variants {
        let h = v.generate_hash();
        assert!(!seen.contains(&h));
        seen.push(h);
    }
}

#[test]
fn mesh_fingerprint_is_the_digest_of_count_tags_lengths_and_bytes() {
    let m = mesh(vec![(0, vec![1, 2, 3]), (5, vec![]), (2, vec![9, 9])]);
    let mut bytes: Vec<u8> = Vec::new();
    bytes.extend_from_slice(&3u64.to_le_bytes());
    bytes.extend_from_slice(&0u64.to_le_bytes());
    bytes.extend_from_slice(&3u64.to_le_bytes());
    bytes.extend_from_slice(&[1, 2, 3]);
    bytes.extend_from_slice(&5u64.to_le_bytes());
    bytes.extend_from_slice(&0u64.to_le_bytes());
    bytes.extend_from_slice(&2u64.to_le_bytes());
    bytes.extend_from_slice(&2u64.to_le_bytes());
    bytes.extend_from_slice(&[9, 9]);
    let mut hasher = DefaultHasher::new();
    hasher.write(&bytes);
    assert_eq!(hash_mesh(&m), hasher.finish());
}

#[test]
fn mesh_fingerprint_of_empty_mesh() {
    let mut hasher = DefaultHasher::new();
    hasher.write(&0u64.to_le_bytes());
    assert_eq!(hash_mesh(&mesh(vec![])), hasher.finish());
}

#[test]
fn mesh_fingerprint_ignores_identity() {
    let a = mesh(vec![(0, vec![1, 2, 3, 4]), (1, vec![5, 6])]);
    let b = mesh(vec![(0, vec![1, 2, 3, 4]), (1, vec![5, 6])]);
    assert_eq!(hash_mesh(&a), hash_mesh(&b));
    assert_eq!(hash_mesh(&a), hash_mesh(&a));
}

#[test]
fn mesh_fingerprint_sees_order_tags_and_content() {
    let a = mesh(vec![(0, vec![1, 2, 3, 4]), (1, vec![5, 6])]);
    let swapped = mesh(vec![(1, vec![5, 6]), (0, vec![1, 2, 3, 4])]);
    let retagged = mesh(vec![(0, vec![1, 2, 3, 4]), (2, vec![5, 6])]);
    let changed = mesh(vec![(0, vec![1, 2, 3, 5]), (1, vec![5, 6])]);
    let moved = mesh(vec![(0, vec![1, 2, 3]), (1, vec![4, 5, 6])]);
    let shorter = mesh(vec![(0, vec![1, 2, 3, 4])]);
    let h = hash_mesh(&a);
    assert_ne!(h, hash_mesh(&swapped));
    assert_ne!(h, hash_mesh(&retagged));
    assert_ne!(h, hash_mesh(&changed));
    assert_ne!(h, hash_mesh(&moved));
    assert_ne!(h, hash_mesh(&shorter));
}
