use auto_instance::{
    apply_auto_instance_recursive, consolidate_material_instances, consolidate_mesh_instances,
    hash_mesh, AlphaMode, Candidate, Color, Face, Hierarchy, Instances, MaterialHash, Mesh,
    MeshAttribute, OpaqueRendererMethod, Outcome, ParallaxMappingMethod, Report, StandardMaterial,
};

fn mesh(seed: u8) -> Mesh {
    Mesh {
        attributes: vec![
            MeshAttribute { id: 0, bytes: vec![seed, 0, 0, 0, 1, 1, 1, 1] },
            MeshAttribute { id: 1, bytes: vec![seed, seed] },
        ],
    }
}

fn grey(level: u32) -> Color {
    Color { red: level, green: level, blue: level, alpha: 1.0f32.to_bits() }
}

fn material(level: u32) -> StandardMaterial {
    StandardMaterial {
        base_color: grey(level),
        base_color_texture: Some(3),
        emissive: grey(0),
        emissive_texture: None,
        perceptual_roughness: 0.5f32.to_bits(),
        metallic: 0,
        metallic_roughness_texture: None,
        reflectance: 0.5f32.to_bits(),
        diffuse_transmission: 0,
        specular_transmission: 0,
        thickness: 0,
        ior: 1.5f32.to_bits(),
        attenuation_distance: f32::INFINITY.to_bits(),
        attenuation_color: grey(1.0f32.to_bits()),
        normal_map_texture: None,
        flip_normal_map_y: false,
        occlusion_texture: None,
        double_sided: false,
        cull_mode: Some(Face::Back),
        unlit: false,
        fog_enabled: true,
        alpha_mode: AlphaMode::Blend,
        depth_bias: 0,
        depth_map: None,
        parallax_depth_scale: 0.1f32.to_bits(),
        parallax_mapping_method: ParallaxMappingMethod::Occlusion,
        max_parallax_layer_count: 16.0f32.to_bits(),
        opaque_render_method: OpaqueRendererMethod::Auto,
        deferred_lighting_pass_id: 1,
        lightmap_exposure: 1.0f32.to_bits(),
    }
}

/// A small world for the mesh kind: per node the handle it holds and whether
/// it is eligible, and per handle the content once it is resolved.
struct World {
    handle: Vec<Option<u64>>,
    eligible: Vec<bool>,
    pool: Vec<(u64, Option<u8>)>,
}

impl World {
    fn resolve(&self, handle: u64) -> Option<Mesh> {
        for (h, seed) in &self.pool {
            if *h == handle {
                return seed.map(mesh);
            }
        }
        None
    }

    /// Runs one tick of the mesh consolidator over the eligible nodes, in
    /// node order, and applies what it decided.
    fn tick(&mut self, state: &mut Instances) -> Option<Report> {
        let mut nodes: Vec<usize> = Vec::new();
        let mut entities: Vec<Candidate<Mesh>> = Vec::new();
        for n in 0..self.handle.len() {
            if self.eligible[n] {
                if let Some(h) = self.handle[n] {
                    nodes.push(n);
                    entities.push(Candidate { handle: h, content: self.resolve(h) });
                }
            }
        }
        let tick = consolidate_mesh_instances(&entities, state);
        assert_eq!(tick.outcomes.len(), nodes.len());
        for (n, outcome) in nodes.iter().zip(tick.outcomes.iter()) {
            match outcome {
                Outcome::Retry => {}
                Outcome::Keep => self.eligible[*n] = false,
                Outcome::Share(h) => {
                    self.handle[*n] = Some(*h);
                    self.eligible[*n] = false;
                }
            }
        }
        tick.report
    }
}

#[test]
fn counter_has_room_up_to_its_limit() {
    let mut state = Instances::new();
    assert!(state.has_room(0));
    assert!(state.has_room(u32::MAX as usize));
    assert!(!state.has_room(u32::MAX as usize + 1));
    state.observe(1, Some(5));
    state.observe(2, Some(5));
    assert_eq!(state.duplicates(), 1);
    assert!(state.has_room(u32::MAX as usize - 1));
    assert!(!state.has_room(u32::MAX as usize));
}

#[test]
fn new_state_is_empty() {
    let state = Instances::new();
    assert_eq!(state.duplicates(), 0);
    assert_eq!(state.unique(), 0);
    assert!(!state.contains(0));
    assert_eq!(state.canonical(0), None);
}

#[test]
fn observe_registers_then_shares() {
    let mut state = Instances::new();
    assert_eq!(state.observe(10, Some(777)), Outcome::Keep);
    assert!(state.contains(10));
    assert!(!state.contains(777));
    assert!(!state.contains(11));
    assert_eq!(state.canonical(777), Some(10));
    assert_eq!(state.canonical(10), None);
    assert_eq!(state.unique(), 1);
    assert_eq!(state.duplicates(), 0);
    assert_eq!(state.observe(11, Some(777)), Outcome::Share(10));
    assert!(!state.contains(11));
    assert_eq!(state.canonical(777), Some(10));
    assert_eq!(state.unique(), 1);
    assert_eq!(state.duplicates(), 1);
    assert_eq!(state.observe(12, Some(778)), Outcome::Keep);
    assert_eq!(state.canonical(778), Some(12));
    assert_eq!(state.unique(), 2);
    assert!(state.contains(12));
}

#[test]
fn observe_waits_for_content_and_keeps_seen_handles() {
    let mut state = Instances::new();
    assert_eq!(state.observe(10, None), Outcome::Retry);
    assert!(!state.contains(10));
    assert_eq!(state.unique(), 0);
    assert_eq!(state.observe(10, Some(5)), Outcome::Keep);
    assert_eq!(state.observe(10, Some(6)), Outcome::Keep);
    assert_eq!(state.observe(10, None), Outcome::Keep);
    assert_eq!(state.canonical(6), None);
    assert_eq!(state.unique(), 1);
    assert_eq!(state.duplicates(), 0);
}

#[test]
fn three_nodes_with_identical_content_share_the_first_handle() {
    let mut state = Instances::new();
    let entities = vec![
        Candidate { handle: 1, content: Some(mesh(7)) },
        Candidate { handle: 2, content: Some(mesh(7)) },
        Candidate { handle: 3, content: Some(mesh(7)) },
    ];
    let tick = consolidate_mesh_instances(&entities, &mut state);
    assert_eq!(tick.outcomes, vec![Outcome::Keep, Outcome::Share(1), Outcome::Share(1)]);
    assert_eq!(state.duplicates(), 2);
    assert_eq!(state.unique(), 1);
    assert_eq!(state.canonical(hash_mesh(&mesh(7))), Some(1));
    assert!(state.contains(1));
    assert!(!state.contains(2));
    assert!(!state.contains(3));
    assert_eq!(tick.report, Some(Report { duplicates: 2, unique: 1 }));
}

#[test]
fn first_seen_wins_in_iteration_order() {
    let mut state = Instances::new();
    let entities = vec![
        Candidate { handle: 3, content: Some(mesh(7)) },
        Candidate { handle: 1, content: Some(mesh(7)) },
    ];
    let tick = consolidate_mesh_instances(&entities, &mut state);
    assert_eq!(tick.outcomes, vec![Outcome::Keep, Outcome::Share(3)]);
    let later = vec![Candidate { handle: 1, content: Some(mesh(7)) }];
    let tick = consolidate_mesh_instances(&later, &mut state);
    assert_eq!(tick.outcomes, vec![Outcome::Share(3)]);
    assert_eq!(state.duplicates(), 2);
    assert_eq!(tick.report, Some(Report { duplicates: 2, unique: 1 }));
}

#[test]
fn tick_without_candidates_changes_nothing() {
    let mut state = Instances::new();
    let first = vec![
        Candidate { handle: 1, content: Some(mesh(1)) },
        Candidate { handle: 2, content: Some(mesh(1)) },
        Candidate { handle: 3, content: Some(mesh(2)) },
    ];
    consolidate_mesh_instances(&first, &mut state);
    let tick = consolidate_mesh_instances(&vec![], &mut state);
    assert!(tick.outcomes.is_empty());
    assert_eq!(tick.report, None);
    assert_eq!(state.duplicates(), 1);
    assert_eq!(state.unique(), 2);
    assert_eq!(state.canonical(hash_mesh(&mesh(1))), Some(1));
    assert_eq!(state.canonical(hash_mesh(&mesh(2))), Some(3));
}

#[test]
fn seen_handles_are_kept_without_a_report() {
    let mut state = Instances::new();
    consolidate_mesh_instances(&vec![Candidate { handle: 1, content: Some(mesh(1)) }], &mut state);
    let again = vec![
        Candidate { handle: 1, content: Some(mesh(1)) },
        Candidate { handle: 1, content: None },
    ];
    let tick = consolidate_mesh_instances(&again, &mut state);
    assert_eq!(tick.outcomes, vec![Outcome::Keep, Outcome::Keep]);
    assert_eq!(tick.report, None);
    assert_eq!(state.duplicates(), 0);
    assert_eq!(state.unique(), 1);
}

#[test]
fn unresolved_content_waits_and_is_consolidated_once_resolved() {
    let mut state = Instances::new();
    let mut world = World {
        handle: vec![Some(1), Some(2)],
        eligible: vec![true, true],
        pool: vec![(1, Some(4)), (2, None)],
    };
    let report = world.tick(&mut state);
    assert_eq!(report, Some(Report { duplicates: 0, unique: 1 }));
    assert_eq!(world.eligible, vec![false, true]);
    assert_eq!(world.handle, vec![Some(1), Some(2)]);
    let report = world.tick(&mut state);
    assert_eq!(report, None);
    assert_eq!(world.eligible, vec![false, true]);
    world.pool[1].1 = Some(4);
    let report = world.tick(&mut state);
    assert_eq!(report, Some(Report { duplicates: 1, unique: 1 }));
    assert_eq!(world.eligible, vec![false, false]);
    assert_eq!(world.handle, vec![Some(1), Some(1)]);
}

#[test]
fn only_unresolved_candidates_give_no_report() {
    let mut state = Instances::new();
    let entities: Vec<Candidate<Mesh>> =
        vec![Candidate { handle: 1, content: None }, Candidate { handle: 2, content: None }];
    let tick = consolidate_mesh_instances(&entities, &mut state);
    assert_eq!(tick.outcomes, vec![Outcome::Retry, Outcome::Retry]);
    assert_eq!(tick.report, None);
    assert_eq!(state.unique(), 0);
    assert!(!state.contains(1));
}

#[test]
fn materials_are_consolidated_by_content() {
    let mut state = Instances::new();
    let entities = vec![
        Candidate { handle: 20, content: Some(material(5)) },
        Candidate { handle: 21, content: Some(material(6)) },
        Candidate { handle: 22, content: Some(material(5)) },
        Candidate { handle: 23, content: None },
        Candidate { handle: 20, content: Some(material(5)) },
    ];
    let tick = consolidate_material_instances(&entities, &mut state);
    assert_eq!(
        tick.outcomes,
        vec![Outcome::Keep, Outcome::Keep, Outcome::Share(20), Outcome::Retry, Outcome::Keep]
    );
    assert_eq!(tick.report, Some(Report { duplicates: 1, unique: 2 }));
    assert_eq!(state.canonical(material(5).generate_hash()), Some(20));
    assert_eq!(state.canonical(material(6).generate_hash()), Some(21));
}

#[test]
fn mesh_and_material_states_are_independent() {
    let mut meshes = Instances::new();
    let mut materials = Instances::new();
    consolidate_mesh_instances(&vec![Candidate { handle: 1, content: Some(mesh(1)) }], &mut meshes);
    let tick = consolidate_material_instances(
        &vec![Candidate { handle: 1, content: Some(material(1)) }],
        &mut materials,
    );
    assert_eq!(tick.outcomes, vec![Outcome::Keep]);
    assert_eq!(meshes.unique(), 1);
    assert_eq!(materials.unique(), 1);
}

#[test]
fn two_roots_with_five_mesh_nodes_each() {
    // Nodes 0 and 1 are the roots; 2..=6 lie below root 0, one under
    // another in part, and 7..=11 below root 1.
    let graph = Hierarchy::new(vec![
        vec![2, 3],
        vec![7, 8, 9, 10, 11],
        vec![4],
        vec![5, 6],
        vec![],
        vec![],
        vec![],
        vec![],
        vec![],
        vec![],
        vec![],
        vec![],
    ])
    .unwrap();
    let mut world = World {
        handle: vec![None; 12],
        eligible: vec![false; 12],
        pool: Vec::new(),
    };
    for n in 2..12usize {
        let shared = n == 2 || n == 3 || n == 4 || n == 7;
        let seed = if shared { 200 } else { n as u8 };
        world.handle[n] = Some(100 + n as u64);
        world.pool.push((100 + n as u64, Some(seed)));
    }
    let pass = apply_auto_instance_recursive(&graph, &vec![], &vec![0, 1]);
    assert_eq!(pass.mesh.len(), 2);
    for expansion in &pass.mesh {
        for n in &expansion.descendants {
            world.eligible[*n] = true;
        }
    }
    assert_eq!(world.eligible.iter().filter(|e| **e).count(), 10);
    assert!(!world.eligible[0] && !world.eligible[1]);

    let mut state = Instances::new();
    let first = world.tick(&mut state);
    let second = world.tick(&mut state);
    assert_eq!(first, Some(Report { duplicates: 3, unique: 7 }));
    assert_eq!(second, None);
    assert!(world.eligible.iter().all(|e| !*e));
    let canonical = world.handle[2].unwrap();
    assert_eq!(canonical, 102);
    let sharing: Vec<usize> = (2..12).filter(|n| world.handle[*n] == Some(canonical)).collect();
    assert_eq!(sharing, vec![2, 3, 4, 7]);
    let rewritten = (2..12usize).filter(|n| world.handle[*n] != Some(100 + *n as u64)).count();
    assert_eq!(rewritten, 3);
    let mut kept: Vec<u64> =
        (2..12usize).filter_map(|n| world.handle[n]).filter(|h| state.contains(*h)).collect();
    kept.sort();
    kept.dedup();
    assert_eq!(kept.len(), 7);
    assert_eq!(state.duplicates(), 3);
    assert_eq!(state.unique(), 7);
}

#[test]
fn first_seen_wins_in_a_mixed_tick() {
    let mut state = Instances::new();
    let entities = vec![
        Candidate { handle: 9, content: None },
        Candidate { handle: 5, content: Some(mesh(1)) },
        Candidate { handle: 4, content: Some(mesh(2)) },
        Candidate { handle: 6, content: Some(mesh(2)) },
        Candidate { handle: 5, content: Some(mesh(1)) },
        Candidate { handle: 7, content: Some(mesh(1)) },
        Candidate { handle: 8, content: Some(mesh(3)) },
        Candidate { handle: 6, content: Some(mesh(2)) },
    ];
    let tick = consolidate_mesh_instances(&entities, &mut state);
    assert_eq!(
        tick.outcomes,
        vec![
            Outcome::Retry,
            Outcome::Keep,
            Outcome::Keep,
            Outcome::Share(4),
            Outcome::Keep,
            Outcome::Share(5),
            Outcome::Keep,
            Outcome::Share(4),
        ]
    );
    // Six nodes were fresh: three added a canonical mesh, three a duplicate.
    assert_eq!(tick.report, Some(Report { duplicates: 3, unique: 3 }));
    assert_eq!(state.canonical(hash_mesh(&mesh(1))), Some(5));
    assert_eq!(state.canonical(hash_mesh(&mesh(2))), Some(4));
    assert_eq!(state.canonical(hash_mesh(&mesh(3))), Some(8));
    assert!(state.contains(5) && state.contains(4) && state.contains(8));
    assert!(!state.contains(6) && !state.contains(7) && !state.contains(9));
}

#[test]
fn canonical_handles_stay_for_good() {
    let mut state = Instances::new();
    consolidate_mesh_instances(&vec![Candidate { handle: 1, content: Some(mesh(1)) }], &mut state);
    for round in 0..5u64 {
        let entities = vec![
            Candidate { handle: 10 + round, content: Some(mesh(1)) },
            Candidate { handle: 20 + round, content: Some(mesh(50 + round as u8)) },
        ];
        let tick = consolidate_mesh_instances(&entities, &mut state);
        assert_eq!(tick.outcomes, vec![Outcome::Share(1), Outcome::Keep]);
        assert_eq!(state.canonical(hash_mesh(&mesh(1))), Some(1));
        assert_eq!(state.duplicates() as u64, round + 1);
        assert_eq!(state.unique() as u64, round + 2);
        assert!(state.contains(1));
    }
}

#[test]
fn duplicates_do_not_depend_on_the_order_of_the_nodes() {
    let seeds: Vec<(u64, u8)> =
        vec![(1, 9), (2, 9), (3, 9), (4, 1), (5, 2), (6, 3), (7, 9), (8, 4), (9, 5), (10, 6)];
    let tick_in = |order: Vec<usize>| {
        let mut state = Instances::new();
        let entities: Vec<Candidate<Mesh>> = order
            .iter()
            .map(|i| Candidate { handle: seeds[*i].0, content: Some(mesh(seeds[*i].1)) })
            .collect();
        let tick = consolidate_mesh_instances(&entities, &mut state);
        (tick.report, state.canonical(hash_mesh(&mesh(9))))
    };
    let forward = tick_in((0..10).collect());
    let backward = tick_in((0..10).rev().collect());
    let mixed = tick_in(vec![6, 3, 0, 9, 1, 8, 2, 7, 4, 5]);
    assert_eq!(forward, (Some(Report { duplicates: 3, unique: 7 }), Some(1)));
    assert_eq!(backward, (Some(Report { duplicates: 3, unique: 7 }), Some(7)));
    assert_eq!(mixed, (Some(Report { duplicates: 3, unique: 7 }), Some(7)));
}
