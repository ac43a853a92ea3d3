//! Automatic instance consolidation for scene graphs: content fingerprints of
//! meshes and materials, expansion of subtree requests into per-node requests,
//! and first-seen-wins sharing of resources with identical content.

pub mod consolidate;
pub mod fingerprint;
pub mod hierarchy;
pub mod instances;
pub mod store;

pub use consolidate::{
    consolidate_material_instances, consolidate_mesh_instances, Candidate, Report, Tick,
};
pub use fingerprint::{
    hash_color, hash_mesh, AlphaMode, Color, Face, MaterialHash, Mesh, MeshAttribute,
    OpaqueRendererMethod, ParallaxMappingMethod, StandardMaterial,
};
pub use hierarchy::{all_children, apply_auto_instance_recursive, Expansion, Hierarchy, Propagation};
pub use instances::{Instances, Outcome};
