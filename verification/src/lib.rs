//! Derivation of triangle-mesh collision shapes from loaded scene assets.
//!
//! When a scene asset (a parsed 3D-model file) has finished loading, the
//! derivation pass walks the asset's node tree, builds a trimesh collider for
//! every mesh primitive it finds, and attaches each collider to the live
//! entities that visually represent that primitive.  Entities are matched by
//! value: an entity qualifies when its nearest marked ancestor is a scene root
//! instantiated from the asset being processed and its own mesh reference
//! equals the primitive's geometry.

pub mod geometry;
pub mod scene;
pub mod world;
pub mod deriver;
