//! The live-world side: runtime-spawned entities, their hierarchy, and the
//! colliders attached to them.
//!
//! The live hierarchy is kept as flat tables indexed by entity id: a
//! child-to-parent link table and, per entity, the mesh-primitive reference
//! it renders, the scene-root marker (for roots of a scene instantiation),
//! and the attached collider, if any.  Parent links always point to earlier
//! ids — entities are spawned parents-first — which rules out cycles.

use vstd::prelude::*;

use crate::geometry::ColliderShape;

verus! {

/// The live entity store.  Entry `e` of each table describes entity `e`; the
/// tables always have equal length.
pub struct LiveWorld {
    /// Parent entity id, or `None` for an entity at the top of the live
    /// hierarchy.
    pub parent: Vec<Option<usize>>,
    /// Reference (geometry arena index) to the mesh primitive this entity
    /// renders, or `None` for an entity without a mesh.
    pub mesh_ref: Vec<Option<usize>>,
    /// Scene-root marker: the id of the scene asset this entity was
    /// instantiated from, carried only by the root entity of an
    /// instantiation.
    pub scene_root: Vec<Option<usize>>,
    /// The collider attached by the derivation pass, if any.
    pub collider: Vec<Option<ColliderShape>>,
}

/// Number of live entities.
pub open spec fn entity_count(w: LiveWorld) -> int {
    w.parent@.len() as int
}

/// Well-formedness of the live store: tables of equal length, and every
/// parent link pointing to a strictly earlier entity id.
pub open spec fn world_wf(w: LiveWorld) -> bool {
    &&& w.mesh_ref@.len() == w.parent@.len()
    &&& w.scene_root@.len() == w.parent@.len()
    &&& w.collider@.len() == w.parent@.len()
    &&& forall|e: int|
        0 <= e < w.parent@.len() ==> ((#[trigger] w.parent@[e]) matches Some(p) ==> p < e)
}

/// The scene-root marker of the nearest marked strict ancestor of entity `e`,
/// walking child-to-parent links: the asset id the entity's instantiation was
/// spawned from, or `None` when no ancestor carries a marker.
pub open spec fn nearest_scene_root_seq(
    parent: Seq<Option<usize>>,
    marker: Seq<Option<usize>>,
    e: int,
) -> Option<usize>
    decreases e,
{
    if 0 <= e < parent.len() {
        match parent[e] {
            None => None,
            Some(p) => if p < e {
                if (p as int) < marker.len() && marker[p as int] is Some {
                    marker[p as int]
                } else {
                    nearest_scene_root_seq(parent, marker, p as int)
                }
            } else {
                None
            },
        }
    } else {
        None
    }
}

/// The nearest scene-root marker above entity `e` in the live world.
pub open spec fn nearest_scene_root(w: LiveWorld, e: int) -> Option<usize> {
    nearest_scene_root_seq(w.parent@, w.scene_root@, e)
}

impl LiveWorld {
    /// An empty world, before any scene instantiation has spawned entities.
    pub fn new() -> (w: LiveWorld)
        ensures
            world_wf(w),
            entity_count(w) == 0,
    {
        LiveWorld { parent: Vec::new(), mesh_ref: Vec::new(), scene_root: Vec::new(), collider: Vec::new() }
    }

    /// Spawns one entity, parent-first, with no collider attached yet, and
    /// returns its id.
    pub fn spawn(
        &mut self,
        parent: Option<usize>,
        mesh_ref: Option<usize>,
        scene_root: Option<usize>,
    ) -> (id: usize)
        requires
            world_wf(*old(self)),
            parent matches Some(p) ==> p < entity_count(*old(self)),
            entity_count(*old(self)) < usize::MAX,
        ensures
            world_wf(*final(self)),
            id == entity_count(*old(self)),
            entity_count(*final(self)) == entity_count(*old(self)) + 1,
            final(self).parent@ == old(self).parent@.push(parent),
            final(self).mesh_ref@ == old(self).mesh_ref@.push(mesh_ref),
            final(self).scene_root@ == old(self).scene_root@.push(scene_root),
            final(self).collider@.len() == old(self).collider@.len() + 1,
            forall|e: int|
                0 <= e <= entity_count(*old(self)) ==> #[trigger] final(self).collider@[e]
                    == (if e < entity_count(*old(self)) {
                    old(self).collider@[e]
                } else {
                    None::<ColliderShape>
                }),
    {
        let id = self.parent.len();
        self.parent.push(parent);
        self.mesh_ref.push(mesh_ref);
        self.scene_root.push(scene_root);
        self.collider.push(None);
        id
    }

    /// Whether entity `e` currently has a collider attached.
    pub fn has_collider(&self, e: usize) -> (r: bool)
        requires
            e < entity_count(*self),
            world_wf(*self),
        ensures
            r == (self.collider@[e as int] is Some),
    {
        self.collider[e].is_some()
    }
}

/// Walks the ancestor chain of entity `e` and returns the marker of the
/// nearest marked ancestor: the asset id of the scene instantiation the
/// entity belongs to, or `None` when the entity hangs under no marked root.
pub fn find_scene_root(w: &LiveWorld, e: usize) -> (r: Option<usize>)
    requires
        world_wf(*w),
        e < entity_count(*w),
    ensures
        r == nearest_scene_root(*w, e as int),
{
    let mut cur: usize = e;
    loop
        invariant
            world_wf(*w),
            cur < entity_count(*w),
            nearest_scene_root(*w, e as int) == nearest_scene_root(*w, cur as int),
        decreases cur,
    {
        match w.parent[cur] {
            None => {
                return None;
            },
            Some(p) => {
                match w.scene_root[p] {
                    Some(m) => {
                        return Some(m);
                    },
                    None => {
                        cur = p;
                    },
                }
            },
        }
    }
}

} // verus!
