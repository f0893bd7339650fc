//! The collider-derivation pass.
//!
//! [`attach_colliders`] is the operation the asset subsystem invokes once a
//! scene asset has fully loaded.  It resolves the asset, walks its node tree
//! depth-first, builds a trimesh collider for every valid primitive geometry,
//! and attaches each collider to every live entity that renders that
//! geometry under a scene root instantiated from the asset.  Malformed
//! geometry aborts only its own primitive; the rest of the pass continues.

use vstd::prelude::*;

use crate::geometry::{
    buffer_valid, build_trimesh, clone_shape, collider_view, derived_shape_view, shape_view,
    ColliderShape, Triangle, Vertex,
};
use crate::scene::{
    lemma_concat_contains, lemma_mesh_count_bounds, lemma_mesh_count_concat, lemma_subtree_from_member,
    lemma_subtree_from_member_conv, lemma_subtree_head, lemma_subtree_len_bound, mesh_count, node_wf,
    scene_wf, subtree, subtree_from, AssetCache, SceneAsset,
};
use crate::world::{
    entity_count, find_scene_root, nearest_scene_root, world_wf, LiveWorld,
};

verus! {

/// Why one invocation of the pass gave up entirely.
#[derive(Clone, Copy, PartialEq, Eq, Structural, Debug)]
pub enum DeriveError {
    /// The triggering asset id is not present in the cache.
    MissingAsset,
    /// The asset has no designated root node.
    MalformedScene,
}

/// Traversal instrumentation returned by a completed pass.
#[derive(Clone, Copy, PartialEq, Eq, Structural, Debug)]
pub struct DeriveReport {
    /// How many nodes the depth-first walk visited.
    pub nodes_visited: usize,
    /// How many of the visited nodes bear a mesh.
    pub mesh_nodes: usize,
}

/// Every scene asset held by the cache satisfies the tree invariant.
pub open spec fn cache_wf(c: AssetCache) -> bool {
    forall|s: int| 0 <= s < c.scenes@.len() ==> scene_wf(#[trigger] c.scenes@[s])
}

/// Geometry arena entry `g` exists and a collider can be derived from it.
pub open spec fn geom_valid(cache: AssetCache, g: usize) -> bool {
    g < cache.geometries@.len() && buffer_valid(cache.geometries@[g as int])
}

/// Node `j` of the asset bears a mesh one of whose primitives references
/// geometry `g`.
pub open spec fn node_offers_geom(cache: AssetCache, a: SceneAsset, j: int, g: usize) -> bool {
    &&& 0 <= j < a.nodes@.len()
    &&& a.nodes@[j].mesh matches Some(mid)
    &&& mid < cache.meshes@.len()
    &&& exists|q: int|
        0 <= q < cache.meshes@[mid as int].primitives@.len()
            && (#[trigger] cache.meshes@[mid as int].primitives@[q]).geometry == g
}

/// Some node visited below node `i` offers geometry `g`.
pub open spec fn subtree_offers_geom(cache: AssetCache, a: SceneAsset, i: int, g: usize) -> bool {
    exists|j: int| #[trigger] subtree(a, i).contains(j) && node_offers_geom(cache, a, j, g)
}

/// A pass rooted at node `i` attaches the collider derived from geometry `g`:
/// the geometry is valid and some visited node offers it.
pub open spec fn collider_attached(cache: AssetCache, a: SceneAsset, i: int, g: usize) -> bool {
    geom_valid(cache, g) && subtree_offers_geom(cache, a, i, g)
}

/// The geometry that entity `e` would be matched on when the pass processes
/// `asset_id`: its own mesh reference, provided its nearest scene-root marker
/// names that asset; `None` when the entity cannot match.
pub open spec fn entity_target_geom(w: LiveWorld, e: int, asset_id: usize) -> Option<usize> {
    if 0 <= e < entity_count(w) && nearest_scene_root(w, e) == Some(asset_id) {
        w.mesh_ref@[e]
    } else {
        None
    }
}

/// The pass only ever attaches colliders: entity ids, the hierarchy, mesh
/// references and scene-root markers are untouched.
pub open spec fn world_frame(pre: LiveWorld, post: LiveWorld) -> bool {
    &&& post.parent@ == pre.parent@
    &&& post.mesh_ref@ == pre.mesh_ref@
    &&& post.scene_root@ == pre.scene_root@
    &&& post.collider@.len() == pre.collider@.len()
}

/// Matching on only the entity's hierarchy and marker, which the pass never
/// changes, the target geometry of every entity is stable across a pass.
pub proof fn lemma_target_stable(w1: LiveWorld, w2: LiveWorld, asset_id: usize)
    requires
        w2.parent@ == w1.parent@,
        w2.mesh_ref@ == w1.mesh_ref@,
        w2.scene_root@ == w1.scene_root@,
    ensures
        forall|e: int| entity_target_geom(w2, e, asset_id) == entity_target_geom(w1, e, asset_id),
{
}

/// What one attachment step for geometry `geom_id` (with derived shape
/// content `sv`) does to entity `e`: a matching entity afterwards carries
/// exactly that shape, any other entity's collider is untouched.
pub open spec fn attach_outcome(
    pre: LiveWorld,
    post: LiveWorld,
    e: int,
    asset_id: usize,
    geom_id: usize,
    sv: (Seq<Vertex>, Seq<Triangle>),
) -> bool {
    if entity_target_geom(pre, e, asset_id) == Some(geom_id) {
        collider_view(post.collider@[e]) == Some(sv)
    } else {
        collider_view(post.collider@[e]) == collider_view(pre.collider@[e])
    }
}

/// Scans every live entity and attaches a copy of `shape` to each one whose
/// nearest scene-root marker names `asset_id` and whose mesh reference is
/// `geom_id`.  Entities with no qualifying marked ancestor are skipped.
#[verifier::loop_isolation(false)]
fn attach_to_matches(w: &mut LiveWorld, asset_id: usize, geom_id: usize, shape: &ColliderShape)
    requires
        world_wf(*old(w)),
    ensures
        world_wf(*final(w)),
        world_frame(*old(w), *final(w)),
        forall|e: int|
            0 <= e < entity_count(*old(w)) ==> #[trigger] attach_outcome(
                *old(w),
                *final(w),
                e,
                asset_id,
                geom_id,
                shape_view(*shape),
            ),
{
    let ghost pre = *w;
    let n = w.parent.len();
    let mut e: usize = 0;
    while e < n
        invariant
            e <= n,
            n == entity_count(pre),
            w.parent@ == pre.parent@,
            w.mesh_ref@ == pre.mesh_ref@,
            w.scene_root@ == pre.scene_root@,
            w.collider@.len() == pre.collider@.len(),
            forall|x: int|
                0 <= x < e ==> #[trigger] attach_outcome(
                    pre,
                    *w,
                    x,
                    asset_id,
                    geom_id,
                    shape_view(*shape),
                ),
            forall|x: int|
                e <= x < n ==> collider_view(#[trigger] w.collider@[x]) == collider_view(
                    pre.collider@[x],
                ),
        decreases n - e,
    {
        let ghost w0 = *w;
        let root = find_scene_root(w, e);
        let mesh = w.mesh_ref[e];
        let is_match = match (mesh, root) {
            (Some(g), Some(m)) => g == geom_id && m == asset_id,
            _ => false,
        };
        if is_match {
            let copy = clone_shape(shape);
            w.collider.set(e, Some(copy));
        }
        proof {
            let ei = e as int;
            assert(nearest_scene_root(*w, ei) == nearest_scene_root(pre, ei));
            if entity_target_geom(pre, ei, asset_id) == Some(geom_id) {
                assert(is_match);
                assert(collider_view(w.collider@[ei]) == Some(shape_view(*shape)));
            } else {
                assert(!is_match);
                assert(collider_view(w.collider@[ei]) == collider_view(pre.collider@[ei]));
            }
            assert(attach_outcome(pre, *w, ei, asset_id, geom_id, shape_view(*shape)));
            assert forall|x: int| 0 <= x < ei implies #[trigger] attach_outcome(
                pre,
                *w,
                x,
                asset_id,
                geom_id,
                shape_view(*shape),
            ) by {
                assert(attach_outcome(pre, w0, x, asset_id, geom_id, shape_view(*shape)));
                assert(w.collider@[x] == w0.collider@[x]);
            }
        }
        e = e + 1;
    }
}

/// One of the first `p` primitives of mesh `mid` references geometry `g`.
pub open spec fn prefix_offers(cache: AssetCache, mid: usize, p: int, g: usize) -> bool {
    exists|q: int|
        0 <= q < p && q < cache.meshes@[mid as int].primitives@.len() && (#[trigger] cache.meshes@[
            mid as int].primitives@[q]).geometry == g
}

/// What processing the first `p` primitives of mesh `mid` does to entity `e`:
/// a matching entity whose valid geometry one of them references carries the
/// derived collider, every other entity's collider is untouched.
pub open spec fn prefix_outcome(
    cache: AssetCache,
    mid: usize,
    p: int,
    asset_id: usize,
    pre: LiveWorld,
    post: LiveWorld,
    e: int,
) -> bool {
    match entity_target_geom(pre, e, asset_id) {
        Some(g) => if geom_valid(cache, g) && prefix_offers(cache, mid, p, g) {
            collider_view(post.collider@[e]) == Some(derived_shape_view(cache.geometries@[g as int]))
        } else {
            collider_view(post.collider@[e]) == collider_view(pre.collider@[e])
        },
        None => collider_view(post.collider@[e]) == collider_view(pre.collider@[e]),
    }
}

/// A primitive whose geometry is invalid is skipped, and skipping it keeps
/// the prefix outcome.
proof fn lemma_prefix_step_skip(
    cache: AssetCache,
    mid: usize,
    p: int,
    asset_id: usize,
    pre: LiveWorld,
    cur: LiveWorld,
    g0: usize,
)
    requires
        0 <= p < cache.meshes@[mid as int].primitives@.len(),
        cache.meshes@[mid as int].primitives@[p].geometry == g0,
        !geom_valid(cache, g0),
        forall|e: int|
            0 <= e < entity_count(pre) ==> #[trigger] prefix_outcome(
                cache,
                mid,
                p,
                asset_id,
                pre,
                cur,
                e,
            ),
    ensures
        forall|e: int|
            0 <= e < entity_count(pre) ==> #[trigger] prefix_outcome(
                cache,
                mid,
                p + 1,
                asset_id,
                pre,
                cur,
                e,
            ),
{
    assert forall|e: int| 0 <= e < entity_count(pre) implies #[trigger] prefix_outcome(
        cache,
        mid,
        p + 1,
        asset_id,
        pre,
        cur,
        e,
    ) by {
        assert(prefix_outcome(cache, mid, p, asset_id, pre, cur, e));
        match entity_target_geom(pre, e, asset_id) {
            Some(g) => {
                if geom_valid(cache, g) && prefix_offers(cache, mid, p + 1, g) {
                    let q = choose|q: int|
                        0 <= q < p + 1 && q < cache.meshes@[mid as int].primitives@.len() && (
                        #[trigger] cache.meshes@[mid as int].primitives@[q]).geometry == g;
                    assert(q != p);
                    assert(prefix_offers(cache, mid, p, g));
                }
            },
            None => {},
        }
    }
}

/// Attaching the collider of one valid primitive extends the prefix outcome
/// by that primitive.
proof fn lemma_prefix_step_attach(
    cache: AssetCache,
    mid: usize,
    p: int,
    asset_id: usize,
    pre: LiveWorld,
    mid_w: LiveWorld,
    post: LiveWorld,
    g0: usize,
    sv: (Seq<Vertex>, Seq<Triangle>),
)
    requires
        0 <= p < cache.meshes@[mid as int].primitives@.len(),
        cache.meshes@[mid as int].primitives@[p].geometry == g0,
        geom_valid(cache, g0),
        sv == derived_shape_view(cache.geometries@[g0 as int]),
        mid_w.parent@ == pre.parent@,
        mid_w.mesh_ref@ == pre.mesh_ref@,
        mid_w.scene_root@ == pre.scene_root@,
        forall|e: int|
            0 <= e < entity_count(pre) ==> #[trigger] prefix_outcome(
                cache,
                mid,
                p,
                asset_id,
                pre,
                mid_w,
                e,
            ),
        forall|e: int|
            0 <= e < entity_count(mid_w) ==> #[trigger] attach_outcome(
                mid_w,
                post,
                e,
                asset_id,
                g0,
                sv,
            ),
    ensures
        forall|e: int|
            0 <= e < entity_count(pre) ==> #[trigger] prefix_outcome(
                cache,
                mid,
                p + 1,
                asset_id,
                pre,
                post,
                e,
            ),
{
    lemma_target_stable(pre, mid_w, asset_id);
    assert forall|e: int| 0 <= e < entity_count(pre) implies #[trigger] prefix_outcome(
        cache,
        mid,
        p + 1,
        asset_id,
        pre,
        post,
        e,
    ) by {
        assert(prefix_outcome(cache, mid, p, asset_id, pre, mid_w, e));
        assert(attach_outcome(mid_w, post, e, asset_id, g0, sv));
        match entity_target_geom(pre, e, asset_id) {
            Some(g) => {
                if g == g0 {
                    assert(entity_target_geom(mid_w, e, asset_id) == Some(g0));
                    assert(collider_view(post.collider@[e]) == Some(sv));
                    assert(cache.meshes@[mid as int].primitives@[p].geometry == g0);
                    assert(prefix_offers(cache, mid, p + 1, g));
                } else {
                    assert(entity_target_geom(mid_w, e, asset_id) == Some(g));
                    assert(collider_view(post.collider@[e]) == collider_view(mid_w.collider@[e]));
                    if geom_valid(cache, g) && prefix_offers(cache, mid, p + 1, g) {
                        let q = choose|q: int|
                            0 <= q < p + 1 && q < cache.meshes@[mid as int].primitives@.len() && (
                            #[trigger] cache.meshes@[mid as int].primitives@[q]).geometry == g;
                        assert(q != p);
                        assert(prefix_offers(cache, mid, p, g));
                    } else {
                        if geom_valid(cache, g) && prefix_offers(cache, mid, p, g) {
                            let q = choose|q: int|
                                0 <= q < p && q < cache.meshes@[mid as int].primitives@.len() && (
                                #[trigger] cache.meshes@[mid as int].primitives@[q]).geometry == g;
                            assert(prefix_offers(cache, mid, p + 1, g));
                            assert(false);
                        }
                    }
                }
            },
            None => {
                assert(entity_target_geom(mid_w, e, asset_id) == None::<usize>);
            },
        }
    }
}

/// One of the first `k` children of node `i` heads a subtree that offers
/// geometry `g`.
pub open spec fn subtrees_prefix_offers(
    cache: AssetCache,
    a: SceneAsset,
    i: int,
    k: int,
    g: usize,
) -> bool {
    exists|k2: int|
        0 <= k2 < k && k2 < a.nodes@[i].children@.len() && subtree_offers_geom(
            cache,
            a,
            (#[trigger] a.nodes@[i].children@[k2]) as int,
            g,
        )
}

/// What the pass has done to entity `e` after processing node `i`'s own mesh
/// and the subtrees of its first `k` children.
pub open spec fn visit_partial_outcome(
    cache: AssetCache,
    a: SceneAsset,
    asset_id: usize,
    i: int,
    k: int,
    pre: LiveWorld,
    post: LiveWorld,
    e: int,
) -> bool {
    match entity_target_geom(pre, e, asset_id) {
        Some(g) => if geom_valid(cache, g) && (node_offers_geom(cache, a, i, g)
            || subtrees_prefix_offers(cache, a, i, k, g)) {
            collider_view(post.collider@[e]) == Some(derived_shape_view(cache.geometries@[g as int]))
        } else {
            collider_view(post.collider@[e]) == collider_view(pre.collider@[e])
        },
        None => collider_view(post.collider@[e]) == collider_view(pre.collider@[e]),
    }
}

/// What one whole pass rooted at node `i` does to entity `e`: if the entity
/// matches the asset and its geometry is offered by a visited node and valid,
/// it carries exactly the collider derived from its own geometry; otherwise
/// its collider is untouched.
pub open spec fn entity_outcome(
    cache: AssetCache,
    a: SceneAsset,
    asset_id: usize,
    i: int,
    pre: LiveWorld,
    post: LiveWorld,
    e: int,
) -> bool {
    match entity_target_geom(pre, e, asset_id) {
        Some(g) => if collider_attached(cache, a, i, g) {
            collider_view(post.collider@[e]) == Some(derived_shape_view(cache.geometries@[g as int]))
        } else {
            collider_view(post.collider@[e]) == collider_view(pre.collider@[e])
        },
        None => collider_view(post.collider@[e]) == collider_view(pre.collider@[e]),
    }
}

/// A subtree offers a geometry exactly when the root node itself offers it
/// or the subtree of one of the root's children does.
proof fn lemma_subtree_offers_decompose(cache: AssetCache, a: SceneAsset, i: int, g: usize)
    requires
        scene_wf(a),
        0 <= i < a.nodes@.len(),
    ensures
        subtree_offers_geom(cache, a, i, g) <==> (node_offers_geom(cache, a, i, g)
            || subtrees_prefix_offers(cache, a, i, a.nodes@[i].children@.len() as int, g)),
{
    assert(node_wf(a, i));
    let clen = a.nodes@[i].children@.len() as int;
    if subtree_offers_geom(cache, a, i, g) {
        let j = choose|j: int| #[trigger] subtree(a, i).contains(j) && node_offers_geom(cache, a, j, g);
        lemma_concat_contains(seq![i], subtree_from(a, i, 0), j);
        if j == i {
            assert(node_offers_geom(cache, a, i, g));
        } else {
            assert(subtree_from(a, i, 0).contains(j));
            lemma_subtree_from_member(a, i, 0, j);
            let k2 = choose|k2: int|
                0 <= k2 < a.nodes@[i].children@.len() && #[trigger] subtree(
                    a,
                    a.nodes@[i].children@[k2] as int,
                ).contains(j);
            assert(subtree_offers_geom(cache, a, a.nodes@[i].children@[k2] as int, g));
            assert(subtrees_prefix_offers(cache, a, i, clen, g));
        }
    }
    if node_offers_geom(cache, a, i, g) {
        lemma_subtree_head(a, i);
        assert(subtree(a, i).contains(i) && node_offers_geom(cache, a, i, g));
        assert(subtree_offers_geom(cache, a, i, g));
    }
    if subtrees_prefix_offers(cache, a, i, clen, g) {
        let k2 = choose|k2: int|
            0 <= k2 < clen && k2 < a.nodes@[i].children@.len() && subtree_offers_geom(
                cache,
                a,
                (#[trigger] a.nodes@[i].children@[k2]) as int,
                g,
            );
        let c = a.nodes@[i].children@[k2] as int;
        let j = choose|j: int| #[trigger] subtree(a, c).contains(j) && node_offers_geom(cache, a, j, g);
        lemma_subtree_from_member_conv(a, i, 0, k2, j);
        lemma_concat_contains(seq![i], subtree_from(a, i, 0), j);
        assert(subtree(a, i).contains(j) && node_offers_geom(cache, a, j, g));
        assert(subtree_offers_geom(cache, a, i, g));
    }
}

/// Processing one more child subtree extends the partial visit outcome by
/// that child.
proof fn lemma_visit_child_step(
    cache: AssetCache,
    a: SceneAsset,
    asset_id: usize,
    i: int,
    k: int,
    pre: LiveWorld,
    mid_w: LiveWorld,
    post: LiveWorld,
)
    requires
        scene_wf(a),
        0 <= i < a.nodes@.len(),
        0 <= k < a.nodes@[i].children@.len(),
        mid_w.parent@ == pre.parent@,
        mid_w.mesh_ref@ == pre.mesh_ref@,
        mid_w.scene_root@ == pre.scene_root@,
        forall|e: int|
            0 <= e < entity_count(pre) ==> #[trigger] visit_partial_outcome(
                cache,
                a,
                asset_id,
                i,
                k,
                pre,
                mid_w,
                e,
            ),
        forall|e: int|
            0 <= e < entity_count(mid_w) ==> #[trigger] entity_outcome(
                cache,
                a,
                asset_id,
                a.nodes@[i].children@[k] as int,
                mid_w,
                post,
                e,
            ),
    ensures
        forall|e: int|
            0 <= e < entity_count(pre) ==> #[trigger] visit_partial_outcome(
                cache,
                a,
                asset_id,
                i,
                k + 1,
                pre,
                post,
                e,
            ),
{
    lemma_target_stable(pre, mid_w, asset_id);
    let c = a.nodes@[i].children@[k] as int;
    assert forall|e: int| 0 <= e < entity_count(pre) implies #[trigger] visit_partial_outcome(
        cache,
        a,
        asset_id,
        i,
        k + 1,
        pre,
        post,
        e,
    ) by {
        assert(visit_partial_outcome(cache, a, asset_id, i, k, pre, mid_w, e));
        assert(entity_outcome(cache, a, asset_id, c, mid_w, post, e));
        match entity_target_geom(pre, e, asset_id) {
            Some(g) => {
                if collider_attached(cache, a, c, g) {
                    assert(collider_view(post.collider@[e]) == Some(
                        derived_shape_view(cache.geometries@[g as int]),
                    ));
                    assert(a.nodes@[i].children@[k] == a.nodes@[i].children@[k]);
                    assert(subtrees_prefix_offers(cache, a, i, k + 1, g));
                } else {
                    assert(collider_view(post.collider@[e]) == collider_view(mid_w.collider@[e]));
                    if geom_valid(cache, g) && (node_offers_geom(cache, a, i, g)
                        || subtrees_prefix_offers(cache, a, i, k, g)) {
                        if subtrees_prefix_offers(cache, a, i, k, g) {
                            let k2 = choose|k2: int|
                                0 <= k2 < k && k2 < a.nodes@[i].children@.len()
                                    && subtree_offers_geom(
                                    cache,
                                    a,
                                    (#[trigger] a.nodes@[i].children@[k2]) as int,
                                    g,
                                );
                            assert(subtrees_prefix_offers(cache, a, i, k + 1, g));
                        }
                    } else {
                        if geom_valid(cache, g) && (node_offers_geom(cache, a, i, g)
                            || subtrees_prefix_offers(cache, a, i, k + 1, g)) {
                            assert(subtrees_prefix_offers(cache, a, i, k + 1, g));
                            let k2 = choose|k2: int|
                                0 <= k2 < k + 1 && k2 < a.nodes@[i].children@.len()
                                    && subtree_offers_geom(
                                    cache,
                                    a,
                                    (#[trigger] a.nodes@[i].children@[k2]) as int,
                                    g,
                                );
                            if k2 < k {
                                assert(subtrees_prefix_offers(cache, a, i, k, g));
                                assert(false);
                            } else {
                                assert(subtree_offers_geom(cache, a, c, g));
                                assert(collider_attached(cache, a, c, g));
                                assert(false);
                            }
                        }
                    }
                }
            },
            None => {
                assert(entity_target_geom(mid_w, e, asset_id) == None::<usize>);
            },
        }
    }
}

/// After every primitive of node `ni`'s mesh has been processed, the mesh
/// phase amounts to the partial visit outcome with no children processed.
proof fn lemma_mesh_phase_to_partial(
    cache: AssetCache,
    a: SceneAsset,
    ni: int,
    mid: usize,
    asset_id: usize,
    pre: LiveWorld,
    cur: LiveWorld,
)
    requires
        0 <= ni < a.nodes@.len(),
        a.nodes@[ni].mesh == Some(mid),
        mid < cache.meshes@.len(),
        forall|e: int|
            0 <= e < entity_count(pre) ==> #[trigger] prefix_outcome(
                cache,
                mid,
                cache.meshes@[mid as int].primitives@.len() as int,
                asset_id,
                pre,
                cur,
                e,
            ),
    ensures
        forall|e: int|
            0 <= e < entity_count(pre) ==> #[trigger] visit_partial_outcome(
                cache,
                a,
                asset_id,
                ni,
                0,
                pre,
                cur,
                e,
            ),
{
    let plen = cache.meshes@[mid as int].primitives@.len() as int;
    assert forall|e: int| 0 <= e < entity_count(pre) implies #[trigger] visit_partial_outcome(
        cache,
        a,
        asset_id,
        ni,
        0,
        pre,
        cur,
        e,
    ) by {
        assert(prefix_outcome(cache, mid, plen, asset_id, pre, cur, e));
        match entity_target_geom(pre, e, asset_id) {
            Some(g) => {
                assert(!subtrees_prefix_offers(cache, a, ni, 0, g));
                if node_offers_geom(cache, a, ni, g) {
                    let q = choose|q: int|
                        0 <= q < cache.meshes@[mid as int].primitives@.len() && (
                        #[trigger] cache.meshes@[mid as int].primitives@[q]).geometry == g;
                    assert(prefix_offers(cache, mid, plen, g));
                }
                if prefix_offers(cache, mid, plen, g) {
                    let q = choose|q: int|
                        0 <= q < plen && q < cache.meshes@[mid as int].primitives@.len() && (
                        #[trigger] cache.meshes@[mid as int].primitives@[q]).geometry == g;
                    assert(node_offers_geom(cache, a, ni, g));
                }
            },
            None => {},
        }
    }
}

/// A node that offers no geometry at all — no mesh, or a mesh reference past
/// the cache — leaves every collider as it was, which is the partial visit
/// outcome with no children processed.
proof fn lemma_no_mesh_to_partial(
    cache: AssetCache,
    a: SceneAsset,
    ni: int,
    asset_id: usize,
    pre: LiveWorld,
    cur: LiveWorld,
)
    requires
        0 <= ni < a.nodes@.len(),
        forall|g: usize| !node_offers_geom(cache, a, ni, g),
        forall|e: int|
            0 <= e < entity_count(pre) ==> collider_view(#[trigger] cur.collider@[e])
                == collider_view(pre.collider@[e]),
    ensures
        forall|e: int|
            0 <= e < entity_count(pre) ==> #[trigger] visit_partial_outcome(
                cache,
                a,
                asset_id,
                ni,
                0,
                pre,
                cur,
                e,
            ),
{
    assert forall|e: int| 0 <= e < entity_count(pre) implies #[trigger] visit_partial_outcome(
        cache,
        a,
        asset_id,
        ni,
        0,
        pre,
        cur,
        e,
    ) by {
        match entity_target_geom(pre, e, asset_id) {
            Some(g) => {
                assert(!node_offers_geom(cache, a, ni, g));
                assert(!subtrees_prefix_offers(cache, a, ni, 0, g));
            },
            None => {},
        }
    }
}

/// Derives and attaches colliders for every primitive of node `node_idx`'s
/// mesh, then recurses into each child: one depth-first visit of the subtree
/// rooted there.  A malformed primitive geometry is skipped without
/// disturbing the rest of the walk.  Returns how many nodes were visited and
/// how many of them bear a mesh.
#[verifier::loop_isolation(false)]
pub fn create_collider_for_node(
    cache: &AssetCache,
    a: &SceneAsset,
    asset_id: usize,
    node_idx: usize,
    w: &mut LiveWorld,
) -> (counts: (usize, usize))
    requires
        scene_wf(*a),
        node_idx < a.nodes@.len(),
        world_wf(*old(w)),
    ensures
        world_wf(*final(w)),
        world_frame(*old(w), *final(w)),
        forall|e: int|
            0 <= e < entity_count(*old(w)) ==> #[trigger] entity_outcome(
                *cache,
                *a,
                asset_id,
                node_idx as int,
                *old(w),
                *final(w),
                e,
            ),
        counts.0 == subtree(*a, node_idx as int).len(),
        counts.1 == mesh_count(*a, subtree(*a, node_idx as int)),
    decreases a.nodes@.len() - node_idx,
{
    let ghost ni = node_idx as int;
    let ghost pre = *w;
    let total_nodes = a.nodes.len();
    proof {
        assert(node_wf(*a, ni));
        lemma_subtree_len_bound(*a, ni);
        assert(total_nodes == a.nodes@.len());
        assert(a.nodes@.len() <= usize::MAX);
    }
    let node = &a.nodes[node_idx];
    let mut mesh_nodes: usize = 0;
    match node.mesh {
        Some(mid) => {
            mesh_nodes = 1;
            if mid < cache.meshes.len() {
                let mesh_asset = &cache.meshes[mid];
                let prim_count = mesh_asset.primitives.len();
                let mut p: usize = 0;
                while p < prim_count
                    invariant
                        p <= prim_count,
                        prim_count == cache.meshes@[mid as int].primitives@.len(),
                        world_wf(*w),
                        w.parent@ == pre.parent@,
                        w.mesh_ref@ == pre.mesh_ref@,
                        w.scene_root@ == pre.scene_root@,
                        w.collider@.len() == pre.collider@.len(),
                        forall|e: int|
                            0 <= e < entity_count(pre) ==> #[trigger] prefix_outcome(
                                *cache,
                                mid,
                                p as int,
                                asset_id,
                                pre,
                                *w,
                                e,
                            ),
                    decreases prim_count - p,
                {
                    let g0 = mesh_asset.primitives[p].geometry;
                    let ghost mid_w = *w;
                    if g0 < cache.geometries.len() {
                        match build_trimesh(&cache.geometries[g0]) {
                            Some(shape) => {
                                attach_to_matches(w, asset_id, g0, &shape);
                                proof {
                                    lemma_prefix_step_attach(
                                        *cache,
                                        mid,
                                        p as int,
                                        asset_id,
                                        pre,
                                        mid_w,
                                        *w,
                                        g0,
                                        shape_view(shape),
                                    );
                                }
                            },
                            None => {
                                proof {
                                    lemma_prefix_step_skip(
                                        *cache,
                                        mid,
                                        p as int,
                                        asset_id,
                                        pre,
                                        *w,
                                        g0,
                                    );
                                }
                            },
                        }
                    } else {
                        proof {
                            lemma_prefix_step_skip(*cache, mid, p as int, asset_id, pre, *w, g0);
                        }
                    }
                    p += 1;
                }
                proof {
                    lemma_mesh_phase_to_partial(*cache, *a, ni, mid, asset_id, pre, *w);
                }
            } else {
                proof {
                    assert forall|g: usize| !node_offers_geom(*cache, *a, ni, g) by {}
                    lemma_no_mesh_to_partial(*cache, *a, ni, asset_id, pre, *w);
                }
            }
        },
        None => {
            proof {
                assert forall|g: usize| !node_offers_geom(*cache, *a, ni, g) by {}
                lemma_no_mesh_to_partial(*cache, *a, ni, asset_id, pre, *w);
            }
        },
    }
    let child_count = node.children.len();
    let mut k: usize = 0;
    let mut visited: usize = 1;
    proof {
        assert(seq![ni].drop_first() =~= Seq::<int>::empty());
        assert(mesh_count(*a, Seq::<int>::empty()) == 0);
        assert(mesh_count(*a, seq![ni]) == (if crate::scene::is_mesh_node(*a, ni) {
            1int
        } else {
            0int
        }));
    }
    while k < child_count
        invariant
            k <= child_count,
            child_count == a.nodes@[ni].children@.len(),
            world_wf(*w),
            w.parent@ == pre.parent@,
            w.mesh_ref@ == pre.mesh_ref@,
            w.scene_root@ == pre.scene_root@,
            w.collider@.len() == pre.collider@.len(),
            forall|e: int|
                0 <= e < entity_count(pre) ==> #[trigger] visit_partial_outcome(
                    *cache,
                    *a,
                    asset_id,
                    ni,
                    k as int,
                    pre,
                    *w,
                    e,
                ),
            visited == 1 + subtree_from(*a, ni, 0).len() - subtree_from(*a, ni, k as int).len(),
            mesh_nodes == mesh_count(*a, seq![ni]) + mesh_count(*a, subtree_from(*a, ni, 0))
                - mesh_count(*a, subtree_from(*a, ni, k as int)),
        decreases child_count - k,
    {
        let c = node.children[k];
        let ghost mid_w = *w;
        proof {
            assert(ni < c < a.nodes@.len());
        }
        let (cv, cm) = create_collider_for_node(cache, a, asset_id, c, w);
        proof {
            lemma_mesh_count_concat(*a, subtree(*a, c as int), subtree_from(*a, ni, k as int + 1));
            lemma_mesh_count_bounds(*a, subtree_from(*a, ni, k as int + 1));
            lemma_mesh_count_bounds(*a, subtree(*a, c as int));
            lemma_mesh_count_bounds(*a, subtree_from(*a, ni, 0));
            lemma_visit_child_step(*cache, *a, asset_id, ni, k as int, pre, mid_w, *w);
            assert(subtree(*a, ni).len() == 1 + subtree_from(*a, ni, 0).len());
            assert(subtree_from(*a, ni, k as int) == subtree(*a, c as int) + subtree_from(
                *a,
                ni,
                k as int + 1,
            ));
            assert(subtree_from(*a, ni, k as int).len() == subtree(*a, c as int).len()
                + subtree_from(*a, ni, k as int + 1).len());
            assert(visited + cv == 1 + subtree_from(*a, ni, 0).len() - subtree_from(
                *a,
                ni,
                k as int + 1,
            ).len());
            assert(1 + subtree_from(*a, ni, 0).len() <= a.nodes@.len());
            assert(mesh_count(*a, seq![ni]) <= 1);
        }
        visited = visited + cv;
        mesh_nodes = mesh_nodes + cm;
        k += 1;
    }
    proof {
        assert(subtree_from(*a, ni, child_count as int) =~= Seq::<int>::empty());
        assert(subtree(*a, ni) =~= seq![ni] + subtree_from(*a, ni, 0));
        lemma_mesh_count_concat(*a, seq![ni], subtree_from(*a, ni, 0));
        assert forall|e: int| 0 <= e < entity_count(pre) implies #[trigger] entity_outcome(
            *cache,
            *a,
            asset_id,
            ni,
            pre,
            *w,
            e,
        ) by {
            assert(visit_partial_outcome(
                *cache,
                *a,
                asset_id,
                ni,
                child_count as int,
                pre,
                *w,
                e,
            ));
            match entity_target_geom(pre, e, asset_id) {
                Some(g) => {
                    lemma_subtree_offers_decompose(*cache, *a, ni, g);
                },
                None => {},
            }
        }
    }
    (visited, mesh_nodes)
}

/// The contract of one completed derivation pass for `asset_id`, relating
/// the live world before (`pre`) and after (`post`): the pass only attaches
/// colliders, and entity by entity it attaches exactly the collider derived
/// from the entity's own geometry — when the entity matches the asset and
/// that geometry is offered by the asset's tree and valid — and otherwise
/// leaves the entity's collider untouched.
pub open spec fn pass_post(cache: AssetCache, asset_id: usize, pre: LiveWorld, post: LiveWorld) -> bool {
    &&& world_frame(pre, post)
    &&& forall|e: int|
        0 <= e < entity_count(pre) ==> #[trigger] entity_outcome(
            cache,
            cache.scenes@[asset_id as int],
            asset_id,
            cache.scenes@[asset_id as int].root.unwrap() as int,
            pre,
            post,
            e,
        )
}

/// The derivation pass, invoked once a scene asset has fully loaded.
///
/// Resolves the asset for `asset_id`, walks its node tree depth-first from
/// the designated root, and for every valid primitive geometry attaches the
/// derived trimesh collider to every matching live entity.  A missing asset
/// or a missing root aborts the invocation with the world untouched;
/// malformed geometry is contained to its own primitive.
pub fn attach_colliders(cache: &AssetCache, w: &mut LiveWorld, asset_id: usize) -> (r: Result<
    DeriveReport,
    DeriveError,
>)
    requires
        cache_wf(*cache),
        world_wf(*old(w)),
    ensures
        world_wf(*final(w)),
        match r {
            Ok(rep) => {
                &&& asset_id < cache.scenes@.len()
                &&& cache.scenes@[asset_id as int].root is Some
                &&& pass_post(*cache, asset_id, *old(w), *final(w))
                &&& rep.nodes_visited == subtree(
                    cache.scenes@[asset_id as int],
                    cache.scenes@[asset_id as int].root.unwrap() as int,
                ).len()
                &&& rep.mesh_nodes == mesh_count(
                    cache.scenes@[asset_id as int],
                    subtree(
                        cache.scenes@[asset_id as int],
                        cache.scenes@[asset_id as int].root.unwrap() as int,
                    ),
                )
            },
            Err(err) => {
                &&& *final(w) == *old(w)
                &&& (err is MissingAsset <==> asset_id >= cache.scenes@.len())
                &&& (err is MalformedScene <==> asset_id < cache.scenes@.len()
                    && cache.scenes@[asset_id as int].root is None)
            },
        },
{
    if asset_id >= cache.scenes.len() {
        return Err(DeriveError::MissingAsset);
    }
    let a = &cache.scenes[asset_id];
    proof {
        assert(scene_wf(*a));
    }
    let root = match a.root {
        Some(r) => r,
        None => {
            return Err(DeriveError::MalformedScene);
        },
    };
    let (nodes_visited, mesh_nodes) = create_collider_for_node(cache, a, asset_id, root, w);
    Ok(DeriveReport { nodes_visited, mesh_nodes })
}

/// The pass is idempotent: re-deriving for the same asset — as on a reload —
/// replaces each attached collider with an equal one and touches nothing
/// else, so an entity never accumulates a second collider and the world is
/// unchanged overall.
pub proof fn lemma_pass_idempotent(
    cache: AssetCache,
    asset_id: usize,
    w0: LiveWorld,
    w1: LiveWorld,
    w2: LiveWorld,
)
    requires
        pass_post(cache, asset_id, w0, w1),
        pass_post(cache, asset_id, w1, w2),
    ensures
        forall|e: int|
            0 <= e < entity_count(w1) ==> collider_view(#[trigger] w2.collider@[e])
                == collider_view(w1.collider@[e]),
{
    let a = cache.scenes@[asset_id as int];
    let root = a.root.unwrap() as int;
    lemma_target_stable(w0, w1, asset_id);
    assert forall|e: int| 0 <= e < entity_count(w1) implies collider_view(
        #[trigger] w2.collider@[e],
    ) == collider_view(w1.collider@[e]) by {
        assert(entity_outcome(cache, a, asset_id, root, w0, w1, e));
        assert(entity_outcome(cache, a, asset_id, root, w1, w2, e));
        match entity_target_geom(w1, e, asset_id) {
            Some(g) => {},
            None => {},
        }
    }
}

/// If the pass runs before any matching live entity exists — scene
/// instantiation has not spawned them yet — it attaches nothing and raises
/// no error; there is no catch-up: entities spawned later stay without
/// colliders until the asset is re-derived.
pub proof fn lemma_pass_before_instantiation(
    cache: AssetCache,
    asset_id: usize,
    pre: LiveWorld,
    post: LiveWorld,
)
    requires
        pass_post(cache, asset_id, pre, post),
        forall|e: int| 0 <= e < entity_count(pre) ==> nearest_scene_root(pre, e) != Some(asset_id),
    ensures
        forall|e: int|
            0 <= e < entity_count(pre) ==> collider_view(#[trigger] post.collider@[e])
                == collider_view(pre.collider@[e]),
{
    let a = cache.scenes@[asset_id as int];
    let root = a.root.unwrap() as int;
    assert forall|e: int| 0 <= e < entity_count(pre) implies collider_view(
        #[trigger] post.collider@[e],
    ) == collider_view(pre.collider@[e]) by {
        assert(entity_outcome(cache, a, asset_id, root, pre, post, e));
        assert(entity_target_geom(pre, e, asset_id) == None::<usize>);
    }
}

/// Matching correctness: an entity that matches the processed asset receives
/// exactly the collider derived from its own mesh-primitive reference —
/// never one derived from another entity's primitive — and an entity whose
/// nearest marked ancestor names a different asset is untouched, even if it
/// shares the primitive reference.
pub proof fn lemma_match_uses_own_primitive(
    cache: AssetCache,
    asset_id: usize,
    pre: LiveWorld,
    post: LiveWorld,
    e: int,
    g: usize,
)
    requires
        pass_post(cache, asset_id, pre, post),
        0 <= e < entity_count(pre),
        pre.mesh_ref@[e] == Some(g),
    ensures
        nearest_scene_root(pre, e) == Some(asset_id) && collider_attached(
            cache,
            cache.scenes@[asset_id as int],
            cache.scenes@[asset_id as int].root.unwrap() as int,
            g,
        ) ==> collider_view(post.collider@[e]) == Some(
            derived_shape_view(cache.geometries@[g as int]),
        ),
        nearest_scene_root(pre, e) != Some(asset_id) ==> collider_view(post.collider@[e])
            == collider_view(pre.collider@[e]),
{
    let a = cache.scenes@[asset_id as int];
    let root = a.root.unwrap() as int;
    assert(entity_outcome(cache, a, asset_id, root, pre, post, e));
}

} // verus!


