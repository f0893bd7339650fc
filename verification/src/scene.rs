//! The asset-side data model: scene assets, their node trees, meshes and
//! primitives, and the asset cache that owns them.
//!
//! Nodes are arena-indexed: a scene asset owns a flat array of nodes, and a
//! node's children are indices into that array.  The source format guarantees
//! that the nodes form a tree; here that invariant is stated as
//! [`scene_wf`]: every child index is strictly greater than its parent's
//! index (parents are stored before their children), and no node is the child
//! of two nodes, or of one node twice.

use vstd::prelude::*;

use crate::geometry::GeometryBuffer;

verus! {

/// One primitive of a mesh: a reference into the geometry-buffer arena.
#[derive(Clone, Copy, PartialEq, Eq, Structural, Debug)]
pub struct Primitive {
    pub geometry: usize,
}

/// A mesh: an ordered sequence of primitives.
pub struct MeshAsset {
    pub primitives: Vec<Primitive>,
}

/// One node of a scene's hierarchy: an optional mesh reference and the
/// ordered child-node indices.
pub struct SceneNode {
    /// Index into the mesh arena, if this node bears a mesh.
    pub mesh: Option<usize>,
    /// Indices of the child nodes, each strictly greater than this node's own
    /// index in a well-formed asset.
    pub children: Vec<usize>,
}

/// A fully loaded scene asset: the designated root node, if the asset has
/// one, and the flat arena of all its nodes.
pub struct SceneAsset {
    /// The designated root node ("default scene"); a missing root makes the
    /// asset malformed.
    pub root: Option<usize>,
    pub nodes: Vec<SceneNode>,
}

/// The read-only asset cache handed to the derivation pass.  Scene assets,
/// meshes and geometry buffers are looked up by arena index.
pub struct AssetCache {
    pub scenes: Vec<SceneAsset>,
    pub meshes: Vec<MeshAsset>,
    pub geometries: Vec<GeometryBuffer>,
}

/// All child references of node `i` stay inside the arena and point strictly
/// past `i`.
pub open spec fn node_wf(a: SceneAsset, i: int) -> bool {
    forall|k: int|
        0 <= k < a.nodes@[i].children@.len() ==> i < (#[trigger] a.nodes@[i].children@[k])
            < a.nodes@.len()
}

/// No node is referenced as a child twice: not by two nodes, and not twice by
/// one node.
pub open spec fn unique_parents(a: SceneAsset) -> bool {
    forall|i1: int, k1: int, i2: int, k2: int|
        0 <= i1 < a.nodes@.len() && 0 <= k1 < a.nodes@[i1].children@.len() && 0 <= i2
            < a.nodes@.len() && 0 <= k2 < a.nodes@[i2].children@.len()
            && #[trigger] a.nodes@[i1].children@[k1] == #[trigger] a.nodes@[i2].children@[k2]
            ==> i1 == i2 && k1 == k2
}

/// The tree invariant of a loaded scene asset.
pub open spec fn scene_wf(a: SceneAsset) -> bool {
    &&& (a.root matches Some(r) ==> r < a.nodes@.len())
    &&& (forall|i: int| 0 <= i < a.nodes@.len() ==> #[trigger] node_wf(a, i))
    &&& unique_parents(a)
}

/// The depth-first preorder sequence of node indices reachable from node `i`:
/// the order in which the derivation pass visits them.
pub open spec fn subtree(a: SceneAsset, i: int) -> Seq<int>
    decreases a.nodes@.len() - i, a.nodes@[i].children@.len(), 1int,
{
    if 0 <= i < a.nodes@.len() && node_wf(a, i) {
        seq![i] + subtree_from(a, i, 0)
    } else {
        seq![i]
    }
}

/// The nodes reached through children `k..` of node `i`, in visit order.
pub open spec fn subtree_from(a: SceneAsset, i: int, k: int) -> Seq<int>
    decreases a.nodes@.len() - i, a.nodes@[i].children@.len() - k, 0int,
{
    if 0 <= i < a.nodes@.len() && node_wf(a, i) && 0 <= k < a.nodes@[i].children@.len() {
        subtree(a, a.nodes@[i].children@[k] as int) + subtree_from(a, i, k + 1)
    } else {
        Seq::<int>::empty()
    }
}

/// Membership in a concatenation is membership in either part.
pub proof fn lemma_concat_contains<T>(s1: Seq<T>, s2: Seq<T>, x: T)
    ensures
        (s1 + s2).contains(x) <==> s1.contains(x) || s2.contains(x),
{
    if (s1 + s2).contains(x) {
        let n = choose|n: int| 0 <= n < (s1 + s2).len() && (s1 + s2)[n] == x;
        if n < s1.len() {
            assert(s1[n] == x);
        } else {
            assert(s2[n - s1.len()] == x);
        }
    }
    if s1.contains(x) {
        let n = choose|n: int| 0 <= n < s1.len() && s1[n] == x;
        assert((s1 + s2)[n] == x);
    }
    if s2.contains(x) {
        let n = choose|n: int| 0 <= n < s2.len() && s2[n] == x;
        assert((s1 + s2)[s1.len() + n] == x);
    }
}

/// A traversal starts at its own root: `i` is the first entry of its subtree
/// sequence.
pub proof fn lemma_subtree_head(a: SceneAsset, i: int)
    ensures
        subtree(a, i).len() >= 1,
        subtree(a, i)[0] == i,
        subtree(a, i).contains(i),
{
    assert(subtree(a, i)[0] == i);
}

/// Every node visited below node `i` lies inside the arena, at or past `i`.
pub proof fn lemma_subtree_bounds(a: SceneAsset, i: int, j: int)
    requires
        scene_wf(a),
        0 <= i < a.nodes@.len(),
        subtree(a, i).contains(j),
    ensures
        i <= j < a.nodes@.len(),
    decreases a.nodes@.len() - i, a.nodes@[i].children@.len(), 1int,
{
    assert(node_wf(a, i));
    lemma_concat_contains(seq![i], subtree_from(a, i, 0), j);
    if seq![i].contains(j) {
        assert(j == i);
    } else {
        lemma_subtree_from_bounds(a, i, 0, j);
    }
}

/// Every node visited through children `k..` of node `i` lies inside the
/// arena, strictly past `i`.
pub proof fn lemma_subtree_from_bounds(a: SceneAsset, i: int, k: int, j: int)
    requires
        scene_wf(a),
        0 <= i < a.nodes@.len(),
        subtree_from(a, i, k).contains(j),
    ensures
        i < j < a.nodes@.len(),
    decreases a.nodes@.len() - i, a.nodes@[i].children@.len() - k, 0int,
{
    assert(node_wf(a, i));
    if 0 <= k < a.nodes@[i].children@.len() {
        let c = a.nodes@[i].children@[k] as int;
        lemma_concat_contains(subtree(a, c), subtree_from(a, i, k + 1), j);
        if subtree(a, c).contains(j) {
            lemma_subtree_bounds(a, c, j);
        } else {
            lemma_subtree_from_bounds(a, i, k + 1, j);
        }
    } else {
        assert(false);
    }
}

/// Membership through children `k..` of node `i` is membership in the subtree
/// of one particular child.
pub proof fn lemma_subtree_from_member(a: SceneAsset, i: int, k: int, j: int)
    requires
        subtree_from(a, i, k).contains(j),
    ensures
        exists|k2: int|
            k <= k2 < a.nodes@[i].children@.len() && #[trigger] subtree(
                a,
                a.nodes@[i].children@[k2] as int,
            ).contains(j),
    decreases a.nodes@[i].children@.len() - k,
{
    if 0 <= i < a.nodes@.len() && node_wf(a, i) && 0 <= k < a.nodes@[i].children@.len() {
        let c = a.nodes@[i].children@[k] as int;
        lemma_concat_contains(subtree(a, c), subtree_from(a, i, k + 1), j);
        if subtree(a, c).contains(j) {
            assert(subtree(a, a.nodes@[i].children@[k] as int).contains(j));
        } else {
            lemma_subtree_from_member(a, i, k + 1, j);
        }
    } else {
        assert(false);
    }
}

/// Conversely, what one child's subtree contains, the walk over children
/// `k..` contains.
pub proof fn lemma_subtree_from_member_conv(a: SceneAsset, i: int, k: int, k2: int, j: int)
    requires
        0 <= i < a.nodes@.len(),
        node_wf(a, i),
        0 <= k <= k2 < a.nodes@[i].children@.len(),
        subtree(a, a.nodes@[i].children@[k2] as int).contains(j),
    ensures
        subtree_from(a, i, k).contains(j),
    decreases k2 - k,
{
    let c = a.nodes@[i].children@[k] as int;
    if k == k2 {
        lemma_concat_contains(subtree(a, c), subtree_from(a, i, k + 1), j);
    } else {
        lemma_subtree_from_member_conv(a, i, k + 1, k2, j);
        lemma_concat_contains(subtree(a, c), subtree_from(a, i, k + 1), j);
    }
}

/// One node referencing `j` as a child, by parent index and child position.
pub open spec fn parent_edge(a: SceneAsset, p: int, k: int, j: int) -> bool {
    &&& 0 <= p < a.nodes@.len()
    &&& 0 <= k < a.nodes@[p].children@.len()
    &&& a.nodes@[p].children@[k] == j
}

/// Every visited node other than the traversal root was reached from a parent
/// that was itself visited.
pub proof fn lemma_subtree_entry(a: SceneAsset, i: int, j: int)
    requires
        scene_wf(a),
        0 <= i < a.nodes@.len(),
        subtree(a, i).contains(j),
        j != i,
    ensures
        exists|p: int, k: int| #[trigger] parent_edge(a, p, k, j) && subtree(a, i).contains(p),
    decreases a.nodes@.len() - i, a.nodes@[i].children@.len(), 1int,
{
    assert(node_wf(a, i));
    lemma_concat_contains(seq![i], subtree_from(a, i, 0), j);
    assert(subtree_from(a, i, 0).contains(j));
    lemma_subtree_from_entry(a, i, 0, j);
    let (p, k) = choose|p: int, k: int|
        #[trigger] parent_edge(a, p, k, j) && (p == i || subtree_from(a, i, 0).contains(p));
    if p == i {
        lemma_subtree_head(a, i);
        assert(parent_edge(a, p, k, j) && subtree(a, i).contains(p));
    } else {
        lemma_concat_contains(seq![i], subtree_from(a, i, 0), p);
        assert(parent_edge(a, p, k, j) && subtree(a, i).contains(p));
    }
}

/// As [`lemma_subtree_entry`], for the walk over children `k..` of node `i`:
/// the parent is `i` itself or lies in the walked part.
pub proof fn lemma_subtree_from_entry(a: SceneAsset, i: int, k: int, j: int)
    requires
        scene_wf(a),
        0 <= i < a.nodes@.len(),
        subtree_from(a, i, k).contains(j),
        j != i,
    ensures
        exists|p: int, k2: int|
            #[trigger] parent_edge(a, p, k2, j) && (p == i || subtree_from(a, i, k).contains(p)),
    decreases a.nodes@.len() - i, a.nodes@[i].children@.len() - k, 0int,
{
    assert(node_wf(a, i));
    if 0 <= k < a.nodes@[i].children@.len() {
        let c = a.nodes@[i].children@[k] as int;
        lemma_concat_contains(subtree(a, c), subtree_from(a, i, k + 1), j);
        if subtree(a, c).contains(j) {
            if j == c {
                assert(parent_edge(a, i, k, j) && i == i);
            } else {
                assert(0 <= c < a.nodes@.len());
                lemma_subtree_entry(a, c, j);
                let (p, k2) = choose|p: int, k2: int|
                    #[trigger] parent_edge(a, p, k2, j) && subtree(a, c).contains(p);
                lemma_concat_contains(subtree(a, c), subtree_from(a, i, k + 1), p);
                assert(parent_edge(a, p, k2, j) && subtree_from(a, i, k).contains(p));
            }
        } else {
            lemma_subtree_from_entry(a, i, k + 1, j);
            let (p, k2) = choose|p: int, k2: int|
                #[trigger] parent_edge(a, p, k2, j) && (p == i || subtree_from(a, i, k + 1).contains(
                    p,
                ));
            if p != i {
                lemma_concat_contains(subtree(a, c), subtree_from(a, i, k + 1), p);
            }
            assert(parent_edge(a, p, k2, j) && (p == i || subtree_from(a, i, k).contains(p)));
        }
    } else {
        assert(false);
    }
}

/// Two distinct children of one node head disjoint subtrees: no node is
/// reached through both.
pub proof fn lemma_sibling_subtrees_disjoint(
    a: SceneAsset,
    i: int,
    k1: int,
    k2: int,
    c1: int,
    c2: int,
    j: int,
)
    requires
        scene_wf(a),
        parent_edge(a, i, k1, c1),
        parent_edge(a, i, k2, c2),
        c1 != c2,
    ensures
        !(subtree(a, c1).contains(j) && subtree(a, c2).contains(j)),
    decreases j,
{
    if !(subtree(a, c1).contains(j) && subtree(a, c2).contains(j)) {
        // nothing to refute
    } else {
    assert(node_wf(a, i));
    assert(0 <= c1 < a.nodes@.len());
    assert(0 <= c2 < a.nodes@.len());
    if j == c1 {
        // c1 sits inside c2's subtree, so some visited node is c1's parent;
        // but c1's only parent is i, which lies below c2 in the arena order.
        lemma_subtree_entry(a, c2, c1);
        let (p, kp) = choose|p: int, kp: int|
            #[trigger] parent_edge(a, p, kp, c1) && subtree(a, c2).contains(p);
        assert(a.nodes@[p].children@[kp] == a.nodes@[i].children@[k1]);
        assert(p == i && kp == k1);
        lemma_subtree_bounds(a, c2, i);
        assert(false);
    } else if j == c2 {
        lemma_subtree_entry(a, c1, c2);
        let (p, kp) = choose|p: int, kp: int|
            #[trigger] parent_edge(a, p, kp, c2) && subtree(a, c1).contains(p);
        assert(a.nodes@[p].children@[kp] == a.nodes@[i].children@[k2]);
        assert(p == i && kp == k2);
        lemma_subtree_bounds(a, c1, i);
        assert(false);
    } else {
        // j has one parent; it was visited under both children, so recurse on
        // it.
        lemma_subtree_entry(a, c1, j);
        let (p1, kp1) = choose|p1: int, kp1: int|
            #[trigger] parent_edge(a, p1, kp1, j) && subtree(a, c1).contains(p1);
        lemma_subtree_entry(a, c2, j);
        let (p2, kp2) = choose|p2: int, kp2: int|
            #[trigger] parent_edge(a, p2, kp2, j) && subtree(a, c2).contains(p2);
        assert(a.nodes@[p1].children@[kp1] == a.nodes@[p2].children@[kp2]);
        assert(p1 == p2 && kp1 == kp2);
        assert(node_wf(a, p1));
        assert(p1 < j);
        lemma_subtree_bounds(a, c1, p1);
        lemma_sibling_subtrees_disjoint(a, i, k1, k2, c1, c2, p1);
    }
    }
}

/// The preorder visit sequence below node `i` names no node twice.
pub proof fn lemma_subtree_no_duplicates(a: SceneAsset, i: int)
    requires
        scene_wf(a),
        0 <= i < a.nodes@.len(),
    ensures
        subtree(a, i).no_duplicates(),
    decreases a.nodes@.len() - i, a.nodes@[i].children@.len(), 1int,
{
    assert(node_wf(a, i));
    lemma_subtree_from_no_duplicates(a, i, 0);
    let s1 = seq![i];
    let s2 = subtree_from(a, i, 0);
    assert forall|x: int, y: int| 0 <= x < s1.len() && 0 <= y < s2.len() implies s1[x] != s2[y] by {
        if s1[x] == s2[y] {
            assert(s2.contains(i)) by {
                assert(s2[y] == i);
            }
            lemma_subtree_from_bounds(a, i, 0, i);
        }
    }
    vstd::seq_lib::lemma_no_dup_in_concat(s1, s2);
}

/// The walk over children `k..` of node `i` names no node twice.
pub proof fn lemma_subtree_from_no_duplicates(a: SceneAsset, i: int, k: int)
    requires
        scene_wf(a),
        0 <= i < a.nodes@.len(),
    ensures
        subtree_from(a, i, k).no_duplicates(),
    decreases a.nodes@.len() - i, a.nodes@[i].children@.len() - k, 0int,
{
    assert(node_wf(a, i));
    if 0 <= k < a.nodes@[i].children@.len() {
        let c = a.nodes@[i].children@[k] as int;
        let s1 = subtree(a, c);
        let s2 = subtree_from(a, i, k + 1);
        lemma_subtree_no_duplicates(a, c);
        lemma_subtree_from_no_duplicates(a, i, k + 1);
        assert forall|x: int, y: int| 0 <= x < s1.len() && 0 <= y < s2.len() implies s1[x]
            != s2[y] by {
            if s1[x] == s2[y] {
                let j = s1[x];
                assert(s1.contains(j));
                assert(s2.contains(j));
                lemma_subtree_from_member(a, i, k + 1, j);
                let k2 = choose|k2: int|
                    k + 1 <= k2 < a.nodes@[i].children@.len() && #[trigger] subtree(
                        a,
                        a.nodes@[i].children@[k2] as int,
                    ).contains(j);
                let c2 = a.nodes@[i].children@[k2] as int;
                assert(a.nodes@[i].children@[k] == a.nodes@[i].children@[k]);
                assert(parent_edge(a, i, k, c));
                assert(parent_edge(a, i, k2, c2));
                if c == c2 {
                    assert(a.nodes@[i].children@[k] == a.nodes@[i].children@[k2]);
                    assert(k == k2);
                    assert(false);
                } else {
                    lemma_subtree_bounds(a, c, j);
                    lemma_sibling_subtrees_disjoint(a, i, k, k2, c, c2, j);
                }
            }
        }
        vstd::seq_lib::lemma_no_dup_in_concat(s1, s2);
    }
}

/// A visit sequence without duplicates is no longer than the arena itself.
pub proof fn lemma_subtree_len_bound(a: SceneAsset, i: int)
    requires
        scene_wf(a),
        0 <= i < a.nodes@.len(),
    ensures
        subtree(a, i).len() <= a.nodes@.len(),
{
    let s = subtree(a, i);
    lemma_subtree_no_duplicates(a, i);
    s.unique_seq_to_set();
    let range = vstd::set_lib::set_int_range(0, a.nodes@.len() as int);
    vstd::set_lib::lemma_int_range(0, a.nodes@.len() as int);
    assert forall|x: int| s.to_set().contains(x) implies range.contains(x) by {
        assert(s.contains(x));
        lemma_subtree_bounds(a, i, x);
    }
    vstd::set_lib::lemma_len_subset(s.to_set(), range);
}

/// The visit sequence is closed under children: whatever node it visits, it
/// also visits each of that node's children.
pub proof fn lemma_subtree_closed(a: SceneAsset, i: int, j: int, k: int)
    requires
        scene_wf(a),
        0 <= i < a.nodes@.len(),
        subtree(a, i).contains(j),
        0 <= k < a.nodes@[j].children@.len(),
    ensures
        subtree(a, i).contains(a.nodes@[j].children@[k] as int),
    decreases a.nodes@.len() - i,
{
    lemma_subtree_bounds(a, i, j);
    assert(node_wf(a, i));
    assert(node_wf(a, j));
    let c = a.nodes@[j].children@[k] as int;
    if j == i {
        lemma_subtree_head(a, c);
        lemma_subtree_from_member_conv(a, i, 0, k, c);
        lemma_concat_contains(seq![i], subtree_from(a, i, 0), c);
    } else {
        lemma_concat_contains(seq![i], subtree_from(a, i, 0), j);
        lemma_subtree_from_member(a, i, 0, j);
        let k2 = choose|k2: int|
            0 <= k2 < a.nodes@[i].children@.len() && #[trigger] subtree(
                a,
                a.nodes@[i].children@[k2] as int,
            ).contains(j);
        let c2 = a.nodes@[i].children@[k2] as int;
        lemma_subtree_closed(a, c2, j, k);
        lemma_subtree_from_member_conv(a, i, 0, k2, c);
        lemma_concat_contains(seq![i], subtree_from(a, i, 0), c);
    }
}

/// One derivation pass visits every node reachable from its root exactly
/// once: the visit sequence starts at the root, is closed under children,
/// and names no node twice — so no mesh-bearing node is skipped or processed
/// twice.
pub proof fn lemma_each_node_visited_once(a: SceneAsset, root: int)
    requires
        scene_wf(a),
        0 <= root < a.nodes@.len(),
    ensures
        subtree(a, root).contains(root),
        subtree(a, root).no_duplicates(),
        forall|j: int, k: int|
            subtree(a, root).contains(j) && 0 <= k < a.nodes@[j].children@.len()
                ==> subtree(a, root).contains((#[trigger] a.nodes@[j].children@[k]) as int),
{
    lemma_subtree_head(a, root);
    lemma_subtree_no_duplicates(a, root);
    assert forall|j: int, k: int|
        subtree(a, root).contains(j) && 0 <= k
            < a.nodes@[j].children@.len() implies subtree(a, root).contains(
        (#[trigger] a.nodes@[j].children@[k]) as int,
    ) by {
        lemma_subtree_closed(a, root, j, k);
    }
}

/// Whether node `j` of the asset bears a mesh.
pub open spec fn is_mesh_node(a: SceneAsset, j: int) -> bool {
    0 <= j < a.nodes@.len() && a.nodes@[j].mesh is Some
}

/// How many entries of a visit sequence name mesh-bearing nodes.
pub open spec fn mesh_count(a: SceneAsset, s: Seq<int>) -> int
    decreases s.len(),
{
    if s.len() == 0 {
        0
    } else {
        (if is_mesh_node(a, s[0]) {
            1int
        } else {
            0int
        }) + mesh_count(a, s.drop_first())
    }
}

/// The mesh-node count distributes over concatenation of visit sequences.
pub proof fn lemma_mesh_count_concat(a: SceneAsset, s1: Seq<int>, s2: Seq<int>)
    ensures
        mesh_count(a, s1 + s2) == mesh_count(a, s1) + mesh_count(a, s2),
    decreases s1.len(),
{
    if s1.len() == 0 {
        assert(s1 + s2 =~= s2);
    } else {
        assert((s1 + s2).drop_first() =~= s1.drop_first() + s2);
        assert((s1 + s2)[0] == s1[0]);
        lemma_mesh_count_concat(a, s1.drop_first(), s2);
    }
}

/// The mesh-node count of a visit sequence lies between zero and its length.
pub proof fn lemma_mesh_count_bounds(a: SceneAsset, s: Seq<int>)
    ensures
        0 <= mesh_count(a, s) <= s.len(),
    decreases s.len(),
{
    if s.len() > 0 {
        lemma_mesh_count_bounds(a, s.drop_first());
    }
}

} // verus!
