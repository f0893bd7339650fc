use scene_colliders::deriver::{attach_colliders, DeriveError};
use scene_colliders::geometry::{build_trimesh, GeometryBuffer, Triangle, Vertex};
use scene_colliders::scene::{AssetCache, MeshAsset, Primitive, SceneAsset, SceneNode};
use scene_colliders::world::{find_scene_root, LiveWorld};

fn vert(x: f32, y: f32, z: f32) -> Vertex {
    Vertex { x_bits: x.to_bits(), y_bits: y.to_bits(), z_bits: z.to_bits() }
}

fn quad_buffer() -> GeometryBuffer {
    GeometryBuffer {
        positions: Some(vec![
            vert(0.0, 0.0, 0.0),
            vert(1.0, 0.0, 0.0),
            vert(1.0, 1.0, 0.0),
            vert(0.0, 1.0, 0.0),
        ]),
        indices: vec![0, 1, 2, 0, 2, 3],
    }
}

fn tri_buffer() -> GeometryBuffer {
    GeometryBuffer {
        positions: Some(vec![vert(0.0, 0.0, 0.0), vert(2.0, 0.0, 0.0), vert(0.0, 2.0, 0.0)]),
        indices: vec![0, 1, 2],
    }
}

fn node(mesh: Option<usize>, children: Vec<usize>) -> SceneNode {
    SceneNode { mesh, children }
}

fn single_prim_mesh(geometry: usize) -> MeshAsset {
    MeshAsset { primitives: vec![Primitive { geometry }] }
}

#[test]
fn triangle_count_is_index_count_over_three() {
    let shape = build_trimesh(&quad_buffer()).unwrap();
    assert_eq!(shape.triangles.len(), 2);
    assert_eq!(shape.vertices.len(), 4);
    assert_eq!(shape.triangles[0], Triangle { a: 0, b: 1, c: 2 });
    assert_eq!(shape.triangles[1], Triangle { a: 0, b: 2, c: 3 });
    assert_eq!(shape.vertices[2], vert(1.0, 1.0, 0.0));
}

#[test]
fn malformed_buffers_are_rejected() {
    // index count not a multiple of three
    let mut g = quad_buffer();
    g.indices = vec![0, 1, 2, 0, 2];
    assert!(build_trimesh(&g).is_none());
    // missing position attribute
    let mut g = quad_buffer();
    g.positions = None;
    assert!(build_trimesh(&g).is_none());
    // index past the end of the position array
    let mut g = quad_buffer();
    g.indices = vec![0, 1, 4];
    assert!(build_trimesh(&g).is_none());
    // an empty buffer is a valid, empty trimesh
    let empty = GeometryBuffer { positions: Some(vec![]), indices: vec![] };
    let shape = build_trimesh(&empty).unwrap();
    assert_eq!(shape.triangles.len(), 0);
}

#[test]
fn visits_every_node_exactly_once() {
    // Five nodes, two of them mesh-bearing: 0 -> (1, 2), 1 -> (3, 4).
    let asset = SceneAsset {
        root: Some(0),
        nodes: vec![
            node(None, vec![1, 2]),
            node(Some(0), vec![3, 4]),
            node(None, vec![]),
            node(Some(1), vec![]),
            node(None, vec![]),
        ],
    };
    let cache = AssetCache {
        scenes: vec![asset],
        meshes: vec![single_prim_mesh(0), single_prim_mesh(1)],
        geometries: vec![quad_buffer(), tri_buffer()],
    };
    let mut world = LiveWorld::new();
    let report = attach_colliders(&cache, &mut world, 0).unwrap();
    assert_eq!(report.nodes_visited, 5);
    assert_eq!(report.mesh_nodes, 2);
}

#[test]
fn malformed_primitive_does_not_abort_pass() {
    // Two-node scene: the root's mesh references a malformed geometry, the
    // child's a valid one.  The valid node's entity must still receive its
    // collider.
    let bad = GeometryBuffer {
        positions: Some(vec![vert(0.0, 0.0, 0.0), vert(1.0, 0.0, 0.0)]),
        indices: vec![0, 1, 0, 1],  // not a multiple of three
    };
    let asset = SceneAsset {
        root: Some(0),
        nodes: vec![node(Some(0), vec![1]), node(Some(1), vec![])],
    };
    let cache = AssetCache {
        scenes: vec![asset],
        meshes: vec![single_prim_mesh(0), single_prim_mesh(1)],
        geometries: vec![bad, tri_buffer()],
    };
    let mut world = LiveWorld::new();
    let root = world.spawn(None, None, Some(0));
    let bad_entity = world.spawn(Some(root), Some(0), None);
    let good_entity = world.spawn(Some(root), Some(1), None);
    let report = attach_colliders(&cache, &mut world, 0).unwrap();
    assert_eq!(report.nodes_visited, 2);
    assert!(world.collider[bad_entity].is_none());
    let shape = world.collider[good_entity].as_ref().unwrap();
    assert_eq!(shape.triangles, vec![Triangle { a: 0, b: 1, c: 2 }]);
}

#[test]
fn matching_attaches_each_entitys_own_primitive() {
    // One asset offering two geometries; two independent instantiations of
    // it, plus one entity under a root instantiated from a different asset.
    let asset = SceneAsset {
        root: Some(0),
        nodes: vec![node(Some(0), vec![1]), node(Some(1), vec![])],
    };
    let other = SceneAsset { root: Some(0), nodes: vec![node(None, vec![])] };
    let cache = AssetCache {
        scenes: vec![asset, other],
        meshes: vec![single_prim_mesh(0), single_prim_mesh(1)],
        geometries: vec![quad_buffer(), tri_buffer()],
    };
    let mut world = LiveWorld::new();
    let root_a = world.spawn(None, None, Some(0));
    let under_a = world.spawn(Some(root_a), Some(0), None);
    let root_b = world.spawn(None, None, Some(0));
    let under_b = world.spawn(Some(root_b), Some(1), None);
    let root_other = world.spawn(None, None, Some(1));
    let under_other = world.spawn(Some(root_other), Some(0), None);
    attach_colliders(&cache, &mut world, 0).unwrap();
    // each instantiation's entity got the collider of its own primitive
    let shape_a = world.collider[under_a].as_ref().unwrap();
    assert_eq!(shape_a.vertices.len(), 4);
    assert_eq!(shape_a.triangles.len(), 2);
    let shape_b = world.collider[under_b].as_ref().unwrap();
    assert_eq!(shape_b.vertices.len(), 3);
    assert_eq!(shape_b.triangles.len(), 1);
    assert_ne!(shape_a.vertices, shape_b.vertices);
    // the entity under the other asset's root shares the primitive reference
    // but matches a different scene: untouched
    assert!(world.collider[under_other].is_none());
    assert!(world.collider[root_a].is_none());
}

#[test]
fn rederiving_replaces_instead_of_duplicating() {
    let asset = SceneAsset { root: Some(0), nodes: vec![node(Some(0), vec![])] };
    let cache = AssetCache {
        scenes: vec![asset],
        meshes: vec![single_prim_mesh(0)],
        geometries: vec![quad_buffer()],
    };
    let mut world = LiveWorld::new();
    let root = world.spawn(None, None, Some(0));
    let entity = world.spawn(Some(root), Some(0), None);
    attach_colliders(&cache, &mut world, 0).unwrap();
    let first_vertices = world.collider[entity].as_ref().unwrap().vertices.clone();
    let first_triangles = world.collider[entity].as_ref().unwrap().triangles.clone();
    // reload: the completion event fires again for the same asset id
    attach_colliders(&cache, &mut world, 0).unwrap();
    let again = world.collider[entity].as_ref().unwrap();
    assert_eq!(again.vertices, first_vertices);
    assert_eq!(again.triangles, first_triangles);
}

#[test]
fn derivation_before_instantiation_attaches_nothing() {
    let asset = SceneAsset { root: Some(0), nodes: vec![node(Some(0), vec![])] };
    let cache = AssetCache {
        scenes: vec![asset],
        meshes: vec![single_prim_mesh(0)],
        geometries: vec![quad_buffer()],
    };
    // the load-completion event arrives before any entity was spawned
    let mut world = LiveWorld::new();
    let report = attach_colliders(&cache, &mut world, 0).unwrap();
    assert_eq!(report.nodes_visited, 1);
    // entities spawned afterwards stay without colliders: no catch-up pass
    let root = world.spawn(None, None, Some(0));
    let entity = world.spawn(Some(root), Some(0), None);
    assert!(!world.has_collider(root));
    assert!(!world.has_collider(entity));
}

#[test]
fn mesh_with_several_primitives_attaches_each() {
    // One node whose mesh has two primitives; one entity per primitive.
    let asset = SceneAsset { root: Some(0), nodes: vec![node(Some(0), vec![])] };
    let cache = AssetCache {
        scenes: vec![asset],
        meshes: vec![MeshAsset {
            primitives: vec![Primitive { geometry: 0 }, Primitive { geometry: 1 }],
        }],
        geometries: vec![quad_buffer(), tri_buffer()],
    };
    let mut world = LiveWorld::new();
    let root = world.spawn(None, None, Some(0));
    let quad_entity = world.spawn(Some(root), Some(0), None);
    let tri_entity = world.spawn(Some(root), Some(1), None);
    let stranger = world.spawn(Some(root), Some(7), None);  // geometry not offered
    let report = attach_colliders(&cache, &mut world, 0).unwrap();
    assert_eq!(report.nodes_visited, 1);
    assert_eq!(report.mesh_nodes, 1);
    assert_eq!(world.collider[quad_entity].as_ref().unwrap().triangles.len(), 2);
    assert_eq!(world.collider[tri_entity].as_ref().unwrap().triangles.len(), 1);
    assert!(world.collider[stranger].is_none());
}

#[test]
fn missing_asset_is_reported() {
    let cache = AssetCache { scenes: vec![], meshes: vec![], geometries: vec![] };
    let mut world = LiveWorld::new();
    assert_eq!(attach_colliders(&cache, &mut world, 0), Err(DeriveError::MissingAsset));
}

#[test]
fn scene_without_root_is_reported() {
    let asset = SceneAsset { root: None, nodes: vec![node(Some(0), vec![])] };
    let cache = AssetCache {
        scenes: vec![asset],
        meshes: vec![single_prim_mesh(0)],
        geometries: vec![quad_buffer()],
    };
    let mut world = LiveWorld::new();
    let root = world.spawn(None, None, Some(0));
    let entity = world.spawn(Some(root), Some(0), None);
    assert_eq!(attach_colliders(&cache, &mut world, 0), Err(DeriveError::MalformedScene));
    assert!(world.collider[entity].is_none());
}

#[test]
fn scene_root_walk_finds_nearest_marker() {
    let mut world = LiveWorld::new();
    let top = world.spawn(None, None, Some(3));
    let mid = world.spawn(Some(top), None, None);
    let leaf = world.spawn(Some(mid), Some(0), None);
    assert_eq!(find_scene_root(&world, leaf), Some(3));
    assert_eq!(find_scene_root(&world, mid), Some(3));
    // the walk looks at strict ancestors only
    assert_eq!(find_scene_root(&world, top), None);
    // a nearer marked ancestor shadows the outer one
    let inner_root = world.spawn(Some(mid), None, Some(9));
    let under_inner = world.spawn(Some(inner_root), Some(0), None);
    assert_eq!(find_scene_root(&world, under_inner), Some(9));
    // an unparented entity hangs under no scene root
    let loose = world.spawn(None, Some(0), None);
    assert_eq!(find_scene_root(&world, loose), None);
}
