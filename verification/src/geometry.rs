//! Geometry buffers and the trimesh collision shapes derived from them.

use vstd::prelude::*;

verus! {

/// One vertex position of a mesh.  The derivation pass never interprets the
/// coordinates numerically: it only carries them through from the geometry
/// buffer into the collider, so each component is kept as its raw 32-bit
/// encoding.
#[derive(Clone, Copy, PartialEq, Eq, Structural, Debug)]
pub struct Vertex {
    pub x_bits: u32,
    pub y_bits: u32,
    pub z_bits: u32,
}

/// One triangle of a collision shape, as three indices into a vertex array.
#[derive(Clone, Copy, PartialEq, Eq, Structural, Debug)]
pub struct Triangle {
    pub a: u32,
    pub b: u32,
    pub c: u32,
}

/// The parsed geometry of one mesh primitive: the position attribute, if it
/// is present and in the expected three-component layout, and the flat
/// triangle index list.
pub struct GeometryBuffer {
    /// `None` when the position attribute is missing or not in the expected
    /// three-component layout.
    pub positions: Option<Vec<Vertex>>,
    /// Flat index list; every three consecutive entries form one triangle.
    pub indices: Vec<u32>,
}

/// A triangle-mesh collision shape, built once from one geometry buffer and
/// never mutated afterwards.
pub struct ColliderShape {
    pub vertices: Vec<Vertex>,
    pub triangles: Vec<Triangle>,
}

/// A geometry buffer from which a collider may be derived: the position
/// attribute is present, the index count is a multiple of three, and every
/// index refers to an existing position.
pub open spec fn buffer_valid(g: GeometryBuffer) -> bool {
    &&& g.positions is Some
    &&& g.indices@.len() % 3 == 0
    &&& forall|k: int|
        0 <= k < g.indices@.len() ==> (#[trigger] g.indices@[k]) < g.positions.unwrap()@.len()
}

/// The triangle formed by the `t`-th chunk of three consecutive indices.
pub open spec fn derived_triangle(ind: Seq<u32>, t: int) -> Triangle {
    Triangle { a: ind[3 * t], b: ind[3 * t + 1], c: ind[3 * t + 2] }
}

/// The triangles obtained by grouping the index list in chunks of three.
pub open spec fn derived_triangles(ind: Seq<u32>) -> Seq<Triangle> {
    Seq::new(ind.len() / 3, |t: int| derived_triangle(ind, t))
}

/// The mathematical content of a collision shape.
pub open spec fn shape_view(s: ColliderShape) -> (Seq<Vertex>, Seq<Triangle>) {
    (s.vertices@, s.triangles@)
}

/// The content of the one collision shape that a valid geometry buffer
/// determines.
pub open spec fn derived_shape_view(g: GeometryBuffer) -> (Seq<Vertex>, Seq<Triangle>) {
    (g.positions.unwrap()@, derived_triangles(g.indices@))
}

/// The content of an optional, attached collision shape.
pub open spec fn collider_view(c: Option<ColliderShape>) -> Option<(Seq<Vertex>, Seq<Triangle>)> {
    match c {
        Some(s) => Some(shape_view(s)),
        None => None,
    }
}

/// Builds the trimesh collider for one primitive's geometry, or reports the
/// geometry as malformed: position attribute missing or in an unexpected
/// layout, index count not a multiple of three, or an index past the end of
/// the position array.
pub fn build_trimesh(g: &GeometryBuffer) -> (r: Option<ColliderShape>)
    ensures
        r is Some <==> buffer_valid(*g),
        r matches Some(s) ==> shape_view(s) == derived_shape_view(*g),
        r matches Some(s) ==> s.triangles@.len() == g.indices@.len() / 3,
{
    let positions = match &g.positions {
        Some(p) => p,
        None => {
            return None;
        },
    };
    if g.indices.len() % 3 != 0 {
        return None;
    }
    let n = g.indices.len();
    let mut k: usize = 0;
    while k < n
        invariant
            k <= n,
            n == g.indices@.len(),
            g.positions == Some(*positions),
            forall|j: int| 0 <= j < k ==> (#[trigger] g.indices@[j]) < positions@.len(),
        decreases n - k,
    {
        if (g.indices[k] as usize) >= positions.len() {
            return None;
        }
        k += 1;
    }
    let mut verts: Vec<Vertex> = Vec::new();
    let mut i: usize = 0;
    while i < positions.len()
        invariant
            i <= positions@.len(),
            verts@.len() == i,
            forall|j: int| 0 <= j < i ==> verts@[j] == positions@[j],
        decreases positions@.len() - i,
    {
        verts.push(positions[i]);
        i += 1;
    }
    let m = n / 3;
    let mut tris: Vec<Triangle> = Vec::new();
    let mut t: usize = 0;
    while t < m
        invariant
            t <= m,
            m == n / 3,
            n == g.indices@.len(),
            n % 3 == 0,
            tris@.len() == t,
            forall|j: int| 0 <= j < t ==> tris@[j] == derived_triangle(g.indices@, j),
        decreases m - t,
    {
        assert(3 * t + 2 < n);
        let base = 3 * t;
        let tri = Triangle { a: g.indices[base], b: g.indices[base + 1], c: g.indices[base + 2] };
        tris.push(tri);
        t += 1;
    }
    let shape = ColliderShape { vertices: verts, triangles: tris };
    proof {
        assert(shape.vertices@ =~= positions@);
        assert(shape.triangles@ =~= derived_triangles(g.indices@));
    }
    Some(shape)
}

/// Copies a vertex array, element for element.
pub fn copy_vertices(v: &Vec<Vertex>) -> (r: Vec<Vertex>)
    ensures
        r@ == v@,
{
    let mut out: Vec<Vertex> = Vec::new();
    let mut i: usize = 0;
    while i < v.len()
        invariant
            i <= v@.len(),
            out@.len() == i,
            forall|j: int| 0 <= j < i ==> out@[j] == v@[j],
        decreases v@.len() - i,
    {
        out.push(v[i]);
        i += 1;
    }
    proof {
        assert(out@ =~= v@);
    }
    out
}

/// Copies a triangle array, element for element.
pub fn copy_triangles(v: &Vec<Triangle>) -> (r: Vec<Triangle>)
    ensures
        r@ == v@,
{
    let mut out: Vec<Triangle> = Vec::new();
    let mut i: usize = 0;
    while i < v.len()
        invariant
            i <= v@.len(),
            out@.len() == i,
            forall|j: int| 0 <= j < i ==> out@[j] == v@[j],
        decreases v@.len() - i,
    {
        out.push(v[i]);
        i += 1;
    }
    proof {
        assert(out@ =~= v@);
    }
    out
}

/// Copies a collision shape so that one derived shape can be attached to
/// several matching entities.
pub fn clone_shape(s: &ColliderShape) -> (r: ColliderShape)
    ensures
        shape_view(r) == shape_view(*s),
{
    ColliderShape { vertices: copy_vertices(&s.vertices), triangles: copy_triangles(&s.triangles) }
}

} // verus!
