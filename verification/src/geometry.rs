//! Mesh topology: triangle index lists and exact vertex recipes for the
//! shapes the viewer draws, and their uniform subdivision.
use vstd::arithmetic::power2::{
    lemma2_to64, lemma_pow2_adds, lemma_pow2_pos, lemma_pow2_strictly_increases, lemma_pow2_unfold,
    pow2,
};
use vstd::prelude::*;

verus! {

/// The plain layout facts of the GPU vertex and index buffers that meshes
/// are uploaded into.
pub struct MeshDataDescriptor {}

impl MeshDataDescriptor {
    /// Bytes per vertex: four 32-bit floats (x, y, z, w).
    pub const VERTEX_STRIDE: u64 = 16;
    /// Byte offset of the position attribute within a vertex.
    pub const ATTRIBUTE_OFFSET: u64 = 0;
    /// Shader location of the position attribute.
    pub const SHADER_LOCATION: u32 = 0;
    /// Bytes per index: indices are 32-bit unsigned integers.
    pub const INDEX_SIZE: u64 = 4;
    /// Bytes per triangle of indices.
    pub const TRIANGLE_STRIDE: u64 = 12;
}

/// Three vertex indices of one triangle. A triangle is drawn only from the
/// side where its indices run counter-clockwise.
#[derive(Clone, Copy, Debug, PartialEq, Eq, Structural)]
pub struct TriangleIdxSet(pub u32, pub u32, pub u32);

impl TriangleIdxSet {
    /// Each index multiplied by `rhs`.
    pub fn mul(self, rhs: u32) -> (r: TriangleIdxSet)
        requires
            self.0 * rhs <= u32::MAX,
            self.1 * rhs <= u32::MAX,
            self.2 * rhs <= u32::MAX,
        ensures
            r.0 == self.0 * rhs,
            r.1 == self.1 * rhs,
            r.2 == self.2 * rhs,
    {
        TriangleIdxSet(self.0 * rhs, self.1 * rhs, self.2 * rhs)
    }
}

/// Whether all three indices of `t` are below `n`.
pub open spec fn tri_in_range(t: TriangleIdxSet, n: int) -> bool {
    &&& t.0 < n
    &&& t.1 < n
    &&& t.2 < n
}

/// Whether every triangle of `tris` refers to one of `n` vertices.
pub open spec fn tris_in_range(tris: Seq<TriangleIdxSet>, n: int) -> bool {
    forall|q: int| 0 <= q < tris.len() ==> tri_in_range(#[trigger] tris[q], n)
}

/// An exact description of a vertex position (x, y, z, 1), evaluated with
/// float arithmetic by whoever draws the mesh.
#[derive(Clone, Copy, Debug, PartialEq, Eq, Structural)]
pub enum VertexRecipe {
    /// The point (x, y, z, 1).
    Exact { x: i8, y: i8, z: i8 },
    /// A point on the rim of a prism: with `a` the `step`-th of the
    /// `sides + 1` evenly spaced angles from 0 to 2π (step 0 is 0, step
    /// `sides` is 2π), the point (sin a, 1, cos a, 1) if `top`, else
    /// (sin a, -1, cos a, 1).
    PrismRim { step: u32, sides: u32, top: bool },
    /// A point of one of the two pentagonal discs of the icosahedron: with
    /// `a = 2π · index / 5`, the point (sin a, 1/√5, cos a, 1) if `upper`,
    /// else (sin(a + π/6), -1/√5, cos(a + π/6), 1).
    IcoDisc { index: u32, upper: bool },
}

/// A mesh: its vertices and its triangles, as indices into the vertices.
#[derive(Debug)]
pub struct Mesh<V> {
    vertices: Vec<V>,
    indices: Vec<TriangleIdxSet>,
}

impl<V> Mesh<V> {
    /// The vertices, in order.
    pub closed spec fn vertex_seq(&self) -> Seq<V> {
        self.vertices@
    }

    /// The triangles, in order.
    pub closed spec fn triangle_seq(&self) -> Seq<TriangleIdxSet> {
        self.indices@
    }

    /// Whether every triangle refers to an existing vertex.
    pub open spec fn indices_in_range(&self) -> bool {
        tris_in_range(self.triangle_seq(), self.vertex_seq().len() as int)
    }

    /// The vertices.
    pub fn vertices(&self) -> (v: &Vec<V>)
        ensures
            v@ == self.vertex_seq(),
    {
        &self.vertices
    }

    /// The triangles.
    pub fn indices(&self) -> (t: &Vec<TriangleIdxSet>)
        ensures
            t@ == self.triangle_seq(),
    {
        &self.indices
    }
}

/// `(x, y, z, 1)`.
pub open spec fn exact(x: int, y: int, z: int) -> VertexRecipe {
    VertexRecipe::Exact { x: x as i8, y: y as i8, z: z as i8 }
}

/// The triangle `(a, b, c)`.
pub open spec fn tri(a: int, b: int, c: int) -> TriangleIdxSet {
    TriangleIdxSet(a as u32, b as u32, c as u32)
}

/// The vertices of the single triangle.
pub open spec fn triangle_vertices() -> Seq<VertexRecipe> {
    seq![exact(-1, -1, 0), exact(1, -1, 0), exact(0, 1, 0)]
}

/// One triangle in the plane z = 0.
pub fn triangle() -> (m: Mesh<VertexRecipe>)
    ensures
        m.vertex_seq() == triangle_vertices(),
        m.triangle_seq() == seq![tri(0, 1, 2)],
        m.indices_in_range(),
{
    let mut vertices: Vec<VertexRecipe> = Vec::new();
    vertices.push(VertexRecipe::Exact { x: -1, y: -1, z: 0 });
    vertices.push(VertexRecipe::Exact { x: 1, y: -1, z: 0 });
    vertices.push(VertexRecipe::Exact { x: 0, y: 1, z: 0 });
    let mut indices: Vec<TriangleIdxSet> = Vec::new();
    indices.push(TriangleIdxSet(0, 1, 2));
    Mesh { vertices, indices }
}

/// The corners of the cube: the front face (z = -1) counter-clockwise from
/// the top left, then the back face (z = 1) in the same order.
pub open spec fn cube_vertices() -> Seq<VertexRecipe> {
    seq![
        exact(-1, 1, -1),
        exact(-1, -1, -1),
        exact(1, -1, -1),
        exact(1, 1, -1),
        exact(-1, 1, 1),
        exact(-1, -1, 1),
        exact(1, -1, 1),
        exact(1, 1, 1),
    ]
}

/// Two triangles for each face: front, back, left, right, top, bottom.
pub open spec fn cube_triangles() -> Seq<TriangleIdxSet> {
    seq![
        tri(0, 1, 2), tri(0, 2, 3),
        tri(6, 5, 4), tri(7, 6, 4),
        tri(0, 4, 1), tri(1, 4, 5),
        tri(2, 6, 3), tri(3, 6, 7),
        tri(0, 3, 4), tri(4, 3, 7),
        tri(1, 5, 2), tri(2, 5, 6),
    ]
}

/// The cube with corners at ±1.
pub fn cube() -> (m: Mesh<VertexRecipe>)
    ensures
        m.vertex_seq() == cube_vertices(),
        m.triangle_seq() == cube_triangles(),
        m.indices_in_range(),
        uses_every_vertex(m.triangle_seq(), m.vertex_seq().len() as int),
        closed_and_consistently_wound(m.triangle_seq()),
        exact_triangles_turn_like_cube(m.vertex_seq(), m.triangle_seq()),
{
    let mut vertices: Vec<VertexRecipe> = Vec::new();
    vertices.push(VertexRecipe::Exact { x: -1, y: 1, z: -1 });
    vertices.push(VertexRecipe::Exact { x: -1, y: -1, z: -1 });
    vertices.push(VertexRecipe::Exact { x: 1, y: -1, z: -1 });
    vertices.push(VertexRecipe::Exact { x: 1, y: 1, z: -1 });
    vertices.push(VertexRecipe::Exact { x: -1, y: 1, z: 1 });
    vertices.push(VertexRecipe::Exact { x: -1, y: -1, z: 1 });
    vertices.push(VertexRecipe::Exact { x: 1, y: -1, z: 1 });
    vertices.push(VertexRecipe::Exact { x: 1, y: 1, z: 1 });
    let mut indices: Vec<TriangleIdxSet> = Vec::new();
    indices.push(TriangleIdxSet(0, 1, 2));
    indices.push(TriangleIdxSet(0, 2, 3));
    indices.push(TriangleIdxSet(6, 5, 4));
    indices.push(TriangleIdxSet(7, 6, 4));
    indices.push(TriangleIdxSet(0, 4, 1));
    indices.push(TriangleIdxSet(1, 4, 5));
    indices.push(TriangleIdxSet(2, 6, 3));
    indices.push(TriangleIdxSet(3, 6, 7));
    indices.push(TriangleIdxSet(0, 3, 4));
    indices.push(TriangleIdxSet(4, 3, 7));
    indices.push(TriangleIdxSet(1, 5, 2));
    indices.push(TriangleIdxSet(2, 5, 6));
    proof {
        assert(vertices@.len() == 8);
        assert(indices@ =~= cube_triangles());
        lemma_cube_uses_every_vertex();
        lemma_cube_closed();
        lemma_cube_turns();
    }
    Mesh { vertices, indices }
}

/// The icosahedron's vertices: the top pole, the upper disc, the lower disc
/// and the bottom pole.
pub open spec fn icosahedron_vertices() -> Seq<VertexRecipe> {
    seq![
        exact(0, 1, 0),
        VertexRecipe::IcoDisc { index: 0, upper: true },
        VertexRecipe::IcoDisc { index: 1, upper: true },
        VertexRecipe::IcoDisc { index: 2, upper: true },
        VertexRecipe::IcoDisc { index: 3, upper: true },
        VertexRecipe::IcoDisc { index: 4, upper: true },
        VertexRecipe::IcoDisc { index: 0, upper: false },
        VertexRecipe::IcoDisc { index: 1, upper: false },
        VertexRecipe::IcoDisc { index: 2, upper: false },
        VertexRecipe::IcoDisc { index: 3, upper: false },
        VertexRecipe::IcoDisc { index: 4, upper: false },
        exact(0, -1, 0),
    ]
}

/// The twenty faces: the top cap, the band between the discs, the bottom cap.
pub open spec fn icosahedron_triangles() -> Seq<TriangleIdxSet> {
    seq![
        tri(0, 1, 2), tri(0, 2, 3), tri(0, 3, 4), tri(0, 4, 5), tri(0, 5, 1),
        tri(1, 6, 2), tri(6, 7, 2), tri(2, 7, 3), tri(7, 8, 3), tri(3, 8, 4),
        tri(8, 9, 4), tri(4, 9, 5), tri(9, 10, 5), tri(5, 10, 1), tri(10, 6, 1),
        tri(11, 7, 6), tri(11, 8, 7), tri(11, 9, 8), tri(11, 10, 9), tri(11, 6, 10),
    ]
}

/// The icosahedron that spheres are subdivided from.
pub fn icosahedron() -> (m: Mesh<VertexRecipe>)
    ensures
        m.vertex_seq() == icosahedron_vertices(),
        m.triangle_seq() == icosahedron_triangles(),
        m.indices_in_range(),
        uses_every_vertex(m.triangle_seq(), m.vertex_seq().len() as int),
        closed_and_consistently_wound(m.triangle_seq()),
        icosahedron_faces_run_round(m.vertex_seq(), m.triangle_seq()),
{
    let mut vertices: Vec<VertexRecipe> = Vec::with_capacity(12);
    vertices.push(VertexRecipe::Exact { x: 0, y: 1, z: 0 });
    let mut i: u32 = 0;
    while i < 5
        invariant
            i <= 5,
            vertices@.len() == 1 + i,
            vertices@[0] == exact(0, 1, 0),
            forall|k: int|
                0 <= k < i ==> #[trigger] vertices@[1 + k] == (VertexRecipe::IcoDisc {
                    index: k as u32,
                    upper: true,
                }),
        decreases 5 - i,
    {
        vertices.push(VertexRecipe::IcoDisc { index: i, upper: true });
        i = i + 1;
    }
    let mut i: u32 = 0;
    while i < 5
        invariant
            i <= 5,
            vertices@.len() == 6 + i,
            vertices@[0] == exact(0, 1, 0),
            forall|k: int|
                0 <= k < 5 ==> #[trigger] vertices@[1 + k] == (VertexRecipe::IcoDisc {
                    index: k as u32,
                    upper: true,
                }),
            forall|k: int|
                0 <= k < i ==> #[trigger] vertices@[6 + k] == (VertexRecipe::IcoDisc {
                    index: k as u32,
                    upper: false,
                }),
        decreases 5 - i,
    {
        vertices.push(VertexRecipe::IcoDisc { index: i, upper: false });
        i = i + 1;
    }
    vertices.push(VertexRecipe::Exact { x: 0, y: -1, z: 0 });
    assert(vertices@ =~= icosahedron_vertices()) by {
        assert(vertices@[1int + 0] == VertexRecipe::IcoDisc { index: 0, upper: true });
        assert(vertices@[1int + 1] == VertexRecipe::IcoDisc { index: 1, upper: true });
        assert(vertices@[1int + 2] == VertexRecipe::IcoDisc { index: 2, upper: true });
        assert(vertices@[1int + 3] == VertexRecipe::IcoDisc { index: 3, upper: true });
        assert(vertices@[1int + 4] == VertexRecipe::IcoDisc { index: 4, upper: true });
        assert(vertices@[6int + 0] == VertexRecipe::IcoDisc { index: 0, upper: false });
        assert(vertices@[6int + 1] == VertexRecipe::IcoDisc { index: 1, upper: false });
        assert(vertices@[6int + 2] == VertexRecipe::IcoDisc { index: 2, upper: false });
        assert(vertices@[6int + 3] == VertexRecipe::IcoDisc { index: 3, upper: false });
        assert(vertices@[6int + 4] == VertexRecipe::IcoDisc { index: 4, upper: false });
    }
    let mut indices: Vec<TriangleIdxSet> = Vec::new();
    indices.push(TriangleIdxSet(0, 1, 2));
    indices.push(TriangleIdxSet(0, 2, 3));
    indices.push(TriangleIdxSet(0, 3, 4));
    indices.push(TriangleIdxSet(0, 4, 5));
    indices.push(TriangleIdxSet(0, 5, 1));
    indices.push(TriangleIdxSet(1, 6, 2));
    indices.push(TriangleIdxSet(6, 7, 2));
    indices.push(TriangleIdxSet(2, 7, 3));
    indices.push(TriangleIdxSet(7, 8, 3));
    indices.push(TriangleIdxSet(3, 8, 4));
    indices.push(TriangleIdxSet(8, 9, 4));
    indices.push(TriangleIdxSet(4, 9, 5));
    indices.push(TriangleIdxSet(9, 10, 5));
    indices.push(TriangleIdxSet(5, 10, 1));
    indices.push(TriangleIdxSet(10, 6, 1));
    indices.push(TriangleIdxSet(11, 7, 6));
    indices.push(TriangleIdxSet(11, 8, 7));
    indices.push(TriangleIdxSet(11, 9, 8));
    indices.push(TriangleIdxSet(11, 10, 9));
    indices.push(TriangleIdxSet(11, 6, 10));
    proof {
        assert(vertices@.len() == 12);
        assert(indices@ =~= icosahedron_triangles());
        lemma_icosahedron_uses_every_vertex();
        lemma_icosahedron_closed();
        lemma_icosahedron_faces_run_round();
    }
    Mesh { vertices, indices }
}

/// The cube triangle that the directed edge from `a` to `b` belongs
/// to, if any does.
spec fn cube_edge_owner(a: int, b: int) -> int {
    if a == 0 {
        if b == 1 {
            0
        } else if b == 2 {
            1
        } else if b == 3 {
            8
        } else if b == 4 {
            4
        } else {
            -1
        }
    } else if a == 1 {
        if b == 0 {
            4
        } else if b == 2 {
            0
        } else if b == 4 {
            5
        } else if b == 5 {
            10
        } else {
            -1
        }
    } else if a == 2 {
        if b == 0 {
            0
        } else if b == 1 {
            10
        } else if b == 3 {
            1
        } else if b == 5 {
            11
        } else if b == 6 {
            6
        } else {
            -1
        }
    } else if a == 3 {
        if b == 0 {
            1
        } else if b == 2 {
            6
        } else if b == 4 {
            8
        } else if b == 6 {
            7
        } else if b == 7 {
            9
        } else {
            -1
        }
    } else if a == 4 {
        if b == 0 {
            8
        } else if b == 1 {
            4
        } else if b == 3 {
            9
        } else if b == 5 {
            5
        } else if b == 6 {
            2
        } else if b == 7 {
            3
        } else {
            -1
        }
    } else if a == 5 {
        if b == 1 {
            5
        } else if b == 2 {
            10
        } else if b == 4 {
            2
        } else if b == 6 {
            11
        } else {
            -1
        }
    } else if a == 6 {
        if b == 2 {
            11
        } else if b == 3 {
            6
        } else if b == 4 {
            3
        } else if b == 5 {
            2
        } else if b == 7 {
            7
        } else {
            -1
        }
    } else if a == 7 {
        if b == 3 {
            7
        } else if b == 4 {
            9
        } else if b == 6 {
            3
        } else {
            -1
        }
    } else {
        -1
    }
}

/// The cube's triangles form a closed surface wound one way throughout.
proof fn lemma_cube_closed()
    ensures
        closed_and_consistently_wound(cube_triangles()),
{
    let t = cube_triangles();
    assert forall|q: int, a: int, b: int| 0 <= q < 12 && #[trigger] has_edge(t[q], a, b) implies {
        &&& cube_edge_owner(a, b) == q
        &&& 0 <= cube_edge_owner(b, a) < 12
        &&& has_edge(t[cube_edge_owner(b, a)], b, a)
    } by {
        if q == 0 {
            assert(t[0] == tri(0, 1, 2));
            assert(t[1] == tri(0, 2, 3));
            assert(t[4] == tri(0, 4, 1));
            assert(t[10] == tri(1, 5, 2));
        } else if q == 1 {
            assert(t[1] == tri(0, 2, 3));
            assert(t[0] == tri(0, 1, 2));
            assert(t[6] == tri(2, 6, 3));
            assert(t[8] == tri(0, 3, 4));
        } else if q == 2 {
            assert(t[2] == tri(6, 5, 4));
            assert(t[3] == tri(7, 6, 4));
            assert(t[5] == tri(1, 4, 5));
            assert(t[11] == tri(2, 5, 6));
        } else if q == 3 {
            assert(t[3] == tri(7, 6, 4));
            assert(t[2] == tri(6, 5, 4));
            assert(t[7] == tri(3, 6, 7));
            assert(t[9] == tri(4, 3, 7));
        } else if q == 4 {
            assert(t[4] == tri(0, 4, 1));
            assert(t[0] == tri(0, 1, 2));
            assert(t[5] == tri(1, 4, 5));
            assert(t[8] == tri(0, 3, 4));
        } else if q == 5 {
            assert(t[5] == tri(1, 4, 5));
            assert(t[2] == tri(6, 5, 4));
            assert(t[4] == tri(0, 4, 1));
            assert(t[10] == tri(1, 5, 2));
        } else if q == 6 {
            assert(t[6] == tri(2, 6, 3));
            assert(t[1] == tri(0, 2, 3));
            assert(t[7] == tri(3, 6, 7));
            assert(t[11] == tri(2, 5, 6));
        } else if q == 7 {
            assert(t[7] == tri(3, 6, 7));
            assert(t[3] == tri(7, 6, 4));
            assert(t[6] == tri(2, 6, 3));
            assert(t[9] == tri(4, 3, 7));
        } else if q == 8 {
            assert(t[8] == tri(0, 3, 4));
            assert(t[1] == tri(0, 2, 3));
            assert(t[4] == tri(0, 4, 1));
            assert(t[9] == tri(4, 3, 7));
        } else if q == 9 {
            assert(t[9] == tri(4, 3, 7));
            assert(t[3] == tri(7, 6, 4));
            assert(t[7] == tri(3, 6, 7));
            assert(t[8] == tri(0, 3, 4));
        } else if q == 10 {
            assert(t[10] == tri(1, 5, 2));
            assert(t[0] == tri(0, 1, 2));
            assert(t[5] == tri(1, 4, 5));
            assert(t[11] == tri(2, 5, 6));
        } else {
            assert(t[11] == tri(2, 5, 6));
            assert(t[2] == tri(6, 5, 4));
            assert(t[6] == tri(2, 6, 3));
            assert(t[10] == tri(1, 5, 2));
        }
    }
    assert forall|q: int| 0 <= q < t.len() implies {
        &&& (#[trigger] t[q]).0 != t[q].1
        &&& t[q].1 != t[q].2
        &&& t[q].2 != t[q].0
    } by {
        assert(has_edge(t[q], t[q].0 as int, t[q].1 as int));
    }
    assert forall|q1: int, q2: int, a: int, b: int|
        0 <= q1 < t.len() && 0 <= q2 < t.len() && #[trigger] has_edge(t[q1], a, b)
            && #[trigger] has_edge(t[q2], a, b) implies q1 == q2 by {
    }
    assert forall|q: int, a: int, b: int|
        0 <= q < t.len() && #[trigger] has_edge(t[q], a, b) implies exists|p: int|
            0 <= p < t.len() && #[trigger] has_edge(t[p], b, a) by {
        let p = cube_edge_owner(b, a);
        assert(has_edge(t[p], b, a));
    }
}

/// The icosahedron triangle that the directed edge from `a` to `b` belongs
/// to, if any does.
spec fn icosahedron_edge_owner(a: int, b: int) -> int {
    if a == 0 {
        if b == 1 {
            0
        } else if b == 2 {
            1
        } else if b == 3 {
            2
        } else if b == 4 {
            3
        } else if b == 5 {
            4
        } else {
            -1
        }
    } else if a == 1 {
        if b == 0 {
            4
        } else if b == 2 {
            0
        } else if b == 5 {
            13
        } else if b == 6 {
            5
        } else if b == 10 {
            14
        } else {
            -1
        }
    } else if a == 2 {
        if b == 0 {
            0
        } else if b == 1 {
            5
        } else if b == 3 {
            1
        } else if b == 6 {
            6
        } else if b == 7 {
            7
        } else {
            -1
        }
    } else if a == 3 {
        if b == 0 {
            1
        } else if b == 2 {
            7
        } else if b == 4 {
            2
        } else if b == 7 {
            8
        } else if b == 8 {
            9
        } else {
            -1
        }
    } else if a == 4 {
        if b == 0 {
            2
        } else if b == 3 {
            9
        } else if b == 5 {
            3
        } else if b == 8 {
            10
        } else if b == 9 {
            11
        } else {
            -1
        }
    } else if a == 5 {
        if b == 0 {
            3
        } else if b == 1 {
            4
        } else if b == 4 {
            11
        } else if b == 9 {
            12
        } else if b == 10 {
            13
        } else {
            -1
        }
    } else if a == 6 {
        if b == 1 {
            14
        } else if b == 2 {
            5
        } else if b == 7 {
            6
        } else if b == 10 {
            19
        } else if b == 11 {
            15
        } else {
            -1
        }
    } else if a == 7 {
        if b == 2 {
            6
        } else if b == 3 {
            7
        } else if b == 6 {
            15
        } else if b == 8 {
            8
        } else if b == 11 {
            16
        } else {
            -1
        }
    } else if a == 8 {
        if b == 3 {
            8
        } else if b == 4 {
            9
        } else if b == 7 {
            16
        } else if b == 9 {
            10
        } else if b == 11 {
            17
        } else {
            -1
        }
    } else if a == 9 {
        if b == 4 {
            10
        } else if b == 5 {
            11
        } else if b == 8 {
            17
        } else if b == 10 {
            12
        } else if b == 11 {
            18
        } else {
            -1
        }
    } else if a == 10 {
        if b == 1 {
            13
        } else if b == 5 {
            12
        } else if b == 6 {
            14
        } else if b == 9 {
            18
        } else if b == 11 {
            19
        } else {
            -1
        }
    } else if a == 11 {
        if b == 6 {
            19
        } else if b == 7 {
            15
        } else if b == 8 {
            16
        } else if b == 9 {
            17
        } else if b == 10 {
            18
        } else {
            -1
        }
    } else {
        -1
    }
}

/// The icosahedron's triangles form a closed surface wound one way throughout.
proof fn lemma_icosahedron_closed()
    ensures
        closed_and_consistently_wound(icosahedron_triangles()),
{
    let t = icosahedron_triangles();
    assert forall|q: int, a: int, b: int| 0 <= q < 20 && #[trigger] has_edge(t[q], a, b) implies {
        &&& icosahedron_edge_owner(a, b) == q
        &&& 0 <= icosahedron_edge_owner(b, a) < 20
        &&& has_edge(t[icosahedron_edge_owner(b, a)], b, a)
    } by {
        if q == 0 {
            assert(t[0] == tri(0, 1, 2));
            assert(t[1] == tri(0, 2, 3));
            assert(t[4] == tri(0, 5, 1));
            assert(t[5] == tri(1, 6, 2));
        } else if q == 1 {
            assert(t[1] == tri(0, 2, 3));
            assert(t[0] == tri(0, 1, 2));
            assert(t[2] == tri(0, 3, 4));
            assert(t[7] == tri(2, 7, 3));
        } else if q == 2 {
            assert(t[2] == tri(0, 3, 4));
            assert(t[1] == tri(0, 2, 3));
            assert(t[3] == tri(0, 4, 5));
            assert(t[9] == tri(3, 8, 4));
        } else if q == 3 {
            assert(t[3] == tri(0, 4, 5));
            assert(t[2] == tri(0, 3, 4));
            assert(t[4] == tri(0, 5, 1));
            assert(t[11] == tri(4, 9, 5));
        } else if q == 4 {
            assert(t[4] == tri(0, 5, 1));
            assert(t[0] == tri(0, 1, 2));
            assert(t[3] == tri(0, 4, 5));
            assert(t[13] == tri(5, 10, 1));
        } else if q == 5 {
            assert(t[5] == tri(1, 6, 2));
            assert(t[0] == tri(0, 1, 2));
            assert(t[6] == tri(6, 7, 2));
            assert(t[14] == tri(10, 6, 1));
        } else if q == 6 {
            assert(t[6] == tri(6, 7, 2));
            assert(t[5] == tri(1, 6, 2));
            assert(t[7] == tri(2, 7, 3));
            assert(t[15] == tri(11, 7, 6));
        } else if q == 7 {
            assert(t[7] == tri(2, 7, 3));
            assert(t[1] == tri(0, 2, 3));
            assert(t[6] == tri(6, 7, 2));
            assert(t[8] == tri(7, 8, 3));
        } else if q == 8 {
            assert(t[8] == tri(7, 8, 3));
            assert(t[7] == tri(2, 7, 3));
            assert(t[9] == tri(3, 8, 4));
            assert(t[16] == tri(11, 8, 7));
        } else if q == 9 {
            assert(t[9] == tri(3, 8, 4));
            assert(t[2] == tri(0, 3, 4));
            assert(t[8] == tri(7, 8, 3));
            assert(t[10] == tri(8, 9, 4));
        } else if q == 10 {
            assert(t[10] == tri(8, 9, 4));
            assert(t[9] == tri(3, 8, 4));
            assert(t[11] == tri(4, 9, 5));
            assert(t[17] == tri(11, 9, 8));
        } else if q == 11 {
            assert(t[11] == tri(4, 9, 5));
            assert(t[3] == tri(0, 4, 5));
            assert(t[10] == tri(8, 9, 4));
            assert(t[12] == tri(9, 10, 5));
        } else if q == 12 {
            assert(t[12] == tri(9, 10, 5));
            assert(t[11] == tri(4, 9, 5));
            assert(t[13] == tri(5, 10, 1));
            assert(t[18] == tri(11, 10, 9));
        } else if q == 13 {
            assert(t[13] == tri(5, 10, 1));
            assert(t[4] == tri(0, 5, 1));
            assert(t[12] == tri(9, 10, 5));
            assert(t[14] == tri(10, 6, 1));
        } else if q == 14 {
            assert(t[14] == tri(10, 6, 1));
            assert(t[5] == tri(1, 6, 2));
            assert(t[13] == tri(5, 10, 1));
            assert(t[19] == tri(11, 6, 10));
        } else if q == 15 {
            assert(t[15] == tri(11, 7, 6));
            assert(t[6] == tri(6, 7, 2));
            assert(t[16] == tri(11, 8, 7));
            assert(t[19] == tri(11, 6, 10));
        } else if q == 16 {
            assert(t[16] == tri(11, 8, 7));
            assert(t[8] == tri(7, 8, 3));
            assert(t[15] == tri(11, 7, 6));
            assert(t[17] == tri(11, 9, 8));
        } else if q == 17 {
            assert(t[17] == tri(11, 9, 8));
            assert(t[10] == tri(8, 9, 4));
            assert(t[16] == tri(11, 8, 7));
            assert(t[18] == tri(11, 10, 9));
        } else if q == 18 {
            assert(t[18] == tri(11, 10, 9));
            assert(t[12] == tri(9, 10, 5));
            assert(t[17] == tri(11, 9, 8));
            assert(t[19] == tri(11, 6, 10));
        } else {
            assert(t[19] == tri(11, 6, 10));
            assert(t[14] == tri(10, 6, 1));
            assert(t[15] == tri(11, 7, 6));
            assert(t[18] == tri(11, 10, 9));
        }
    }
    assert forall|q: int| 0 <= q < t.len() implies {
        &&& (#[trigger] t[q]).0 != t[q].1
        &&& t[q].1 != t[q].2
        &&& t[q].2 != t[q].0
    } by {
        assert(has_edge(t[q], t[q].0 as int, t[q].1 as int));
    }
    assert forall|q1: int, q2: int, a: int, b: int|
        0 <= q1 < t.len() && 0 <= q2 < t.len() && #[trigger] has_edge(t[q1], a, b)
            && #[trigger] has_edge(t[q2], a, b) implies q1 == q2 by {
    }
    assert forall|q: int, a: int, b: int|
        0 <= q < t.len() && #[trigger] has_edge(t[q], a, b) implies exists|p: int|
            0 <= p < t.len() && #[trigger] has_edge(t[p], b, a) by {
        let p = icosahedron_edge_owner(b, a);
        assert(has_edge(t[p], b, a));
    }
}

/// Each of the cube's eight corners is a corner of one of its triangles.
proof fn lemma_cube_uses_every_vertex()
    ensures
        uses_every_vertex(cube_triangles(), 8),
{
    let t = cube_triangles();
    assert forall|v: int| 0 <= v < 8 implies #[trigger] vertex_used(t, v) by {
        if v <= 2 {
            assert(tri_uses(t[0], v));
        } else if v == 3 {
            assert(tri_uses(t[1], v));
        } else if v <= 6 {
            assert(tri_uses(t[2], v));
        } else {
            assert(tri_uses(t[3], v));
        }
    }
}

/// Whether the triangle `(a, b, c)` is `(x, y, z)`, up to which corner
/// it starts from: the same corners, turning the same way.
pub open spec fn turns_as(
    a: VertexRecipe,
    b: VertexRecipe,
    c: VertexRecipe,
    x: VertexRecipe,
    y: VertexRecipe,
    z: VertexRecipe,
) -> bool {
    ||| (a, b, c) == (x, y, z)
    ||| (a, b, c) == (y, z, x)
    ||| (a, b, c) == (z, x, y)
}

/// Point `k` of the icosahedron's upper disc, at angle `2πk / 5`.
pub open spec fn ico_upper(k: int) -> VertexRecipe {
    VertexRecipe::IcoDisc { index: k as u32, upper: true }
}

/// Point `k` of the icosahedron's lower disc, at angle `2πk / 5 + π / 6`:
/// between upper points `k` and `k + 1`.
pub open spec fn ico_lower(k: int) -> VertexRecipe {
    VertexRecipe::IcoDisc { index: k as u32, upper: false }
}

/// Whether the face `(a, b, c)` is one of the four faces at column `k` of
/// the icosahedron, `n` being the next column round: the top cap's
/// `(top, upper k, upper n)`, the band's `(upper k, lower k, upper n)` and
/// `(lower k, lower n, upper n)`, or the bottom cap's
/// `(bottom, lower n, lower k)`. Each joins neighbouring points and runs
/// round the y axis the way the top cap does, towards increasing angle
/// on its upper edge.
pub open spec fn ico_face_at(a: VertexRecipe, b: VertexRecipe, c: VertexRecipe, k: int) -> bool {
    let n = (k + 1) % 5;
    ||| turns_as(a, b, c, exact(0, 1, 0), ico_upper(k), ico_upper(n))
    ||| turns_as(a, b, c, ico_upper(k), ico_lower(k), ico_upper(n))
    ||| turns_as(a, b, c, ico_lower(k), ico_lower(n), ico_upper(n))
    ||| turns_as(a, b, c, exact(0, -1, 0), ico_lower(n), ico_lower(k))
}

/// Whether triangle `q` of `tris`, its corners taken from `verts`, is a
/// face of the icosahedron at some column.
pub open spec fn icosahedron_face(verts: Seq<VertexRecipe>, tris: Seq<TriangleIdxSet>, q: int) -> bool {
    exists|k: int|
        0 <= k < 5 && #[trigger] ico_face_at(
            verts[tris[q].0 as int],
            verts[tris[q].1 as int],
            verts[tris[q].2 as int],
            k,
        )
}

/// Whether every triangle of `tris`, its corners taken from `verts`, is a
/// face of the icosahedron at some column, turning the icosahedron's way.
pub open spec fn icosahedron_faces_run_round(verts: Seq<VertexRecipe>, tris: Seq<TriangleIdxSet>) -> bool {
    forall|q: int| 0 <= q < tris.len() ==> #[trigger] icosahedron_face(verts, tris, q)
}

/// Every face of the icosahedron joins neighbouring points of its poles and
/// discs, and all of them run round the y axis the same way: the top cap's
/// faces go from the pole to upper point `k` and on to upper point `k + 1`,
/// towards increasing angle, and every other face turns to match.
#[verifier::spinoff_prover]
pub proof fn lemma_icosahedron_faces_run_round()
    ensures
        icosahedron_faces_run_round(icosahedron_vertices(), icosahedron_triangles()),
{
    let vs = icosahedron_vertices();
    let t = icosahedron_triangles();
    assert(vs[0] == exact(0, 1, 0));
    assert(vs[1] == ico_upper(0));
    assert(vs[2] == ico_upper(1));
    assert(vs[3] == ico_upper(2));
    assert(vs[4] == ico_upper(3));
    assert(vs[5] == ico_upper(4));
    assert(vs[6] == ico_lower(0));
    assert(vs[7] == ico_lower(1));
    assert(vs[8] == ico_lower(2));
    assert(vs[9] == ico_lower(3));
    assert(vs[10] == ico_lower(4));
    assert(vs[11] == exact(0, -1, 0));
    assert forall|q: int| 0 <= q < t.len() implies #[trigger] icosahedron_face(vs, t, q) by {
        if q == 0 {
            assert(t[0] == tri(0, 1, 2));
            assert(ico_face_at(vs[t[q].0 as int], vs[t[q].1 as int], vs[t[q].2 as int], 0));
        } else if q == 1 {
            assert(t[1] == tri(0, 2, 3));
            assert(ico_face_at(vs[t[q].0 as int], vs[t[q].1 as int], vs[t[q].2 as int], 1));
        } else if q == 2 {
            assert(t[2] == tri(0, 3, 4));
            assert(ico_face_at(vs[t[q].0 as int], vs[t[q].1 as int], vs[t[q].2 as int], 2));
        } else if q == 3 {
            assert(t[3] == tri(0, 4, 5));
            assert(ico_face_at(vs[t[q].0 as int], vs[t[q].1 as int], vs[t[q].2 as int], 3));
        } else if q == 4 {
            assert(t[4] == tri(0, 5, 1));
            assert(ico_face_at(vs[t[q].0 as int], vs[t[q].1 as int], vs[t[q].2 as int], 4));
        } else if q == 5 {
            assert(t[5] == tri(1, 6, 2));
            assert(ico_face_at(vs[t[q].0 as int], vs[t[q].1 as int], vs[t[q].2 as int], 0));
        } else if q == 6 {
            assert(t[6] == tri(6, 7, 2));
            assert(ico_face_at(vs[t[q].0 as int], vs[t[q].1 as int], vs[t[q].2 as int], 0));
        } else if q == 7 {
            assert(t[7] == tri(2, 7, 3));
            assert(ico_face_at(vs[t[q].0 as int], vs[t[q].1 as int], vs[t[q].2 as int], 1));
        } else if q == 8 {
            assert(t[8] == tri(7, 8, 3));
            assert(ico_face_at(vs[t[q].0 as int], vs[t[q].1 as int], vs[t[q].2 as int], 1));
        } else if q == 9 {
            assert(t[9] == tri(3, 8, 4));
            assert(ico_face_at(vs[t[q].0 as int], vs[t[q].1 as int], vs[t[q].2 as int], 2));
        } else if q == 10 {
            assert(t[10] == tri(8, 9, 4));
            assert(ico_face_at(vs[t[q].0 as int], vs[t[q].1 as int], vs[t[q].2 as int], 2));
        } else if q == 11 {
            assert(t[11] == tri(4, 9, 5));
            assert(ico_face_at(vs[t[q].0 as int], vs[t[q].1 as int], vs[t[q].2 as int], 3));
        } else if q == 12 {
            assert(t[12] == tri(9, 10, 5));
            assert(ico_face_at(vs[t[q].0 as int], vs[t[q].1 as int], vs[t[q].2 as int], 3));
        } else if q == 13 {
            assert(t[13] == tri(5, 10, 1));
            assert(ico_face_at(vs[t[q].0 as int], vs[t[q].1 as int], vs[t[q].2 as int], 4));
        } else if q == 14 {
            assert(t[14] == tri(10, 6, 1));
            assert(ico_face_at(vs[t[q].0 as int], vs[t[q].1 as int], vs[t[q].2 as int], 4));
        } else if q == 15 {
            assert(t[15] == tri(11, 7, 6));
            assert(ico_face_at(vs[t[q].0 as int], vs[t[q].1 as int], vs[t[q].2 as int], 0));
        } else if q == 16 {
            assert(t[16] == tri(11, 8, 7));
            assert(ico_face_at(vs[t[q].0 as int], vs[t[q].1 as int], vs[t[q].2 as int], 1));
        } else if q == 17 {
            assert(t[17] == tri(11, 9, 8));
            assert(ico_face_at(vs[t[q].0 as int], vs[t[q].1 as int], vs[t[q].2 as int], 2));
        } else if q == 18 {
            assert(t[18] == tri(11, 10, 9));
            assert(ico_face_at(vs[t[q].0 as int], vs[t[q].1 as int], vs[t[q].2 as int], 3));
        } else {
            assert(t[19] == tri(11, 6, 10));
            assert(ico_face_at(vs[t[q].0 as int], vs[t[q].1 as int], vs[t[q].2 as int], 4));
        }
    }
}

/// Rim point `k` of a prism with `s` sides: the top one if `top`, else the
/// bottom one, at the `(k + 1)`-th of the evenly spaced angles.
pub open spec fn rim_point(s: int, k: int, top: bool) -> VertexRecipe {
    VertexRecipe::PrismRim { step: (k + 1) as u32, sides: s as u32, top }
}

/// Whether the face `(a, b, c)` is one of the four faces at column `k` of a
/// prism with `s` sides, `n = (k + 1) % s` being the next column round: the
/// side's `(top k, bottom k, top n)` and `(bottom k, bottom n, top n)`, the
/// top cap's `(top centre, top k, top n)`, or the bottom cap's
/// `(bottom centre, bottom n, bottom k)`. Each side triangle has corners on
/// both caps, and every face turns the same way round the prism.
pub open spec fn prism_face_at(
    s: int,
    a: VertexRecipe,
    b: VertexRecipe,
    c: VertexRecipe,
    k: int,
) -> bool {
    let n = (k + 1) % s;
    ||| turns_as(a, b, c, rim_point(s, k, true), rim_point(s, k, false), rim_point(s, n, true))
    ||| turns_as(a, b, c, rim_point(s, k, false), rim_point(s, n, false), rim_point(s, n, true))
    ||| turns_as(a, b, c, exact(0, 1, 0), rim_point(s, k, true), rim_point(s, n, true))
    ||| turns_as(a, b, c, exact(0, -1, 0), rim_point(s, n, false), rim_point(s, k, false))
}

/// Whether triangle `q` of `tris`, its corners taken from `verts`, is a
/// face of the prism with `s` sides at some column.
pub open spec fn prism_face(s: int, verts: Seq<VertexRecipe>, tris: Seq<TriangleIdxSet>, q: int) -> bool {
    exists|k: int|
        0 <= k < s && #[trigger] prism_face_at(
            s,
            verts[tris[q].0 as int],
            verts[tris[q].1 as int],
            verts[tris[q].2 as int],
            k,
        )
}

/// Whether every triangle of `tris`, its corners taken from `verts`, is a
/// face of the prism with `s` sides at some column.
pub open spec fn prism_faces_run_round(
    s: int,
    verts: Seq<VertexRecipe>,
    tris: Seq<TriangleIdxSet>,
) -> bool {
    forall|q: int| 0 <= q < tris.len() ==> #[trigger] prism_face(s, verts, tris, q)
}

/// Every face of a prism with `s` sides joins neighbouring columns: each
/// side triangle has two corners on one cap and one on the other, at the
/// same or the next angle, each cap slice joins its centre to two
/// neighbouring rim points, and all of them turn the same way round the
/// prism.
pub proof fn lemma_prism_faces_run_round(s: int)
    requires
        s >= 3,
        2 * s + 2 <= u32::MAX,
    ensures
        prism_faces_run_round(s, prism_vertices(s), prism_triangles(s)),
{
    let vs = prism_vertices(s);
    let ts = prism_triangles(s);
    assert forall|q: int| 0 <= q < ts.len() implies #[trigger] prism_face(s, vs, ts, q) by {
        let k = if q < 2 * s { q / 2 } else if q < 3 * s { q - 2 * s } else { q - 3 * s };
        lemma_prism_tri_at(s, k);
        let nk = rim_next(s, k);
        if k + 1 < s {
            vstd::arithmetic::div_mod::lemma_small_mod((k + 1) as nat, s as nat);
        } else {
            vstd::arithmetic::div_mod::lemma_mod_self_0(s);
        }
        assert(nk == (k + 1) % s);
        assert(vs[2 * k] == rim_point(s, k, true));
        assert(vs[2 * k + 1] == rim_point(s, k, false));
        assert(vs[2 * nk] == rim_point(s, nk, true));
        assert(vs[2 * nk + 1] == rim_point(s, nk, false));
        assert(vs[2 * s] == exact(0, 1, 0));
        assert(vs[2 * s + 1] == exact(0, -1, 0));
        assert(ts[q] == prism_tri(s, q));
        if q < 2 * s && q % 2 == 0 {
            assert(q == 2 * k);
        } else if q < 2 * s {
            assert(q == 2 * k + 1);
        }
        assert(prism_face_at(s, vs[ts[q].0 as int], vs[ts[q].1 as int], vs[ts[q].2 as int], k));
    }
}

/// The number of sides a prism is built with: at least three.
pub open spec fn clamped_sides(sides: u32) -> int {
    if sides < 3 { 3 } else { sides as int }
}

/// Rim vertex `j` of a prism with `s` sides: top and bottom alternate,
/// going round from the first angle after 0 to 2π.
pub open spec fn prism_rim(s: int, j: int) -> VertexRecipe {
    VertexRecipe::PrismRim { step: (j / 2 + 1) as u32, sides: s as u32, top: j % 2 == 0 }
}

/// The prism's vertices: the rim, then the centres of the top and the bottom.
pub open spec fn prism_vertices(s: int) -> Seq<VertexRecipe> {
    Seq::new((2 * s) as nat, |j: int| prism_rim(s, j)) + seq![exact(0, 1, 0), exact(0, -1, 0)]
}

/// The rim column after column `k` of a prism with `s` sides, going round.
pub open spec fn rim_next(s: int, k: int) -> int {
    if k + 1 < s { k + 1 } else { 0 }
}

/// The rim column before column `k` of a prism with `s` sides.
pub open spec fn rim_prev(s: int, k: int) -> int {
    if k == 0 { s - 1 } else { k - 1 }
}

/// Triangle `q` of a prism with `s` sides. Column `k` of the rim is the top
/// vertex `2k` and the bottom vertex `2k + 1`; `2s` and `2s + 1` are the
/// centres of the top and the bottom. The first `2s` triangles are two for
/// each side, between column `k` and the next; then come the `s` slices of
/// the top cap and the `s` slices of the bottom cap, all wound alike.
pub open spec fn prism_tri(s: int, q: int) -> TriangleIdxSet {
    if q < 2 * s {
        let k = q / 2;
        let nk = rim_next(s, k);
        if q % 2 == 0 {
            tri(2 * k, 2 * k + 1, 2 * nk)
        } else {
            tri(2 * k + 1, 2 * nk + 1, 2 * nk)
        }
    } else if q < 3 * s {
        let k = q - 2 * s;
        tri(2 * s, 2 * k, 2 * rim_next(s, k))
    } else {
        let k = q - 3 * s;
        tri(2 * s + 1, 2 * rim_next(s, k) + 1, 2 * k + 1)
    }
}

/// All `4s` triangles of a prism with `s` sides.
pub open spec fn prism_triangles(s: int) -> Seq<TriangleIdxSet> {
    Seq::new((4 * s) as nat, |q: int| prism_tri(s, q))
}

/// Whether triangle `t` has the directed edge from `a` to `b`, going round
/// its indices in order.
pub open spec fn has_edge(t: TriangleIdxSet, a: int, b: int) -> bool {
    ||| t.0 == a && t.1 == b
    ||| t.1 == a && t.2 == b
    ||| t.2 == a && t.0 == b
}

/// Whether the triangles form a closed surface wound one way throughout:
/// no triangle repeats an index, no directed edge belongs to two triangles,
/// and every directed edge also occurs the other way round.
pub open spec fn closed_and_consistently_wound(tris: Seq<TriangleIdxSet>) -> bool {
    &&& forall|q: int|
        0 <= q < tris.len() ==> {
            &&& (#[trigger] tris[q]).0 != tris[q].1
            &&& tris[q].1 != tris[q].2
            &&& tris[q].2 != tris[q].0
        }
    &&& forall|q1: int, q2: int, a: int, b: int|
        0 <= q1 < tris.len() && 0 <= q2 < tris.len() && #[trigger] has_edge(tris[q1], a, b)
            && #[trigger] has_edge(tris[q2], a, b) ==> q1 == q2
    &&& forall|q: int, a: int, b: int|
        0 <= q < tris.len() && #[trigger] has_edge(tris[q], a, b) ==> exists|p: int|
            0 <= p < tris.len() && #[trigger] has_edge(tris[p], b, a)
}

/// A pie-sliced prism around the y axis whose cross-section is a regular
/// polygon with `sides` sides (at least three), from y = -1 to y = 1: two
/// triangles for each side and a fan of one slice per side on each cap.
///
/// The vertices and the `4 · sides` triangles are those of `prism_vertices`
/// and `prism_triangles`, which close up and are all wound alike.
/// `2 · sides + 2` vertices must be numbered within 32 bits, the width of
/// the mesh's indices.
pub fn polygonal_prism(sides: u32) -> (m: Mesh<VertexRecipe>)
    requires
        2 * sides + 2 <= u32::MAX,
    ensures
        m.vertex_seq() == prism_vertices(clamped_sides(sides)),
        m.triangle_seq() == prism_triangles(clamped_sides(sides)),
        m.vertex_seq().len() == 2 * clamped_sides(sides) + 2,
        m.triangle_seq().len() == 4 * clamped_sides(sides),
        m.indices_in_range(),
        uses_every_vertex(m.triangle_seq(), m.vertex_seq().len() as int),
        closed_and_consistently_wound(m.triangle_seq()),
        prism_faces_run_round(clamped_sides(sides), m.vertex_seq(), m.triangle_seq()),
{
    let sides: u32 = if sides < 3 { 3 } else { sides };
    let ghost s = sides as int;
    let mut vtx = prism_rim_vertices(sides);
    let n: u32 = vtx.len() as u32;
    let mut idx = prism_side_triangles(n, sides);
    vtx.push(VertexRecipe::Exact { x: 0, y: 1, z: 0 });
    vtx.push(VertexRecipe::Exact { x: 0, y: -1, z: 0 });
    assert(vtx@ =~= prism_vertices(s));
    push_prism_top_fan(&mut idx, sides);
    push_prism_bottom_fan(&mut idx, sides);
    assert(idx@ =~= prism_triangles(s));
    proof {
        lemma_prism_in_range(s);
        lemma_prism_uses_every_vertex(s);
        lemma_prism_closed(s);
        lemma_prism_faces_run_round(s);
    }
    Mesh { vertices: vtx, indices: idx }
}

/// The rim of a prism: a top and a bottom vertex for each angle after 0.
fn prism_rim_vertices(sides: u32) -> (vtx: Vec<VertexRecipe>)
    requires
        3 <= sides,
        2 * sides + 2 <= u32::MAX,
    ensures
        vtx@ == Seq::new((2 * sides) as nat, |j: int| prism_rim(sides as int, j)),
{
    let ghost s = sides as int;
    let mut vtx: Vec<VertexRecipe> = Vec::new();
    let mut k: u32 = 1;
    while k <= sides
        invariant
            1 <= k <= sides + 1,
            s == sides,
            2 * sides + 2 <= u32::MAX,
            vtx@ =~= Seq::new((2 * (k - 1)) as nat, |j: int| prism_rim(s, j)),
        decreases sides + 1 - k,
    {
        vtx.push(VertexRecipe::PrismRim { step: k, sides, top: true });
        vtx.push(VertexRecipe::PrismRim { step: k, sides, top: false });
        k = k + 1;
    }
    vtx
}

/// The side triangles of a prism whose rim has `n = 2 · sides` vertices:
/// the quads between neighbouring columns, taken as windows of four rim
/// vertices two apart, and then the quad that closes the ring.
fn prism_side_triangles(n: u32, sides: u32) -> (idx: Vec<TriangleIdxSet>)
    requires
        3 <= sides,
        2 * sides + 2 <= u32::MAX,
        n == 2 * sides,
    ensures
        idx@ == Seq::new((2 * sides) as nat, |q: int| prism_tri(sides as int, q)),
{
    let ghost s = sides as int;
    let mut idx: Vec<TriangleIdxSet> = Vec::with_capacity((n - 2) as usize);
    let mut w: u32 = 0;
    while w + 3 < n
        invariant
            n == 2 * s,
            s >= 3,
            2 * s + 2 <= u32::MAX,
            w % 2 == 0,
            w <= 2 * s - 2,
            idx@ =~= Seq::new(w as nat, |q: int| prism_tri(s, q)),
        decreases n - w,
    {
        proof {
            assert(prism_tri(s, w as int) == tri(w as int, w + 1, w + 2));
            assert(prism_tri(s, w + 1) == tri(w + 1, w + 3, w + 2));
        }
        idx.push(TriangleIdxSet(w, w + 1, w + 2));
        idx.push(TriangleIdxSet(w + 1, w + 3, w + 2));
        w = w + 2;
    }
    proof {
        assert(prism_tri(s, n - 2) == tri(n - 2, n - 1, 0));
        assert(prism_tri(s, n - 1) == tri(n - 1, 1, 0));
    }
    idx.push(TriangleIdxSet(n - 2, n - 1, 0));
    idx.push(TriangleIdxSet(n - 1, 1, 0));
    assert(idx@ =~= Seq::new((2 * s) as nat, |q: int| prism_tri(s, q)));
    idx
}

/// The top cap: a slice from the top centre `2 · sides` to each pair of
/// neighbouring top rim vertices, the last closing the ring.
fn push_prism_top_fan(idx: &mut Vec<TriangleIdxSet>, sides: u32)
    requires
        3 <= sides,
        2 * sides + 2 <= u32::MAX,
        old(idx)@ == Seq::new((2 * sides) as nat, |q: int| prism_tri(sides as int, q)),
    ensures
        final(idx)@ == Seq::new((3 * sides) as nat, |q: int| prism_tri(sides as int, q)),
{
    let ghost s = sides as int;
    let centre: u32 = 2 * sides;
    let mut k: u32 = 0;
    while k < sides
        invariant
            s == sides,
            s >= 3,
            2 * s + 2 <= u32::MAX,
            centre == 2 * s,
            k <= s,
            idx@ =~= Seq::new((2 * s + k) as nat, |q: int| prism_tri(s, q)),
        decreases s - k,
    {
        let next: u32 = if k + 1 < sides { 2 * k + 2 } else { 0 };
        proof {
            assert(prism_tri(s, 2 * s + k) == tri(2 * s, 2 * k, next as int));
        }
        idx.push(TriangleIdxSet(centre, 2 * k, next));
        k = k + 1;
    }
}

/// The bottom cap: a slice from the bottom centre `2 · sides + 1` to each
/// pair of neighbouring bottom rim vertices, wound like the top seen from
/// below.
fn push_prism_bottom_fan(idx: &mut Vec<TriangleIdxSet>, sides: u32)
    requires
        3 <= sides,
        2 * sides + 2 <= u32::MAX,
        old(idx)@ == Seq::new((3 * sides) as nat, |q: int| prism_tri(sides as int, q)),
    ensures
        final(idx)@ == Seq::new((4 * sides) as nat, |q: int| prism_tri(sides as int, q)),
{
    let ghost s = sides as int;
    let centre: u32 = 2 * sides + 1;
    let mut k: u32 = 0;
    while k < sides
        invariant
            s == sides,
            s >= 3,
            2 * s + 2 <= u32::MAX,
            centre == 2 * s + 1,
            k <= s,
            idx@ =~= Seq::new((3 * s + k) as nat, |q: int| prism_tri(s, q)),
        decreases s - k,
    {
        let next: u32 = if k + 1 < sides { 2 * k + 3 } else { 1 };
        proof {
            assert(prism_tri(s, 3 * s + k) == tri(2 * s + 1, next as int, 2 * k + 1));
        }
        idx.push(TriangleIdxSet(centre, next, 2 * k + 1));
        k = k + 1;
    }
}

/// The prism's triangles stay within its `2s + 2` vertices.
proof fn lemma_prism_in_range(s: int)
    requires
        s >= 3,
        2 * s + 2 <= u32::MAX,
    ensures
        tris_in_range(prism_triangles(s), 2 * s + 2),
{
    let tris = prism_triangles(s);
    assert forall|q: int| 0 <= q < tris.len() implies tri_in_range(#[trigger] tris[q], 2 * s + 2) by {
        assert(tris[q] == prism_tri(s, q));
        if q < 2 * s {
            assert(0 <= q / 2 < s);
        }
    }
}

/// The triangle of a prism with `s` sides that the directed edge from `a`
/// to `b` belongs to, if any does.
spec fn prism_edge_owner(s: int, a: int, b: int) -> int {
    if a == 2 * s {
        2 * s + b / 2
    } else if b == 2 * s {
        2 * s + rim_prev(s, a / 2)
    } else if a == 2 * s + 1 {
        3 * s + rim_prev(s, (b - 1) / 2)
    } else if b == 2 * s + 1 {
        3 * s + (a - 1) / 2
    } else if a % 2 == 0 && b % 2 == 1 {
        if (b - 1) / 2 == a / 2 { 2 * (a / 2) } else { 2 * ((b - 1) / 2) + 1 }
    } else if a % 2 == 1 && b % 2 == 0 {
        if b / 2 == (a - 1) / 2 { 2 * rim_prev(s, b / 2) + 1 } else { 2 * ((a - 1) / 2) }
    } else if a % 2 == 0 {
        if b / 2 == rim_next(s, a / 2) { 2 * s + a / 2 } else { 2 * (b / 2) }
    } else {
        if (b - 1) / 2 == rim_next(s, (a - 1) / 2) { 2 * ((a - 1) / 2) + 1 } else { 3 * s + (b - 1) / 2 }
    }
}

/// The four kinds of prism triangle, by column.
proof fn lemma_prism_tri_at(s: int, k: int)
    requires
        s >= 3,
        2 * s + 2 <= u32::MAX,
        0 <= k < s,
    ensures
        prism_tri(s, 2 * k) == tri(2 * k, 2 * k + 1, 2 * rim_next(s, k)),
        prism_tri(s, 2 * k + 1) == tri(2 * k + 1, 2 * rim_next(s, k) + 1, 2 * rim_next(s, k)),
        prism_tri(s, 2 * s + k) == tri(2 * s, 2 * k, 2 * rim_next(s, k)),
        prism_tri(s, 3 * s + k) == tri(2 * s + 1, 2 * rim_next(s, k) + 1, 2 * k + 1),
        0 <= rim_next(s, k) < s,
        0 <= rim_prev(s, k) < s,
        rim_next(s, k) != k,
        rim_next(s, rim_prev(s, k)) == k,
        rim_prev(s, rim_next(s, k)) == k,
        rim_next(s, rim_next(s, k)) != k,
{
    assert((2 * k) / 2 == k);
    assert((2 * k + 1) / 2 == k);
}

/// Every directed edge of prism triangle `q` names `q` as its owner, and
/// runs the other way in some other triangle.
proof fn lemma_prism_tri_edges(s: int, q: int)
    requires
        s >= 3,
        2 * s + 2 <= u32::MAX,
        0 <= q < 4 * s,
    ensures
        prism_tri(s, q).0 != prism_tri(s, q).1,
        prism_tri(s, q).1 != prism_tri(s, q).2,
        prism_tri(s, q).2 != prism_tri(s, q).0,
        forall|a: int, b: int|
            #[trigger] has_edge(prism_tri(s, q), a, b) ==> {
                &&& prism_edge_owner(s, a, b) == q
                &&& exists|p: int| 0 <= p < 4 * s && #[trigger] has_edge(prism_tri(s, p), b, a)
            },
{
    let k = if q < 2 * s { q / 2 } else if q < 3 * s { q - 2 * s } else { q - 3 * s };
    lemma_prism_tri_at(s, k);
    let nk = rim_next(s, k);
    let pk = rim_prev(s, k);
    lemma_prism_tri_at(s, nk);
    lemma_prism_tri_at(s, pk);
    assert((2 * k) / 2 == k && (2 * k + 1 - 1) / 2 == k && (2 * k) % 2 == 0 && (2 * k + 1) % 2 == 1);
    assert((2 * nk) / 2 == nk && (2 * nk + 1 - 1) / 2 == nk && (2 * nk) % 2 == 0 && (2 * nk + 1) % 2 == 1);
    if q < 2 * s && q % 2 == 0 {
        assert(q == 2 * k);
        assert(has_edge(prism_tri(s, 2 * pk + 1), 2 * k + 1, 2 * k));
        assert(has_edge(prism_tri(s, 2 * k + 1), 2 * nk, 2 * k + 1));
        assert(has_edge(prism_tri(s, 2 * s + k), 2 * k, 2 * nk));
    } else if q < 2 * s {
        assert(q == 2 * k + 1);
        assert(has_edge(prism_tri(s, 3 * s + k), 2 * nk + 1, 2 * k + 1));
        assert(has_edge(prism_tri(s, 2 * nk), 2 * nk, 2 * nk + 1));
        assert(has_edge(prism_tri(s, 2 * k), 2 * k + 1, 2 * nk));
    } else if q < 3 * s {
        assert(has_edge(prism_tri(s, 2 * s + pk), 2 * k, 2 * s));
        assert(has_edge(prism_tri(s, 2 * k), 2 * nk, 2 * k));
        assert(has_edge(prism_tri(s, 2 * s + nk), 2 * s, 2 * nk));
    } else {
        assert(has_edge(prism_tri(s, 3 * s + nk), 2 * nk + 1, 2 * s + 1));
        assert(has_edge(prism_tri(s, 2 * k + 1), 2 * k + 1, 2 * nk + 1));
        assert(has_edge(prism_tri(s, 3 * s + pk), 2 * s + 1, 2 * k + 1));
    }
}

/// The prism's triangles form a closed surface wound one way throughout.
proof fn lemma_prism_closed(s: int)
    requires
        s >= 3,
        2 * s + 2 <= u32::MAX,
    ensures
        closed_and_consistently_wound(prism_triangles(s)),
{
    let tris = prism_triangles(s);
    assert forall|q: int| 0 <= q < tris.len() implies {
        &&& (#[trigger] tris[q]).0 != tris[q].1
        &&& tris[q].1 != tris[q].2
        &&& tris[q].2 != tris[q].0
    } by {
        lemma_prism_tri_edges(s, q);
    }
    assert forall|q1: int, q2: int, a: int, b: int|
        0 <= q1 < tris.len() && 0 <= q2 < tris.len() && #[trigger] has_edge(tris[q1], a, b)
            && #[trigger] has_edge(tris[q2], a, b) implies q1 == q2 by {
        lemma_prism_tri_edges(s, q1);
        lemma_prism_tri_edges(s, q2);
    }
    assert forall|q: int, a: int, b: int|
        0 <= q < tris.len() && #[trigger] has_edge(tris[q], a, b) implies exists|p: int|
            0 <= p < tris.len() && #[trigger] has_edge(tris[p], b, a) by {
        lemma_prism_tri_edges(s, q);
        let p = choose|p: int| 0 <= p < 4 * s && #[trigger] has_edge(prism_tri(s, p), b, a);
        assert(tris[p] == prism_tri(s, p));
    }
}

/// A point of the triangular grid that subdivides the triangle with corners
/// `(a, b, c)` into `(level + 1)²` smaller triangles.
///
/// Row `r` (from 0 to `level + 1`) runs between the point `r / (level + 1)`
/// of the way from `a` to `b` and the point `r / (level + 1)` of the way from
/// `a` to `c`; column `col` (from 0 to `r`) lies `col / r` of the way along
/// it, and row 0 is `a` itself. In barycentric terms the point is
/// `((level + 1 - r) a + (r - col) b + col c) / (level + 1)`.
#[derive(Copy, Debug, PartialEq, Eq)]
pub struct GridPoint<V> {
    pub a: V,
    pub b: V,
    pub c: V,
    pub level: u32,
    pub row: u32,
    pub col: u32,
}

impl<V: Copy> Clone for GridPoint<V> {
    fn clone(&self) -> (p: Self)
        ensures
            p == *self,
    {
        *self
    }
}

/// The grid point in row `row`, column `col`.
pub open spec fn grid_point<V>(corners: (V, V, V), n: int, row: int, col: int) -> GridPoint<V> {
    GridPoint { a: corners.0, b: corners.1, c: corners.2, level: n as u32, row: row as u32, col: col as u32 }
}

/// A vertex that a mesh keeps as it was, seen as a grid point of level 0.
pub open spec fn corner_point<V>(v: V) -> GridPoint<V> {
    grid_point((v, v, v), 0, 0, 0)
}

/// Where grid point `(row, col)` comes among the points of one triangle's
/// grid, listed row after row: `row (row + 1) / 2 + col`.
pub open spec fn grid_index(row: int, col: int) -> int {
    row * (row + 1) / 2 + col
}

/// How many points the grid of one triangle subdivided at `level` has:
/// rows 0 to `level + 1`, row `r` holding `r + 1` points, so
/// `(level + 2)(level + 3) / 2` in all.
pub open spec fn subdivided_face_vertices(level: int) -> int {
    (level + 2) * (level + 3) / 2
}

/// Row `r` of the grid of `corners` at level `n`: its `r + 1` points.
pub open spec fn grid_row<V>(corners: (V, V, V), n: int, r: int) -> Seq<GridPoint<V>> {
    Seq::new((r + 1) as nat, |c: int| grid_point(corners, n, r, c))
}

/// The first `r` rows of the grid of `corners` at level `n`, one after
/// another.
pub open spec fn grid_rows<V>(corners: (V, V, V), n: int, r: nat) -> Seq<GridPoint<V>>
    decreases r,
{
    if r == 0 {
        seq![]
    } else {
        grid_rows(corners, n, (r - 1) as nat) + grid_row(corners, n, r - 1)
    }
}

/// Cell `w` of band `i` (between rows `i` and `i + 1`) of a grid whose
/// points are numbered from `base` on: for even `w` the cell pointing up at
/// column `w / 2`, for odd `w` the cell pointing down at column `w / 2`,
/// both listed counter-clockwise.
pub open spec fn cell_tri(base: int, i: int, w: int) -> TriangleIdxSet {
    let h = w / 2;
    if w % 2 == 0 {
        tri(base + grid_index(i + 1, h), base + grid_index(i + 1, h + 1), base + grid_index(i, h))
    } else {
        tri(base + grid_index(i, h), base + grid_index(i + 1, h + 1), base + grid_index(i, h + 1))
    }
}

/// The `2i + 1` cells of band `i`, from column 0 on, pointing up and down
/// in turn.
pub open spec fn band_cells(base: int, i: int) -> Seq<TriangleIdxSet> {
    Seq::new((2 * i + 1) as nat, |w: int| cell_tri(base, i, w))
}

/// The cells of the first `r` bands of a grid whose points are numbered
/// from `base` on.
pub open spec fn grid_cells(base: int, r: nat) -> Seq<TriangleIdxSet>
    decreases r,
{
    if r == 0 {
        seq![]
    } else {
        grid_cells(base, (r - 1) as nat) + band_cells(base, r - 1)
    }
}

/// The corners of triangle `t` of a mesh with vertices `verts`.
pub open spec fn corners_of<V>(verts: Seq<V>, t: TriangleIdxSet) -> (V, V, V) {
    (verts[t.0 as int], verts[t.1 as int], verts[t.2 as int])
}

/// The vertices made by subdividing the first `k` triangles at level `n`:
/// the points of each triangle's grid, triangle after triangle.
pub open spec fn subdivided_vertices<V>(
    verts: Seq<V>,
    tris: Seq<TriangleIdxSet>,
    n: int,
    k: nat,
) -> Seq<GridPoint<V>>
    decreases k,
{
    if k == 0 {
        seq![]
    } else {
        subdivided_vertices(verts, tris, n, (k - 1) as nat) + grid_rows(
            corners_of(verts, tris[k - 1]),
            n,
            (n + 2) as nat,
        )
    }
}

/// Where the points of source triangle `t` start among the vertices of a
/// subdivision at `level`.
pub open spec fn face_base(t: int, level: int) -> int {
    t * subdivided_face_vertices(level)
}

/// The triangles made by subdividing the first `k` triangles at level `n`:
/// the cells of each triangle's grid, those of triangle `t` referring to the
/// points from `face_base(t, n)` on.
pub open spec fn subdivided_triangles(n: int, k: nat) -> Seq<TriangleIdxSet>
    decreases k,
{
    if k == 0 {
        seq![]
    } else {
        subdivided_triangles(n, (k - 1) as nat) + grid_cells(face_base(k - 1, n), (n + 1) as nat)
    }
}

/// The bounds within which subdividing `t` triangles at `level` makes no
/// 32-bit arithmetic overflow: the size estimates computed up front, and
/// every vertex index of the result.
pub open spec fn subdivision_fits(t: int, level: int) -> bool {
    &&& (level + 3) * (level + 2) <= u32::MAX
    &&& (level + 1) * (level + 1) <= u32::MAX
    &&& t * subdivided_face_vertices(level) <= u32::MAX
}

/// Where point `(r, c)` of the grid of source triangle `t` stands among the
/// vertices of a subdivision at `level`.
pub open spec fn point_slot(t: int, level: int, r: int, c: int) -> int {
    face_base(t, level) + grid_index(r, c)
}

/// Where cell `w` of band `i` of source triangle `t` stands among the
/// triangles of a subdivision at `level`.
pub open spec fn cell_slot(t: int, level: int, i: int, w: int) -> int {
    t * ((level + 1) * (level + 1)) + i * i + w
}

/// Each source triangle's grid points and cells stand where `point_slot` and
/// `cell_slot` say: one shared grid of points per triangle, and its cells
/// referring to them.
pub open spec fn grid_layout<V>(
    verts: Seq<V>,
    tris: Seq<TriangleIdxSet>,
    level: int,
    ov: Seq<GridPoint<V>>,
    ot: Seq<TriangleIdxSet>,
) -> bool {
    &&& forall|t: int, r: int, c: int|
        0 <= t < tris.len() && 0 <= c <= r <= level + 1 ==> ov[#[trigger] point_slot(t, level, r, c)]
            == grid_point(corners_of(verts, tris[t]), level, r, c)
    &&& forall|t: int, i: int, w: int|
        0 <= t < tris.len() && 0 <= i <= level && 0 <= w <= 2 * i ==> ot[#[trigger] cell_slot(
            t,
            level,
            i,
            w,
        )] == cell_tri(face_base(t, level), i, w)
}

/// Every triangle `q` is a cell of the grid of its source triangle
/// `q / (level + 1)²`, turning the same way as that triangle, at position
/// `q % (level + 1)²` among its cells.
pub open spec fn tiled_by_cells<V>(
    verts: Seq<V>,
    tris: Seq<TriangleIdxSet>,
    level: int,
    ov: Seq<GridPoint<V>>,
    ot: Seq<TriangleIdxSet>,
) -> bool {
    let cells = (level + 1) * (level + 1);
    forall|q: int|
        0 <= q < ot.len() ==> {
            let t = #[trigger] ot[q];
            &&& cell_at(ov, t, corners_of(verts, tris[q / cells]), level)
            &&& placed_cell(ov[t.0 as int], ov[t.1 as int], ov[t.2 as int], level, q % cells)
        }
}

/// Every cell of the grid of every source triangle is one of the triangles.
pub open spec fn covers_every_cell<V>(
    tris: Seq<TriangleIdxSet>,
    level: int,
    ov: Seq<GridPoint<V>>,
    ot: Seq<TriangleIdxSet>,
) -> bool {
    forall|t: int, band: int, up: bool, col: int|
        0 <= t < tris.len() && valid_cell(band, up, col, level) ==> {
            let q = #[trigger] cell_index(t, level, band, up, col);
            let tr = ot[q];
            &&& 0 <= q < ot.len()
            &&& cell_band(ov[tr.0 as int], ov[tr.1 as int], ov[tr.2 as int]) == band
            &&& cell_points_up(ov[tr.0 as int], ov[tr.1 as int], ov[tr.2 as int]) == up
            &&& cell_col(ov[tr.0 as int], ov[tr.1 as int], ov[tr.2 as int]) == col
        }
}

/// The vertices of the mesh `verts`, `tris` subdivided at `level`; at
/// level 0, each vertex as the grid point of level 0 at its own position.
pub open spec fn subdivision_vertices<V>(verts: Seq<V>, tris: Seq<TriangleIdxSet>, level: int) -> Seq<
    GridPoint<V>,
> {
    if level == 0 {
        verts.map_values(|v: V| corner_point(v))
    } else {
        subdivided_vertices(verts, tris, level, tris.len())
    }
}

/// The triangles of the mesh with triangles `tris` subdivided at `level`;
/// at level 0, `tris` themselves.
pub open spec fn subdivision_triangles(tris: Seq<TriangleIdxSet>, level: int) -> Seq<TriangleIdxSet> {
    if level == 0 {
        tris
    } else {
        subdivided_triangles(level, tris.len())
    }
}

/// Whether triangle `t` has `v` among its corners.
pub open spec fn tri_uses(t: TriangleIdxSet, v: int) -> bool {
    t.0 == v || t.1 == v || t.2 == v
}

/// Whether some triangle of `tris` has vertex `v` among its corners.
pub open spec fn vertex_used(tris: Seq<TriangleIdxSet>, v: int) -> bool {
    exists|q: int| 0 <= q < tris.len() && tri_uses(#[trigger] tris[q], v)
}

/// Whether each of the vertices `0 .. n` is a corner of some triangle.
pub open spec fn uses_every_vertex(tris: Seq<TriangleIdxSet>, n: int) -> bool {
    forall|v: int| 0 <= v < n ==> #[trigger] vertex_used(tris, v)
}

/// Each of the icosahedron's twelve vertices is a corner of one of its faces.
proof fn lemma_icosahedron_uses_every_vertex()
    ensures
        uses_every_vertex(icosahedron_triangles(), 12),
{
    let t = icosahedron_triangles();
    assert forall|v: int| 0 <= v < 12 implies #[trigger] vertex_used(t, v) by {
        if v <= 2 {
            assert(tri_uses(t[0], v));
        } else if v == 3 {
            assert(tri_uses(t[1], v));
        } else if v == 4 {
            assert(tri_uses(t[2], v));
        } else if v == 5 {
            assert(tri_uses(t[3], v));
        } else if v == 6 {
            assert(tri_uses(t[5], v));
        } else if v == 7 {
            assert(tri_uses(t[6], v));
        } else if v == 8 {
            assert(tri_uses(t[8], v));
        } else if v == 9 {
            assert(tri_uses(t[10], v));
        } else if v == 10 {
            assert(tri_uses(t[12], v));
        } else {
            assert(tri_uses(t[15], v));
        }
    }
}

/// Each vertex of a prism with `s` sides is a corner of one of its
/// triangles.
proof fn lemma_prism_uses_every_vertex(s: int)
    requires
        s >= 3,
        2 * s + 2 <= u32::MAX,
    ensures
        uses_every_vertex(prism_triangles(s), 2 * s + 2),
{
    let t = prism_triangles(s);
    lemma_prism_tri_at(s, 0);
    assert forall|v: int| 0 <= v < 2 * s + 2 implies #[trigger] vertex_used(t, v) by {
        if v < 2 * s {
            let k = v / 2;
            lemma_prism_tri_at(s, k);
            assert(t[2 * k] == prism_tri(s, 2 * k));
            assert(tri_uses(t[2 * k], v));
        } else if v == 2 * s {
            assert(t[2 * s] == prism_tri(s, 2 * s + 0));
            assert(tri_uses(t[2 * s], v));
        } else {
            assert(t[3 * s] == prism_tri(s, 3 * s + 0));
            assert(tri_uses(t[3 * s], v));
        }
    }
}

/// Each row of a grid starts `r + 1` places after row `r`.
proof fn lemma_grid_index_step(r: int)
    requires
        r >= 0,
    ensures
        grid_index(r + 1, 0) == grid_index(r, 0) + r + 1,
        grid_index(r, 0) >= 0,
{
    assert((r + 1) * (r + 2) == r * (r + 1) + 2 * (r + 1)) by (nonlinear_arith);
    assert(r * (r + 1) >= 0) by (nonlinear_arith)
        requires
            r >= 0,
    ;
}

/// Later rows start later: row `r2` at least `r2 - r1` places after row `r1`.
proof fn lemma_grid_index_monotone(r1: int, r2: int)
    requires
        0 <= r1 <= r2,
    ensures
        grid_index(r1, 0) + (r2 - r1) <= grid_index(r2, 0),
        grid_index(r1, 0) >= 0,
    decreases r2 - r1,
{
    lemma_grid_index_step(r1);
    if r1 < r2 {
        lemma_grid_index_monotone(r1, r2 - 1);
        lemma_grid_index_step(r2 - 1);
    }
}

/// The first `r` rows hold `grid_index(r, 0)` points, point `(k, c)` at
/// `grid_index(k, c)`.
proof fn lemma_grid_rows<V>(corners: (V, V, V), n: int, r: nat)
    ensures
        grid_rows(corners, n, r).len() == grid_index(r as int, 0),
        forall|k: int, c: int|
            0 <= c <= k < r ==> #[trigger] grid_rows(corners, n, r)[grid_index(k, c)] == grid_point(
                corners,
                n,
                k,
                c,
            ),
    decreases r,
{
    if r > 0 {
        let rm1 = (r - 1) as nat;
        lemma_grid_rows(corners, n, rm1);
        lemma_grid_index_step(rm1 as int);
        let prev = grid_rows(corners, n, rm1);
        let row = grid_row(corners, n, rm1 as int);
        assert(grid_rows(corners, n, r) == prev + row);
        assert forall|k: int, c: int| 0 <= c <= k < r implies #[trigger] grid_rows(corners, n, r)[grid_index(
            k,
            c,
        )] == grid_point(corners, n, k, c) by {
            if k < rm1 {
                lemma_grid_index_step(k);
                lemma_grid_index_monotone(k + 1, rm1 as int);
                assert(grid_index(k, c) < prev.len());
            } else {
                assert(grid_index(k, c) == prev.len() + c);
                assert(row[c] == grid_point(corners, n, k, c));
            }
        }
    }
}

/// The first `r` bands hold `r²` cells, cell `w` of band `i` at `i² + w`.
proof fn lemma_grid_cells(base: int, r: nat)
    ensures
        grid_cells(base, r).len() == r * r,
        forall|i: int, w: int|
            0 <= i < r && 0 <= w <= 2 * i ==> #[trigger] grid_cells(base, r)[i * i + w] == cell_tri(
                base,
                i,
                w,
            ),
    decreases r,
{
    if r == 0 {
        assert(r * r == 0) by (nonlinear_arith)
            requires
                r == 0,
        ;
    } else {
        let rm1 = (r - 1) as nat;
        lemma_grid_cells(base, rm1);
        assert(rm1 * rm1 + 2 * rm1 + 1 == r * r) by (nonlinear_arith)
            requires
                rm1 == r - 1,
        ;
        let prev = grid_cells(base, rm1);
        let band = band_cells(base, rm1 as int);
        assert(grid_cells(base, r) == prev + band);
        assert forall|i: int, w: int| 0 <= i < r && 0 <= w <= 2 * i implies #[trigger] grid_cells(
            base,
            r,
        )[i * i + w] == cell_tri(base, i, w) by {
            if i < rm1 {
                assert(i * i + w < rm1 * rm1) by (nonlinear_arith)
                    requires
                        0 <= i < rm1,
                        0 <= w <= 2 * i,
                ;
            } else {
                assert(i == rm1);
                assert(band[w] == cell_tri(base, i, w));
            }
        }
    }
}

/// Cell `w` of band `i` of the grid of `corners` at level `n`, whose points
/// are numbered from `base` on, refers to points of that grid and is the
/// grid cell at position `i² + w`.
#[verifier::spinoff_prover]
proof fn lemma_cell_tri<V>(corners: (V, V, V), n: int, base: int, i: int, w: int)
    requires
        0 <= i <= n,
        0 <= w <= 2 * i,
        n + 3 <= u32::MAX,
        base >= 0,
        base + subdivided_face_vertices(n) <= u32::MAX,
    ensures
        ({
            let t = cell_tri(base, i, w);
            let g = grid_rows(corners, n, (n + 2) as nat);
            &&& base <= t.0 < base + subdivided_face_vertices(n)
            &&& base <= t.1 < base + subdivided_face_vertices(n)
            &&& base <= t.2 < base + subdivided_face_vertices(n)
            &&& grid_cell(g[t.0 - base], g[t.1 - base], g[t.2 - base], corners, n)
            &&& placed_cell(g[t.0 - base], g[t.1 - base], g[t.2 - base], n, i * i + w)
        }),
{
    let g = grid_rows(corners, n, (n + 2) as nat);
    lemma_grid_rows(corners, n, (n + 2) as nat);
    lemma_grid_index_step(i);
    lemma_grid_index_step(i + 1);
    lemma_grid_index_monotone(i + 2, n + 2);
    assert(grid_index(n + 2, 0) == subdivided_face_vertices(n));
    let h = w / 2;
    let t = cell_tri(base, i, w);
    if w % 2 == 0 {
        assert(w == 2 * h);
        let (a, b, c) = (grid_index(i + 1, h), grid_index(i + 1, h + 1), grid_index(i, h));
        assert(t == tri(base + a, base + b, base + c));
        assert(t.0 - base == a && t.1 - base == b && t.2 - base == c);
        let (p0, p1, p2) = (g[a], g[b], g[c]);
        assert(p0 == grid_point(corners, n, i + 1, h));
        assert(p1 == grid_point(corners, n, i + 1, h + 1));
        assert(p2 == grid_point(corners, n, i, h));
        lemma_cross_value(p0, p1, p2, -1, 1, -1, 0);
        assert(cell_band(p0, p1, p2) == i);
        assert(cell_points_up(p0, p1, p2));
        assert(cell_col(p0, p1, p2) == h);
        assert(cell_position(i, true, h) == i * i + w);
    } else {
        assert(w == 2 * h + 1);
        let (a, b, c) = (grid_index(i, h), grid_index(i + 1, h + 1), grid_index(i, h + 1));
        assert(t == tri(base + a, base + b, base + c));
        assert(t.0 - base == a && t.1 - base == b && t.2 - base == c);
        let (p0, p1, p2) = (g[a], g[b], g[c]);
        assert(p0 == grid_point(corners, n, i, h));
        assert(p1 == grid_point(corners, n, i + 1, h + 1));
        assert(p2 == grid_point(corners, n, i, h + 1));
        lemma_cross_value(p0, p1, p2, 0, 1, -1, 1);
        assert(cell_band(p0, p1, p2) == i);
        assert(!cell_points_up(p0, p1, p2));
        assert(cell_col(p0, p1, p2) == h);
        assert(cell_position(i, false, h) == i * i + w);
    }
}

/// The cells of the first `r` bands of the grid of `corners` at level `n`
/// are grid cells of its points, each at its own position.
proof fn lemma_grid_cells_are_cells<V>(corners: (V, V, V), n: int, base: int, r: nat)
    requires
        r <= n + 1,
        n + 3 <= u32::MAX,
        base >= 0,
        base + subdivided_face_vertices(n) <= u32::MAX,
    ensures
        forall|l: int|
            0 <= l < r * r ==> {
                let t = #[trigger] grid_cells(base, r)[l];
                let g = grid_rows(corners, n, (n + 2) as nat);
                &&& base <= t.0 < base + subdivided_face_vertices(n)
                &&& base <= t.1 < base + subdivided_face_vertices(n)
                &&& base <= t.2 < base + subdivided_face_vertices(n)
                &&& grid_cell(g[t.0 - base], g[t.1 - base], g[t.2 - base], corners, n)
                &&& placed_cell(g[t.0 - base], g[t.1 - base], g[t.2 - base], n, l)
            },
    decreases r,
{
    if r > 0 {
        let rm1 = (r - 1) as nat;
        lemma_grid_cells_are_cells(corners, n, base, rm1);
        lemma_grid_cells(base, rm1);
        lemma_grid_cells(base, r);
        assert forall|l: int| 0 <= l < r * r implies {
            let t = #[trigger] grid_cells(base, r)[l];
            let g = grid_rows(corners, n, (n + 2) as nat);
            &&& base <= t.0 < base + subdivided_face_vertices(n)
            &&& base <= t.1 < base + subdivided_face_vertices(n)
            &&& base <= t.2 < base + subdivided_face_vertices(n)
            &&& grid_cell(g[t.0 - base], g[t.1 - base], g[t.2 - base], corners, n)
            &&& placed_cell(g[t.0 - base], g[t.1 - base], g[t.2 - base], n, l)
        } by {
            assert(grid_cells(base, r) == grid_cells(base, rm1) + band_cells(base, rm1 as int));
            if l < rm1 * rm1 {
                assert(grid_cells(base, r)[l] == grid_cells(base, rm1)[l]);
            } else {
                let w = l - rm1 * rm1;
                assert(rm1 * rm1 + 2 * rm1 + 1 == r * r) by (nonlinear_arith)
                    requires
                        rm1 == r - 1,
                ;
                assert(grid_cells(base, r)[rm1 * rm1 + w] == cell_tri(base, rm1 as int, w));
                lemma_cell_tri(corners, n, base, rm1 as int, w);
            }
        }
    } else {
        assert(r * r == 0) by (nonlinear_arith)
            requires
                r == 0,
        ;
    }
}

/// The cells of the whole grid of level `n` use each of its points.
proof fn lemma_grid_cells_use_points(n: int, base: int)
    requires
        n >= 0,
        n + 3 <= u32::MAX,
        base >= 0,
        base + subdivided_face_vertices(n) <= u32::MAX,
    ensures
        forall|g: int|
            0 <= g < subdivided_face_vertices(n) ==> #[trigger] vertex_used(
                grid_cells(base, (n + 1) as nat),
                base + g,
            ),
{
    lemma_grid_rows_used(n, base, (n + 2) as nat);
    assert(grid_index(n + 2, 0) == subdivided_face_vertices(n));
}

/// The cells of the whole grid of level `n` use each point of its first `r`
/// rows.
proof fn lemma_grid_rows_used(n: int, base: int, r: nat)
    requires
        n >= 0,
        r <= n + 2,
        n + 3 <= u32::MAX,
        base >= 0,
        base + subdivided_face_vertices(n) <= u32::MAX,
    ensures
        forall|g: int|
            0 <= g < grid_index(r as int, 0) ==> #[trigger] vertex_used(
                grid_cells(base, (n + 1) as nat),
                base + g,
            ),
    decreases r,
{
    if r > 0 {
        let k = r - 1;
        lemma_grid_rows_used(n, base, (r - 1) as nat);
        lemma_grid_index_step(k);
        lemma_grid_cells(base, (n + 1) as nat);
        let cells = grid_cells(base, (n + 1) as nat);
        assert forall|g: int| 0 <= g < grid_index(r as int, 0) implies #[trigger] vertex_used(
            cells,
            base + g,
        ) by {
            if g >= grid_index(k, 0) {
                let c = g - grid_index(k, 0);
                assert(g == grid_index(k, c));
                if k <= n {
                    let l = k * k + 2 * c;
                    lemma_cell_tri_used(n, base, k, 2 * c);
                    assert(cells[l] == cell_tri(base, k, 2 * c));
                    assert(0 <= l < (n + 1) * (n + 1)) by (nonlinear_arith)
                        requires
                            0 <= k <= n,
                            0 <= c <= k,
                            l == k * k + 2 * c,
                    ;
                    assert(tri_uses(cells[l], base + g));
                } else {
                    let h = if c <= n { c } else { n };
                    let l = n * n + 2 * h;
                    lemma_cell_tri_used(n, base, n, 2 * h);
                    assert(cells[l] == cell_tri(base, n, 2 * h));
                    assert(0 <= l < (n + 1) * (n + 1)) by (nonlinear_arith)
                        requires
                            0 <= h <= n,
                            l == n * n + 2 * h,
                    ;
                    assert(tri_uses(cells[l], base + g));
                }
            }
        }
    }
}

/// The cell pointing up at column `w / 2` of band `i` has, as its corners,
/// the grid points `(i + 1, w / 2)`, `(i + 1, w / 2 + 1)` and `(i, w / 2)`.
proof fn lemma_cell_tri_used(n: int, base: int, i: int, w: int)
    requires
        0 <= i <= n,
        0 <= w <= 2 * i,
        w % 2 == 0,
        n + 3 <= u32::MAX,
        base >= 0,
        base + subdivided_face_vertices(n) <= u32::MAX,
    ensures
        cell_tri(base, i, w).0 == base + grid_index(i + 1, w / 2),
        cell_tri(base, i, w).1 == base + grid_index(i + 1, w / 2 + 1),
        cell_tri(base, i, w).2 == base + grid_index(i, w / 2),
{
    lemma_grid_index_step(i);
    lemma_grid_index_step(i + 1);
    lemma_grid_index_monotone(i + 2, n + 2);
    assert(grid_index(n + 2, 0) == subdivided_face_vertices(n));
}

/// Splits index `q` below `k · size` into the block `q / size` and the place
/// `q % size` within it.
proof fn lemma_split_index(q: int, size: int, k: int)
    requires
        size > 0,
        0 <= q < k * size,
    ensures
        0 <= q / size < k,
        0 <= q % size < size,
        q == (q / size) * size + q % size,
{
    vstd::arithmetic::div_mod::lemma_fundamental_div_mod(q, size);
    vstd::arithmetic::div_mod::lemma_mod_pos_bound(q, size);
    vstd::arithmetic::div_mod::lemma_div_pos_is_pos(q, size);
    let t = q / size;
    assert(t * size == size * t) by (nonlinear_arith);
    assert(t < k) by (nonlinear_arith)
        requires
            t * size <= q,
            q < k * size,
            size > 0,
    ;
}

/// Where the grid points and cells of each of the first `k` source
/// triangles stand in a subdivision at level `n`.
proof fn lemma_subdivided_layout<V>(verts: Seq<V>, tris: Seq<TriangleIdxSet>, n: nat, k: nat)
    ensures
        subdivided_vertices(verts, tris, n as int, k).len() == k * subdivided_face_vertices(n as int),
        subdivided_triangles(n as int, k).len() == k * ((n + 1) * (n + 1)),
        forall|t: int, g: int|
            0 <= t < k && 0 <= g < subdivided_face_vertices(n as int) ==> subdivided_vertices(
                verts,
                tris,
                n as int,
                k,
            )[face_base(t, n as int) + g] == #[trigger] grid_rows(
                corners_of(verts, tris[t]),
                n as int,
                (n + 2) as nat,
            )[g],
        forall|t: int, l: int|
            0 <= t < k && 0 <= l < (n + 1) * (n + 1) ==> subdivided_triangles(n as int, k)[t * ((n
                + 1) * (n + 1)) + l] == #[trigger] grid_cells(face_base(t, n as int), (n + 1) as nat)[l],
    decreases k,
{
    let f = subdivided_face_vertices(n as int);
    let sq: int = ((n + 1) * (n + 1)) as int;
    if k == 0 {
        assert(k * f == 0 && k * sq == 0) by (nonlinear_arith)
            requires
                k == 0,
        ;
    } else {
        let km1 = (k - 1) as nat;
        lemma_subdivided_layout(verts, tris, n, km1);
        lemma_grid_rows(corners_of(verts, tris[km1 as int]), n as int, (n + 2) as nat);
        lemma_grid_cells(face_base(km1 as int, n as int), (n + 1) as nat);
        assert(grid_index(n + 2 as int, 0) == f);
        assert(km1 * f + f == k * f && km1 * sq + sq == k * sq) by (nonlinear_arith)
            requires
                km1 == k - 1,
        ;
        let pv = subdivided_vertices(verts, tris, n as int, km1);
        let pt = subdivided_triangles(n as int, km1);
        assert forall|t: int, g: int| 0 <= t < k && 0 <= g < f implies subdivided_vertices(
            verts,
            tris,
            n as int,
            k,
        )[face_base(t, n as int) + g] == #[trigger] grid_rows(
            corners_of(verts, tris[t]),
            n as int,
            (n + 2) as nat,
        )[g] by {
            if t < km1 {
                assert(t * f + g < km1 * f) by (nonlinear_arith)
                    requires
                        0 <= t < km1,
                        0 <= g < f,
                ;
            }
        }
        assert forall|t: int, l: int| 0 <= t < k && 0 <= l < sq implies subdivided_triangles(
            n as int,
            k,
        )[t * sq + l] == #[trigger] grid_cells(face_base(t, n as int), (n + 1) as nat)[l] by {
            if t < km1 {
                assert(t * sq + l < km1 * sq) by (nonlinear_arith)
                    requires
                        0 <= t < km1,
                        0 <= l < sq,
                ;
            }
        }
    }
}

/// Subdividing lays the points of each source triangle's grid out once,
/// row after row, and its cells band after band, referring to them.
pub proof fn lemma_subdivision_layout<V>(verts: Seq<V>, tris: Seq<TriangleIdxSet>, level: u32)
    ensures
        grid_layout(
            verts,
            tris,
            level as int,
            subdivided_vertices(verts, tris, level as int, tris.len()),
            subdivided_triangles(level as int, tris.len()),
        ),
{
    let n = level as int;
    let ov = subdivided_vertices(verts, tris, n, tris.len());
    let ot = subdivided_triangles(n, tris.len());
    lemma_subdivided_layout(verts, tris, level as nat, tris.len());
    assert forall|t: int, r: int, c: int|
        0 <= t < tris.len() && 0 <= c <= r <= n + 1 implies ov[#[trigger] point_slot(t, n, r, c)]
            == grid_point(corners_of(verts, tris[t]), n, r, c) by {
        lemma_grid_rows(corners_of(verts, tris[t]), n, (n + 2) as nat);
        lemma_grid_index_step(r);
        lemma_grid_index_monotone(r + 1, n + 2);
        assert(grid_index(n + 2, 0) == subdivided_face_vertices(n));
        let g = grid_index(r, c);
        assert(grid_rows(corners_of(verts, tris[t]), n, (n + 2) as nat)[g] == grid_point(
            corners_of(verts, tris[t]),
            n,
            r,
            c,
        ));
    }
    assert forall|t: int, i: int, w: int|
        0 <= t < tris.len() && 0 <= i <= n && 0 <= w <= 2 * i implies ot[#[trigger] cell_slot(
            t,
            n,
            i,
            w,
        )] == cell_tri(face_base(t, n), i, w) by {
        lemma_grid_cells(face_base(t, n), (n + 1) as nat);
        assert(i * i + w < (n + 1) * (n + 1)) by (nonlinear_arith)
            requires
                0 <= i <= n,
                0 <= w <= 2 * i,
        ;
        let l = i * i + w;
        assert(grid_cells(face_base(t, n), (n + 1) as nat)[l] == cell_tri(face_base(t, n), i, w));
        assert(cell_slot(t, n, i, w) == t * ((n + 1) * (n + 1)) + l);
    }
}

/// Subdividing tiles every triangle with the cells of its grid, each turning
/// the same way as the triangle itself.
///
/// Each triangle that subdividing at `level` makes from triangle `t` of the
/// source is one of the smallest cells of the grid laid over `t`, turning the
/// same way as `t`, and refers only to existing vertices. Triangle `t` gives
/// the `(level + 1)²` triangles from `t · (level + 1)²` on, one for each cell
/// of its grid, in the order of `cell_position`: so two of them are never the
/// same cell.
pub proof fn lemma_subdivision_tiles<V>(verts: Seq<V>, tris: Seq<TriangleIdxSet>, level: u32)
    requires
        subdivision_fits(tris.len() as int, level as int),
    ensures
        ({
            let ov = subdivided_vertices(verts, tris, level as int, tris.len());
            let ot = subdivided_triangles(level as int, tris.len());
            &&& ov.len() == tris.len() * subdivided_face_vertices(level as int)
            &&& ot.len() == tris.len() * ((level + 1) * (level + 1))
            &&& tris_in_range(ot, ov.len() as int)
            &&& tiled_by_cells(verts, tris, level as int, ov, ot)
        }),
{
    let n = level as int;
    let f = subdivided_face_vertices(n);
    let sq = (n + 1) * (n + 1);
    let ov = subdivided_vertices(verts, tris, n, tris.len());
    let ot = subdivided_triangles(n, tris.len());
    assert(n + 3 <= u32::MAX) by (nonlinear_arith)
        requires
            (n + 3) * (n + 2) <= u32::MAX,
            n >= 0,
    ;
    assert(sq > 0) by (nonlinear_arith)
        requires
            sq == (n + 1) * (n + 1),
            n >= 0,
    ;
    lemma_subdivided_layout(verts, tris, level as nat, tris.len());
    lemma_grid_index_monotone(0, n + 2);
    assert(grid_index(n + 2, 0) == f);
    assert forall|q: int| 0 <= q < ot.len() implies {
        let t = #[trigger] ot[q];
        &&& tri_in_range(t, ov.len() as int)
        &&& cell_at(ov, t, corners_of(verts, tris[q / sq]), n)
        &&& placed_cell(ov[t.0 as int], ov[t.1 as int], ov[t.2 as int], n, q % sq)
    } by {
        lemma_split_index(q, sq, tris.len() as int);
        let s = q / sq;
        let l = q % sq;
        let base = face_base(s, n);
        let corners = corners_of(verts, tris[s]);
        assert(base + f <= tris.len() * f) by (nonlinear_arith)
            requires
                0 <= s < tris.len(),
                base == s * f,
                f >= 0,
        ;
        assert(base >= 0) by (nonlinear_arith)
            requires
                0 <= s,
                base == s * f,
                f >= 0,
        ;
        lemma_grid_cells_are_cells(corners, n, base, (n + 1) as nat);
        let t = grid_cells(base, (n + 1) as nat)[l];
        assert(ot[q] == t);
        let g = grid_rows(corners, n, (n + 2) as nat);
        assert(ov[t.0 as int] == g[t.0 - base]);
        assert(ov[t.1 as int] == g[t.1 - base]);
        assert(ov[t.2 as int] == g[t.2 - base]);
    }
}

/// Subdividing leaves out no cell: for every triangle `t` of the source and
/// every cell of its grid, the triangle at position
/// `t · (level + 1)² + cell_position(cell)` of the result is that cell.
pub proof fn lemma_subdivision_covers<V>(verts: Seq<V>, tris: Seq<TriangleIdxSet>, level: u32)
    requires
        subdivision_fits(tris.len() as int, level as int),
    ensures
        covers_every_cell(
            tris,
            level as int,
            subdivided_vertices(verts, tris, level as int, tris.len()),
            subdivided_triangles(level as int, tris.len()),
        ),
{
    lemma_subdivision_tiles(verts, tris, level);
    let ov = subdivided_vertices(verts, tris, level as int, tris.len());
    let ot = subdivided_triangles(level as int, tris.len());
    let cells = (level + 1) * (level + 1);
    assert forall|t: int, band: int, up: bool, col: int|
        0 <= t < tris.len() && valid_cell(band, up, col, level as int) implies {
            let q = #[trigger] cell_index(t, level as int, band, up, col);
            let tr = ot[q];
            &&& 0 <= q < ot.len()
            &&& cell_band(ov[tr.0 as int], ov[tr.1 as int], ov[tr.2 as int]) == band
            &&& cell_points_up(ov[tr.0 as int], ov[tr.1 as int], ov[tr.2 as int]) == up
            &&& cell_col(ov[tr.0 as int], ov[tr.1 as int], ov[tr.2 as int]) == col
        } by {
        let pos = cell_position(band, up, col);
        lemma_cell_position_range(band, up, col, level as int);
        let q = t * cells + pos;
        assert(0 <= q < tris.len() * cells) by (nonlinear_arith)
            requires
                0 <= t < tris.len(),
                0 <= pos < cells,
                q == t * cells + pos,
        ;
        vstd::arithmetic::div_mod::lemma_fundamental_div_mod_converse(q, cells, t, pos);
        let tr = ot[q];
        let (p0, p1, p2) = (ov[tr.0 as int], ov[tr.1 as int], ov[tr.2 as int]);
        lemma_cell_position_distinct(
            band,
            up,
            col,
            cell_band(p0, p1, p2),
            cell_points_up(p0, p1, p2),
            cell_col(p0, p1, p2),
            level as int,
        );
    }
}

/// Subdividing at a level above 0 uses every vertex it makes.
proof fn lemma_subdivision_uses_every_vertex<V>(
    verts: Seq<V>,
    tris: Seq<TriangleIdxSet>,
    level: u32,
)
    requires
        subdivision_fits(tris.len() as int, level as int),
    ensures
        uses_every_vertex(
            subdivided_triangles(level as int, tris.len()),
            subdivided_vertices(verts, tris, level as int, tris.len()).len() as int,
        ),
{
    let n = level as int;
    let f = subdivided_face_vertices(n);
    let sq = (n + 1) * (n + 1);
    let ov = subdivided_vertices(verts, tris, n, tris.len());
    let ot = subdivided_triangles(n, tris.len());
    assert(n + 3 <= u32::MAX) by (nonlinear_arith)
        requires
            (n + 3) * (n + 2) <= u32::MAX,
            n >= 0,
    ;
    lemma_subdivided_layout(verts, tris, level as nat, tris.len());
    lemma_grid_index_monotone(0, n + 2);
    assert(grid_index(n + 2, 0) == f);
    assert forall|v: int| 0 <= v < ov.len() implies #[trigger] vertex_used(ot, v) by {
        lemma_split_index(v, f, tris.len() as int);
        let s = v / f;
        let g = v % f;
        let base = face_base(s, n);
        assert(base + f <= tris.len() * f) by (nonlinear_arith)
            requires
                0 <= s < tris.len(),
                base == s * f,
                f >= 0,
        ;
        assert(base >= 0) by (nonlinear_arith)
            requires
                0 <= s,
                base == s * f,
                f >= 0,
        ;
        lemma_grid_cells_use_points(n, base);
        let cells = grid_cells(base, (n + 1) as nat);
        assert(vertex_used(cells, base + g));
        let l = choose|l: int| 0 <= l < cells.len() && tri_uses(#[trigger] cells[l], base + g);
        lemma_grid_cells(base, (n + 1) as nat);
        assert(ot[s * sq + l] == cells[l]);
        assert(0 <= s * sq + l < ot.len()) by (nonlinear_arith)
            requires
                0 <= s < tris.len(),
                0 <= l < sq,
                ot.len() == tris.len() * sq,
        ;
        assert(tri_uses(ot[s * sq + l], v));
    }
}

/// Appends the points of the grid of `corners` at level `n`, row after row.
fn push_grid_points<V: Copy>(out: &mut Vec<GridPoint<V>>, corners: (V, V, V), n: u32)
    requires
        n + 3 <= u32::MAX,
    ensures
        final(out)@ == old(out)@ + grid_rows(corners, n as int, (n + 2) as nat),
{
    let ghost before = out@;
    let mut r: u32 = 0;
    while r <= n + 1
        invariant
            r <= n + 2,
            n + 3 <= u32::MAX,
            out@ == before + grid_rows(corners, n as int, r as nat),
        decreases n + 2 - r,
    {
        let ghost row_start = out@;
        let mut c: u32 = 0;
        while c <= r
            invariant
                c <= r + 1,
                r <= n + 1,
                n + 3 <= u32::MAX,
                row_start == before + grid_rows(corners, n as int, r as nat),
                out@ == row_start + Seq::new(c as nat, |k: int| grid_point(corners, n as int, r as int, k)),
            decreases r + 1 - c,
        {
            out.push(GridPoint { a: corners.0, b: corners.1, c: corners.2, level: n, row: r, col: c });
            proof {
                assert(out@ =~= row_start + Seq::new(
                    (c + 1) as nat,
                    |k: int| grid_point(corners, n as int, r as int, k),
                ));
            }
            c = c + 1;
        }
        proof {
            assert(grid_rows(corners, n as int, (r + 1) as nat) == grid_rows(corners, n as int, r as nat)
                + grid_row(corners, n as int, r as int));
            assert(out@ =~= before + grid_rows(corners, n as int, (r + 1) as nat));
        }
        r = r + 1;
    }
}

/// Appends the cells of the grid of level `n` whose points are numbered from
/// `base` on, band after band.
fn push_grid_cells(out: &mut Vec<TriangleIdxSet>, base: u32, n: u32)
    requires
        n + 3 <= u32::MAX,
        base + subdivided_face_vertices(n as int) <= u32::MAX,
    ensures
        final(out)@ == old(out)@ + grid_cells(base as int, (n + 1) as nat),
{
    let ghost before = out@;
    proof {
        assert(grid_index(n + 2, 0) == subdivided_face_vertices(n as int));
    }
    let mut i: u32 = 0;
    let mut top: u32 = base;
    while i <= n
        invariant
            i <= n + 1,
            n + 3 <= u32::MAX,
            base + grid_index(n + 2, 0) <= u32::MAX,
            top == base + grid_index(i as int, 0),
            out@ == before + grid_cells(base as int, i as nat),
        decreases n + 1 - i,
    {
        proof {
            lemma_grid_index_step(i as int);
            lemma_grid_index_step(i + 1);
            lemma_grid_index_monotone(i + 2, n + 2);
        }
        let bottom: u32 = top + i + 1;
        let ghost band_start = out@;
        let mut h: u32 = 0;
        while h < i
            invariant
                h <= i,
                i <= n,
                top == base + grid_index(i as int, 0),
                bottom == base + grid_index(i + 1, 0),
                bottom == top + i + 1,
                bottom + i + 1 <= u32::MAX,
                band_start == before + grid_cells(base as int, i as nat),
                out@ == band_start + Seq::new((2 * h) as nat, |w: int| cell_tri(base as int, i as int, w)),
            decreases i - h,
        {
            proof {
                assert((2 * h) / 2 == h && (2 * h) % 2 == 0);
                assert((2 * h + 1) / 2 == h && (2 * h + 1) % 2 == 1);
                assert(cell_tri(base as int, i as int, 2 * h) == tri(
                    bottom + h,
                    bottom + h + 1,
                    top + h,
                ));
                assert(cell_tri(base as int, i as int, 2 * h + 1) == tri(
                    top + h,
                    bottom + h + 1,
                    top + h + 1,
                ));
            }
            out.push(TriangleIdxSet(bottom + h, bottom + h + 1, top + h));
            out.push(TriangleIdxSet(top + h, bottom + h + 1, top + h + 1));
            proof {
                assert(out@ =~= band_start + Seq::new(
                    (2 * h + 2) as nat,
                    |w: int| cell_tri(base as int, i as int, w),
                ));
            }
            h = h + 1;
        }
        proof {
            assert((2 * i) / 2 == i && (2 * i) % 2 == 0);
            assert(cell_tri(base as int, i as int, 2 * i) == tri(bottom + i, bottom + i + 1, top + i));
        }
        out.push(TriangleIdxSet(bottom + i, bottom + i + 1, top + i));
        proof {
            assert(out@ =~= band_start + band_cells(base as int, i as int));
            assert(grid_cells(base as int, (i + 1) as nat) == grid_cells(base as int, i as nat)
                + band_cells(base as int, i as int));
            assert(out@ =~= before + grid_cells(base as int, (i + 1) as nat));
        }
        top = bottom;
        i = i + 1;
    }
}

/// Splits every triangle of `mesh` into `(subdivision_level + 1)²` smaller
/// triangles of a regular grid, keeping their counter-clockwise order.
///
/// Level 0 leaves the mesh as it is, each vertex as the grid point of level 0
/// at its own position, and reads no triangle. Otherwise each triangle gets
/// its own grid of `(n + 2)(n + 3) / 2` points at level `n`, which its cells
/// share, every one of them a corner of some cell.
pub fn subdivide_mesh<V: Copy>(mesh: Mesh<V>, subdivision_level: u32) -> (out: Mesh<GridPoint<V>>)
    requires
        subdivision_level > 0 ==> mesh.indices_in_range(),
        subdivision_level > 0 ==> subdivision_fits(
            mesh.triangle_seq().len() as int,
            subdivision_level as int,
        ),
    ensures
        out.vertex_seq() == subdivision_vertices(
            mesh.vertex_seq(),
            mesh.triangle_seq(),
            subdivision_level as int,
        ),
        out.triangle_seq() == subdivision_triangles(mesh.triangle_seq(), subdivision_level as int),
        out.vertex_seq().len() == if subdivision_level == 0 {
            mesh.vertex_seq().len() as int
        } else {
            mesh.triangle_seq().len() * subdivided_face_vertices(subdivision_level as int)
        },
        out.triangle_seq().len() == mesh.triangle_seq().len() * ((subdivision_level + 1) * (
        subdivision_level + 1)),
        subdivision_level > 0 ==> grid_layout(
            mesh.vertex_seq(),
            mesh.triangle_seq(),
            subdivision_level as int,
            out.vertex_seq(),
            out.triangle_seq(),
        ),
        subdivision_level > 0 ==> tiled_by_cells(
            mesh.vertex_seq(),
            mesh.triangle_seq(),
            subdivision_level as int,
            out.vertex_seq(),
            out.triangle_seq(),
        ),
        subdivision_level > 0 ==> covers_every_cell(
            mesh.triangle_seq(),
            subdivision_level as int,
            out.vertex_seq(),
            out.triangle_seq(),
        ),
        out.indices_in_range() <==> (subdivision_level > 0 || mesh.indices_in_range()),
        uses_every_vertex(out.triangle_seq(), out.vertex_seq().len() as int) <==> (
        subdivision_level > 0 || uses_every_vertex(
            mesh.triangle_seq(),
            mesh.vertex_seq().len() as int,
        )),
{
    let Mesh { vertices, indices } = mesh;
    if subdivision_level == 0 {
        let mut corners_only: Vec<GridPoint<V>> = Vec::with_capacity(vertices.len());
        let mut k: usize = 0;
        while k < vertices.len()
            invariant
                k <= vertices.len(),
                corners_only@ =~= vertices@.take(k as int).map_values(|v: V| corner_point(v)),
            decreases vertices.len() - k,
        {
            let v = vertices[k];
            corners_only.push(GridPoint { a: v, b: v, c: v, level: 0, row: 0, col: 0 });
            proof {
                assert(vertices@.take(k + 1) =~= vertices@.take(k as int).push(v));
            }
            k = k + 1;
        }
        assert(vertices@.take(vertices.len() as int) =~= vertices@);
        let out = Mesh { vertices: corners_only, indices };
        assert(indices@.len() * ((subdivision_level + 1) * (subdivision_level + 1)) == indices@.len())
            by (nonlinear_arith)
            requires
                subdivision_level == 0,
        ;
        return out;
    }
    let n: u32 = subdivision_level;
    let ghost verts = vertices@;
    let ghost tris = indices@;
    let ghost fv = subdivided_face_vertices(n as int);
    assert(n + 3 <= u32::MAX && n + 1 <= u32::MAX) by (nonlinear_arith)
        requires
            (n + 3) * (n + 2) <= u32::MAX,
    ;
    proof {
        lemma_grid_index_monotone(0, n + 2);
        assert(grid_index(n + 2, 0) == fv);
    }
    let new_vtx_count: u32 = (n + 3) * (n + 2) / 2;
    let new_idx_count: u32 = (n + 1) * (n + 1);
    let mut new_vertices: Vec<GridPoint<V>> = Vec::with_capacity(new_vtx_count as usize);
    let mut new_indexes: Vec<TriangleIdxSet> = Vec::with_capacity(new_idx_count as usize);
    let mut t: usize = 0;
    while t < indices.len()
        invariant
            verts == vertices@,
            tris == indices@,
            tris_in_range(tris, verts.len() as int),
            n > 0,
            n + 3 <= u32::MAX,
            fv == subdivided_face_vertices(n as int),
            fv >= 0,
            subdivision_fits(tris.len() as int, n as int),
            t <= tris.len(),
            new_vertices@ == subdivided_vertices(verts, tris, n as int, t as nat),
            new_indexes@ == subdivided_triangles(n as int, t as nat),
            new_vertices@.len() == t * fv,
        decreases tris.len() - t,
    {
        let idx_set = indices[t];
        assert(tri_in_range(tris[t as int], verts.len() as int));
        let a = vertices[idx_set.0 as usize];
        let b = vertices[idx_set.1 as usize];
        let c = vertices[idx_set.2 as usize];
        let corners = (a, b, c);
        proof {
            assert(corners == corners_of(verts, tris[t as int]));
            assert(t * fv + fv <= tris.len() * fv) by (nonlinear_arith)
                requires
                    t < tris.len(),
                    fv >= 0,
            ;
            assert((t + 1) * fv == t * fv + fv) by (nonlinear_arith);
        }
        let base: u32 = new_vertices.len() as u32;
        push_grid_points(&mut new_vertices, corners, n);
        push_grid_cells(&mut new_indexes, base, n);
        proof {
            lemma_grid_rows(corners, n as int, (n + 2) as nat);
            assert(base == face_base(t as int, n as int));
            assert(new_vertices@ =~= subdivided_vertices(verts, tris, n as int, (t + 1) as nat));
            assert(new_indexes@ =~= subdivided_triangles(n as int, (t + 1) as nat));
        }
        t = t + 1;
    }
    proof {
        lemma_subdivision_tiles(verts, tris, n);
        lemma_subdivision_covers(verts, tris, n);
        lemma_subdivision_layout(verts, tris, n);
        lemma_subdivision_uses_every_vertex(verts, tris, n);
    }
    Mesh { vertices: new_vertices, indices: new_indexes }
}

/// Whether `p` is a grid point of the triangle `corners` subdivided at
/// level `n`: it names those corners and that level, and its column does
/// not pass its row, nor its row the last one.
pub open spec fn on_grid<V>(p: GridPoint<V>, corners: (V, V, V), n: int) -> bool {
    &&& p.a == corners.0
    &&& p.b == corners.1
    &&& p.c == corners.2
    &&& p.level == n
    &&& p.col <= p.row <= n + 1
}

/// Twice the signed area of the triangle `(p0, p1, p2)` of grid points,
/// measured in the grid's own coordinates: steps towards `b` and towards `c`.
/// It is positive for a triangle that turns the same way as `(a, b, c)`.
pub open spec fn lattice_cross<V>(p0: GridPoint<V>, p1: GridPoint<V>, p2: GridPoint<V>) -> int {
    let du1 = (p1.row - p1.col) - (p0.row - p0.col);
    let dv1 = p1.col - p0.col;
    let du2 = (p2.row - p2.col) - (p0.row - p0.col);
    let dv2 = p2.col - p0.col;
    du1 * dv2 - dv1 * du2
}

/// Whether `(p0, p1, p2)` is one of the smallest triangles of the grid of
/// `corners` at level `n`, turning the same way as the corners themselves.
pub open spec fn grid_cell<V>(
    p0: GridPoint<V>,
    p1: GridPoint<V>,
    p2: GridPoint<V>,
    corners: (V, V, V),
    n: int,
) -> bool {
    &&& on_grid(p0, corners, n)
    &&& on_grid(p1, corners, n)
    &&& on_grid(p2, corners, n)
    &&& lattice_cross(p0, p1, p2) == 1
}

/// Whether triangle `t` of `verts` is a grid cell of `corners` at level `n`.
pub open spec fn cell_at<V>(
    verts: Seq<GridPoint<V>>,
    t: TriangleIdxSet,
    corners: (V, V, V),
    n: int,
) -> bool {
    grid_cell(verts[t.0 as int], verts[t.1 as int], verts[t.2 as int], corners, n)
}

/// The band of the cell `(p0, p1, p2)`: the first of the two grid rows that
/// its corners lie on.
pub open spec fn cell_band<V>(p0: GridPoint<V>, p1: GridPoint<V>, p2: GridPoint<V>) -> int {
    let r01 = if p0.row <= p1.row { p0.row as int } else { p1.row as int };
    if r01 <= p2.row { r01 } else { p2.row as int }
}

/// Whether the cell `(p0, p1, p2)` points up: two of its corners lie on the
/// second row of its band, one on the first.
pub open spec fn cell_points_up<V>(p0: GridPoint<V>, p1: GridPoint<V>, p2: GridPoint<V>) -> bool {
    let b = cell_band(p0, p1, p2);
    (if p0.row == b + 1 { 1int } else { 0 }) + (if p1.row == b + 1 { 1int } else { 0 }) + (
    if p2.row == b + 1 { 1int } else { 0 }) == 2
}

/// The column of the cell `(p0, p1, p2)`: the smallest column of its corners.
pub open spec fn cell_col<V>(p0: GridPoint<V>, p1: GridPoint<V>, p2: GridPoint<V>) -> int {
    let c01 = if p0.col <= p1.col { p0.col as int } else { p1.col as int };
    if c01 <= p2.col { c01 } else { p2.col as int }
}

/// Whether `(band, up, col)` names one of the `(n + 1)²` cells of a grid of
/// level `n`: band `b` holds `b + 1` cells pointing up and `b` pointing down.
pub open spec fn valid_cell(band: int, up: bool, col: int, n: int) -> bool {
    &&& 0 <= band <= n
    &&& 0 <= col
    &&& if up { col <= band } else { col < band }
}

/// Where the cell `(band, up, col)` comes in the order in which one
/// triangle's cells are made: band after band, and within a band from
/// column 0 on, pointing up and down in turn.
pub open spec fn cell_position(band: int, up: bool, col: int) -> int {
    band * band + if up {
        if col < band {
            2 * col
        } else {
            2 * band
        }
    } else {
        2 * col + 1
    }
}

/// Whether the grid cell `(p0, p1, p2)` of a grid of level `n` is a valid
/// cell and is the one at position `pos`.
pub open spec fn placed_cell<V>(
    p0: GridPoint<V>,
    p1: GridPoint<V>,
    p2: GridPoint<V>,
    n: int,
    pos: int,
) -> bool {
    let band = cell_band(p0, p1, p2);
    let up = cell_points_up(p0, p1, p2);
    let col = cell_col(p0, p1, p2);
    &&& valid_cell(band, up, col, n)
    &&& cell_position(band, up, col) == pos
}

/// The cross product of two lattice steps whose coordinates are known.
proof fn lemma_cross_value<V>(
    p0: GridPoint<V>,
    p1: GridPoint<V>,
    p2: GridPoint<V>,
    du1: int,
    dv1: int,
    du2: int,
    dv2: int,
)
    requires
        (p1.row - p1.col) - (p0.row - p0.col) == du1,
        p1.col - p0.col == dv1,
        (p2.row - p2.col) - (p0.row - p0.col) == du2,
        p2.col - p0.col == dv2,
    ensures
        lattice_cross(p0, p1, p2) == du1 * dv2 - dv1 * du2,
{
}

/// Where subdividing at `level` puts the cell `(band, up, col)` of source
/// triangle `t`.
pub open spec fn cell_index(t: int, level: int, band: int, up: bool, col: int) -> int {
    t * ((level + 1) * (level + 1)) + cell_position(band, up, col)
}

/// Every cell of a grid of level `n` comes among the first `(n + 1)²`
/// positions.
pub proof fn lemma_cell_position_range(band: int, up: bool, col: int, n: int)
    requires
        valid_cell(band, up, col, n),
    ensures
        0 <= cell_position(band, up, col) < (n + 1) * (n + 1),
{
    let p = cell_position(band, up, col);
    assert(0 <= p < (band + 1) * (band + 1)) by (nonlinear_arith)
        requires
            valid_cell(band, up, col, n),
            p == cell_position(band, up, col),
    ;
    assert((band + 1) * (band + 1) <= (n + 1) * (n + 1)) by (nonlinear_arith)
        requires
            0 <= band <= n,
    ;
}

/// Two different positions among one triangle's cells are two different
/// cells: `cell_position` tells valid cells apart.
pub proof fn lemma_cell_position_distinct(
    b1: int,
    up1: bool,
    c1: int,
    b2: int,
    up2: bool,
    c2: int,
    n: int,
)
    requires
        valid_cell(b1, up1, c1, n),
        valid_cell(b2, up2, c2, n),
        cell_position(b1, up1, c1) == cell_position(b2, up2, c2),
    ensures
        b1 == b2,
        up1 == up2,
        c1 == c2,
{
    let p1 = cell_position(b1, up1, c1);
    let p2 = cell_position(b2, up2, c2);
    assert(b1 * b1 <= p1 < (b1 + 1) * (b1 + 1)) by (nonlinear_arith)
        requires
            valid_cell(b1, up1, c1, n),
            p1 == cell_position(b1, up1, c1),
    ;
    assert(b2 * b2 <= p2 < (b2 + 1) * (b2 + 1)) by (nonlinear_arith)
        requires
            valid_cell(b2, up2, c2, n),
            p2 == cell_position(b2, up2, c2),
    ;
    if b1 < b2 {
        assert((b1 + 1) * (b1 + 1) <= b2 * b2) by (nonlinear_arith)
            requires
                0 <= b1 < b2,
        ;
    } else if b2 < b1 {
        assert((b2 + 1) * (b2 + 1) <= b1 * b1) by (nonlinear_arith)
            requires
                0 <= b2 < b1,
        ;
    }
}

/// A vertex of one of the shapes the viewer offers.
#[derive(Clone, Copy, Debug, PartialEq, Eq)]
pub enum ShapeVertex {
    /// The position its recipe describes.
    Plain(VertexRecipe),
    /// The point of the unit sphere in the direction of `(x, y, z)` from the
    /// origin: each of x, y and z divided by the length of `(x, y, z)`, with
    /// w = 1.
    OnSphere { x: i64, y: i64, z: i64 },
}

/// Each vertex at the position its recipe describes.
pub open spec fn plain_vertices(s: Seq<VertexRecipe>) -> Seq<ShapeVertex> {
    s.map_values(|v: VertexRecipe| ShapeVertex::Plain(v))
}

/// Face `f` (0 to 5) of the cube: its corner `p0`, and the edges `e1` from
/// `p0` to `p1` and `e2` from `p0` to `p3`, where `(p0, p1, p2)` and
/// `(p0, p2, p3)` are the two triangles of that face in `cube_triangles`,
/// up to where each starts: the front, back, left, right, top and bottom in
/// turn.
pub open spec fn cube_face(f: int) -> ((int, int, int), (int, int, int), (int, int, int)) {
    if f == 0 {
        ((-1, 1, -1), (0, -2, 0), (2, 0, 0))
    } else if f == 1 {
        ((-1, 1, 1), (2, 0, 0), (0, -2, 0))
    } else if f == 2 {
        ((-1, 1, 1), (0, -2, 0), (0, 0, -2))
    } else if f == 3 {
        ((1, -1, 1), (0, 2, 0), (0, 0, -2))
    } else if f == 4 {
        ((1, 1, -1), (0, 0, 2), (-2, 0, 0))
    } else {
        ((-1, -1, 1), (2, 0, 0), (0, 0, -2))
    }
}

/// How many rows of squares each face of the sphere at `level` is split
/// into: `2^⌈level / 2⌉`, along `e1`.
pub open spec fn sphere_rows(level: int) -> int {
    pow2(((level + 1) / 2) as nat) as int
}

/// How many columns of squares each face of the sphere at `level` is split
/// into: `2^⌊level / 2⌋`, along `e2`.
pub open spec fn sphere_cols(level: int) -> int {
    pow2((level / 2) as nat) as int
}

/// How many grid points each face of the sphere at `level` has.
pub open spec fn sphere_face_points(level: int) -> int {
    (sphere_rows(level) + 1) * (sphere_cols(level) + 1)
}

/// Grid point `(i, j)` of face `f` of the sphere at `level`: the point
/// `p0 + (i / rows) e1 + (j / cols) e2` of the cube's face, scaled by
/// `rows · cols` so that its coordinates are integers, and moved onto the
/// sphere.
pub open spec fn sphere_point(level: int, f: int, i: int, j: int) -> ShapeVertex {
    let (p0, e1, e2) = cube_face(f);
    let r = sphere_rows(level);
    let c = sphere_cols(level);
    ShapeVertex::OnSphere {
        x: (p0.0 * r * c + i * c * e1.0 + j * r * e2.0) as i64,
        y: (p0.1 * r * c + i * c * e1.1 + j * r * e2.1) as i64,
        z: (p0.2 * r * c + i * c * e1.2 + j * r * e2.2) as i64,
    }
}

/// Where grid point `(i, j)` of face `f` stands among the sphere's vertices:
/// face after face, row after row.
pub open spec fn sphere_point_index(level: int, f: int, i: int, j: int) -> int {
    f * sphere_face_points(level) + i * (sphere_cols(level) + 1) + j
}

/// The vertices of the sphere at `level`.
pub open spec fn sphere_vertices(level: int) -> Seq<ShapeVertex> {
    let s = sphere_face_points(level);
    let w = sphere_cols(level) + 1;
    Seq::new((6 * s) as nat, |v: int| sphere_point(level, v / s, (v % s) / w, (v % s) % w))
}

/// Triangle `q` of the sphere at `level`: face after face, and on each face
/// square after square, row after row, two triangles per square wound as
/// the cube's own face.
pub open spec fn sphere_tri(level: int, q: int) -> TriangleIdxSet {
    let c = sphere_cols(level);
    let per_face = 2 * sphere_rows(level) * c;
    let f = q / per_face;
    let cell = (q % per_face) / 2;
    let i = cell / c;
    let j = cell % c;
    if (q % per_face) % 2 == 0 {
        tri(
            sphere_point_index(level, f, i, j),
            sphere_point_index(level, f, i + 1, j),
            sphere_point_index(level, f, i + 1, j + 1),
        )
    } else {
        tri(
            sphere_point_index(level, f, i, j),
            sphere_point_index(level, f, i + 1, j + 1),
            sphere_point_index(level, f, i, j + 1),
        )
    }
}

/// The `12 · 2^level` triangles of the sphere at `level`.
pub open spec fn sphere_triangles(level: int) -> Seq<TriangleIdxSet> {
    Seq::new((12 * sphere_rows(level) * sphere_cols(level)) as nat, |q: int| sphere_tri(level, q))
}

/// Whether the sphere at `level` can be built: its `12 · 2^level` triangles,
/// and so its vertices, can be numbered in 32 bits.
pub open spec fn sphere_fits(level: int) -> bool {
    12 * pow2(level as nat) <= u32::MAX
}

/// The sizes of the sphere at a level that fits.
proof fn lemma_sphere_dims(level: int)
    requires
        level >= 0,
        sphere_fits(level),
    ensures
        level <= 28,
        sphere_rows(level) * sphere_cols(level) == pow2(level as nat),
        1 <= sphere_cols(level) <= sphere_rows(level) <= 16384,
        6 * sphere_face_points(level) <= u32::MAX,
        12 * sphere_rows(level) * sphere_cols(level) <= u32::MAX,
{
    lemma2_to64();
    if level > 29 {
        lemma_pow2_strictly_increases(29, level as nat);
    }
    let er = ((level + 1) / 2) as nat;
    let ec = (level / 2) as nat;
    lemma_pow2_adds(er, ec);
    assert(er + ec == level);
    lemma_pow2_pos(ec);
    if ec < er {
        lemma_pow2_strictly_increases(ec, er);
    }
    if er < 14 {
        lemma_pow2_strictly_increases(er, 14);
    }
    let r = sphere_rows(level);
    let c = sphere_cols(level);
    assert(6 * ((r + 1) * (c + 1)) <= 6 * (16385 * 16385)) by (nonlinear_arith)
        requires
            1 <= c <= r <= 16384,
    ;
    assert(12 * r * c == 12 * (r * c)) by (nonlinear_arith);
}

/// Grid point `(i, j)` of face `f` is vertex `sphere_point_index(level, f, i, j)`.
proof fn lemma_sphere_vertex_at(level: int, f: int, i: int, j: int)
    requires
        level >= 0,
        sphere_fits(level),
        0 <= f < 6,
        0 <= i <= sphere_rows(level),
        0 <= j <= sphere_cols(level),
    ensures
        0 <= sphere_point_index(level, f, i, j) < 6 * sphere_face_points(level),
        f * sphere_face_points(level) <= sphere_point_index(level, f, i, j) < (f + 1)
            * sphere_face_points(level),
        sphere_vertices(level)[sphere_point_index(level, f, i, j)] == sphere_point(level, f, i, j),
{
    lemma_sphere_dims(level);
    let s = sphere_face_points(level);
    let w = sphere_cols(level) + 1;
    let l = i * w + j;
    assert(0 <= l < s) by (nonlinear_arith)
        requires
            0 <= i <= sphere_rows(level),
            0 <= j < w,
            l == i * w + j,
            s == (sphere_rows(level) + 1) * w,
    ;
    assert(0 <= f * s && f * s + s <= 6 * s) by (nonlinear_arith)
        requires
            0 <= f < 6,
            s > 0,
    ;
    assert((f + 1) * s == f * s + s) by (nonlinear_arith);
    vstd::arithmetic::div_mod::lemma_fundamental_div_mod_converse(f * s + l, s, f, l);
    vstd::arithmetic::div_mod::lemma_fundamental_div_mod_converse(l, w, i, j);
}

/// The two triangles of square `(i, j)` of face `f`.
proof fn lemma_sphere_tri_at(level: int, f: int, i: int, j: int)
    requires
        level >= 0,
        sphere_fits(level),
        0 <= f < 6,
        0 <= i < sphere_rows(level),
        0 <= j < sphere_cols(level),
    ensures
        ({
            let q = f * (2 * sphere_rows(level) * sphere_cols(level)) + 2 * (i * sphere_cols(level)
                + j);
            &&& 0 <= q
            &&& q + 1 < 12 * sphere_rows(level) * sphere_cols(level)
            &&& sphere_tri(level, q) == tri(
                sphere_point_index(level, f, i, j),
                sphere_point_index(level, f, i + 1, j),
                sphere_point_index(level, f, i + 1, j + 1),
            )
            &&& sphere_tri(level, q + 1) == tri(
                sphere_point_index(level, f, i, j),
                sphere_point_index(level, f, i + 1, j + 1),
                sphere_point_index(level, f, i, j + 1),
            )
        }),
{
    lemma_sphere_dims(level);
    let r = sphere_rows(level);
    let c = sphere_cols(level);
    let pf = 2 * r * c;
    let cell = i * c + j;
    assert(0 <= cell < r * c) by (nonlinear_arith)
        requires
            0 <= i < r,
            0 <= j < c,
            cell == i * c + j,
    ;
    assert(pf == 2 * (r * c)) by (nonlinear_arith)
        requires
            pf == 2 * r * c,
    ;
    assert(0 <= f * pf && f * pf + pf <= 6 * pf) by (nonlinear_arith)
        requires
            0 <= f < 6,
            pf > 0,
    ;
    assert(6 * pf == 12 * r * c) by (nonlinear_arith)
        requires
            pf == 2 * r * c,
    ;
    let q = f * pf + 2 * cell;
    vstd::arithmetic::div_mod::lemma_fundamental_div_mod_converse(q, pf, f, 2 * cell);
    vstd::arithmetic::div_mod::lemma_fundamental_div_mod_converse(q + 1, pf, f, 2 * cell + 1);
    assert((2 * cell) / 2 == cell && (2 * cell) % 2 == 0);
    assert((2 * cell + 1) / 2 == cell && (2 * cell + 1) % 2 == 1);
    vstd::arithmetic::div_mod::lemma_fundamental_div_mod_converse(cell, c, i, j);
}

/// Every vertex of the sphere at `level` is a corner of one of its
/// triangles.
proof fn lemma_sphere_uses_every_vertex(level: int)
    requires
        level >= 0,
        sphere_fits(level),
    ensures
        uses_every_vertex(sphere_triangles(level), sphere_vertices(level).len() as int),
{
    lemma_sphere_dims(level);
    let r = sphere_rows(level);
    let c = sphere_cols(level);
    let s = sphere_face_points(level);
    let w = c + 1;
    let ts = sphere_triangles(level);
    assert(s == (r + 1) * w);
    assert(s > 0) by (nonlinear_arith)
        requires
            s == (r + 1) * w,
            r >= 1,
            w >= 1,
    ;
    assert forall|v: int| 0 <= v < sphere_vertices(level).len() implies #[trigger] vertex_used(ts, v) by {
        lemma_split_index(v, s, 6);
        let f = v / s;
        let l = v % s;
        lemma_split_index(l, w, r + 1);
        let i = l / w;
        let j = l % w;
        assert(v == sphere_point_index(level, f, i, j));
        let si = if i < r { i } else { r - 1 };
        let sj = if j < c { j } else { c - 1 };
        lemma_sphere_tri_at(level, f, si, sj);
        let q = f * (2 * r * c) + 2 * (si * c + sj);
        if i < r && j == c {
            assert(tri_uses(ts[q + 1], v));
        } else {
            assert(tri_uses(ts[q], v));
        }
    }
}

/// `u - w`, coordinate by coordinate.
pub open spec fn sub3(u: (int, int, int), w: (int, int, int)) -> (int, int, int) {
    (u.0 - w.0, u.1 - w.1, u.2 - w.2)
}

/// The cross product `u × w`.
pub open spec fn cross3(u: (int, int, int), w: (int, int, int)) -> (int, int, int) {
    (u.1 * w.2 - u.2 * w.1, u.2 * w.0 - u.0 * w.2, u.0 * w.1 - u.1 * w.0)
}

/// The dot product `u · w`.
pub open spec fn dot3(u: (int, int, int), w: (int, int, int)) -> int {
    u.0 * w.0 + u.1 * w.1 + u.2 * w.2
}

/// Whether the triangle `(a, b, c)`, on a plane that leaves the origin on
/// one side, turns the way every face of the cube does:
/// `((b - a) × (c - a)) · a < 0`.
pub open spec fn turns_like_cube(a: (int, int, int), b: (int, int, int), c: (int, int, int)) -> bool {
    dot3(cross3(sub3(b, a), sub3(c, a)), a) < 0
}

/// The position `(x, y, z)` of an exact vertex recipe.
pub open spec fn exact_position(v: VertexRecipe) -> (int, int, int) {
    match v {
        VertexRecipe::Exact { x, y, z } => (x as int, y as int, z as int),
        _ => (0, 0, 0),
    }
}

/// The direction `(x, y, z)` of a point on the sphere.
pub open spec fn sphere_direction(v: ShapeVertex) -> (int, int, int) {
    match v {
        ShapeVertex::OnSphere { x, y, z } => (x as int, y as int, z as int),
        _ => (0, 0, 0),
    }
}

/// Whether every triangle of `tris` turns like the cube's faces, its
/// corners at the positions of the exact recipes `verts`.
pub open spec fn exact_triangles_turn_like_cube(verts: Seq<VertexRecipe>, tris: Seq<TriangleIdxSet>) -> bool {
    forall|q: int|
        0 <= q < tris.len() ==> turns_like_cube(
            exact_position(verts[(#[trigger] tris[q]).0 as int]),
            exact_position(verts[tris[q].1 as int]),
            exact_position(verts[tris[q].2 as int]),
        )
}

/// Whether every triangle of `tris` turns like the cube's faces, its
/// corners at the directions of the points on the sphere `verts`.
pub open spec fn sphere_triangles_turn_like_cube(verts: Seq<ShapeVertex>, tris: Seq<TriangleIdxSet>) -> bool {
    forall|q: int|
        0 <= q < tris.len() ==> turns_like_cube(
            sphere_direction(verts[(#[trigger] tris[q]).0 as int]),
            sphere_direction(verts[tris[q].1 as int]),
            sphere_direction(verts[tris[q].2 as int]),
        )
}

/// Grid point `(i, j)` of the square with corner `p0` and edges `e1`, `e2`
/// split into `r` by `c` squares, scaled by `r · c`.
pub open spec fn square_point(
    p0: (int, int, int),
    e1: (int, int, int),
    e2: (int, int, int),
    r: int,
    c: int,
    i: int,
    j: int,
) -> (int, int, int) {
    (
        p0.0 * r * c + i * c * e1.0 + j * r * e2.0,
        p0.1 * r * c + i * c * e1.1 + j * r * e2.1,
        p0.2 * r * c + i * c * e1.2 + j * r * e2.2,
    )
}

/// The facts about a grid position that the turning of its squares needs.
proof fn lemma_square_facts(r: int, c: int, i: int, j: int)
    requires
        r >= 1,
        c >= 1,
    ensures
        (i + 1) * c == i * c + c,
        (j + 1) * r == j * r + r,
        r * c == c * r,
        c * r >= 1,
        (c * r) * (c * r) > 0,
{
    assert((i + 1) * c == i * c + c) by (nonlinear_arith);
    assert((j + 1) * r == j * r + r) by (nonlinear_arith);
    assert(r * c == c * r) by (nonlinear_arith);
    assert(c * r >= 1) by (nonlinear_arith)
        requires
            r >= 1,
            c >= 1,
    ;
    assert((c * r) * (c * r) > 0) by (nonlinear_arith)
        requires
            c * r >= 1,
    ;
}

/// Both triangles of every small square of the cube's front face,
/// split into `r` by `c` squares, turn the way the cube's faces do.
proof fn lemma_front_square_turns(r: int, c: int, i: int, j: int)
    requires
        r >= 1,
        c >= 1,
    ensures
        turns_like_cube(
            square_point((-1int, 1int, -1int), (0int, -2int, 0int), (2int, 0int, 0int), r, c, i, j),
            square_point((-1int, 1int, -1int), (0int, -2int, 0int), (2int, 0int, 0int), r, c, i + 1, j),
            square_point((-1int, 1int, -1int), (0int, -2int, 0int), (2int, 0int, 0int), r, c, i + 1, j + 1),
        ),
        turns_like_cube(
            square_point((-1int, 1int, -1int), (0int, -2int, 0int), (2int, 0int, 0int), r, c, i, j),
            square_point((-1int, 1int, -1int), (0int, -2int, 0int), (2int, 0int, 0int), r, c, i + 1, j + 1),
            square_point((-1int, 1int, -1int), (0int, -2int, 0int), (2int, 0int, 0int), r, c, i, j + 1),
        ),
{
    let a = square_point((-1int, 1int, -1int), (0int, -2int, 0int), (2int, 0int, 0int), r, c, i, j);
    let b = square_point((-1int, 1int, -1int), (0int, -2int, 0int), (2int, 0int, 0int), r, c, i + 1, j);
    let d = square_point((-1int, 1int, -1int), (0int, -2int, 0int), (2int, 0int, 0int), r, c, i + 1, j + 1);
    let e = square_point((-1int, 1int, -1int), (0int, -2int, 0int), (2int, 0int, 0int), r, c, i, j + 1);
    let k = c * r;
    lemma_square_facts(r, c, i, j);
    assert(sub3(b, a) == (0int, -2 * c, 0int)) by (nonlinear_arith)
        requires
            a == square_point((-1int, 1int, -1int), (0int, -2int, 0int), (2int, 0int, 0int), r, c, i, j),
            b == square_point((-1int, 1int, -1int), (0int, -2int, 0int), (2int, 0int, 0int), r, c, i + 1, j),
            d == square_point((-1int, 1int, -1int), (0int, -2int, 0int), (2int, 0int, 0int), r, c, i + 1, j + 1),
            e == square_point((-1int, 1int, -1int), (0int, -2int, 0int), (2int, 0int, 0int), r, c, i, j + 1),
            k == c * r,
    ;
    assert(sub3(d, a) == (2 * r, -2 * c, 0int)) by (nonlinear_arith)
        requires
            a == square_point((-1int, 1int, -1int), (0int, -2int, 0int), (2int, 0int, 0int), r, c, i, j),
            b == square_point((-1int, 1int, -1int), (0int, -2int, 0int), (2int, 0int, 0int), r, c, i + 1, j),
            d == square_point((-1int, 1int, -1int), (0int, -2int, 0int), (2int, 0int, 0int), r, c, i + 1, j + 1),
            e == square_point((-1int, 1int, -1int), (0int, -2int, 0int), (2int, 0int, 0int), r, c, i, j + 1),
            k == c * r,
    ;
    assert(sub3(e, a) == (2 * r, 0int, 0int)) by (nonlinear_arith)
        requires
            a == square_point((-1int, 1int, -1int), (0int, -2int, 0int), (2int, 0int, 0int), r, c, i, j),
            b == square_point((-1int, 1int, -1int), (0int, -2int, 0int), (2int, 0int, 0int), r, c, i + 1, j),
            d == square_point((-1int, 1int, -1int), (0int, -2int, 0int), (2int, 0int, 0int), r, c, i + 1, j + 1),
            e == square_point((-1int, 1int, -1int), (0int, -2int, 0int), (2int, 0int, 0int), r, c, i, j + 1),
            k == c * r,
    ;
    assert(cross3((0int, -2 * c, 0int), (2 * r, -2 * c, 0int)) == (0int, 0int, 4 * k)) by (nonlinear_arith)
        requires
            k == c * r,
    ;
    assert(cross3((2 * r, -2 * c, 0int), (2 * r, 0int, 0int)) == (0int, 0int, 4 * k)) by (nonlinear_arith)
        requires
            k == c * r,
    ;
    assert(a.2 == -1 * k) by (nonlinear_arith)
        requires
            a == square_point((-1int, 1int, -1int), (0int, -2int, 0int), (2int, 0int, 0int), r, c, i, j),
            b == square_point((-1int, 1int, -1int), (0int, -2int, 0int), (2int, 0int, 0int), r, c, i + 1, j),
            d == square_point((-1int, 1int, -1int), (0int, -2int, 0int), (2int, 0int, 0int), r, c, i + 1, j + 1),
            e == square_point((-1int, 1int, -1int), (0int, -2int, 0int), (2int, 0int, 0int), r, c, i, j + 1),
            k == c * r,
    ;
    assert(dot3((0int, 0int, 4 * k), a) == -4 * (k * k)) by (nonlinear_arith)
        requires
            a.2 == -1 * k,
    ;
}

/// Both triangles of every small square of the cube's back face,
/// split into `r` by `c` squares, turn the way the cube's faces do.
proof fn lemma_back_square_turns(r: int, c: int, i: int, j: int)
    requires
        r >= 1,
        c >= 1,
    ensures
        turns_like_cube(
            square_point((-1int, 1int, 1int), (2int, 0int, 0int), (0int, -2int, 0int), r, c, i, j),
            square_point((-1int, 1int, 1int), (2int, 0int, 0int), (0int, -2int, 0int), r, c, i + 1, j),
            square_point((-1int, 1int, 1int), (2int, 0int, 0int), (0int, -2int, 0int), r, c, i + 1, j + 1),
        ),
        turns_like_cube(
            square_point((-1int, 1int, 1int), (2int, 0int, 0int), (0int, -2int, 0int), r, c, i, j),
            square_point((-1int, 1int, 1int), (2int, 0int, 0int), (0int, -2int, 0int), r, c, i + 1, j + 1),
            square_point((-1int, 1int, 1int), (2int, 0int, 0int), (0int, -2int, 0int), r, c, i, j + 1),
        ),
{
    let a = square_point((-1int, 1int, 1int), (2int, 0int, 0int), (0int, -2int, 0int), r, c, i, j);
    let b = square_point((-1int, 1int, 1int), (2int, 0int, 0int), (0int, -2int, 0int), r, c, i + 1, j);
    let d = square_point((-1int, 1int, 1int), (2int, 0int, 0int), (0int, -2int, 0int), r, c, i + 1, j + 1);
    let e = square_point((-1int, 1int, 1int), (2int, 0int, 0int), (0int, -2int, 0int), r, c, i, j + 1);
    let k = c * r;
    lemma_square_facts(r, c, i, j);
    assert(sub3(b, a) == (2 * c, 0int, 0int)) by (nonlinear_arith)
        requires
            a == square_point((-1int, 1int, 1int), (2int, 0int, 0int), (0int, -2int, 0int), r, c, i, j),
            b == square_point((-1int, 1int, 1int), (2int, 0int, 0int), (0int, -2int, 0int), r, c, i + 1, j),
            d == square_point((-1int, 1int, 1int), (2int, 0int, 0int), (0int, -2int, 0int), r, c, i + 1, j + 1),
            e == square_point((-1int, 1int, 1int), (2int, 0int, 0int), (0int, -2int, 0int), r, c, i, j + 1),
            k == c * r,
    ;
    assert(sub3(d, a) == (2 * c, -2 * r, 0int)) by (nonlinear_arith)
        requires
            a == square_point((-1int, 1int, 1int), (2int, 0int, 0int), (0int, -2int, 0int), r, c, i, j),
            b == square_point((-1int, 1int, 1int), (2int, 0int, 0int), (0int, -2int, 0int), r, c, i + 1, j),
            d == square_point((-1int, 1int, 1int), (2int, 0int, 0int), (0int, -2int, 0int), r, c, i + 1, j + 1),
            e == square_point((-1int, 1int, 1int), (2int, 0int, 0int), (0int, -2int, 0int), r, c, i, j + 1),
            k == c * r,
    ;
    assert(sub3(e, a) == (0int, -2 * r, 0int)) by (nonlinear_arith)
        requires
            a == square_point((-1int, 1int, 1int), (2int, 0int, 0int), (0int, -2int, 0int), r, c, i, j),
            b == square_point((-1int, 1int, 1int), (2int, 0int, 0int), (0int, -2int, 0int), r, c, i + 1, j),
            d == square_point((-1int, 1int, 1int), (2int, 0int, 0int), (0int, -2int, 0int), r, c, i + 1, j + 1),
            e == square_point((-1int, 1int, 1int), (2int, 0int, 0int), (0int, -2int, 0int), r, c, i, j + 1),
            k == c * r,
    ;
    assert(cross3((2 * c, 0int, 0int), (2 * c, -2 * r, 0int)) == (0int, 0int, -4 * k)) by (nonlinear_arith)
        requires
            k == c * r,
    ;
    assert(cross3((2 * c, -2 * r, 0int), (0int, -2 * r, 0int)) == (0int, 0int, -4 * k)) by (nonlinear_arith)
        requires
            k == c * r,
    ;
    assert(a.2 == 1 * k) by (nonlinear_arith)
        requires
            a == square_point((-1int, 1int, 1int), (2int, 0int, 0int), (0int, -2int, 0int), r, c, i, j),
            b == square_point((-1int, 1int, 1int), (2int, 0int, 0int), (0int, -2int, 0int), r, c, i + 1, j),
            d == square_point((-1int, 1int, 1int), (2int, 0int, 0int), (0int, -2int, 0int), r, c, i + 1, j + 1),
            e == square_point((-1int, 1int, 1int), (2int, 0int, 0int), (0int, -2int, 0int), r, c, i, j + 1),
            k == c * r,
    ;
    assert(dot3((0int, 0int, -4 * k), a) == -4 * (k * k)) by (nonlinear_arith)
        requires
            a.2 == 1 * k,
    ;
}

/// Both triangles of every small square of the cube's left face,
/// split into `r` by `c` squares, turn the way the cube's faces do.
proof fn lemma_left_square_turns(r: int, c: int, i: int, j: int)
    requires
        r >= 1,
        c >= 1,
    ensures
        turns_like_cube(
            square_point((-1int, 1int, 1int), (0int, -2int, 0int), (0int, 0int, -2int), r, c, i, j),
            square_point((-1int, 1int, 1int), (0int, -2int, 0int), (0int, 0int, -2int), r, c, i + 1, j),
            square_point((-1int, 1int, 1int), (0int, -2int, 0int), (0int, 0int, -2int), r, c, i + 1, j + 1),
        ),
        turns_like_cube(
            square_point((-1int, 1int, 1int), (0int, -2int, 0int), (0int, 0int, -2int), r, c, i, j),
            square_point((-1int, 1int, 1int), (0int, -2int, 0int), (0int, 0int, -2int), r, c, i + 1, j + 1),
            square_point((-1int, 1int, 1int), (0int, -2int, 0int), (0int, 0int, -2int), r, c, i, j + 1),
        ),
{
    let a = square_point((-1int, 1int, 1int), (0int, -2int, 0int), (0int, 0int, -2int), r, c, i, j);
    let b = square_point((-1int, 1int, 1int), (0int, -2int, 0int), (0int, 0int, -2int), r, c, i + 1, j);
    let d = square_point((-1int, 1int, 1int), (0int, -2int, 0int), (0int, 0int, -2int), r, c, i + 1, j + 1);
    let e = square_point((-1int, 1int, 1int), (0int, -2int, 0int), (0int, 0int, -2int), r, c, i, j + 1);
    let k = c * r;
    lemma_square_facts(r, c, i, j);
    assert(sub3(b, a) == (0int, -2 * c, 0int)) by (nonlinear_arith)
        requires
            a == square_point((-1int, 1int, 1int), (0int, -2int, 0int), (0int, 0int, -2int), r, c, i, j),
            b == square_point((-1int, 1int, 1int), (0int, -2int, 0int), (0int, 0int, -2int), r, c, i + 1, j),
            d == square_point((-1int, 1int, 1int), (0int, -2int, 0int), (0int, 0int, -2int), r, c, i + 1, j + 1),
            e == square_point((-1int, 1int, 1int), (0int, -2int, 0int), (0int, 0int, -2int), r, c, i, j + 1),
            k == c * r,
    ;
    assert(sub3(d, a) == (0int, -2 * c, -2 * r)) by (nonlinear_arith)
        requires
            a == square_point((-1int, 1int, 1int), (0int, -2int, 0int), (0int, 0int, -2int), r, c, i, j),
            b == square_point((-1int, 1int, 1int), (0int, -2int, 0int), (0int, 0int, -2int), r, c, i + 1, j),
            d == square_point((-1int, 1int, 1int), (0int, -2int, 0int), (0int, 0int, -2int), r, c, i + 1, j + 1),
            e == square_point((-1int, 1int, 1int), (0int, -2int, 0int), (0int, 0int, -2int), r, c, i, j + 1),
            k == c * r,
    ;
    assert(sub3(e, a) == (0int, 0int, -2 * r)) by (nonlinear_arith)
        requires
            a == square_point((-1int, 1int, 1int), (0int, -2int, 0int), (0int, 0int, -2int), r, c, i, j),
            b == square_point((-1int, 1int, 1int), (0int, -2int, 0int), (0int, 0int, -2int), r, c, i + 1, j),
            d == square_point((-1int, 1int, 1int), (0int, -2int, 0int), (0int, 0int, -2int), r, c, i + 1, j + 1),
            e == square_point((-1int, 1int, 1int), (0int, -2int, 0int), (0int, 0int, -2int), r, c, i, j + 1),
            k == c * r,
    ;
    assert(cross3((0int, -2 * c, 0int), (0int, -2 * c, -2 * r)) == (4 * k, 0int, 0int)) by (nonlinear_arith)
        requires
            k == c * r,
    ;
    assert(cross3((0int, -2 * c, -2 * r), (0int, 0int, -2 * r)) == (4 * k, 0int, 0int)) by (nonlinear_arith)
        requires
            k == c * r,
    ;
    assert(a.0 == -1 * k) by (nonlinear_arith)
        requires
            a == square_point((-1int, 1int, 1int), (0int, -2int, 0int), (0int, 0int, -2int), r, c, i, j),
            b == square_point((-1int, 1int, 1int), (0int, -2int, 0int), (0int, 0int, -2int), r, c, i + 1, j),
            d == square_point((-1int, 1int, 1int), (0int, -2int, 0int), (0int, 0int, -2int), r, c, i + 1, j + 1),
            e == square_point((-1int, 1int, 1int), (0int, -2int, 0int), (0int, 0int, -2int), r, c, i, j + 1),
            k == c * r,
    ;
    assert(dot3((4 * k, 0int, 0int), a) == -4 * (k * k)) by (nonlinear_arith)
        requires
            a.0 == -1 * k,
    ;
}

/// Both triangles of every small square of the cube's right face,
/// split into `r` by `c` squares, turn the way the cube's faces do.
proof fn lemma_right_square_turns(r: int, c: int, i: int, j: int)
    requires
        r >= 1,
        c >= 1,
    ensures
        turns_like_cube(
            square_point((1int, -1int, 1int), (0int, 2int, 0int), (0int, 0int, -2int), r, c, i, j),
            square_point((1int, -1int, 1int), (0int, 2int, 0int), (0int, 0int, -2int), r, c, i + 1, j),
            square_point((1int, -1int, 1int), (0int, 2int, 0int), (0int, 0int, -2int), r, c, i + 1, j + 1),
        ),
        turns_like_cube(
            square_point((1int, -1int, 1int), (0int, 2int, 0int), (0int, 0int, -2int), r, c, i, j),
            square_point((1int, -1int, 1int), (0int, 2int, 0int), (0int, 0int, -2int), r, c, i + 1, j + 1),
            square_point((1int, -1int, 1int), (0int, 2int, 0int), (0int, 0int, -2int), r, c, i, j + 1),
        ),
{
    let a = square_point((1int, -1int, 1int), (0int, 2int, 0int), (0int, 0int, -2int), r, c, i, j);
    let b = square_point((1int, -1int, 1int), (0int, 2int, 0int), (0int, 0int, -2int), r, c, i + 1, j);
    let d = square_point((1int, -1int, 1int), (0int, 2int, 0int), (0int, 0int, -2int), r, c, i + 1, j + 1);
    let e = square_point((1int, -1int, 1int), (0int, 2int, 0int), (0int, 0int, -2int), r, c, i, j + 1);
    let k = c * r;
    lemma_square_facts(r, c, i, j);
    assert(sub3(b, a) == (0int, 2 * c, 0int)) by (nonlinear_arith)
        requires
            a == square_point((1int, -1int, 1int), (0int, 2int, 0int), (0int, 0int, -2int), r, c, i, j),
            b == square_point((1int, -1int, 1int), (0int, 2int, 0int), (0int, 0int, -2int), r, c, i + 1, j),
            d == square_point((1int, -1int, 1int), (0int, 2int, 0int), (0int, 0int, -2int), r, c, i + 1, j + 1),
            e == square_point((1int, -1int, 1int), (0int, 2int, 0int), (0int, 0int, -2int), r, c, i, j + 1),
            k == c * r,
    ;
    assert(sub3(d, a) == (0int, 2 * c, -2 * r)) by (nonlinear_arith)
        requires
            a == square_point((1int, -1int, 1int), (0int, 2int, 0int), (0int, 0int, -2int), r, c, i, j),
            b == square_point((1int, -1int, 1int), (0int, 2int, 0int), (0int, 0int, -2int), r, c, i + 1, j),
            d == square_point((1int, -1int, 1int), (0int, 2int, 0int), (0int, 0int, -2int), r, c, i + 1, j + 1),
            e == square_point((1int, -1int, 1int), (0int, 2int, 0int), (0int, 0int, -2int), r, c, i, j + 1),
            k == c * r,
    ;
    assert(sub3(e, a) == (0int, 0int, -2 * r)) by (nonlinear_arith)
        requires
            a == square_point((1int, -1int, 1int), (0int, 2int, 0int), (0int, 0int, -2int), r, c, i, j),
            b == square_point((1int, -1int, 1int), (0int, 2int, 0int), (0int, 0int, -2int), r, c, i + 1, j),
            d == square_point((1int, -1int, 1int), (0int, 2int, 0int), (0int, 0int, -2int), r, c, i + 1, j + 1),
            e == square_point((1int, -1int, 1int), (0int, 2int, 0int), (0int, 0int, -2int), r, c, i, j + 1),
            k == c * r,
    ;
    assert(cross3((0int, 2 * c, 0int), (0int, 2 * c, -2 * r)) == (-4 * k, 0int, 0int)) by (nonlinear_arith)
        requires
            k == c * r,
    ;
    assert(cross3((0int, 2 * c, -2 * r), (0int, 0int, -2 * r)) == (-4 * k, 0int, 0int)) by (nonlinear_arith)
        requires
            k == c * r,
    ;
    assert(a.0 == 1 * k) by (nonlinear_arith)
        requires
            a == square_point((1int, -1int, 1int), (0int, 2int, 0int), (0int, 0int, -2int), r, c, i, j),
            b == square_point((1int, -1int, 1int), (0int, 2int, 0int), (0int, 0int, -2int), r, c, i + 1, j),
            d == square_point((1int, -1int, 1int), (0int, 2int, 0int), (0int, 0int, -2int), r, c, i + 1, j + 1),
            e == square_point((1int, -1int, 1int), (0int, 2int, 0int), (0int, 0int, -2int), r, c, i, j + 1),
            k == c * r,
    ;
    assert(dot3((-4 * k, 0int, 0int), a) == -4 * (k * k)) by (nonlinear_arith)
        requires
            a.0 == 1 * k,
    ;
}

/// Both triangles of every small square of the cube's top face,
/// split into `r` by `c` squares, turn the way the cube's faces do.
proof fn lemma_top_square_turns(r: int, c: int, i: int, j: int)
    requires
        r >= 1,
        c >= 1,
    ensures
        turns_like_cube(
            square_point((1int, 1int, -1int), (0int, 0int, 2int), (-2int, 0int, 0int), r, c, i, j),
            square_point((1int, 1int, -1int), (0int, 0int, 2int), (-2int, 0int, 0int), r, c, i + 1, j),
            square_point((1int, 1int, -1int), (0int, 0int, 2int), (-2int, 0int, 0int), r, c, i + 1, j + 1),
        ),
        turns_like_cube(
            square_point((1int, 1int, -1int), (0int, 0int, 2int), (-2int, 0int, 0int), r, c, i, j),
            square_point((1int, 1int, -1int), (0int, 0int, 2int), (-2int, 0int, 0int), r, c, i + 1, j + 1),
            square_point((1int, 1int, -1int), (0int, 0int, 2int), (-2int, 0int, 0int), r, c, i, j + 1),
        ),
{
    let a = square_point((1int, 1int, -1int), (0int, 0int, 2int), (-2int, 0int, 0int), r, c, i, j);
    let b = square_point((1int, 1int, -1int), (0int, 0int, 2int), (-2int, 0int, 0int), r, c, i + 1, j);
    let d = square_point((1int, 1int, -1int), (0int, 0int, 2int), (-2int, 0int, 0int), r, c, i + 1, j + 1);
    let e = square_point((1int, 1int, -1int), (0int, 0int, 2int), (-2int, 0int, 0int), r, c, i, j + 1);
    let k = c * r;
    lemma_square_facts(r, c, i, j);
    assert(sub3(b, a) == (0int, 0int, 2 * c)) by (nonlinear_arith)
        requires
            a == square_point((1int, 1int, -1int), (0int, 0int, 2int), (-2int, 0int, 0int), r, c, i, j),
            b == square_point((1int, 1int, -1int), (0int, 0int, 2int), (-2int, 0int, 0int), r, c, i + 1, j),
            d == square_point((1int, 1int, -1int), (0int, 0int, 2int), (-2int, 0int, 0int), r, c, i + 1, j + 1),
            e == square_point((1int, 1int, -1int), (0int, 0int, 2int), (-2int, 0int, 0int), r, c, i, j + 1),
            k == c * r,
    ;
    assert(sub3(d, a) == (-2 * r, 0int, 2 * c)) by (nonlinear_arith)
        requires
            a == square_point((1int, 1int, -1int), (0int, 0int, 2int), (-2int, 0int, 0int), r, c, i, j),
            b == square_point((1int, 1int, -1int), (0int, 0int, 2int), (-2int, 0int, 0int), r, c, i + 1, j),
            d == square_point((1int, 1int, -1int), (0int, 0int, 2int), (-2int, 0int, 0int), r, c, i + 1, j + 1),
            e == square_point((1int, 1int, -1int), (0int, 0int, 2int), (-2int, 0int, 0int), r, c, i, j + 1),
            k == c * r,
    ;
    assert(sub3(e, a) == (-2 * r, 0int, 0int)) by (nonlinear_arith)
        requires
            a == square_point((1int, 1int, -1int), (0int, 0int, 2int), (-2int, 0int, 0int), r, c, i, j),
            b == square_point((1int, 1int, -1int), (0int, 0int, 2int), (-2int, 0int, 0int), r, c, i + 1, j),
            d == square_point((1int, 1int, -1int), (0int, 0int, 2int), (-2int, 0int, 0int), r, c, i + 1, j + 1),
            e == square_point((1int, 1int, -1int), (0int, 0int, 2int), (-2int, 0int, 0int), r, c, i, j + 1),
            k == c * r,
    ;
    assert(cross3((0int, 0int, 2 * c), (-2 * r, 0int, 2 * c)) == (0int, -4 * k, 0int)) by (nonlinear_arith)
        requires
            k == c * r,
    ;
    assert(cross3((-2 * r, 0int, 2 * c), (-2 * r, 0int, 0int)) == (0int, -4 * k, 0int)) by (nonlinear_arith)
        requires
            k == c * r,
    ;
    assert(a.1 == 1 * k) by (nonlinear_arith)
        requires
            a == square_point((1int, 1int, -1int), (0int, 0int, 2int), (-2int, 0int, 0int), r, c, i, j),
            b == square_point((1int, 1int, -1int), (0int, 0int, 2int), (-2int, 0int, 0int), r, c, i + 1, j),
            d == square_point((1int, 1int, -1int), (0int, 0int, 2int), (-2int, 0int, 0int), r, c, i + 1, j + 1),
            e == square_point((1int, 1int, -1int), (0int, 0int, 2int), (-2int, 0int, 0int), r, c, i, j + 1),
            k == c * r,
    ;
    assert(dot3((0int, -4 * k, 0int), a) == -4 * (k * k)) by (nonlinear_arith)
        requires
            a.1 == 1 * k,
    ;
}

/// Both triangles of every small square of the cube's bottom face,
/// split into `r` by `c` squares, turn the way the cube's faces do.
proof fn lemma_bottom_square_turns(r: int, c: int, i: int, j: int)
    requires
        r >= 1,
        c >= 1,
    ensures
        turns_like_cube(
            square_point((-1int, -1int, 1int), (2int, 0int, 0int), (0int, 0int, -2int), r, c, i, j),
            square_point((-1int, -1int, 1int), (2int, 0int, 0int), (0int, 0int, -2int), r, c, i + 1, j),
            square_point((-1int, -1int, 1int), (2int, 0int, 0int), (0int, 0int, -2int), r, c, i + 1, j + 1),
        ),
        turns_like_cube(
            square_point((-1int, -1int, 1int), (2int, 0int, 0int), (0int, 0int, -2int), r, c, i, j),
            square_point((-1int, -1int, 1int), (2int, 0int, 0int), (0int, 0int, -2int), r, c, i + 1, j + 1),
            square_point((-1int, -1int, 1int), (2int, 0int, 0int), (0int, 0int, -2int), r, c, i, j + 1),
        ),
{
    let a = square_point((-1int, -1int, 1int), (2int, 0int, 0int), (0int, 0int, -2int), r, c, i, j);
    let b = square_point((-1int, -1int, 1int), (2int, 0int, 0int), (0int, 0int, -2int), r, c, i + 1, j);
    let d = square_point((-1int, -1int, 1int), (2int, 0int, 0int), (0int, 0int, -2int), r, c, i + 1, j + 1);
    let e = square_point((-1int, -1int, 1int), (2int, 0int, 0int), (0int, 0int, -2int), r, c, i, j + 1);
    let k = c * r;
    lemma_square_facts(r, c, i, j);
    assert(sub3(b, a) == (2 * c, 0int, 0int)) by (nonlinear_arith)
        requires
            a == square_point((-1int, -1int, 1int), (2int, 0int, 0int), (0int, 0int, -2int), r, c, i, j),
            b == square_point((-1int, -1int, 1int), (2int, 0int, 0int), (0int, 0int, -2int), r, c, i + 1, j),
            d == square_point((-1int, -1int, 1int), (2int, 0int, 0int), (0int, 0int, -2int), r, c, i + 1, j + 1),
            e == square_point((-1int, -1int, 1int), (2int, 0int, 0int), (0int, 0int, -2int), r, c, i, j + 1),
            k == c * r,
    ;
    assert(sub3(d, a) == (2 * c, 0int, -2 * r)) by (nonlinear_arith)
        requires
            a == square_point((-1int, -1int, 1int), (2int, 0int, 0int), (0int, 0int, -2int), r, c, i, j),
            b == square_point((-1int, -1int, 1int), (2int, 0int, 0int), (0int, 0int, -2int), r, c, i + 1, j),
            d == square_point((-1int, -1int, 1int), (2int, 0int, 0int), (0int, 0int, -2int), r, c, i + 1, j + 1),
            e == square_point((-1int, -1int, 1int), (2int, 0int, 0int), (0int, 0int, -2int), r, c, i, j + 1),
            k == c * r,
    ;
    assert(sub3(e, a) == (0int, 0int, -2 * r)) by (nonlinear_arith)
        requires
            a == square_point((-1int, -1int, 1int), (2int, 0int, 0int), (0int, 0int, -2int), r, c, i, j),
            b == square_point((-1int, -1int, 1int), (2int, 0int, 0int), (0int, 0int, -2int), r, c, i + 1, j),
            d == square_point((-1int, -1int, 1int), (2int, 0int, 0int), (0int, 0int, -2int), r, c, i + 1, j + 1),
            e == square_point((-1int, -1int, 1int), (2int, 0int, 0int), (0int, 0int, -2int), r, c, i, j + 1),
            k == c * r,
    ;
    assert(cross3((2 * c, 0int, 0int), (2 * c, 0int, -2 * r)) == (0int, 4 * k, 0int)) by (nonlinear_arith)
        requires
            k == c * r,
    ;
    assert(cross3((2 * c, 0int, -2 * r), (0int, 0int, -2 * r)) == (0int, 4 * k, 0int)) by (nonlinear_arith)
        requires
            k == c * r,
    ;
    assert(a.1 == -1 * k) by (nonlinear_arith)
        requires
            a == square_point((-1int, -1int, 1int), (2int, 0int, 0int), (0int, 0int, -2int), r, c, i, j),
            b == square_point((-1int, -1int, 1int), (2int, 0int, 0int), (0int, 0int, -2int), r, c, i + 1, j),
            d == square_point((-1int, -1int, 1int), (2int, 0int, 0int), (0int, 0int, -2int), r, c, i + 1, j + 1),
            e == square_point((-1int, -1int, 1int), (2int, 0int, 0int), (0int, 0int, -2int), r, c, i, j + 1),
            k == c * r,
    ;
    assert(dot3((0int, 4 * k, 0int), a) == -4 * (k * k)) by (nonlinear_arith)
        requires
            a.1 == -1 * k,
    ;
}

/// Both triangles of every small square of face `f` of the sphere at a
/// level with `r` by `c` squares turn the way the cube's faces do.
proof fn lemma_face_square_turns(f: int, r: int, c: int, i: int, j: int)
    requires
        0 <= f < 6,
        r >= 1,
        c >= 1,
    ensures
        turns_like_cube(
            square_point(cube_face(f).0, cube_face(f).1, cube_face(f).2, r, c, i, j),
            square_point(cube_face(f).0, cube_face(f).1, cube_face(f).2, r, c, i + 1, j),
            square_point(cube_face(f).0, cube_face(f).1, cube_face(f).2, r, c, i + 1, j + 1),
        ),
        turns_like_cube(
            square_point(cube_face(f).0, cube_face(f).1, cube_face(f).2, r, c, i, j),
            square_point(cube_face(f).0, cube_face(f).1, cube_face(f).2, r, c, i + 1, j + 1),
            square_point(cube_face(f).0, cube_face(f).1, cube_face(f).2, r, c, i, j + 1),
        ),
{
    if f == 0 {
        assert(cube_face(0) == ((-1int, 1int, -1int), (0int, -2int, 0int), (2int, 0int, 0int)));
        lemma_front_square_turns(r, c, i, j);
    } else if f == 1 {
        assert(cube_face(1) == ((-1int, 1int, 1int), (2int, 0int, 0int), (0int, -2int, 0int)));
        lemma_back_square_turns(r, c, i, j);
    } else if f == 2 {
        assert(cube_face(2) == ((-1int, 1int, 1int), (0int, -2int, 0int), (0int, 0int, -2int)));
        lemma_left_square_turns(r, c, i, j);
    } else if f == 3 {
        assert(cube_face(3) == ((1int, -1int, 1int), (0int, 2int, 0int), (0int, 0int, -2int)));
        lemma_right_square_turns(r, c, i, j);
    } else if f == 4 {
        assert(cube_face(4) == ((1int, 1int, -1int), (0int, 0int, 2int), (-2int, 0int, 0int)));
        lemma_top_square_turns(r, c, i, j);
    } else {
        assert(cube_face(5) == ((-1int, -1int, 1int), (2int, 0int, 0int), (0int, 0int, -2int)));
        lemma_bottom_square_turns(r, c, i, j);
    }
}

/// Every triangle of the cube turns the same way.
#[verifier::spinoff_prover]
proof fn lemma_cube_turns()
    ensures
        exact_triangles_turn_like_cube(cube_vertices(), cube_triangles()),
{
    let vs = cube_vertices();
    let t = cube_triangles();
    assert(exact_position(vs[0]) == (-1int, 1int, -1int));
    assert(exact_position(vs[1]) == (-1int, -1int, -1int));
    assert(exact_position(vs[2]) == (1int, -1int, -1int));
    assert(exact_position(vs[3]) == (1int, 1int, -1int));
    assert(exact_position(vs[4]) == (-1int, 1int, 1int));
    assert(exact_position(vs[5]) == (-1int, -1int, 1int));
    assert(exact_position(vs[6]) == (1int, -1int, 1int));
    assert(exact_position(vs[7]) == (1int, 1int, 1int));
    assert forall|q: int| 0 <= q < t.len() implies turns_like_cube(
        exact_position(vs[(#[trigger] t[q]).0 as int]),
        exact_position(vs[t[q].1 as int]),
        exact_position(vs[t[q].2 as int]),
    ) by {
        if q == 0 {
            assert(t[0] == tri(0, 1, 2));
            assert(turns_like_cube((-1int, 1int, -1int), (-1int, -1int, -1int), (1int, -1int, -1int))) by (nonlinear_arith);
        } else if q == 1 {
            assert(t[1] == tri(0, 2, 3));
            assert(turns_like_cube((-1int, 1int, -1int), (1int, -1int, -1int), (1int, 1int, -1int))) by (nonlinear_arith);
        } else if q == 2 {
            assert(t[2] == tri(6, 5, 4));
            assert(turns_like_cube((1int, -1int, 1int), (-1int, -1int, 1int), (-1int, 1int, 1int))) by (nonlinear_arith);
        } else if q == 3 {
            assert(t[3] == tri(7, 6, 4));
            assert(turns_like_cube((1int, 1int, 1int), (1int, -1int, 1int), (-1int, 1int, 1int))) by (nonlinear_arith);
        } else if q == 4 {
            assert(t[4] == tri(0, 4, 1));
            assert(turns_like_cube((-1int, 1int, -1int), (-1int, 1int, 1int), (-1int, -1int, -1int))) by (nonlinear_arith);
        } else if q == 5 {
            assert(t[5] == tri(1, 4, 5));
            assert(turns_like_cube((-1int, -1int, -1int), (-1int, 1int, 1int), (-1int, -1int, 1int))) by (nonlinear_arith);
        } else if q == 6 {
            assert(t[6] == tri(2, 6, 3));
            assert(turns_like_cube((1int, -1int, -1int), (1int, -1int, 1int), (1int, 1int, -1int))) by (nonlinear_arith);
        } else if q == 7 {
            assert(t[7] == tri(3, 6, 7));
            assert(turns_like_cube((1int, 1int, -1int), (1int, -1int, 1int), (1int, 1int, 1int))) by (nonlinear_arith);
        } else if q == 8 {
            assert(t[8] == tri(0, 3, 4));
            assert(turns_like_cube((-1int, 1int, -1int), (1int, 1int, -1int), (-1int, 1int, 1int))) by (nonlinear_arith);
        } else if q == 9 {
            assert(t[9] == tri(4, 3, 7));
            assert(turns_like_cube((-1int, 1int, 1int), (1int, 1int, -1int), (1int, 1int, 1int))) by (nonlinear_arith);
        } else if q == 10 {
            assert(t[10] == tri(1, 5, 2));
            assert(turns_like_cube((-1int, -1int, -1int), (-1int, -1int, 1int), (1int, -1int, -1int))) by (nonlinear_arith);
        } else {
            assert(t[11] == tri(2, 5, 6));
            assert(turns_like_cube((1int, -1int, -1int), (-1int, -1int, 1int), (1int, -1int, 1int))) by (nonlinear_arith);
        }
    }
}

/// Every triangle of the sphere at `level` turns the way the cube's faces
/// do.
proof fn lemma_sphere_turns(level: int)
    requires
        level >= 0,
        sphere_fits(level),
    ensures
        sphere_triangles_turn_like_cube(sphere_vertices(level), sphere_triangles(level)),
{
    lemma_sphere_dims(level);
    let r = sphere_rows(level);
    let c = sphere_cols(level);
    let vs = sphere_vertices(level);
    let ts = sphere_triangles(level);
    let pf = 2 * r * c;
    assert(pf == 2 * (r * c)) by (nonlinear_arith)
        requires
            pf == 2 * r * c,
    ;
    assert(ts.len() == 6 * pf) by (nonlinear_arith)
        requires
            ts.len() == 12 * r * c,
            pf == 2 * r * c,
    ;
    assert forall|q: int| 0 <= q < ts.len() implies turns_like_cube(
        sphere_direction(vs[(#[trigger] ts[q]).0 as int]),
        sphere_direction(vs[ts[q].1 as int]),
        sphere_direction(vs[ts[q].2 as int]),
    ) by {
        lemma_split_index(q, pf, 6);
        let f = q / pf;
        let l = q % pf;
        let cell = l / 2;
        assert(0 <= cell < r * c);
        lemma_split_index(cell, c, r);
        let i = cell / c;
        let j = cell % c;
        assert(q == f * pf + 2 * (i * c + j) + l % 2);
        lemma_sphere_tri_at(level, f, i, j);
        lemma_sphere_vertex_at(level, f, i, j);
        lemma_sphere_vertex_at(level, f, i + 1, j);
        lemma_sphere_vertex_at(level, f, i + 1, j + 1);
        lemma_sphere_vertex_at(level, f, i, j + 1);
        lemma_face_square_turns(f, r, c, i, j);
        lemma_sphere_point_position(level, f, i, j);
        lemma_sphere_point_position(level, f, i + 1, j);
        lemma_sphere_point_position(level, f, i + 1, j + 1);
        lemma_sphere_point_position(level, f, i, j + 1);
    }
}

/// The direction of grid point `(i, j)` of face `f` is its square point.
proof fn lemma_sphere_point_position(level: int, f: int, i: int, j: int)
    requires
        level >= 0,
        sphere_fits(level),
        0 <= f < 6,
        0 <= i <= sphere_rows(level),
        0 <= j <= sphere_cols(level),
    ensures
        sphere_direction(sphere_point(level, f, i, j)) == square_point(
            cube_face(f).0,
            cube_face(f).1,
            cube_face(f).2,
            sphere_rows(level),
            sphere_cols(level),
            i,
            j,
        ),
{
    lemma_sphere_dims(level);
    let r = sphere_rows(level);
    let c = sphere_cols(level);
    let (p0, e1, e2) = cube_face(f);
    lemma_coord_bound(p0.0, e1.0, e2.0, i, j, r, c);
    lemma_coord_bound(p0.1, e1.1, e2.1, i, j, r, c);
    lemma_coord_bound(p0.2, e1.2, e2.2, i, j, r, c);
}

/// A coordinate of a grid point is small enough for an `i64`.
proof fn lemma_coord_bound(p: int, e1: int, e2: int, i: int, j: int, r: int, c: int)
    requires
        -1 <= p <= 1,
        -2 <= e1 <= 2,
        -2 <= e2 <= 2,
        0 <= i <= r <= 16384,
        0 <= j <= c <= 16384,
    ensures
        -0x1_0000_0000 <= p * r * c + i * c * e1 + j * r * e2 <= 0x1_0000_0000,
{
    assert(-268435456 <= p * r * c <= 268435456) by (nonlinear_arith)
        requires
            -1 <= p <= 1,
            0 <= r <= 16384,
            0 <= c <= 16384,
    ;
    assert(-536870912 <= i * c * e1 <= 536870912) by (nonlinear_arith)
        requires
            0 <= i <= 16384,
            0 <= c <= 16384,
            -2 <= e1 <= 2,
    ;
    assert(-536870912 <= j * r * e2 <= 536870912) by (nonlinear_arith)
        requires
            0 <= j <= 16384,
            0 <= r <= 16384,
            -2 <= e2 <= 2,
    ;
}

/// Two to the power `e`, for an exponent up to 14.
fn pow2_small(e: u32) -> (p: u32)
    requires
        e <= 14,
    ensures
        p == pow2(e as nat),
{
    proof {
        lemma2_to64();
    }
    let mut p: u32 = 1;
    let mut k: u32 = 0;
    while k < e
        invariant
            k <= e <= 14,
            p == pow2(k as nat),
            pow2(14) == 16384,
        decreases e - k,
    {
        proof {
            lemma_pow2_unfold((k + 1) as nat);
            lemma_pow2_strictly_increases(k as nat, 14);
        }
        p = p * 2;
        k = k + 1;
    }
    p
}

/// The corner and the two edges of face `f` of the cube, as `cube_face`
/// gives them.
fn cube_face_frame(f: u32) -> (r: ((i64, i64, i64), (i64, i64, i64), (i64, i64, i64)))
    requires
        f < 6,
    ensures
        r.0.0 == cube_face(f as int).0.0,
        r.0.1 == cube_face(f as int).0.1,
        r.0.2 == cube_face(f as int).0.2,
        r.1.0 == cube_face(f as int).1.0,
        r.1.1 == cube_face(f as int).1.1,
        r.1.2 == cube_face(f as int).1.2,
        r.2.0 == cube_face(f as int).2.0,
        r.2.1 == cube_face(f as int).2.1,
        r.2.2 == cube_face(f as int).2.2,
{
    if f == 0 {
        ((-1, 1, -1), (0, -2, 0), (2, 0, 0))
    } else if f == 1 {
        ((-1, 1, 1), (2, 0, 0), (0, -2, 0))
    } else if f == 2 {
        ((-1, 1, 1), (0, -2, 0), (0, 0, -2))
    } else if f == 3 {
        ((1, -1, 1), (0, 2, 0), (0, 0, -2))
    } else if f == 4 {
        ((1, 1, -1), (0, 0, 2), (-2, 0, 0))
    } else {
        ((-1, -1, 1), (2, 0, 0), (0, 0, -2))
    }
}

/// One coordinate of a grid point: `p · rows · cols + i · cols · e1 + j · rows · e2`.
fn sphere_coord(p: i64, e1: i64, e2: i64, i: i64, j: i64, rows: i64, cols: i64) -> (v: i64)
    requires
        -1 <= p <= 1,
        -2 <= e1 <= 2,
        -2 <= e2 <= 2,
        0 <= i <= rows <= 16384,
        0 <= j <= cols <= 16384,
    ensures
        v == p * rows * cols + i * cols * e1 + j * rows * e2,
{
    assert(-16384 <= p * rows <= 16384) by (nonlinear_arith)
        requires
            -1 <= p <= 1,
            0 <= rows <= 16384,
    ;
    assert(-268435456 <= p * rows * cols <= 268435456) by (nonlinear_arith)
        requires
            -16384 <= p * rows <= 16384,
            0 <= cols <= 16384,
    ;
    assert(0 <= i * cols <= 268435456) by (nonlinear_arith)
        requires
            0 <= i <= 16384,
            0 <= cols <= 16384,
    ;
    assert(-536870912 <= i * cols * e1 <= 536870912) by (nonlinear_arith)
        requires
            0 <= i * cols <= 268435456,
            -2 <= e1 <= 2,
    ;
    assert(0 <= j * rows <= 268435456) by (nonlinear_arith)
        requires
            0 <= j <= 16384,
            0 <= rows <= 16384,
    ;
    assert(-536870912 <= j * rows * e2 <= 536870912) by (nonlinear_arith)
        requires
            0 <= j * rows <= 268435456,
            -2 <= e2 <= 2,
    ;
    p * rows * cols + i * cols * e1 + j * rows * e2
}

/// The vertices of the sphere at `level`, whose faces have `rows` by `cols`
/// squares.
fn sphere_vertex_list(level: u32, rows: u32, cols: u32) -> (vertices: Vec<ShapeVertex>)
    requires
        sphere_fits(level as int),
        rows == sphere_rows(level as int),
        cols == sphere_cols(level as int),
    ensures
        vertices@ == sphere_vertices(level as int),
{
    let ghost lv = level as int;
    proof {
        lemma_sphere_dims(lv);
    }
    let ghost s = sphere_face_points(lv);
    let mut vertices: Vec<ShapeVertex> = Vec::new();
    let mut f: u32 = 0;
    while f < 6
        invariant
            0 <= f <= 6,
            sphere_fits(lv),
            lv == level,
            rows == sphere_rows(lv),
            cols == sphere_cols(lv),
            1 <= cols <= rows <= 16384,
            s == sphere_face_points(lv),
            6 * s <= u32::MAX,
            vertices@.len() == f * s,
            vertices@ == sphere_vertices(lv).take(vertices@.len() as int),
        decreases 6 - f,
    {
        let (p0, e1, e2) = cube_face_frame(f);
        let mut i: u32 = 0;
        while i <= rows
            invariant
                0 <= f < 6,
                i <= rows + 1,
                sphere_fits(lv),
                lv == level,
                rows == sphere_rows(lv),
                cols == sphere_cols(lv),
                1 <= cols <= rows <= 16384,
                s == sphere_face_points(lv),
                6 * s <= u32::MAX,
                p0.0 == cube_face(f as int).0.0,
                p0.1 == cube_face(f as int).0.1,
                p0.2 == cube_face(f as int).0.2,
                e1.0 == cube_face(f as int).1.0,
                e1.1 == cube_face(f as int).1.1,
                e1.2 == cube_face(f as int).1.2,
                e2.0 == cube_face(f as int).2.0,
                e2.1 == cube_face(f as int).2.1,
                e2.2 == cube_face(f as int).2.2,
                vertices@.len() == f * s + i * (cols + 1),
                vertices@ == sphere_vertices(lv).take(vertices@.len() as int),
            decreases rows + 1 - i,
        {
            let mut j: u32 = 0;
            while j <= cols
                invariant
                    0 <= f < 6,
                    i <= rows,
                    j <= cols + 1,
                    sphere_fits(lv),
                    lv == level,
                    rows == sphere_rows(lv),
                    cols == sphere_cols(lv),
                    1 <= cols <= rows <= 16384,
                    s == sphere_face_points(lv),
                    6 * s <= u32::MAX,
                    p0.0 == cube_face(f as int).0.0,
                    p0.1 == cube_face(f as int).0.1,
                    p0.2 == cube_face(f as int).0.2,
                    e1.0 == cube_face(f as int).1.0,
                    e1.1 == cube_face(f as int).1.1,
                    e1.2 == cube_face(f as int).1.2,
                    e2.0 == cube_face(f as int).2.0,
                    e2.1 == cube_face(f as int).2.1,
                    e2.2 == cube_face(f as int).2.2,
                    vertices@.len() == f * s + i * (cols + 1) + j,
                    vertices@ == sphere_vertices(lv).take(vertices@.len() as int),
                decreases cols + 1 - j,
            {
                let (ii, jj, r, c) = (i as i64, j as i64, rows as i64, cols as i64);
                let x = sphere_coord(p0.0, e1.0, e2.0, ii, jj, r, c);
                let y = sphere_coord(p0.1, e1.1, e2.1, ii, jj, r, c);
                let z = sphere_coord(p0.2, e1.2, e2.2, ii, jj, r, c);
                let ghost before = vertices@;
                proof {
                    lemma_sphere_vertex_at(lv, f as int, i as int, j as int);
                    assert(sphere_point(lv, f as int, i as int, j as int) == ShapeVertex::OnSphere { x, y, z });
                    assert(sphere_point_index(lv, f as int, i as int, j as int) == before.len());
                }
                vertices.push(ShapeVertex::OnSphere { x, y, z });
                proof {
                    assert(vertices@ =~= sphere_vertices(lv).take(vertices@.len() as int));
                }
                j = j + 1;
            }
            proof {
                assert(i * (cols + 1) + (cols + 1) == (i + 1) * (cols + 1)) by (nonlinear_arith);
            }
            i = i + 1;
        }
        proof {
            assert((rows + 1) * (cols + 1) == s);
            assert(f * s + s == (f + 1) * s) by (nonlinear_arith);
        }
        f = f + 1;
    }
    assert(vertices@ =~= sphere_vertices(lv));
    vertices
}

/// The triangles of the sphere at `level`, whose faces have `rows` by
/// `cols` squares.
fn sphere_triangle_list(level: u32, rows: u32, cols: u32) -> (indices: Vec<TriangleIdxSet>)
    requires
        sphere_fits(level as int),
        rows == sphere_rows(level as int),
        cols == sphere_cols(level as int),
    ensures
        indices@ == sphere_triangles(level as int),
        tris_in_range(indices@, 6 * sphere_face_points(level as int)),
{
    let ghost lv = level as int;
    proof {
        lemma_sphere_dims(lv);
    }
    let ghost s = sphere_face_points(lv);
    let ghost pf = 2 * rows * cols;
    let w: u32 = cols + 1;
    let mut indices: Vec<TriangleIdxSet> = Vec::new();
    let mut f: u32 = 0;
    let mut face_start: u32 = 0;
    while f < 6
        invariant
            0 <= f <= 6,
            sphere_fits(lv),
            lv == level,
            rows == sphere_rows(lv),
            cols == sphere_cols(lv),
            w == cols + 1,
            1 <= cols <= rows <= 16384,
            s == sphere_face_points(lv),
            s == (rows + 1) * w,
            pf == 2 * rows * cols,
            6 * s <= u32::MAX,
            face_start == f * s,
            indices@.len() == f * pf,
            indices@ == sphere_triangles(lv).take(indices@.len() as int),
            tris_in_range(indices@, 6 * s),
        decreases 6 - f,
    {
        let mut i: u32 = 0;
        let mut row_start: u32 = face_start;
        while i < rows
            invariant
                0 <= f < 6,
                i <= rows,
                sphere_fits(lv),
                lv == level,
                rows == sphere_rows(lv),
                cols == sphere_cols(lv),
                w == cols + 1,
                1 <= cols <= rows <= 16384,
                s == sphere_face_points(lv),
                s == (rows + 1) * w,
                pf == 2 * rows * cols,
                6 * s <= u32::MAX,
                face_start == f * s,
                row_start == face_start + i * w,
                indices@.len() == f * pf + 2 * (i * cols),
                indices@ == sphere_triangles(lv).take(indices@.len() as int),
                tris_in_range(indices@, 6 * s),
            decreases rows - i,
        {
            let mut j: u32 = 0;
            while j < cols
                invariant
                    0 <= f < 6,
                    i < rows,
                    j <= cols,
                    sphere_fits(lv),
                    lv == level,
                    rows == sphere_rows(lv),
                    cols == sphere_cols(lv),
                    w == cols + 1,
                    1 <= cols <= rows <= 16384,
                    s == sphere_face_points(lv),
                    s == (rows + 1) * w,
                    pf == 2 * rows * cols,
                    6 * s <= u32::MAX,
                    face_start == f * s,
                    row_start == face_start + i * w,
                    indices@.len() == f * pf + 2 * (i * cols + j),
                    indices@ == sphere_triangles(lv).take(indices@.len() as int),
                    tris_in_range(indices@, 6 * s),
                decreases cols - j,
            {
                proof {
                    lemma_sphere_vertex_at(lv, f as int, i as int, j as int);
                    lemma_sphere_vertex_at(lv, f as int, i + 1, j + 1);
                    lemma_sphere_tri_at(lv, f as int, i as int, j as int);
                    assert(sphere_point_index(lv, f as int, i as int, j as int) == row_start + j);
                    assert(sphere_point_index(lv, f as int, i + 1, j as int) == row_start + w + j) by (nonlinear_arith)
                        requires
                            row_start == f * s + i * w,
                            sphere_point_index(lv, f as int, i + 1, j as int) == f * s + (i + 1) * w + j,
                    ;
                    assert(sphere_point_index(lv, f as int, i + 1, j + 1) == row_start + w + j + 1) by (nonlinear_arith)
                        requires
                            row_start == f * s + i * w,
                            sphere_point_index(lv, f as int, i + 1, j + 1) == f * s + (i + 1) * w + j + 1,
                    ;
                }
                let a: u32 = row_start + j;
                let b: u32 = row_start + w + j;
                let ghost before = indices@;
                proof {
                    assert(before.len() == f * pf + 2 * (i * cols + j));
                }
                indices.push(TriangleIdxSet(a, b, b + 1));
                indices.push(TriangleIdxSet(a, b + 1, a + 1));
                proof {
                    assert(indices@ =~= sphere_triangles(lv).take(indices@.len() as int));
                }
                j = j + 1;
            }
            proof {
                assert(row_start + w <= face_start + rows * w) by (nonlinear_arith)
                    requires
                        row_start == face_start + i * w,
                        i < rows,
                ;
                assert(face_start + rows * w < face_start + s) by (nonlinear_arith)
                    requires
                        s == (rows + 1) * w,
                        w >= 1,
                ;
                assert(face_start + s <= 6 * s) by (nonlinear_arith)
                    requires
                        face_start == f * s,
                        f < 6,
                        s >= 0,
                ;
                assert(row_start + w == face_start + (i + 1) * w) by (nonlinear_arith)
                    requires
                        row_start == face_start + i * w,
            ;
                assert(2 * (i * cols + cols) == 2 * ((i + 1) * cols)) by (nonlinear_arith);
            }
            row_start = row_start + w;
            i = i + 1;
        }
        proof {
            assert(f * pf + 2 * (rows * cols) == (f + 1) * pf) by (nonlinear_arith)
                requires
                    pf == 2 * rows * cols,
            ;
            assert(f * s + s <= 6 * s) by (nonlinear_arith)
                requires
                    f < 6,
                    s >= 0,
            ;
            assert(f * s + s == (f + 1) * s) by (nonlinear_arith);
        }
        face_start = face_start + ((rows + 1) * w);
        f = f + 1;
    }
    assert(6 * pf == 12 * rows * cols) by (nonlinear_arith)
        requires
            pf == 2 * rows * cols,
    ;
    assert(indices@ =~= sphere_triangles(lv));
    indices
}

/// A sphere of radius 1: each face of the cube split into a grid of
/// `2^⌈level / 2⌉` by `2^⌊level / 2⌋` squares of two triangles each, and
/// every grid point moved onto the sphere. That is `12 · 2^level`
/// triangles: at level 0 one square per face, each level doubling them.
pub fn sphere(subdivision_level: u32) -> (m: Mesh<ShapeVertex>)
    requires
        sphere_fits(subdivision_level as int),
    ensures
        m.vertex_seq() == sphere_vertices(subdivision_level as int),
        m.triangle_seq() == sphere_triangles(subdivision_level as int),
        m.triangle_seq().len() == 12 * pow2(subdivision_level as nat),
        m.indices_in_range(),
        uses_every_vertex(m.triangle_seq(), m.vertex_seq().len() as int),
        sphere_triangles_turn_like_cube(m.vertex_seq(), m.triangle_seq()),
{
    let ghost lv = subdivision_level as int;
    proof {
        lemma_sphere_dims(lv);
        lemma_sphere_uses_every_vertex(lv);
        lemma_sphere_turns(lv);
        assert(12 * sphere_rows(lv) * sphere_cols(lv) == 12 * (sphere_rows(lv) * sphere_cols(lv)))
            by (nonlinear_arith);
    }
    let rows = pow2_small((subdivision_level + 1) / 2);
    let cols = pow2_small(subdivision_level / 2);
    let vertices = sphere_vertex_list(subdivision_level, rows, cols);
    let indices = sphere_triangle_list(subdivision_level, rows, cols);
    Mesh { vertices, indices }
}

/// The mesh with every vertex at the position its recipe describes.
fn plain_mesh(mesh: Mesh<VertexRecipe>) -> (m: Mesh<ShapeVertex>)
    ensures
        m.vertex_seq() == plain_vertices(mesh.vertex_seq()),
        m.vertex_seq().len() == mesh.vertex_seq().len(),
        m.triangle_seq() == mesh.triangle_seq(),
{
    let Mesh { vertices, indices } = mesh;
    let mut out: Vec<ShapeVertex> = Vec::with_capacity(vertices.len());
    let mut k: usize = 0;
    while k < vertices.len()
        invariant
            k <= vertices.len(),
            out@ =~= plain_vertices(vertices@.take(k as int)),
        decreases vertices.len() - k,
    {
        out.push(ShapeVertex::Plain(vertices[k]));
        proof {
            assert(vertices@.take(k + 1) =~= vertices@.take(k as int).push(vertices@[k as int]));
        }
        k = k + 1;
    }
    assert(vertices@.take(vertices.len() as int) =~= vertices@);
    Mesh { vertices: out, indices }
}

/// The shapes the viewer can show.
#[derive(Clone, Copy, Debug, PartialEq, Eq, Structural)]
pub enum Geometries {
    Sphere,
    PolygonalPrism,
    Cube,
}

impl Geometries {
    /// Whether the mesh of this shape at `subdivision_level` can be built
    /// without 32-bit overflow.
    pub open spec fn mesh_fits(self, subdivision_level: u32) -> bool {
        match self {
            Geometries::Sphere => sphere_fits(subdivision_level as int),
            Geometries::PolygonalPrism => 2 * subdivision_level + 2 <= u32::MAX,
            Geometries::Cube => true,
        }
    }

    /// The mesh of this shape: the sphere subdivided at
    /// `subdivision_level`, the prism with `subdivision_level` sides, or the
    /// cube, which has no level.
    pub fn mesh(self, subdivision_level: u32) -> (m: Mesh<ShapeVertex>)
        requires
            self.mesh_fits(subdivision_level),
        ensures
            self == Geometries::Sphere ==> {
                &&& m.vertex_seq() == sphere_vertices(subdivision_level as int)
                &&& m.triangle_seq() == sphere_triangles(subdivision_level as int)
            },
            self == Geometries::PolygonalPrism ==> {
                &&& m.vertex_seq() == plain_vertices(
                    prism_vertices(clamped_sides(subdivision_level)),
                )
                &&& m.triangle_seq() == prism_triangles(clamped_sides(subdivision_level))
            },
            self == Geometries::Cube ==> {
                &&& m.vertex_seq() == plain_vertices(cube_vertices())
                &&& m.triangle_seq() == cube_triangles()
            },
            m.indices_in_range(),
            uses_every_vertex(m.triangle_seq(), m.vertex_seq().len() as int),
            self != Geometries::Sphere ==> closed_and_consistently_wound(m.triangle_seq()),
            self == Geometries::Sphere ==> sphere_triangles_turn_like_cube(
                m.vertex_seq(),
                m.triangle_seq(),
            ),
    {
        match self {
            Geometries::Sphere => sphere(subdivision_level),
            Geometries::Cube => plain_mesh(cube()),
            Geometries::PolygonalPrism => plain_mesh(polygonal_prism(subdivision_level)),
        }
    }
}

/// Every shape can be built at the subdivision levels from 0 to 10, the
/// range that the viewer's controls offer.
pub proof fn lemma_offered_levels_fit(g: Geometries, subdivision_level: u32)
    requires
        subdivision_level <= 10,
    ensures
        g.mesh_fits(subdivision_level),
{
    lemma2_to64();
    if subdivision_level < 10 {
        lemma_pow2_strictly_increases(subdivision_level as nat, 10);
    }
}

/// What a mesh occupies once uploaded: its vertex buffer and index buffer,
/// with the number of vertices and of indices (three per triangle) to draw.
pub struct MeshAllocation<B> {
    pub vtx_buffer: B,
    pub vtx_count: u32,
    pub idx_buffer: B,
    pub idx_count: u32,
}

impl<B> MeshAllocation<B> {
    /// The allocation of `mesh` in the buffers `vtx_buffer` and `idx_buffer`
    /// that its vertices and indices were uploaded into. The index count is
    /// kept in 32 bits and wraps past `u32::MAX`.
    pub fn new<V>(vtx_buffer: B, idx_buffer: B, mesh: &Mesh<V>) -> (a: MeshAllocation<B>)
        requires
            mesh.vertex_seq().len() < u32::MAX,
            mesh.triangle_seq().len() < u32::MAX,
            mesh.triangle_seq().len() * 3 <= usize::MAX,
        ensures
            a.vtx_buffer == vtx_buffer,
            a.idx_buffer == idx_buffer,
            a.vtx_count == mesh.vertex_seq().len(),
            a.idx_count == (mesh.triangle_seq().len() * 3) as u32,
    {
        let vtx_count = mesh.vertices.len() as u32;
        let idx_count = (mesh.indices.len() * 3) as u32;
        MeshAllocation { vtx_buffer, vtx_count, idx_buffer, idx_count }
    }
}

/// The indices of `tris`, three per triangle, in order.
pub open spec fn flat_indices(tris: Seq<TriangleIdxSet>) -> Seq<u32> {
    Seq::new(
        3 * tris.len(),
        |j: int|
            if j % 3 == 0 {
                tris[j / 3].0
            } else if j % 3 == 1 {
                tris[j / 3].1
            } else {
                tris[j / 3].2
            },
    )
}

impl<V> Mesh<V> {
    /// The index buffer's contents: the three indices of each triangle in
    /// turn.
    pub fn index_data(&self) -> (data: Vec<u32>)
        requires
            3 * self.triangle_seq().len() <= usize::MAX,
        ensures
            data@ == flat_indices(self.triangle_seq()),
    {
        let mut data: Vec<u32> = Vec::with_capacity(3 * self.indices.len());
        let mut q: usize = 0;
        while q < self.indices.len()
            invariant
                q <= self.indices.len(),
                data@ =~= flat_indices(self.indices@.take(q as int)),
            decreases self.indices.len() - q,
        {
            let t = self.indices[q];
            data.push(t.0);
            data.push(t.1);
            data.push(t.2);
            proof {
                assert(self.indices@.take(q + 1) =~= self.indices@.take(q as int).push(t));
                assert(data@ =~= flat_indices(self.indices@.take(q + 1)));
            }
            q = q + 1;
        }
        assert(self.indices@.take(self.indices.len() as int) =~= self.indices@);
        data
    }
}

} // verus!
