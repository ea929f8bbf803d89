use std::collections::HashMap;

use unladen_coconut::geometry::{
    cube, icosahedron, polygonal_prism, sphere, subdivide_mesh, triangle, Geometries, GridPoint,
    Mesh, MeshAllocation, MeshDataDescriptor, ShapeVertex, TriangleIdxSet, VertexRecipe,
};

fn exact(x: i8, y: i8, z: i8) -> VertexRecipe {
    VertexRecipe::Exact { x, y, z }
}

fn in_range<V>(mesh: &Mesh<V>) -> bool {
    let n = mesh.vertices().len() as u32;
    mesh.indices().iter().all(|t| t.0 < n && t.1 < n && t.2 < n)
}

fn directed_edges(mesh: &Mesh<impl Sized>) -> HashMap<(u32, u32), usize> {
    let mut edges = HashMap::new();
    for t in mesh.indices() {
        for e in [(t.0, t.1), (t.1, t.2), (t.2, t.0)] {
            *edges.entry(e).or_insert(0) += 1;
        }
    }
    edges
}

fn cross<V>(p0: &GridPoint<V>, p1: &GridPoint<V>, p2: &GridPoint<V>) -> i64 {
    let u = |p: &GridPoint<V>| p.row as i64 - p.col as i64;
    let v = |p: &GridPoint<V>| p.col as i64;
    let (du1, dv1) = (u(p1) - u(p0), v(p1) - v(p0));
    let (du2, dv2) = (u(p2) - u(p0), v(p2) - v(p0));
    du1 * dv2 - dv1 * du2
}

#[test]
fn test_subdivide_triangle() {
    let m = subdivide_mesh(triangle(), 1);
    println!("{:?}", m);
}

#[test]
fn validate_meshes() {
    assert!(in_range(&cube()));
    assert!(in_range(&icosahedron()));
}

#[test]
fn subdividing_a_triangle_once_gives_four_cells() {
    let m = subdivide_mesh(triangle(), 1);
    let rows_cols: Vec<(u32, u32)> = m.vertices().iter().map(|p| (p.row, p.col)).collect();
    assert_eq!(rows_cols, vec![(0, 0), (1, 0), (1, 1), (2, 0), (2, 1), (2, 2)]);
    assert!(m.vertices().iter().all(|p| p.level == 1
        && p.a == exact(-1, -1, 0)
        && p.b == exact(1, -1, 0)
        && p.c == exact(0, 1, 0)));
    assert_eq!(
        m.indices().clone(),
        vec![
            TriangleIdxSet(1, 2, 0),
            TriangleIdxSet(3, 4, 1),
            TriangleIdxSet(1, 4, 2),
            TriangleIdxSet(4, 5, 2),
        ]
    );
}

#[test]
fn subdivision_tiles_each_face_with_ccw_cells() {
    for level in 1..5u32 {
        let m = subdivide_mesh(icosahedron(), level);
        assert_eq!(m.indices().len(), 20 * ((level + 1) * (level + 1)) as usize);
        assert_eq!(m.vertices().len(), 20 * ((level + 2) * (level + 3) / 2) as usize);
        assert!(in_range(&m));
        assert!(uses_every_vertex(&m));
        let v = m.vertices();
        let cells = ((level + 1) * (level + 1)) as usize;
        for face in m.indices().chunks(cells) {
            let mut seen = std::collections::HashSet::new();
            for t in face {
                let (p0, p1, p2) = (&v[t.0 as usize], &v[t.1 as usize], &v[t.2 as usize]);
                assert_eq!(cross(p0, p1, p2), 1);
                assert!(p0.a == p1.a && p1.a == p2.a && p0.b == p2.b && p0.c == p1.c);
                let band = p0.row.min(p1.row).min(p2.row);
                let up = [p0, p1, p2].iter().filter(|p| p.row == band + 1).count() == 2;
                let col = p0.col.min(p1.col).min(p2.col);
                assert!(band <= level && if up { col <= band } else { col < band });
                assert!(seen.insert((band, up, col)));
            }
            assert_eq!(seen.len(), cells);
        }
    }
}

#[test]
fn subdividing_at_level_zero_keeps_the_mesh() {
    let m = subdivide_mesh(cube(), 0);
    assert_eq!(m.indices().clone(), cube().indices().clone());
    let c = cube();
    for (p, v) in m.vertices().iter().zip(c.vertices().iter()) {
        assert_eq!(*p, GridPoint { a: *v, b: *v, c: *v, level: 0, row: 0, col: 0 });
    }
}

fn is_closed_and_consistently_wound<V>(mesh: &Mesh<V>) -> bool {
    let edges = directed_edges(mesh);
    mesh.indices().iter().all(|t| t.0 != t.1 && t.1 != t.2 && t.2 != t.0)
        && edges.iter().all(|(&(a, b), &k)| k == 1 && edges.get(&(b, a)) == Some(&1))
}

fn uses_every_vertex<V>(mesh: &Mesh<V>) -> bool {
    let mut used = vec![false; mesh.vertices().len()];
    for t in mesh.indices() {
        for v in [t.0, t.1, t.2] {
            used[v as usize] = true;
        }
    }
    used.iter().all(|&u| u)
}

#[test]
fn cube_is_closed_and_consistently_wound() {
    let m = cube();
    assert_eq!(m.vertices().len(), 8);
    assert_eq!(m.indices().len(), 12);
    assert_eq!(m.vertices()[0], exact(-1, 1, -1));
    assert_eq!(m.vertices()[7], exact(1, 1, 1));
    assert_eq!(directed_edges(&m).len(), 36);
    assert!(is_closed_and_consistently_wound(&m));
    assert!(uses_every_vertex(&m));
    assert_eq!(directed_edges(&m)[&(1, 2)], 1);
    assert_eq!(directed_edges(&m)[&(2, 1)], 1);
    assert_eq!(&m.indices()[10..], &[TriangleIdxSet(1, 5, 2), TriangleIdxSet(2, 5, 6)]);
}

#[test]
fn icosahedron_is_closed_and_consistently_wound() {
    let m = icosahedron();
    assert_eq!(m.vertices().len(), 12);
    assert_eq!(m.indices().len(), 20);
    assert_eq!(m.vertices()[0], exact(0, 1, 0));
    assert_eq!(m.vertices()[3], VertexRecipe::IcoDisc { index: 2, upper: true });
    assert_eq!(m.vertices()[8], VertexRecipe::IcoDisc { index: 2, upper: false });
    assert_eq!(m.vertices()[11], exact(0, -1, 0));
    assert_eq!(directed_edges(&m).len(), 60);
    assert!(is_closed_and_consistently_wound(&m));
    assert!(uses_every_vertex(&m));
}

#[test]
fn triangle_mesh() {
    let m = triangle();
    assert_eq!(m.vertices().clone(), vec![exact(-1, -1, 0), exact(1, -1, 0), exact(0, 1, 0)]);
    assert_eq!(m.indices().clone(), vec![TriangleIdxSet(0, 1, 2)]);
}

#[test]
fn triangular_prism() {
    let m = polygonal_prism(3);
    assert_eq!(m.vertices().len(), 8);
    assert_eq!(m.vertices()[0], VertexRecipe::PrismRim { step: 1, sides: 3, top: true });
    assert_eq!(m.vertices()[5], VertexRecipe::PrismRim { step: 3, sides: 3, top: false });
    assert_eq!(m.vertices()[6], exact(0, 1, 0));
    assert_eq!(m.vertices()[7], exact(0, -1, 0));
    assert_eq!(
        m.indices().clone(),
        vec![
            TriangleIdxSet(0, 1, 2),
            TriangleIdxSet(1, 3, 2),
            TriangleIdxSet(2, 3, 4),
            TriangleIdxSet(3, 5, 4),
            TriangleIdxSet(4, 5, 0),
            TriangleIdxSet(5, 1, 0),
            TriangleIdxSet(6, 0, 2),
            TriangleIdxSet(6, 2, 4),
            TriangleIdxSet(6, 4, 0),
            TriangleIdxSet(7, 3, 1),
            TriangleIdxSet(7, 5, 3),
            TriangleIdxSet(7, 1, 5),
        ]
    );
    assert!(in_range(&m));
    assert!(is_closed_and_consistently_wound(&m));
    assert!(uses_every_vertex(&m));
}

#[test]
fn prism_sides_are_at_least_three() {
    assert_eq!(polygonal_prism(0).vertices().clone(), polygonal_prism(3).vertices().clone());
    assert_eq!(polygonal_prism(2).indices().clone(), polygonal_prism(3).indices().clone());
}

#[test]
fn prism_caps_are_full_pie_sliced_fans() {
    for sides in 3..12u32 {
        let m = polygonal_prism(sides);
        let s = sides as usize;
        assert_eq!(m.vertices().len(), 2 * s + 2);
        assert_eq!(m.indices().len(), 4 * s);
        assert!(in_range(&m));
        assert!(is_closed_and_consistently_wound(&m));
        assert!(uses_every_vertex(&m));
        let (top, bottom) = (2 * sides, 2 * sides + 1);
        for k in 0..sides {
            let next = (k + 1) % sides;
            assert_eq!(m.indices()[2 * s + k as usize], TriangleIdxSet(top, 2 * k, 2 * next));
            assert_eq!(
                m.indices()[3 * s + k as usize],
                TriangleIdxSet(bottom, 2 * next + 1, 2 * k + 1)
            );
        }
    }
    let m = polygonal_prism(5);
    assert_eq!(*m.indices().last().unwrap(), TriangleIdxSet(11, 1, 9));
}

fn on_sphere(v: &ShapeVertex) -> (i64, i64, i64) {
    match v {
        ShapeVertex::OnSphere { x, y, z } => (*x, *y, *z),
        ShapeVertex::Plain(_) => panic!("not a point on the sphere"),
    }
}

#[test]
fn sphere_levels() {
    for level in 0..8u32 {
        let s = sphere(level);
        assert_eq!(s.indices().len(), 12 * (1usize << level));
        let (rows, cols) = (1i64 << ((level + 1) / 2), 1i64 << (level / 2));
        assert_eq!(s.vertices().len() as i64, 6 * (rows + 1) * (cols + 1));
        assert!(in_range(&s));
        assert!(uses_every_vertex(&s));
        for v in s.vertices() {
            let (x, y, z) = on_sphere(v);
            let m = x.abs().max(y.abs()).max(z.abs());
            assert_eq!(m, rows * cols);
        }
    }
}

#[test]
fn sphere_level_zero_is_the_cube_on_the_sphere() {
    let s = sphere(0);
    let c = cube();
    assert_eq!(s.indices().len(), 12);
    let corner = |v: &VertexRecipe| match v {
        VertexRecipe::Exact { x, y, z } => (*x as i64, *y as i64, *z as i64),
        _ => panic!("cube corners are exact"),
    };
    let mut from_sphere: Vec<Vec<(i64, i64, i64)>> = Vec::new();
    for t in s.indices() {
        let mut pts = vec![on_sphere(&s.vertices()[t.0 as usize]), on_sphere(&s.vertices()[t.1 as usize]), on_sphere(&s.vertices()[t.2 as usize])];
        let k = (0..3).min_by_key(|&k| pts[k]).unwrap();
        pts.rotate_left(k);
        from_sphere.push(pts);
    }
    let mut from_cube: Vec<Vec<(i64, i64, i64)>> = Vec::new();
    for t in c.indices() {
        let mut pts = vec![corner(&c.vertices()[t.0 as usize]), corner(&c.vertices()[t.1 as usize]), corner(&c.vertices()[t.2 as usize])];
        let k = (0..3).min_by_key(|&k| pts[k]).unwrap();
        pts.rotate_left(k);
        from_cube.push(pts);
    }
    from_sphere.sort();
    from_cube.sort();
    assert_eq!(from_sphere, from_cube);
}

#[test]
fn sphere_triangles_face_outward_like_the_cube() {
    for level in 0..6u32 {
        let s = sphere(level);
        let v = s.vertices();
        for t in s.indices() {
            let (a, b, c) = (on_sphere(&v[t.0 as usize]), on_sphere(&v[t.1 as usize]), on_sphere(&v[t.2 as usize]));
            let u = (b.0 - a.0, b.1 - a.1, b.2 - a.2);
            let w = (c.0 - a.0, c.1 - a.1, c.2 - a.2);
            let n = (u.1 * w.2 - u.2 * w.1, u.2 * w.0 - u.0 * w.2, u.0 * w.1 - u.1 * w.0);
            assert!(n.0 * a.0 + n.1 * a.1 + n.2 * a.2 < 0);
        }
    }
}

#[test]
fn geometries_build_their_meshes() {
    let c = Geometries::Cube.mesh(7);
    assert_eq!(c.indices().clone(), cube().indices().clone());
    assert!(matches!(c.vertices()[0], ShapeVertex::Plain(v) if v == exact(-1, 1, -1)));
    let p = Geometries::PolygonalPrism.mesh(4);
    assert_eq!(p.indices().clone(), polygonal_prism(4).indices().clone());
    assert!(is_closed_and_consistently_wound(&p));
    let s = Geometries::Sphere.mesh(1);
    assert_eq!(s.indices().len(), 24);
}

#[test]
fn allocation_counts() {
    let m = cube();
    let a = MeshAllocation::new("vertices", "indices", &m);
    assert_eq!(a.vtx_count, 8);
    assert_eq!(a.idx_count, 36);
    assert_eq!(a.vtx_buffer, "vertices");
    assert_eq!(a.idx_buffer, "indices");
}

#[test]
fn index_data_lists_each_triangle_in_turn() {
    let m = polygonal_prism(3);
    let data = m.index_data();
    assert_eq!(data.len(), 36);
    assert_eq!(&data[..6], &[0, 1, 2, 1, 3, 2]);
    assert_eq!(&data[33..], &[7, 1, 5]);
}

#[test]
fn triangle_index_multiplication() {
    assert_eq!(TriangleIdxSet(1, 2, 3).mul(4), TriangleIdxSet(4, 8, 12));
    assert_eq!(TriangleIdxSet(0, 5, 9).mul(0), TriangleIdxSet(0, 0, 0));
}

#[test]
fn buffer_layout() {
    assert_eq!(MeshDataDescriptor::VERTEX_STRIDE, 16);
    assert_eq!(MeshDataDescriptor::TRIANGLE_STRIDE, 3 * MeshDataDescriptor::INDEX_SIZE);
    assert_eq!(MeshDataDescriptor::SHADER_LOCATION, 0);
}

#[test]
fn subdividing_uses_every_new_vertex() {
    for level in 1..4u32 {
        assert!(uses_every_vertex(&subdivide_mesh(triangle(), level)));
        assert!(uses_every_vertex(&subdivide_mesh(cube(), level)));
        assert!(uses_every_vertex(&subdivide_mesh(polygonal_prism(5), level)));
    }
}
