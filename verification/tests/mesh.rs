use terrain_mesh::arena::ArenaId;
use terrain_mesh::geo::{orient, Bbox, Vec2};
use terrain_mesh::mesh::{DelaunayMesh, InsertError, Triangle, Vertex, PADDING};

fn boxed(x0: i64, y0: i64, x1: i64, y1: i64) -> Bbox {
    let mut b = Bbox::new(Vec2::new(x0, y0));
    b.expand(Vec2::new(x1, y1));
    b
}

struct Lcg(u64);

impl Lcg {
    fn next(&mut self, modulus: u64) -> i64 {
        self.0 = self.0.wrapping_mul(6364136223846793005).wrapping_add(1442695040888963407);
        ((self.0 >> 33) % modulus) as i64
    }
}

fn corners(mesh: &DelaunayMesh, id: ArenaId<Triangle>) -> [usize; 3] {
    let v = mesh.triangle(id).unwrap().vertices();
    [v[0].position(), v[1].position(), v[2].position()]
}

fn live(mesh: &DelaunayMesh) -> Vec<[usize; 3]> {
    mesh.triangles().into_iter().map(|id| corners(mesh, id)).collect()
}

/// Sign of the in-circle determinant: positive where `d` lies strictly
/// inside the circle through the counter-clockwise `a`, `b`, `c`.
fn in_circle(a: Vec2, b: Vec2, c: Vec2, d: Vec2) -> i128 {
    let (ax, ay) = ((a.x - d.x) as i128, (a.y - d.y) as i128);
    let (bx, by) = ((b.x - d.x) as i128, (b.y - d.y) as i128);
    let (cx, cy) = ((c.x - d.x) as i128, (c.y - d.y) as i128);
    let det = (ax * ax + ay * ay) * (bx * cy - cx * by) - (bx * bx + by * by) * (ax * cy - cx * ay)
        + (cx * cx + cy * cy) * (ax * by - bx * ay);
    det.signum()
}

/// Every live triangle has three different corners that turn
/// counter-clockwise, and no two live triangles walk an edge in the same
/// direction.
fn assert_consistent(mesh: &DelaunayMesh) {
    let mut seen = std::collections::HashSet::new();
    for id in mesh.triangles() {
        let c = corners(mesh, id);
        assert!(c[0] != c[1] && c[1] != c[2] && c[2] != c[0]);
        let p = mesh.triangle_vertices(id);
        assert!(orient(p[0], p[1], p[2]) > 0);
        for i in 0..3 {
            assert!(seen.insert((c[i], c[(i + 1) % 3])));
        }
    }
}

/// Every edge of a live triangle is walked the other way by a live
/// triangle, but for the four sides of the padded box.
fn assert_closed(mesh: &DelaunayMesh) {
    let mut edges = std::collections::HashSet::new();
    for c in live(mesh) {
        for i in 0..3 {
            edges.insert((c[i], c[(i + 1) % 3]));
        }
    }
    for (a, b) in &edges {
        let hull = *a < 4 && *b < 4 && (*a + 1) % 4 == *b;
        assert!(hull || edges.contains(&(*b, *a)));
    }
}

#[test]
fn a_new_mesh_is_the_padded_box_cut_along_a_diagonal() {
    let bbox = boxed(0, 0, 10, 10);
    assert!(DelaunayMesh::can_hold(&bbox));
    let mesh = DelaunayMesh::new(bbox);
    assert_eq!(PADDING, 20);
    assert_eq!(mesh.bbox(), boxed(-20, -20, 30, 30));
    assert_eq!(mesh.vertex_count(), 4);
    assert_eq!(mesh.slot_count(), 2);
    let v: ArenaId<Vertex> = mesh.triangle(mesh.triangles()[0]).unwrap().vertices()[0];
    assert_eq!(mesh.vertex(v), Some(Vec2::new(-20, -20)));
    assert_eq!(live(&mesh), vec![[0, 1, 2], [2, 3, 0]]);
    let ids = mesh.triangles();
    assert_eq!(
        mesh.triangle_vertices(ids[0]),
        [Vec2::new(-20, -20), Vec2::new(30, -20), Vec2::new(30, 30)]
    );
    assert_eq!(
        mesh.triangle_vertices(ids[1]),
        [Vec2::new(30, 30), Vec2::new(-20, 30), Vec2::new(-20, -20)]
    );
    assert_consistent(&mesh);
    assert_closed(&mesh);
}

#[test]
fn a_box_near_the_end_of_the_coordinate_range_cannot_be_held() {
    let limit = terrain_mesh::geo::COORD_LIMIT;
    assert!(DelaunayMesh::can_hold(&boxed(-(limit - 20), 0, limit - 20, 5)));
    assert!(!DelaunayMesh::can_hold(&boxed(0, 0, limit - 19, 5)));
    assert!(!DelaunayMesh::can_hold(&boxed(0, -(limit - 19), 5, 5)));
}

#[test]
fn the_first_point_replaces_both_triangles_by_a_fan() {
    let mut mesh = DelaunayMesh::new(boxed(0, 0, 10, 10));
    let before = mesh.triangles();
    let roi = mesh.insert(Vec2::new(3, 4));
    assert_eq!(mesh.vertex_count(), 5);
    assert_eq!(roi.removed().len(), 2);
    assert_eq!(roi.triangles().len(), 4);
    assert_eq!(live(&mesh), vec![[0, 1, 4], [1, 2, 4], [2, 3, 4], [3, 0, 4]]);
    for id in roi.triangles() {
        assert!(mesh.contains_triangle(*id));
        assert!(mesh.triangle(*id).unwrap().live());
        assert!(mesh.triangle(*id).unwrap().circumcircle().contains(Vec2::new(3, 4)));
    }
    for id in roi.removed() {
        assert!(!mesh.contains_triangle(*id));
        assert!(mesh.triangle(*id).is_none());
        assert!(before.iter().any(|b| b.same(id)));
    }
    assert_eq!(mesh.slot_count(), 6);
    assert_consistent(&mesh);
    assert_closed(&mesh);
}

#[test]
fn corners_and_center_give_a_delaunay_triangulation() {
    let mut mesh = DelaunayMesh::new(boxed(0, 0, 10, 10));
    let points = [
        Vec2::new(0, 0),
        Vec2::new(10, 0),
        Vec2::new(10, 10),
        Vec2::new(0, 10),
        Vec2::new(5, 5),
    ];
    for p in points {
        let roi = mesh.insert(p);
        for id in roi.triangles() {
            assert!(mesh.contains_triangle(*id));
        }
        for id in roi.removed() {
            assert!(!mesh.contains_triangle(*id));
        }
        assert_consistent(&mesh);
        assert_closed(&mesh);
    }
    assert_eq!(mesh.vertex_count(), 9);
    assert_eq!(mesh.triangles().len(), 12);
    for id in mesh.triangles() {
        let t = mesh.triangle_vertices(id);
        let circle = mesh.triangle(id).unwrap().circumcircle();
        for p in points {
            let strictly_inside = in_circle(t[0], t[1], t[2], p) > 0;
            assert!(!strictly_inside);
            if circle.contains(p) {
                assert_eq!(in_circle(t[0], t[1], t[2], p), 0);
            }
        }
    }
    // The four triangles around the center are those of the inner square.
    let inner: Vec<[usize; 3]> =
        live(&mesh).into_iter().filter(|c| c.contains(&8)).collect();
    assert_eq!(inner, vec![[4, 5, 8], [7, 4, 8], [5, 6, 8], [6, 7, 8]]);
}

#[test]
fn a_point_outside_the_padded_box_is_refused() {
    let mut mesh = DelaunayMesh::new(boxed(0, 0, 10, 10));
    assert_eq!(mesh.refusal(Vec2::new(-21, 5)), Some(InsertError::OutOfBounds));
    assert!(!mesh.admits(Vec2::new(-21, 5)));
    assert_eq!(mesh.refusal(Vec2::new(5, 5)), None);
    assert!(mesh.admits(Vec2::new(5, 5)));
    assert!(matches!(mesh.try_insert(Vec2::new(-21, 5)), Err(InsertError::OutOfBounds)));
    assert!(matches!(mesh.try_insert(Vec2::new(5, 31)), Err(InsertError::OutOfBounds)));
    assert_eq!(mesh.vertex_count(), 4);
    assert_eq!(live(&mesh), vec![[0, 1, 2], [2, 3, 0]]);
}

#[test]
fn a_point_on_the_border_of_the_padded_box_is_degenerate() {
    let mut mesh = DelaunayMesh::new(boxed(0, 0, 10, 10));
    assert_eq!(mesh.refusal(Vec2::new(-20, 5)), Some(InsertError::Degenerate));
    assert!(matches!(mesh.try_insert(Vec2::new(-20, 5)), Err(InsertError::Degenerate)));
    assert!(matches!(mesh.try_insert(Vec2::new(30, 30)), Err(InsertError::Degenerate)));
    assert_eq!(mesh.vertex_count(), 4);
    assert_eq!(mesh.slot_count(), 2);
    assert_eq!(live(&mesh), vec![[0, 1, 2], [2, 3, 0]]);
}

#[test]
fn a_point_in_the_padding_is_inserted() {
    let mut mesh = DelaunayMesh::new(boxed(0, 0, 10, 10));
    assert!(mesh.admits(Vec2::new(-19, 29)));
    assert!(mesh.try_insert(Vec2::new(-19, 29)).is_ok());
    assert_consistent(&mesh);
    assert_closed(&mesh);
}

#[test]
fn a_point_on_an_edge_removes_the_triangles_on_both_sides() {
    let mut mesh = DelaunayMesh::new(boxed(0, 0, 10, 10));
    // On the diagonal from the lower left to the upper right.
    let roi = mesh.insert(Vec2::new(7, 7));
    assert_eq!(roi.removed().len(), 2);
    assert_eq!(roi.triangles().len(), 4);
    // On the edge from the new vertex to the upper right corner.
    let roi = mesh.insert(Vec2::new(20, 20));
    assert_eq!(roi.removed().len(), 2);
    assert_eq!(roi.triangles().len(), 4);
    assert_eq!(mesh.triangles().len(), 6);
    assert_consistent(&mesh);
    assert_closed(&mesh);
}

#[test]
fn a_point_on_a_vertex_takes_the_place_of_the_vertex() {
    let mut mesh = DelaunayMesh::new(boxed(0, 0, 10, 10));
    mesh.insert(Vec2::new(4, 6));
    let before: Vec<[Vec2; 3]> =
        mesh.triangles().into_iter().map(|id| mesh.triangle_vertices(id)).collect();
    let roi = mesh.insert(Vec2::new(4, 6));
    assert_eq!(roi.removed().len(), 4);
    assert_eq!(roi.triangles().len(), 4);
    assert_eq!(mesh.vertex_count(), 6);
    let after: Vec<[Vec2; 3]> =
        mesh.triangles().into_iter().map(|id| mesh.triangle_vertices(id)).collect();
    assert_eq!(before, after);
    assert!(live(&mesh).iter().all(|c| !c.contains(&4)));
    assert_consistent(&mesh);
    assert_closed(&mesh);
}

#[test]
fn points_on_one_line_are_inserted() {
    let mut mesh = DelaunayMesh::new(boxed(0, 0, 10, 10));
    for x in 0..=10 {
        mesh.insert(Vec2::new(x, 5));
        assert_consistent(&mesh);
        assert_closed(&mesh);
    }
    assert_eq!(mesh.vertex_count(), 15);
    let mut vertices = Vec::new();
    for id in mesh.triangles() {
        for v in mesh.triangle(id).unwrap().vertices() {
            vertices.push(mesh.vertex(v).unwrap());
        }
    }
    for id in mesh.triangles() {
        let t = mesh.triangle_vertices(id);
        for p in &vertices {
            assert!(in_circle(t[0], t[1], t[2], *p) <= 0);
        }
    }
}

#[test]
fn random_points_keep_the_mesh_consistent() {
    let mut rng = Lcg(2024);
    let mut mesh = DelaunayMesh::new(boxed(0, 0, 800, 800));
    let (mut inserted, mut malformed, mut degenerate) = (0, 0, 0);
    let mut first_degenerate = None;
    let mut first_malformed = None;
    for i in 0..600 {
        let p = Vec2::new(rng.next(801), rng.next(801));
        let vertices = mesh.vertex_count();
        let slots = mesh.slot_count();
        let before = live(&mesh);
        let expected = mesh.refusal(p);
        assert_eq!(mesh.admits(p), expected.is_none());
        let result = mesh.try_insert(p);
        assert_eq!(result.as_ref().err().copied(), expected);
        match result {
            Ok(roi) => {
                inserted += 1;
                assert_eq!(mesh.vertex_count(), vertices + 1);
                assert_eq!(mesh.slot_count(), slots + roi.triangles().len());
                assert!(!roi.triangles().is_empty() && !roi.removed().is_empty());
                for (k, id) in roi.triangles().iter().enumerate() {
                    assert_eq!(id.position(), slots + k);
                    assert!(mesh.contains_triangle(*id));
                    assert_eq!(corners(&mesh, *id)[2], vertices);
                }
                for id in roi.removed() {
                    assert!(!mesh.contains_triangle(*id));
                }
                assert_eq!(
                    mesh.triangles().len(),
                    before.len() - roi.removed().len() + roi.triangles().len()
                );
            }
            Err(e) => {
                assert_eq!(mesh.vertex_count(), vertices);
                assert_eq!(mesh.slot_count(), slots);
                assert_eq!(live(&mesh), before);
                match e {
                    InsertError::MalformedCavity => {
                        malformed += 1;
                        first_malformed.get_or_insert((i, p));
                    }
                    InsertError::Degenerate => {
                        degenerate += 1;
                        first_degenerate.get_or_insert((i, p));
                    }
                    InsertError::OutOfBounds => panic!("the points lie in the box"),
                }
            }
        }
        assert_consistent(&mesh);
    }
    assert_eq!((inserted, malformed, degenerate), (220, 82, 298));
    assert_eq!(first_degenerate, Some((32, Vec2::new(796, 689))));
    assert_eq!(first_malformed, Some((72, Vec2::new(427, 582))));
    assert_eq!(mesh.vertex_count(), 224);
    assert_eq!(mesh.triangles().len(), 442);
    assert_eq!(mesh.slot_count(), 1187);
}

#[test]
fn a_few_random_points_give_a_delaunay_triangulation() {
    let mut rng = Lcg(7);
    let mut mesh = DelaunayMesh::new(boxed(0, 0, 100, 100));
    let mut points = Vec::new();
    for _ in 0..12 {
        let p = Vec2::new(rng.next(101), rng.next(101));
        mesh.insert(p);
        points.push(p);
        assert_consistent(&mesh);
        assert_closed(&mesh);
    }
    assert_eq!(mesh.vertex_count(), 16);
    assert_eq!(mesh.triangles().len(), 26);
    for id in mesh.triangles() {
        let t = mesh.triangle_vertices(id);
        for p in &points {
            assert!(in_circle(t[0], t[1], t[2], *p) <= 0);
        }
    }
}

#[test]
fn triangles_that_reach_into_the_padding_are_told_apart() {
    let mut mesh = DelaunayMesh::new(boxed(0, 0, 10, 10));
    for p in [
        Vec2::new(0, 0),
        Vec2::new(10, 0),
        Vec2::new(10, 10),
        Vec2::new(0, 10),
        Vec2::new(5, 5),
    ] {
        mesh.insert(p);
    }
    let inner: Vec<[usize; 3]> = mesh
        .triangles()
        .into_iter()
        .filter(|id| !mesh.touches_padding(*id))
        .map(|id| corners(&mesh, id))
        .collect();
    assert_eq!(inner, vec![[4, 5, 8], [7, 4, 8], [5, 6, 8], [6, 7, 8]]);
    let mut doubled = 0;
    for id in mesh.triangles() {
        if !mesh.touches_padding(id) {
            let t = mesh.triangle_vertices(id);
            doubled += orient(t[0], t[1], t[2]);
        }
    }
    assert_eq!(doubled, 2 * 100);
}

#[test]
fn a_triangle_over_free_edges_can_be_added_by_hand() {
    let mut mesh = DelaunayMesh::new(boxed(0, 0, 10, 10));
    let first = mesh.insert(Vec2::new(2, 2));
    let left = mesh.triangle(first.triangles()[0]).unwrap().vertices()[2];
    mesh.insert(Vec2::new(2, 2));
    let second = mesh.insert(Vec2::new(8, 2));
    let right = mesh.triangle(second.triangles()[0]).unwrap().vertices()[2];
    mesh.insert(Vec2::new(8, 2));
    assert_eq!((left.position(), right.position()), (4, 6));
    // The vertices 4 and 6 are corners of no triangle any more.
    assert!(live(&mesh).iter().all(|c| !c.contains(&4) && !c.contains(&6)));
    let far = mesh
        .triangles()
        .into_iter()
        .map(|id| mesh.triangle(id).unwrap().vertices())
        .flat_map(|v| v.into_iter())
        .find(|v| v.position() == 3)
        .unwrap();
    assert_eq!(mesh.vertex(far), Some(Vec2::new(-20, 30)));
    let slots = mesh.slot_count();
    let count = mesh.triangles().len();
    let id = mesh.insert_triangle(far, left, right);
    assert_eq!(id.position(), slots);
    assert_eq!(mesh.slot_count(), slots + 1);
    assert_eq!(mesh.triangles().len(), count + 1);
    assert_eq!(corners(&mesh, id), [3, 4, 6]);
    assert_eq!(
        mesh.triangle_vertices(id),
        [Vec2::new(-20, 30), Vec2::new(2, 2), Vec2::new(8, 2)]
    );
    let circle = mesh.triangle(id).unwrap().circumcircle();
    assert!(circle.contains(Vec2::new(-20, 30)));
    assert!(circle.contains(Vec2::new(2, 2)));
    assert!(circle.contains(Vec2::new(8, 2)));
    assert_consistent(&mesh);
}

#[test]
fn a_vertex_lies_where_it_was_made() {
    let v = Vertex::new(Vec2::new(3, -4));
    assert_eq!(v.position(), Vec2::new(3, -4));
    let copy = v;
    assert_eq!(copy.position(), v.position());
}

#[test]
fn a_cavity_that_does_not_close_is_told_before_the_insertion() {
    let mut rng = Lcg(2024);
    let mut mesh = DelaunayMesh::new(boxed(0, 0, 800, 800));
    for _ in 0..72 {
        let p = Vec2::new(rng.next(801), rng.next(801));
        if mesh.admits(p) {
            mesh.insert(p);
        }
    }
    let p = Vec2::new(rng.next(801), rng.next(801));
    assert_eq!(p, Vec2::new(427, 582));
    assert_eq!(mesh.refusal(p), Some(InsertError::MalformedCavity));
    assert!(!mesh.admits(p));
    let before = live(&mesh);
    assert!(matches!(mesh.try_insert(p), Err(InsertError::MalformedCavity)));
    assert_eq!(live(&mesh), before);
}

#[test]
fn vertices_are_found_by_their_position() {
    let mut mesh = DelaunayMesh::new(boxed(0, 0, 10, 10));
    assert!(mesh.has_vertex_at(Vec2::new(-20, -20)));
    assert!(mesh.has_vertex_at(Vec2::new(30, -20)));
    assert!(!mesh.has_vertex_at(Vec2::new(3, 4)));
    mesh.insert(Vec2::new(3, 4));
    assert!(mesh.has_vertex_at(Vec2::new(3, 4)));
    assert!(!mesh.has_vertex_at(Vec2::new(4, 3)));
}

#[test]
fn corners_in_another_order_and_center_give_a_delaunay_triangulation() {
    let mut mesh = DelaunayMesh::new(boxed(0, 0, 10, 10));
    let points = [
        Vec2::new(0, 0),
        Vec2::new(10, 0),
        Vec2::new(0, 10),
        Vec2::new(10, 10),
        Vec2::new(5, 5),
    ];
    for p in points {
        assert!(mesh.admits(p));
        mesh.insert(p);
        assert_consistent(&mesh);
        assert_closed(&mesh);
    }
    assert_eq!(mesh.triangles().len(), 12);
    for id in mesh.triangles() {
        let t = mesh.triangle_vertices(id);
        for p in points {
            assert!(in_circle(t[0], t[1], t[2], p) <= 0);
        }
    }
    assert_eq!(
        live(&mesh),
        vec![
            [0, 1, 5],
            [4, 0, 5],
            [3, 0, 6],
            [0, 4, 6],
            [1, 2, 7],
            [5, 1, 7],
            [2, 3, 7],
            [3, 6, 7],
            [4, 5, 8],
            [5, 7, 8],
            [6, 4, 8],
            [7, 6, 8]
        ]
    );
}
