use terrain_mesh::geo::{Bbox, Vec2, COORD_LIMIT};
use terrain_mesh::mesh::{DelaunayMesh, InsertError};
use terrain_mesh::scape::{find_best_candidate, refine, scape, Candidate, Heightfield, ScapeError};
use terrain_mesh::terrain::{Terrain, TerrainGenerator};

struct Lcg(u64);

impl Lcg {
    fn next(&mut self, modulus: u64) -> i64 {
        self.0 = self.0.wrapping_mul(6364136223846793005).wrapping_add(1442695040888963407);
        ((self.0 >> 33) % modulus) as i64
    }
}

fn field(width: usize, depth: usize, height: impl Fn(i64, i64) -> i32) -> Terrain {
    let mut heights = Vec::new();
    for y in 0..depth {
        for x in 0..width {
            heights.push(height(x as i64, y as i64));
        }
    }
    Terrain::new(width, depth, heights, 0, TerrainGenerator::Heightmap).unwrap()
}

fn noise(seed: u64, width: usize, depth: usize, modulus: u64) -> Terrain {
    let mut rng = Lcg(seed);
    let mut heights = Vec::new();
    for _ in 0..width * depth {
        heights.push(rng.next(modulus) as i32);
    }
    Terrain::new(width, depth, heights, 0, TerrainGenerator::Heightmap).unwrap()
}

fn inserted(mesh: &DelaunayMesh) -> Vec<Vec2> {
    let mut points = Vec::new();
    let root = mesh.triangles();
    let mut seen = vec![None; mesh.vertex_count()];
    for id in root {
        let ids = mesh.triangle(id).unwrap().vertices();
        let at = mesh.triangle_vertices(id);
        for i in 0..3 {
            seen[ids[i].position()] = Some(at[i]);
        }
    }
    for v in seen.into_iter().skip(8) {
        points.push(v.unwrap());
    }
    points
}

/// The field lies above no triangle of the mesh whose corners are cells:
/// the error of the best candidate of none of them is above zero.
fn assert_refined(terrain: &Terrain, mesh: &DelaunayMesh) {
    for id in mesh.triangles() {
        match find_best_candidate(terrain, mesh.triangle_vertices(id)) {
            Some((_, err)) => {
                assert!(!mesh.touches_padding(id));
                assert!(!err.is_positive());
                assert_eq!(err.numerator(), 0);
            }
            None => assert!(mesh.touches_padding(id)),
        }
    }
}

#[test]
fn the_best_candidate_is_the_cell_with_the_greatest_error() {
    let terrain = field(5, 5, |x, y| (x * y) as i32);
    let triangle = [Vec2::new(0, 0), Vec2::new(4, 0), Vec2::new(0, 4)];
    let (p, err) = find_best_candidate(&terrain, triangle).unwrap();
    assert_eq!(p, Vec2::new(2, 2));
    assert_eq!(err.numerator(), 4 * 16);
    assert_eq!(err.denominator(), 16);
}

#[test]
fn the_error_is_measured_against_the_interpolated_heights() {
    let terrain = field(5, 5, |x, y| if x == 1 && y == 1 { 100 } else { (10 * x + 20 * y) as i32 });
    let triangle = [Vec2::new(0, 0), Vec2::new(4, 0), Vec2::new(0, 4)];
    let (p, err) = find_best_candidate(&terrain, triangle).unwrap();
    assert_eq!(p, Vec2::new(1, 1));
    // 100 against the plane's 30 at (1, 1), over twice the area.
    assert_eq!(err.numerator(), 70 * 16);
    assert_eq!(err.denominator(), 16);
}

#[test]
fn the_first_cell_of_the_scan_wins_a_tie() {
    let corner = |x: i64, y: i64| (x == 0 && y == 0) || (x == 4 && y == 0) || (x == 0 && y == 4);
    let terrain = field(5, 5, |x, y| if corner(x, y) { 0 } else { 5 });
    let triangle = [Vec2::new(0, 0), Vec2::new(4, 0), Vec2::new(0, 4)];
    let (p, err) = find_best_candidate(&terrain, triangle).unwrap();
    assert_eq!(p, Vec2::new(1, 0));
    assert_eq!(err.numerator(), 5 * 16);
    let clockwise = [Vec2::new(0, 0), Vec2::new(0, 4), Vec2::new(4, 0)];
    let (q, other) = find_best_candidate(&terrain, clockwise).unwrap();
    assert_eq!(q, p);
    assert_eq!(other.numerator(), err.numerator());
}

#[test]
fn a_triangle_that_the_field_does_not_rise_above_has_a_candidate_without_error() {
    let plane = field(5, 5, |x, y| (3 * x - y + 2) as i32);
    let triangle = [Vec2::new(0, 0), Vec2::new(4, 0), Vec2::new(0, 4)];
    let (p, err) = find_best_candidate(&plane, triangle).unwrap();
    assert_eq!(p, Vec2::new(0, 0));
    assert_eq!((err.numerator(), err.denominator()), (0, 16));
    assert!(!err.is_positive());
    let valley = field(5, 5, |x, y| -(x * y) as i32);
    let (p, err) = find_best_candidate(&valley, triangle).unwrap();
    assert_eq!(p, Vec2::new(0, 0));
    assert_eq!(err.numerator(), 0);
    let flat = field(10, 10, |_, _| 7);
    let wide = [Vec2::new(0, 0), Vec2::new(8, 0), Vec2::new(0, 8)];
    let (p, err) = find_best_candidate(&flat, wide).unwrap();
    assert_eq!(p, Vec2::new(0, 0));
    assert_eq!((err.numerator(), err.denominator()), (0, 64));
}

#[test]
fn cells_below_the_triangle_do_not_win() {
    // The field dips inside the triangle and is flat along two of its
    // sides: the cell of greatest error is the first cell where it is zero.
    let terrain = field(5, 5, |x, y| if x + y <= 4 && x * y > 0 { -3 } else { 0 });
    let triangle = [Vec2::new(4, 0), Vec2::new(0, 4), Vec2::new(0, 0)];
    let (p, err) = find_best_candidate(&terrain, triangle).unwrap();
    assert_eq!(p, Vec2::new(0, 0));
    assert_eq!(err.numerator(), 0);
}

#[test]
fn a_triangle_with_a_corner_off_the_grid_has_no_candidate() {
    let terrain = field(5, 5, |x, y| (x * y) as i32);
    assert!(find_best_candidate(&terrain, [Vec2::new(-1, 0), Vec2::new(4, 0), Vec2::new(0, 4)])
        .is_none());
    assert!(find_best_candidate(&terrain, [Vec2::new(0, 0), Vec2::new(5, 0), Vec2::new(0, 4)])
        .is_none());
}

#[test]
fn a_triangle_without_area_has_no_candidate() {
    let terrain = field(5, 5, |x, y| (x * y) as i32);
    assert!(find_best_candidate(&terrain, [Vec2::new(0, 0), Vec2::new(2, 2), Vec2::new(4, 4)])
        .is_none());
}

#[test]
fn a_triangle_smaller_than_a_cell_has_its_corners_only() {
    let terrain = field(3, 3, |x, y| (x * x + y) as i32);
    let (p, err) =
        find_best_candidate(&terrain, [Vec2::new(1, 0), Vec2::new(0, 1), Vec2::new(0, 0)])
            .unwrap();
    assert_eq!(p, Vec2::new(0, 0));
    assert_eq!((err.numerator(), err.denominator()), (0, 1));
}

#[test]
fn a_plane_needs_no_point_besides_the_corners() {
    let terrain = field(10, 10, |x, y| (3 * x + 2 * y + 1) as i32);
    let mesh = scape(&terrain, 100).unwrap();
    assert_eq!(mesh.vertex_count(), 8);
    assert_eq!(inserted(&mesh), Vec::<Vec2>::new());
    assert_refined(&terrain, &mesh);
    // The error of every cell against the triangle that holds it is zero.
    for id in mesh.triangles() {
        let v = mesh.triangle_vertices(id);
        if v.iter().any(|p| p.x < 0 || p.x > 9 || p.y < 0 || p.y > 9) {
            continue;
        }
        for x in 0..10 {
            for y in 0..10 {
                let p = Vec2::new(x, y);
                if let Some(coords) = terrain_mesh::geo::BarycentricCoords::triangle(v, p) {
                    let at = |q: Vec2| Heightfield::height_at(&terrain, q.x as u32, q.y as u32);
                    let mix = coords.interpolate([at(v[0]), at(v[1]), at(v[2])]);
                    assert_eq!(mix.numerator(), at(p) as i128 * mix.denominator());
                }
            }
        }
    }
}

#[test]
fn refinement_stops_when_no_candidate_is_left() {
    let terrain = noise(1, 10, 10, 100);
    let mesh = scape(&terrain, 1000).unwrap();
    assert_eq!(mesh.vertex_count(), 8 + 12);
    assert_eq!(mesh.triangles().len(), 34);
    assert_refined(&terrain, &mesh);
    let again = scape(&terrain, usize::MAX).unwrap();
    assert_eq!(inserted(&again), inserted(&mesh));
}

#[test]
fn refinement_stops_when_the_budget_is_spent() {
    let terrain = noise(3, 12, 9, 50);
    let mesh = scape(&terrain, 5).unwrap();
    assert_eq!(mesh.vertex_count(), 8 + 5);
    assert_eq!(mesh.triangles().len(), 20);
    let none = scape(&terrain, 0).unwrap();
    assert_eq!(none.vertex_count(), 8);
}

#[test]
fn the_greatest_error_is_inserted_first() {
    let terrain = field(11, 11, |x, y| (200 - (x - 5) * (x - 5) - (y - 5) * (y - 5)) as i32);
    let mesh = scape(&terrain, 3).unwrap();
    assert_eq!(inserted(&mesh), vec![Vec2::new(5, 5), Vec2::new(5, 0), Vec2::new(0, 5)]);
    let step = field(6, 4, |x, _| if x >= 3 { 10 } else { 0 });
    let mesh = scape(&step, 100).unwrap();
    assert_eq!(inserted(&mesh), vec![Vec2::new(3, 0), Vec2::new(3, 3)]);
    assert_refined(&step, &mesh);
}

#[test]
fn the_corners_of_the_grid_are_the_first_vertices() {
    let terrain = field(4, 3, |x, y| (x + y) as i32);
    let mesh = scape(&terrain, 10).unwrap();
    assert_eq!(mesh.bbox().min(), Vec2::new(-20, -20));
    assert_eq!(mesh.bbox().max(), Vec2::new(23, 22));
    let mut corners = Vec::new();
    for id in mesh.triangles() {
        let ids = mesh.triangle(id).unwrap().vertices();
        let at = mesh.triangle_vertices(id);
        for i in 0..3 {
            if (4..8).contains(&ids[i].position()) {
                corners.push((ids[i].position(), at[i]));
            }
        }
    }
    corners.sort_by_key(|c| c.0);
    corners.dedup();
    assert_eq!(
        corners,
        vec![
            (4, Vec2::new(0, 0)),
            (5, Vec2::new(3, 0)),
            (6, Vec2::new(3, 2)),
            (7, Vec2::new(0, 2))
        ]
    );
}

#[test]
fn grids_of_one_row_or_one_column_are_approximated() {
    let one = field(1, 1, |_, _| 7);
    assert_eq!(scape(&one, 10).unwrap().vertex_count(), 8);
    let row = field(5, 1, |x, _| (x * x) as i32);
    assert_eq!(scape(&row, 10).unwrap().vertex_count(), 8);
    let column = field(1, 5, |_, y| -(y * y) as i32);
    assert_eq!(scape(&column, 10).unwrap().vertex_count(), 8);
    let two = field(2, 2, |x, y| (x + y) as i32);
    assert_eq!(scape(&two, 10).unwrap().vertex_count(), 8);
}

#[test]
fn an_empty_grid_is_refused() {
    let empty = Terrain::new(0, 0, Vec::new(), 0, TerrainGenerator::Heightmap).unwrap();
    assert!(matches!(scape(&empty, 10), Err(ScapeError::EmptyField)));
    let no_rows = Terrain::new(5, 0, Vec::new(), 0, TerrainGenerator::Heightmap).unwrap();
    assert!(matches!(scape(&no_rows, 10), Err(ScapeError::EmptyField)));
}

#[test]
fn a_grid_beyond_the_coordinate_range_is_refused() {
    let width = (COORD_LIMIT - 20 + 2) as usize;
    let wide = Terrain::new(width, 1, vec![0; width], 0, TerrainGenerator::Heightmap).unwrap();
    assert!(matches!(scape(&wide, 0), Err(ScapeError::TooLarge)));
}

#[test]
fn a_refused_point_ends_the_refinement() {
    let terrain = field(11, 11, |x, y| (200 - (x - 5) * (x - 5) - (y - 5) * (y - 5)) as i32);
    assert!(matches!(
        scape(&terrain, 1000),
        Err(ScapeError::Insert(InsertError::Degenerate))
    ));
    assert_eq!(scape(&terrain, 33).unwrap().vertex_count(), 8 + 33);
    assert!(scape(&terrain, 34).is_err());
}

#[test]
fn one_round_inserts_the_candidate_with_the_greatest_error() {
    let terrain = field(11, 11, |x, y| (200 - (x - 5) * (x - 5) - (y - 5) * (y - 5)) as i32);
    let mut bbox = Bbox::new(Vec2::zero());
    bbox.expand(Vec2::new(10, 10));
    let mut mesh = DelaunayMesh::new(bbox);
    for p in [Vec2::new(0, 0), Vec2::new(10, 0), Vec2::new(10, 10), Vec2::new(0, 10)] {
        mesh.insert(p);
    }
    let mut candidates: Vec<Candidate> = Vec::new();
    for id in mesh.triangles() {
        if let Some((point, error)) = find_best_candidate(&terrain, mesh.triangle_vertices(id)) {
            candidates.push(Candidate { tri: id, point, error });
        }
    }
    assert_eq!(candidates.len(), 2);
    assert_eq!(candidates[0].point, Vec2::new(5, 5));
    assert_eq!(candidates[1].point, Vec2::new(5, 5));
    assert!(!candidates[1].error.exceeds(&candidates[0].error));
    let first = candidates[0].tri;
    assert_eq!(refine(&terrain, &mut mesh, &mut candidates), Ok(true));
    assert_eq!(mesh.vertex_count(), 9);
    assert!(!mesh.contains_triangle(first));
    assert_eq!(candidates.len(), 4);
    for c in &candidates {
        assert!(mesh.contains_triangle(c.tri));
        assert!(c.tri.position() >= mesh.slot_count() - 4);
        let (point, error) = find_best_candidate(&terrain, mesh.triangle_vertices(c.tri)).unwrap();
        assert_eq!(point, c.point);
        assert_eq!(error, c.error);
    }
}

#[test]
fn a_terrain_is_a_height_field() {
    let terrain = field(4, 3, |x, y| (10 * y + x) as i32);
    assert_eq!(Heightfield::width(&terrain), 4);
    assert_eq!(Heightfield::height(&terrain), 3);
    assert_eq!(Heightfield::height_at(&terrain, 3, 2), 23);
    assert_eq!(Heightfield::height_at(&terrain, 0, 1), 10);
}

#[test]
fn a_budget_beyond_the_cells_ends_with_no_candidate() {
    let terrain = noise(1, 10, 10, 100);
    let mesh = scape(&terrain, 101).unwrap();
    let points = inserted(&mesh);
    assert!(points.len() <= 100);
    assert_eq!(points.len(), 12);
    assert_refined(&terrain, &mesh);
    for (i, p) in points.iter().enumerate() {
        assert!(0 <= p.x && p.x < 10 && 0 <= p.y && p.y < 10);
        assert!(!points[..i].contains(p));
    }
    let small = noise(4, 3, 2, 1000);
    let mesh = scape(&small, 7).unwrap();
    assert!(inserted(&mesh).len() <= 6);
    assert_refined(&small, &mesh);
}

#[test]
fn a_plane_needs_no_point_whatever_the_budget() {
    for (a, b, c) in [(0, 0, 5), (7, 0, -3), (-2, 9, 100), (1, 1, 0)] {
        let terrain = field(6, 9, |x, y| (a * x + b * y + c) as i32);
        for budget in [0, 1, 54, 1000] {
            let mesh = scape(&terrain, budget).unwrap();
            assert_eq!(mesh.vertex_count(), 8);
            assert_refined(&terrain, &mesh);
        }
    }
}

#[test]
fn a_round_does_nothing_where_no_candidate_has_an_error_above_zero() {
    let terrain = field(11, 11, |x, y| (2 * x - 3 * y + 40) as i32);
    let mut bbox = Bbox::new(Vec2::zero());
    bbox.expand(Vec2::new(10, 10));
    let mut mesh = DelaunayMesh::new(bbox);
    for p in [Vec2::new(0, 0), Vec2::new(10, 0), Vec2::new(10, 10), Vec2::new(0, 10)] {
        mesh.insert(p);
    }
    let mut candidates: Vec<Candidate> = Vec::new();
    for id in mesh.triangles() {
        if let Some((point, error)) = find_best_candidate(&terrain, mesh.triangle_vertices(id)) {
            candidates.push(Candidate { tri: id, point, error });
        }
    }
    // The two triangles of the grid have a candidate each, without error.
    assert_eq!(candidates.len(), 2);
    assert!(candidates.iter().all(|c| c.error.numerator() == 0));
    let vertices = mesh.vertex_count();
    assert_eq!(refine(&terrain, &mut mesh, &mut candidates), Ok(false));
    assert_eq!(mesh.vertex_count(), vertices);
    assert_eq!(candidates.len(), 2);
    let mut none: Vec<Candidate> = Vec::new();
    assert_eq!(refine(&terrain, &mut mesh, &mut none), Ok(false));
}

#[test]
fn every_created_triangle_over_cells_has_a_candidate() {
    let terrain = noise(1, 10, 10, 100);
    let mesh = scape(&terrain, 1000).unwrap();
    let mut scored = 0;
    for id in mesh.triangles() {
        let found = find_best_candidate(&terrain, mesh.triangle_vertices(id));
        assert_eq!(found.is_some(), !mesh.touches_padding(id));
        if let Some((p, _)) = found {
            assert!(terrain_mesh::geo::BarycentricCoords::triangle(mesh.triangle_vertices(id), p)
                .is_some());
            scored += 1;
        }
    }
    assert!(scored > 0);
}
