use rand::{Rng, SeedableRng};
use rand_pcg::Pcg32;
use terrain_mesh::terrain::{noise_seed, Quad, Terrain, TerrainGenerator};

fn grid(width: usize, depth: usize) -> Terrain {
    let heights = (0..(width * depth) as i32).map(|i| 100 + i).collect();
    Terrain::new(width, depth, heights, 1000, TerrainGenerator::Noise { seed: 9 }).unwrap()
}

/// The faces as the loops over rows and columns give them.
fn faces_by_loops(width: usize, depth: usize, support: bool) -> Vec<Quad> {
    let index_of = |x: usize, y: usize| y * width + x;
    let mut faces = Vec::new();
    for y in 0..depth.saturating_sub(1) {
        for x in 0..width.saturating_sub(1) {
            let i = 1 + index_of(x, y);
            let j = 1 + index_of(x, y + 1);
            faces.push((i, i + 1, j + 1, j));
        }
    }
    if support {
        let oi = width * depth + 1;
        faces.push((
            oi,
            oi + index_of(0, depth - 1),
            oi + index_of(width - 1, depth - 1),
            oi + index_of(width - 1, 0),
        ));
        for y in 0..depth.saturating_sub(1) {
            faces.push((
                oi + index_of(0, y + 1),
                oi + index_of(0, y),
                1 + index_of(0, y),
                1 + index_of(0, y + 1),
            ));
            faces.push((
                oi + index_of(width - 1, y),
                oi + index_of(width - 1, y + 1),
                1 + index_of(width - 1, y + 1),
                1 + index_of(width - 1, y),
            ));
        }
        for x in 0..width.saturating_sub(1) {
            faces.push((
                oi + index_of(x, 0),
                oi + index_of(x + 1, 0),
                1 + index_of(x + 1, 0),
                1 + index_of(x, 0),
            ));
            faces.push((
                oi + index_of(x + 1, depth - 1),
                oi + index_of(x, depth - 1),
                1 + index_of(x, depth - 1),
                1 + index_of(x + 1, depth - 1),
            ));
        }
    }
    faces
}

#[test]
fn a_terrain_needs_a_height_for_every_cell() {
    assert!(Terrain::new(3, 2, vec![0; 6], 10, TerrainGenerator::Heightmap).is_some());
    assert!(Terrain::new(3, 2, vec![0; 5], 10, TerrainGenerator::Heightmap).is_none());
    assert!(Terrain::new(3, 2, vec![0; 7], 10, TerrainGenerator::Heightmap).is_none());
    assert!(Terrain::new(0, 0, Vec::new(), 10, TerrainGenerator::Heightmap).is_some());
    assert!(Terrain::new(usize::MAX, 1, Vec::new(), 10, TerrainGenerator::Heightmap).is_none());
    assert!(Terrain::new(1 << 32, 0, Vec::new(), 10, TerrainGenerator::Heightmap).is_none());
}

#[test]
fn getters_give_what_the_terrain_was_made_of() {
    let terrain = grid(4, 3);
    assert_eq!(terrain.width(), 4);
    assert_eq!(terrain.depth(), 3);
    assert_eq!(terrain.amplitude(), 1000);
    assert_eq!(*terrain.generator(), TerrainGenerator::Noise { seed: 9 });
}

#[test]
fn cells_are_laid_out_row_by_row() {
    let terrain = grid(4, 3);
    assert_eq!(terrain.index_of(0, 0), 0);
    assert_eq!(terrain.index_of(3, 0), 3);
    assert_eq!(terrain.index_of(0, 1), 4);
    assert_eq!(terrain.index_of(2, 2), 10);
    assert_eq!(terrain.height_at(0, 0), 100);
    assert_eq!(terrain.height_at(2, 2), 110);
    assert_eq!(terrain.height_at(3, 1), 107);
}

#[test]
fn positions_come_row_by_row() {
    let terrain = grid(3, 2);
    assert_eq!(
        terrain.positions_by_depth(),
        vec![(0, 0), (0, 1), (0, 2), (1, 0), (1, 1), (1, 2)]
    );
    assert_eq!(
        terrain.iter_by_depth(),
        vec![(0, 0, 100), (0, 1, 101), (0, 2, 102), (1, 0, 103), (1, 1, 104), (1, 2, 105)]
    );
    let empty = Terrain::new(0, 5, Vec::new(), 1, TerrainGenerator::Heightmap).unwrap();
    assert!(empty.positions_by_depth().is_empty());
    assert!(empty.iter_by_depth().is_empty());
}

#[test]
fn the_dual_mirrors_every_row_and_fills_up_to_the_amplitude() {
    let terrain = grid(3, 2);
    let dual = terrain.dual();
    assert_eq!(dual.width(), 3);
    assert_eq!(dual.depth(), 2);
    assert_eq!(dual.amplitude(), 1000);
    assert_eq!(
        dual.iter_by_depth(),
        vec![
            (0, 0, 1000 - 102),
            (0, 1, 1000 - 101),
            (0, 2, 1000 - 100),
            (1, 0, 1000 - 105),
            (1, 1, 1000 - 104),
            (1, 2, 1000 - 103)
        ]
    );
    for y in 0..2 {
        for x in 0..3 {
            assert_eq!(dual.height_at(x, y) + terrain.height_at(2 - x, y), 1000);
        }
    }
    assert_eq!(dual.dual().iter_by_depth(), terrain.iter_by_depth());
}

#[test]
fn the_dual_of_a_height_out_of_range_is_the_end_of_the_range() {
    let terrain =
        Terrain::new(2, 1, vec![i32::MIN, i32::MAX], i32::MAX, TerrainGenerator::Heightmap)
            .unwrap();
    assert_eq!(terrain.dual().iter_by_depth(), vec![(0, 0, 0), (0, 1, i32::MAX)]);
    let low =
        Terrain::new(1, 1, vec![i32::MAX], i32::MIN, TerrainGenerator::Heightmap).unwrap();
    assert_eq!(low.dual().height_at(0, 0), i32::MIN);
}

#[test]
fn the_dual_swaps_the_provenance() {
    let noise = TerrainGenerator::Noise { seed: 5 };
    assert_eq!(noise.dual(), TerrainGenerator::Dual { parent_seed: 5 });
    assert_eq!(noise.dual().dual(), noise);
    assert_eq!(TerrainGenerator::Heightmap.dual(), TerrainGenerator::Heightmap);
    assert_eq!(noise.seed(), Some(5));
    assert_eq!(noise.dual().seed(), Some(5));
    assert_eq!(TerrainGenerator::Heightmap.seed(), None);
    assert_eq!(*grid(2, 2).dual().generator(), TerrainGenerator::Dual { parent_seed: 9 });
}

#[test]
fn a_terrain_of_noise_names_its_seed() {
    let terrain = Terrain::generate(2, 2, vec![1, 2, 3, 4], 20, 77).unwrap();
    assert_eq!(*terrain.generator(), TerrainGenerator::Noise { seed: 77 });
    assert_eq!(terrain.height_at(1, 1), 4);
    assert!(Terrain::generate(2, 2, vec![1, 2, 3], 20, 77).is_none());
}

#[test]
fn the_rows_of_an_image_are_stored_bottom_up() {
    let terrain = Terrain::from_heightmap(3, 2, vec![1, 2, 3, 4, 5, 6], 255).unwrap();
    assert_eq!(*terrain.generator(), TerrainGenerator::Heightmap);
    assert_eq!(terrain.amplitude(), 255);
    assert_eq!(
        terrain.iter_by_depth(),
        vec![(0, 0, 4), (0, 1, 5), (0, 2, 6), (1, 0, 1), (1, 1, 2), (1, 2, 3)]
    );
    assert!(Terrain::from_heightmap(3, 2, vec![1, 2, 3], 255).is_none());
    let single = Terrain::from_heightmap(1, 3, vec![7, 8, 9], 255).unwrap();
    assert_eq!(single.height_at(0, 0), 9);
    assert_eq!(single.height_at(0, 2), 7);
}

#[test]
fn the_faces_of_the_smallest_solid() {
    let terrain = grid(2, 2);
    assert_eq!(terrain.faces(false), vec![(1, 2, 4, 3)]);
    assert_eq!(
        terrain.faces(true),
        vec![
            (1, 2, 4, 3),
            (5, 7, 8, 6),
            (7, 5, 1, 3),
            (6, 8, 4, 2),
            (5, 6, 2, 1),
            (8, 7, 3, 4)
        ]
    );
}

#[test]
fn the_faces_are_those_of_the_loops_over_rows_and_columns() {
    for (width, depth) in [(1, 1), (2, 1), (1, 4), (3, 2), (5, 4), (7, 7)] {
        let terrain = grid(width, depth);
        assert_eq!(terrain.faces(false), faces_by_loops(width, depth, false));
        assert_eq!(terrain.faces(true), faces_by_loops(width, depth, true));
        assert_eq!(terrain.faces(false).len(), (width - 1) * (depth - 1));
        assert_eq!(
            terrain.faces(true).len(),
            (width - 1) * (depth - 1) + 1 + 2 * (depth - 1) + 2 * (width - 1)
        );
    }
    let empty = Terrain::new(0, 3, Vec::new(), 1, TerrainGenerator::Heightmap).unwrap();
    assert!(empty.faces(false).is_empty());
}

#[test]
fn the_noise_seed_is_the_first_draw_of_the_seeded_generator() {
    for seed in [0u64, 1, 42, 1_600_000_000, u64::MAX] {
        assert_eq!(noise_seed(seed), Pcg32::seed_from_u64(seed).gen::<i32>());
    }
    assert_ne!(noise_seed(42), 42);
    assert_ne!(noise_seed(1), noise_seed(2));
    assert_eq!(noise_seed(42), noise_seed(42));
    assert_eq!(noise_seed(0), 298703107);
}
