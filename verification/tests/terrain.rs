use terragen::BoundaryKind;
use terragen::CellId;
use terragen::Crust;
use terragen::GrowError;
use terragen::Plate;
use terragen::SpatialMap;
use terragen::WorldGenerationParams;
use terragen::WorldMap;

fn grid(cols: usize, rows: usize, spacing: i64) -> SpatialMap {
    let n = cols * rows;
    let mut xs = Vec::new();
    let mut zs = Vec::new();
    let mut neighbors = Vec::new();
    let mut on_hull = Vec::new();
    for r in 0..rows {
        for c in 0..cols {
            xs.push(c as i64 * spacing);
            zs.push(r as i64 * spacing);
            let mut nbs = Vec::new();
            if c > 0 {
                nbs.push(r * cols + c - 1);
            }
            if c + 1 < cols {
                nbs.push(r * cols + c + 1);
            }
            if r > 0 {
                nbs.push((r - 1) * cols + c);
            }
            if r + 1 < rows {
                nbs.push((r + 1) * cols + c);
            }
            neighbors.push(nbs);
            on_hull.push(r == 0 || c == 0 || r + 1 == rows || c + 1 == cols);
        }
    }
    assert_eq!(xs.len(), n);
    SpatialMap { xs, zs, neighbors, on_hull }
}

fn flat_world(cols: usize, rows: usize, spacing: i64, height: u64) -> WorldMap {
    let spatial = grid(cols, rows, spacing);
    let heights = vec![height; cols * rows];
    WorldMap { spatial, heights }
}

#[test]
fn region_growing_covers_three_by_three() {
    let map = grid(3, 3, 1000);
    let seeds = vec![0usize, 8usize];
    let assign = terragen::grow_regions(&map, &seeds).expect("connected grid must grow");
    assert_eq!(assign.len(), 9);
    for g in &assign {
        assert!(*g < 2);
    }
    assert_eq!(assign[0], 0);
    assert_eq!(assign[8], 1);
}

#[test]
fn region_growing_reports_disconnection() {
    let map = SpatialMap {
        xs: vec![0, 5000],
        zs: vec![0, 0],
        neighbors: vec![vec![], vec![]],
        on_hull: vec![true, true],
    };
    let seeds = vec![0usize];
    let r = terragen::grow_regions(&map, &seeds);
    assert_eq!(r, Err(GrowError::Disconnected));
}

#[test]
fn plate_assignment_is_total_on_larger_grid() {
    let map = grid(5, 4, 1000);
    let mut rng = terragen::rng_from_seed(7);
    let seeds = terragen::pick_seeds(&mut rng, 20, 4);
    assert_eq!(seeds.len(), 4);
    for (i, a) in seeds.iter().enumerate() {
        assert!(*a < 20);
        for b in seeds.iter().skip(i + 1) {
            assert_ne!(*a, *b);
        }
    }
    let assign = terragen::grow_regions(&map, &seeds).expect("connected grid must grow");
    assert_eq!(assign.len(), 20);
    for g in &assign {
        assert!(*g < 4);
    }
}

#[test]
fn normalization_pins_sea_level_exactly() {
    let bias = 1_000_000_000u64;
    let h = vec![bias - 100, bias, bias + 50];
    let r = terragen::normalize_heights(&h);
    assert_eq!(r, vec![0, 500_000, 1_000_000]);
}

#[test]
fn normalization_of_uniform_zero_field_is_all_sea_level() {
    let bias = 1_000_000_000u64;
    let h = vec![bias; 5];
    let r = terragen::normalize_heights(&h);
    assert_eq!(r, vec![500_000; 5]);
}

#[test]
fn normalization_keeps_canonical_range() {
    let bias = 1_000_000_000u64;
    let h = vec![bias - 5_000_000, bias - 1, bias, bias + 1, bias + 7_000_000];
    let r = terragen::normalize_heights(&h);
    for v in &r {
        assert!(*v <= 1_000_000);
    }
    assert!(r[0] == 0);
    assert!(r[1] < 500_000);
    assert_eq!(r[2], 500_000);
    assert!(r[3] > 500_000);
    assert_eq!(r[4], 1_000_000);
}

#[test]
fn boundary_classification_cases() {
    // Head-on approach: convergent.
    assert_eq!(terragen::classify_pair(10, 0, 100, 0), BoundaryKind::Convergent);
    // Head-on separation: divergent.
    assert_eq!(terragen::classify_pair(-10, 0, 100, 0), BoundaryKind::Divergent);
    // Pure lateral shear: transform.
    assert_eq!(terragen::classify_pair(0, 10, 100, 0), BoundaryKind::Transform);
}

#[test]
fn boundary_classification_is_symmetric() {
    let cases: Vec<(i64, i64, i64, i64)> = vec![
        (10, 0, 100, 0),
        (-10, 0, 100, 0),
        (0, 10, 100, 0),
        (7, -3, 50, 80),
        (-2, -9, -40, 11),
    ];
    for (rvx, rvz, dx, dz) in cases {
        let k1 = terragen::classify_pair(rvx, rvz, dx, dz);
        let k2 = terragen::classify_pair(-rvx, -rvz, -dx, -dz);
        let same = matches!(
            (k1, k2),
            (BoundaryKind::Convergent, BoundaryKind::Convergent)
                | (BoundaryKind::Divergent, BoundaryKind::Divergent)
                | (BoundaryKind::Transform, BoundaryKind::Transform)
        );
        assert!(same);
    }
}

#[test]
fn river_carving_never_raises_and_spares_low_flow() {
    // A strictly descending 10-cell line: flow accumulates toward the end.
    let map = grid(10, 1, 1000);
    let mut h = Vec::new();
    for i in 0..10u64 {
        h.push(1_000_000_000 - i * 10_000);
    }
    let succ = terragen::steepest_descent(&map, &h);
    let flow = terragen::flow_accumulate(&map, &h, &succ);
    assert_eq!(flow[0], 1);
    assert_eq!(flow[9], 10);
    let carved = terragen::carve_rivers(&map, &h, &succ, &flow);
    for i in 0..10 {
        assert!(carved[i] <= h[i]);
        if flow[i] < 8 && (i == 0 || flow[i - 1] < 8) {
            // Neither this cell nor its upstream predecessor is a river.
            assert_eq!(carved[i], h[i]);
        }
    }
    assert!(carved[9] < h[9]);
}

#[test]
fn steepest_descent_picks_lowest_neighbor() {
    let map = grid(3, 1, 1000);
    let h = vec![500u64, 300u64, 100u64];
    let succ = terragen::steepest_descent(&map, &h);
    assert_eq!(succ[0], Some(1));
    assert_eq!(succ[1], Some(2));
    assert_eq!(succ[2], None);
}

#[test]
fn smoothing_preserves_uniform_fields() {
    let map = grid(3, 3, 1000);
    let h = vec![1_000_000_000u64; 9];
    let s = terragen::smooth_pass(&map, &h);
    assert_eq!(s, h);
}

#[test]
fn baseline_distinguishes_crusts() {
    let plates = vec![
        Plate { vx: 0, vz: 0, crust: Crust::Continental, age: 50 },
        Plate { vx: 0, vz: 0, crust: Crust::Oceanic, age: 50 },
    ];
    let assign = vec![0usize, 1usize];
    let h = terragen::baseline(2, &assign, &plates);
    assert_eq!(h[0], 1_000_000_000 + 150_000);
    // Oceanic baseline drops by the base depth plus age deepening 50 * 500.
    assert_eq!(h[1], 1_000_000_000 - 250_000 - 25_000);
}

#[test]
fn bfs_hops_counts_line_distances() {
    let map = grid(4, 1, 1000);
    let hops = terragen::bfs_hops(&map, &vec![0usize]);
    assert_eq!(hops, vec![0, 1, 2, 3]);
}

#[test]
fn bfs_hops_marks_unreachable_cells() {
    let map = SpatialMap {
        xs: vec![0, 5000],
        zs: vec![0, 0],
        neighbors: vec![vec![], vec![]],
        on_hull: vec![true, true],
    };
    let hops = terragen::bfs_hops(&map, &vec![0usize]);
    assert_eq!(hops[0], 0);
    assert_eq!(hops[1], terragen::HOPS_INF);
}

#[test]
fn mean_edge_length_of_unit_grid() {
    let map = grid(3, 3, 1000);
    assert_eq!(terragen::mean_edge_length(&map), 1000);
}

#[test]
fn capped_growth_respects_caps_and_seeds() {
    let map = grid(4, 4, 1000);
    let seeds = vec![0usize, 15usize];
    let caps = vec![3usize, 100usize];
    let cont = terragen::grow_capped(&map, &seeds, &caps);
    assert_eq!(cont.len(), 16);
    assert_eq!(cont[0], Some(0));
    assert_eq!(cont[15], Some(1));
    let size0 = cont.iter().filter(|g| **g == Some(0)).count();
    assert!(size0 <= 3);
}

#[test]
fn hull_touching_continents_become_ocean() {
    let map = grid(3, 3, 1000);
    // One continent holding the corner cell, which lies on the hull.
    let cont = vec![
        Some(0usize),
        None,
        None,
        None,
        None,
        None,
        None,
        None,
        None,
    ];
    let trimmed = terragen::delete_hull_continents(&map, &cont, 1);
    assert!(trimmed.iter().all(|g| g.is_none()));
}

#[test]
fn touching_continents_are_unioned() {
    let map = grid(2, 1, 1000);
    let cont = vec![Some(3usize), Some(5usize)];
    let unified = terragen::unify_touching(&map, &cont);
    assert_eq!(unified[0], unified[1]);
    assert_eq!(unified[0], Some(3));
}

#[test]
fn generated_world_has_canonical_heights() {
    let spatial = grid(8, 6, 1_000_000);
    let n = 48;
    let params = WorldGenerationParams {
        plate_count: 4,
        continent_count: 3,
        continent_size: 10,
        ocean_count: 3,
        ocean_size: 10,
        noise_seed: 42,
    };
    let mut rng = terragen::rng_from_seed(9);
    let w = terragen::generate_world(&params, spatial, &mut rng).expect("grid is connected");
    assert_eq!(w.heights.len(), n);
    for c in 0..n {
        let h = w.height(CellId(c));
        assert!(h <= terragen::HEIGHT_ONE);
    }
    let ((min_x, _), (max_x, _)) = w.bounds();
    assert_eq!(min_x, 0);
    assert_eq!(max_x, 7_000_000);
}

#[test]
fn nearest_cell_lookup_matches_grid() {
    let w = flat_world(3, 3, 1000, 500_000);
    let c = w.cell_for_position(2100, 950).expect("nonempty map");
    // Nearest site to (2100, 950) is column 2, row 1.
    assert_eq!(c, CellId(5));
}

#[test]
fn sample_plates_votes_crust_majority() {
    let mut rng = terragen::rng_from_seed(3);
    let assign = vec![0usize, 0usize, 0usize, 1usize, 1usize];
    let cont = vec![true, true, false, false, false];
    let plates = terragen::sample_plates(&mut rng, 2, &assign, &cont);
    assert_eq!(plates.len(), 2);
    assert_eq!(plates[0].crust, terragen::Crust::Continental);
    assert_eq!(plates[1].crust, terragen::Crust::Oceanic);
    for p in &plates {
        assert!(p.vx >= -1000 && p.vx <= 1000);
        assert!(p.vz >= -1000 && p.vz <= 1000);
        assert!(p.age >= 10 && p.age <= 200);
    }
}

#[test]
fn boundary_edges_cover_plate_borders() {
    let map = grid(2, 1, 1000);
    let assign = vec![0usize, 1usize];
    let plates = vec![
        Plate { vx: 10, vz: 0, crust: Crust::Continental, age: 50 },
        Plate { vx: -10, vz: 0, crust: Crust::Oceanic, age: 80 },
    ];
    let edges = terragen::boundary_edges(&map, &assign, &plates);
    assert_eq!(edges.len(), 1);
    let e = &edges[0];
    assert_eq!((e.a, e.b), (0, 1));
    // Relative velocity 20 along the positive normal: convergent.
    assert_eq!(e.kind, terragen::BoundaryKind::Convergent);
    assert!(!e.ocean_on_a);
}

#[test]
fn generation_fails_on_disconnected_partition() {
    let spatial = SpatialMap {
        xs: vec![0, 5_000_000],
        zs: vec![0, 0],
        neighbors: vec![vec![], vec![]],
        on_hull: vec![true, true],
    };
    let params = WorldGenerationParams {
        plate_count: 1,
        continent_count: 1,
        continent_size: 1,
        ocean_count: 1,
        ocean_size: 1,
        noise_seed: 0,
    };
    let mut rng = terragen::rng_from_seed(5);
    let r = terragen::generate_world(&params, spatial, &mut rng);
    assert!(matches!(r, Err(GrowError::Disconnected)));
}

#[test]
fn union_never_merges_separate_landmasses() {
    // Two touching pairs with no adjacency between the pairs.
    let map = SpatialMap {
        xs: vec![0, 1000, 50_000, 51_000],
        zs: vec![0, 0, 0, 0],
        neighbors: vec![vec![1], vec![0], vec![3], vec![2]],
        on_hull: vec![true, true, true, true],
    };
    let cont = vec![Some(7usize), Some(9usize), Some(3usize), Some(5usize)];
    let unified = terragen::unify_touching(&map, &cont);
    assert_eq!(unified, vec![Some(7), Some(7), Some(3), Some(3)]);
}
