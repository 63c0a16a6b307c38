use terragen::CellId;
use terragen::SpatialMap;
use terragen::WorldMap;

fn line_world(n: usize, spacing: i64, heights: Vec<u64>) -> WorldMap {
    let mut xs = Vec::new();
    let mut zs = Vec::new();
    let mut neighbors = Vec::new();
    let mut on_hull = Vec::new();
    for i in 0..n {
        xs.push(i as i64 * spacing);
        zs.push(0);
        let mut nbs = Vec::new();
        if i > 0 {
            nbs.push(i - 1);
        }
        if i + 1 < n {
            nbs.push(i + 1);
        }
        neighbors.push(nbs);
        on_hull.push(i == 0 || i + 1 == n);
    }
    WorldMap { spatial: SpatialMap { xs, zs, neighbors, on_hull }, heights }
}

#[test]
fn flat_line_is_fully_connected() {
    let w = line_world(4, 1000, vec![500_000; 4]);
    let g = terragen::get_graph(&w);
    for i in 0..3usize {
        assert_eq!(g.weight_between(i, i + 1), Some(1000));
        assert_eq!(g.weight_between(i + 1, i), Some(1000));
    }
}

#[test]
fn steep_edges_are_pruned() {
    // Height delta 1_000_000 over spacing 1000: slope far above the bound.
    let w = line_world(2, 1000, vec![0, 1_000_000]);
    let g = terragen::get_graph(&w);
    assert_eq!(g.weight_between(0, 1), None);
    assert_eq!(g.weight_between(1, 0), None);
}

#[test]
fn gentle_edges_survive_with_3d_weight() {
    // Height delta 30 over spacing 1000: slope 0.03, well below the bound.
    let w = line_world(2, 1000, vec![500_000, 500_030]);
    let g = terragen::get_graph(&w);
    // Weight is the floor of sqrt(1000^2 + 30^2).
    assert_eq!(g.weight_between(0, 1), Some(1000));
}

#[test]
fn path_to_self_is_single_cell() {
    let w = line_world(4, 1000, vec![500_000; 4]);
    let g = terragen::get_graph(&w);
    let p = terragen::a_star(CellId(2), CellId(2), &g, &w).expect("self path");
    assert_eq!(p, vec![CellId(2)]);
}

#[test]
fn disconnected_components_yield_no_path() {
    // A cliff in the middle splits the line in two.
    let w = line_world(4, 1000, vec![500_000, 500_000, 900_000, 900_000]);
    let g = terragen::get_graph(&w);
    assert!(terragen::a_star(CellId(0), CellId(3), &g, &w).is_none());
    assert!(terragen::a_star(CellId(0), CellId(1), &g, &w).is_some());
}

#[test]
fn chain_path_is_goal_first_with_three_edge_cost() {
    // A 4-cell linear chain with equal spacing and flat height.
    let w = line_world(4, 1000, vec![500_000; 4]);
    let g = terragen::get_graph(&w);
    let p = terragen::a_star(CellId(0), CellId(3), &g, &w).expect("chain is connected");
    assert_eq!(p, vec![CellId(3), CellId(2), CellId(1), CellId(0)]);
    let mut cost = 0u64;
    for pair in p.windows(2) {
        let (from, to) = (pair[1].0, pair[0].0);
        cost += g.weight_between(from, to).expect("path edge exists");
    }
    assert_eq!(cost, 3 * 1000);
}

#[test]
fn rebuilding_the_graph_gives_identical_edges() {
    let w = line_world(5, 1000, vec![500_000, 500_100, 500_000, 499_900, 500_000]);
    let g1 = terragen::get_graph(&w);
    let g2 = terragen::get_graph(&w);
    assert_eq!(g1.node_count, g2.node_count);
    for a in 0..5usize {
        for b in 0..5usize {
            assert_eq!(g1.weight_between(a, b), g2.weight_between(a, b));
        }
    }
}

#[test]
fn isqrt_exact_values() {
    assert_eq!(terragen::isqrt(0), 0);
    assert_eq!(terragen::isqrt(15), 3);
    assert_eq!(terragen::isqrt(16), 4);
    assert_eq!(terragen::isqrt(1_000_000), 1000);
    assert_eq!(terragen::isqrt(u64::MAX), 4_294_967_295);
}

#[test]
fn longer_detour_still_reaches_goal() {
    // A ring of 4 cells: two routes from 0 to 2.
    let xs = vec![0, 1000, 1000, 0];
    let zs = vec![0, 0, 1000, 1000];
    let neighbors = vec![vec![1, 3], vec![0, 2], vec![1, 3], vec![0, 2]];
    let on_hull = vec![true, true, true, true];
    let heights = vec![500_000u64; 4];
    let w = WorldMap { spatial: SpatialMap { xs, zs, neighbors, on_hull }, heights };
    let g = terragen::get_graph(&w);
    let p = terragen::a_star(CellId(0), CellId(2), &g, &w).expect("ring is connected");
    assert_eq!(p.len(), 3);
    assert_eq!(p[0], CellId(2));
    assert_eq!(p[2], CellId(0));
}
