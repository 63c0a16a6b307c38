//! Procedural terrain synthesis and shortest-path queries for a turn-based
//! strategy world: randomized multi-source region growing over a spatial
//! adjacency structure, plate-boundary kinematics, multi-source distance
//! fields, layered fixed-point height assembly with flow-based river
//! carving, and a slope-constrained navigation graph with heuristic
//! search. Every function is specified and verified; randomness, the
//! `petgraph` graph store, and UTF-8 decoding enter only through small
//! trusted wrappers.

use vstd::prelude::*;

mod continents;
mod distance;
mod geom;
mod height;
mod helpers;
pub mod llm;
mod llmapi;
pub mod menu;
mod spatial;
mod navgraph;
mod noise;
mod pathfind;
mod plates;
mod region;
mod rng;
mod worldmap;

pub use geom::isqrt;
pub use continents::grow_capped;
pub use continents::region_size;
pub use continents::delete_hull_continents;
pub use continents::promote_islands;
pub use continents::unify_touching;
pub use distance::bfs_hops;
pub use distance::mean_edge_length;
pub use distance::signed_coastal_distance;
pub use distance::HOPS_INF;
pub use height::baseline;
pub use height::smooth_pass;
pub use height::apply_deltas;
pub use height::normalize_heights;
pub use height::steepest_descent;
pub use height::flow_accumulate;
pub use height::carve_rivers;
pub use height::boundary_deltas;
pub use height::coastal_deltas;
pub use height::hyper_bump;
pub use height::bell_bump;
pub use height::smoothstep_fp;
pub use height::lemma_carve_only_rivers;
pub use helpers::invert_borrowed;
pub use helpers::min_max_componentwise;
pub use llmapi::ByteStr;
pub use llmapi::StatusCode;
pub use llmapi::ExternSettlementNameCtx;
pub use llmapi::SettlementNameCtx;
pub use llmapi::ExternUnitSpawnBarkCtx;
pub use llmapi::UnitSpawnBarkCtx;
pub use llmapi::as_bytestrs;
pub use spatial::CellId;
pub use spatial::SpatialMap;
pub use worldmap::WorldMap;
pub use worldmap::WorldGenerationParams;
pub use worldmap::generate_world;
pub use worldmap::cells_connected;
pub use worldmap::HEIGHT_ONE;
pub use worldmap::SEA_LEVEL;
pub use pathfind::a_star;
pub use noise::value_noise;
pub use noise::ridged;
pub use noise::NOISE_AMP;
pub use navgraph::get_graph;
pub use navgraph::NavGraph;
pub use navgraph::lemma_nav_graph_slope;
pub use navgraph::lemma_nav_graph_symmetric;
pub use navgraph::lemma_flat_map_connected;
pub use navgraph::lemma_build_graph_idempotent;
pub use plates::classify_pair;
pub use plates::sample_plates;
pub use plates::boundary_edges;
pub use plates::Plate;
pub use plates::Crust;
pub use plates::BoundaryKind;
pub use plates::BoundaryEdge;
pub use region::grow_regions;
pub use region::GrowError;
pub use rng::rng_from_seed;
pub use rng::pick_seeds;
