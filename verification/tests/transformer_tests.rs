use route_tracker::coord::Position;
use route_tracker::graph::{Anchor, AnchorGraph};
use route_tracker::map_id::TileKey;
use route_tracker::paths::precompute_paths_to_global;
use route_tracker::search::bfs_find_path_to_global;
use route_tracker::transformer::{TransformError, WorldPositionTransformer};

fn pos(x: f32, y: f32, z: f32) -> Position {
    Position { x: x.to_bits(), y: y.to_bits(), z: z.to_bits() }
}

fn floats(p: Position) -> (f32, f32, f32) {
    (f32::from_bits(p.x), f32::from_bits(p.y), f32::from_bits(p.z))
}

fn key(area: u8, grid_x: u8, grid_z: u8) -> TileKey {
    TileKey { area, grid_x, grid_z }
}

fn anchor(src: (f32, f32, f32), dst: (u8, u8, u8), dst_pos: (f32, f32, f32)) -> Anchor {
    Anchor {
        src_pos: pos(src.0, src.1, src.2),
        dst_area_no: dst.0,
        dst_grid_x: dst.1,
        dst_grid_z: dst.2,
        dst_pos: pos(dst_pos.0, dst_pos.1, dst_pos.2),
    }
}

fn world(
    transformer: &WorldPositionTransformer,
    map_id: u32,
    x: f32,
    y: f32,
    z: f32,
) -> Result<(f32, f32, f32), TransformError> {
    transformer
        .local_to_world_first(map_id, x.to_bits(), y.to_bits(), z.to_bits())
        .map(|w| (f32::from_bits(w.0), f32::from_bits(w.1), f32::from_bits(w.2)))
}

#[test]
fn test_parse_map_id() {
    // m60_40_35_00 = 0x3C282300
    let map_id = 0x3C282300u32;
    let (ww, xx, yy, dd) = WorldPositionTransformer::parse_map_id(map_id);
    assert_eq!(ww, 60);
    assert_eq!(xx, 40);
    assert_eq!(yy, 35);
    assert_eq!(dd, 0);
}

#[test]
fn test_format_map_id() {
    let map_id = 0x3C282300u32;
    let formatted = WorldPositionTransformer::format_map_id(map_id);
    assert_eq!(formatted, "m60_40_35_00");
}

#[test]
fn test_overworld_conversion() {
    // Create empty transformer (no CSV needed for overworld)
    let transformer = WorldPositionTransformer::empty();

    // m60_40_35_00
    let map_id = 0x3C282300u32;
    let (x, y, z) = (10.0, 100.0, 20.0);

    let (gx, gy, gz) = world(&transformer, map_id, x, y, z).unwrap();
    // GX = x + 40 * 256 = 10 + 10240 = 10250
    assert_eq!(gx, 10.0 + 40.0 * 256.0);
    // GY = y (unchanged)
    assert_eq!(gy, 100.0);
    // GZ = z + 35 * 256 = 20 + 8960 = 8980
    assert_eq!(gz, 20.0 + 35.0 * 256.0);
}

#[test]
fn test_inverse_anchors_created() {
    // Create a transformer with a single anchor: m10_00_00_00 -> m10_01_00_00
    let mut anchors = AnchorGraph::new();

    // Forward: m10_00_00_00 -> m10_01_00_00
    let forward_anchor = anchor((-514.0, 28.0, 200.0), (10, 1, 0), (0.0, 0.0, 0.0));
    anchors.insert(key(10, 0, 0), forward_anchor);

    // Add inverse anchors
    anchors.add_inverse_anchors();

    // Check that the inverse was created: m10_01_00_00 should now exist
    assert!(anchors.contains_key(key(10, 1, 0)), "Inverse anchor for m10_01_00_00 should exist");

    let inverse_list = anchors.get(key(10, 1, 0)).unwrap();
    assert_eq!(inverse_list.len(), 1);

    let inverse = &inverse_list[0];
    // The inverse should point back to m10_00_00_00
    assert_eq!(inverse.dst_area_no, 10);
    assert_eq!(inverse.dst_grid_x, 0);
    assert_eq!(inverse.dst_grid_z, 0);
    // Positions should be swapped
    assert_eq!(floats(inverse.src_pos), (0.0, 0.0, 0.0));
    assert_eq!(floats(inverse.dst_pos), (-514.0, 28.0, 200.0));
}

#[test]
fn test_inverse_anchors_no_duplicates() {
    // Create a transformer where the inverse already exists
    let mut anchors = AnchorGraph::new();

    // A -> B
    let anchor_a_to_b = anchor((100.0, 0.0, 100.0), (20, 1, 0), (200.0, 0.0, 200.0));

    // B -> A (already exists as inverse)
    let anchor_b_to_a = anchor((200.0, 0.0, 200.0), (20, 0, 0), (100.0, 0.0, 100.0));

    anchors.insert(key(20, 0, 0), anchor_a_to_b);
    anchors.insert(key(20, 1, 0), anchor_b_to_a);

    let count_a_before = anchors.get(key(20, 0, 0)).unwrap().len();
    let count_b_before = anchors.get(key(20, 1, 0)).unwrap().len();

    // Add inverse anchors
    anchors.add_inverse_anchors();

    // Counts should remain the same (no duplicates added)
    assert_eq!(
        anchors.get(key(20, 0, 0)).unwrap().len(),
        count_a_before,
        "No duplicate should be added for m20_00_00_00"
    );
    assert_eq!(
        anchors.get(key(20, 1, 0)).unwrap().len(),
        count_b_before,
        "No duplicate should be added for m20_01_00_00"
    );
}

fn two_hop_chain(first_offset: (f32, f32, f32)) -> AnchorGraph {
    let mut anchors = AnchorGraph::new();
    // m10_00_00_00 -> m60_40_35_00 (direct link to m60)
    anchors.insert(key(10, 0, 0), anchor((0.0, 0.0, 0.0), (60, 40, 35), (100.0, 50.0, 100.0)));
    // m10_01_00_00 -> m10_00_00_00 (no direct global map link)
    anchors.insert(key(10, 1, 0), anchor((0.0, 0.0, 0.0), (10, 0, 0), first_offset));
    anchors
}

#[test]
fn test_bfs_finds_path_to_global() {
    // Create a chain: m10_01_00_00 -> m10_00_00_00 -> m60_40_35_00
    let anchors = two_hop_chain((-514.0, 28.0, 200.0));

    // BFS should find path from m10_01_00_00 to m60
    let path = bfs_find_path_to_global(key(10, 1, 0), &anchors);

    assert!(path.is_some(), "Should find a path from m10_01_00_00 to global map");
    let path = path.unwrap();

    // Path should have 2 steps: m10_01 -> m10_00, m10_00 -> m60
    assert_eq!(path.steps.len(), 2, "Path should have 2 steps");
    assert_eq!(path.final_global_tile, key(60, 40, 35), "Should end at m60_40_35_00");
}

#[test]
fn test_precompute_paths_to_global() {
    // Create a chain: m10_01_00_00 -> m10_00_00_00 -> m60_40_35_00
    let anchors = two_hop_chain((-514.0, 28.0, 200.0));

    let paths = precompute_paths_to_global(&anchors);

    // m10_00_00_00 has direct link, should NOT be in paths
    assert!(
        !paths.contains_key(key(10, 0, 0)),
        "Tile with direct global map link should not have pre-computed path"
    );

    // m10_01_00_00 has no direct link, should be in paths
    assert!(
        paths.contains_key(key(10, 1, 0)),
        "Tile without direct global map link should have pre-computed path"
    );
}

#[test]
fn test_local_to_world_with_path() {
    // Create a transformer with a chain: m10_01_00_00 -> m10_00_00_00 -> m60_40_35_00
    let anchors = two_hop_chain((10.0, 5.0, 10.0));

    // Pre-compute paths
    let transformer = WorldPositionTransformer::from_graph(anchors);

    // Convert from m10_01_00_00
    // m10_01_00_00 = 0x0A010000
    let map_id = 0x0A010000u32;
    let (x, y, z) = (50.0, 20.0, 30.0);

    let result = world(&transformer, map_id, x, y, z);
    assert!(result.is_ok(), "Should successfully convert m10_01_00_00 coords");

    let (gx, gy, gz) = result.unwrap();

    // Step 1: Apply m10_01 -> m10_00 anchor: (50,20,30) - (0,0,0) + (10,5,10) = (60,25,40)
    // Step 2: Apply m10_00 -> m60 anchor: (60,25,40) - (0,0,0) + (100,50,100) = (160,75,140)
    // Step 3: Add grid offset: (160 + 40*256, 75, 140 + 35*256) = (10400, 75, 9100)
    assert_eq!(gx, 160.0 + 40.0 * 256.0);
    assert_eq!(gy, 75.0);
    assert_eq!(gz, 140.0 + 35.0 * 256.0);
}

#[test]
fn test_no_path_found() {
    // Create an isolated tile with no path to global map
    let mut anchors = AnchorGraph::new();

    // m99_00_00_00 -> m99_01_00_00 (circular, no global map)
    anchors.insert(key(99, 0, 0), anchor((0.0, 0.0, 0.0), (99, 1, 0), (10.0, 0.0, 10.0)));

    let path = bfs_find_path_to_global(key(99, 0, 0), &anchors);
    assert!(path.is_none(), "Should not find path for isolated tile");
}

#[test]
fn test_bfs_finds_path_to_m61() {
    // Test that BFS can find paths to m61 as well
    let mut anchors = AnchorGraph::new();

    // m20_00_00_00 -> m61_XX_YY_00 (direct link to m61)
    anchors.insert(key(20, 0, 0), anchor((0.0, 0.0, 0.0), (61, 10, 15), (100.0, 50.0, 100.0)));

    // m20_01_00_00 -> m20_00_00_00 (no direct global map link)
    anchors.insert(key(20, 1, 0), anchor((0.0, 0.0, 0.0), (20, 0, 0), (-514.0, 28.0, 200.0)));

    // BFS should find path from m20_01_00_00 to m61
    let path = bfs_find_path_to_global(key(20, 1, 0), &anchors);

    assert!(path.is_some(), "Should find a path from m20_01_00_00 to m61");
    let path = path.unwrap();

    // Path should have 2 steps: m20_01 -> m20_00, m20_00 -> m61
    assert_eq!(path.steps.len(), 2, "Path should have 2 steps");
    assert_eq!(path.final_global_tile.area, 61, "Should end at m61");
}

#[test]
fn unresolvable_tile_gives_the_unknown_map_error_with_its_text() {
    let mut anchors = AnchorGraph::new();
    anchors.insert(key(99, 0, 0), anchor((0.0, 0.0, 0.0), (99, 1, 0), (10.0, 0.0, 10.0)));
    let transformer = WorldPositionTransformer::from_records(anchors);
    // m99_00_00_00 = 0x63000000
    match world(&transformer, 0x6300_0000, 1.0, 2.0, 3.0) {
        Err(TransformError::UnknownMap(id)) => assert_eq!(id, "m99_00_00_00"),
        other => panic!("expected an unknown map, got {:?}", other),
    }
    let error = transformer.resolve(0x6300_0000).unwrap_err();
    assert_eq!(error.message(), "Unknown map_id: m99_00_00_00");
    assert_eq!(TransformError::IoError("gone".to_string()).message(), "IO error: gone");
}

#[test]
fn direct_anchor_prefers_the_primary_frame() {
    let mut anchors = AnchorGraph::new();
    anchors.insert(key(12, 1, 0), anchor((1.0, 2.0, 3.0), (61, 2, 3), (4.0, 5.0, 6.0)));
    anchors.insert(key(12, 1, 0), anchor((0.0, 0.0, 0.0), (60, 7, 8), (10.0, 20.0, 30.0)));
    anchors.insert(key(12, 1, 0), anchor((0.0, 0.0, 0.0), (60, 9, 9), (0.0, 0.0, 0.0)));
    let transformer = WorldPositionTransformer::from_graph(anchors);
    let map_id = 0x0C01_0000;
    let w = transformer
        .local_to_world_with_global_map(map_id, 1.0f32.to_bits(), 1.0f32.to_bits(), 1.0f32.to_bits())
        .unwrap();
    assert_eq!(f32::from_bits(w.0), 11.0 + 7.0 * 256.0);
    assert_eq!(f32::from_bits(w.1), 21.0);
    assert_eq!(f32::from_bits(w.2), 31.0 + 8.0 * 256.0);
    assert_eq!(w.3, 60);
    let resolution = transformer.resolve(map_id).unwrap();
    assert_eq!(resolution.steps.len(), 1);
    assert_eq!(resolution.tile, key(60, 7, 8));
}

#[test]
fn secondary_frame_is_used_when_no_primary_anchor_exists() {
    let mut anchors = AnchorGraph::new();
    anchors.insert(key(21, 0, 0), anchor((0.0, 0.0, 0.0), (21, 1, 0), (0.0, 0.0, 0.0)));
    anchors.insert(key(21, 0, 0), anchor((5.0, 5.0, 5.0), (61, 3, 4), (6.0, 7.0, 8.0)));
    let transformer = WorldPositionTransformer::from_graph(anchors);
    let w = transformer
        .local_to_world_with_global_map(0x1500_0000, 5.0f32.to_bits(), 5.0f32.to_bits(), 5.0f32.to_bits())
        .unwrap();
    assert_eq!(f32::from_bits(w.0), 6.0 + 3.0 * 256.0);
    assert_eq!(f32::from_bits(w.1), 7.0);
    assert_eq!(f32::from_bits(w.2), 8.0 + 4.0 * 256.0);
    assert_eq!(w.3, 61);
}

#[test]
fn inverse_synthesis_reaches_tiles_that_are_only_destinations() {
    let mut anchors = AnchorGraph::new();
    // m60_40_35 -> m10_00_00: the interior tile is known as a destination only.
    anchors.insert(key(60, 40, 35), anchor((100.0, 50.0, 100.0), (10, 0, 0), (0.0, 0.0, 0.0)));
    let transformer = WorldPositionTransformer::from_records(anchors);
    assert_eq!(transformer.map_count(), 2);
    assert_eq!(transformer.anchor_count(), 2);
    let (gx, gy, gz) = world(&transformer, 0x0A00_0000, 1.0, 2.0, 3.0).unwrap();
    assert_eq!(gx, 101.0 + 40.0 * 256.0);
    assert_eq!(gy, 52.0);
    assert_eq!(gz, 103.0 + 35.0 * 256.0);
}

#[test]
fn running_inverse_synthesis_twice_adds_nothing_more() {
    let mut anchors = two_hop_chain((10.0, 5.0, 10.0));
    anchors.insert(key(10, 1, 0), anchor((3.0, 3.0, 3.0), (60, 1, 1), (4.0, 4.0, 4.0)));
    anchors.add_inverse_anchors();
    let after_first = anchors.anchor_count();
    let tiles_first = anchors.map_count();
    anchors.add_inverse_anchors();
    assert_eq!(anchors.anchor_count(), after_first);
    assert_eq!(anchors.map_count(), tiles_first);
    assert_eq!(after_first, 6);
}

#[test]
fn a_point_that_is_not_finite_defeats_the_duplicate_check() {
    let mut anchors = AnchorGraph::new();
    anchors.insert(key(10, 0, 0), anchor((f32::NAN, 0.0, 0.0), (10, 1, 0), (0.0, 0.0, 0.0)));
    anchors.add_inverse_anchors();
    assert_eq!(anchors.anchor_count(), 2);
    anchors.add_inverse_anchors();
    assert_eq!(anchors.anchor_count(), 4);
}

#[test]
fn shortest_chain_wins_over_a_longer_one() {
    let mut anchors = AnchorGraph::new();
    // Start has a long way round, listed first, and a short one.
    anchors.insert(key(30, 0, 0), anchor((0.0, 0.0, 0.0), (30, 1, 0), (0.0, 0.0, 0.0)));
    anchors.insert(key(30, 0, 0), anchor((0.0, 0.0, 0.0), (30, 3, 0), (0.0, 0.0, 0.0)));
    anchors.insert(key(30, 1, 0), anchor((0.0, 0.0, 0.0), (30, 2, 0), (0.0, 0.0, 0.0)));
    anchors.insert(key(30, 2, 0), anchor((0.0, 0.0, 0.0), (60, 1, 1), (0.0, 0.0, 0.0)));
    anchors.insert(key(30, 3, 0), anchor((0.0, 0.0, 0.0), (61, 2, 2), (0.0, 0.0, 0.0)));
    let path = bfs_find_path_to_global(key(30, 0, 0), &anchors).unwrap();
    assert_eq!(path.steps.len(), 2);
    assert_eq!(path.final_global_tile, key(61, 2, 2));
    assert_eq!(path.steps[0].anchor.dst_grid_x, 3);
}

#[test]
fn formatting_pads_to_two_digits_and_keeps_three() {
    assert_eq!(WorldPositionTransformer::format_map_id(0), "m00_00_00_00");
    assert_eq!(WorldPositionTransformer::format_map_id(0x0A01_0000), "m10_01_00_00");
    assert_eq!(WorldPositionTransformer::format_map_id(0xFF64_0907), "m255_100_09_07");
    assert_eq!(WorldPositionTransformer::parse_map_id(0xFF64_0907), (255, 100, 9, 7));
}

#[test]
fn direct_anchors_agree_with_the_formula_in_machine_arithmetic() {
    let mut state: u32 = 0x0BAD_5EED;
    let mut next = move || {
        state = state.wrapping_mul(1_664_525).wrapping_add(1_013_904_223);
        // Coordinates of a plausible size, with fractions.
        ((state >> 8) as f32 / 4096.0) - 2048.0
    };
    let mut round = 0;
    while round < 2_000 {
        let src = (next(), next(), next());
        let dst = (next(), next(), next());
        let p = (next(), next(), next());
        let grid_x = (round % 251) as u8;
        let grid_z = (round % 83) as u8;
        let mut anchors = AnchorGraph::new();
        anchors.insert(key(10, 0, 0), anchor(src, (60, grid_x, grid_z), dst));
        let transformer = WorldPositionTransformer::from_graph(anchors);
        let (gx, gy, gz) = world(&transformer, 0x0A00_0000, p.0, p.1, p.2).unwrap();
        assert_eq!(gx, p.0 - src.0 + dst.0 + (grid_x as f32) * 256.0);
        assert_eq!(gy, p.1 - src.1 + dst.1);
        assert_eq!(gz, p.2 - src.2 + dst.2 + (grid_z as f32) * 256.0);
        round += 1;
    }
}

#[test]
fn one_anchor_applied_alone_is_a_path_of_one_step() {
    let a = anchor((1.5, -2.0, 3.25), (61, 9, 200), (100.0, 50.0, -100.0));
    let p = pos(7.0, 8.0, 9.0);
    let global = WorldPositionTransformer::apply_anchor_and_convert_to_global(p, &a);
    assert_eq!(
        floats(global),
        (7.0 - 1.5 + 100.0 + 9.0 * 256.0, 8.0 + 2.0 + 50.0, 9.0 - 3.25 - 100.0 + 200.0 * 256.0)
    );
    let mut anchors = AnchorGraph::new();
    anchors.insert(key(10, 0, 0), a);
    let transformer = WorldPositionTransformer::from_graph(anchors);
    let resolution = transformer.resolve(0x0A00_0000).unwrap();
    assert_eq!(WorldPositionTransformer::apply_path_to_global(p, &resolution), global);
}

#[test]
fn the_reserved_byte_is_not_looked_at() {
    let transformer = WorldPositionTransformer::from_graph(two_hop_chain((10.0, 5.0, 10.0)));
    assert_eq!(
        world(&transformer, 0x3C28_23FF, 10.0, 100.0, 20.0).unwrap(),
        world(&transformer, 0x3C28_2300, 10.0, 100.0, 20.0).unwrap()
    );
    assert_eq!(
        world(&transformer, 0x0A01_0007, 50.0, 20.0, 30.0).unwrap(),
        world(&transformer, 0x0A01_0000, 50.0, 20.0, 30.0).unwrap()
    );
    match world(&transformer, 0x6300_0009, 0.0, 0.0, 0.0) {
        Err(TransformError::UnknownMap(id)) => assert_eq!(id, "m99_00_00_09"),
        other => panic!("expected an unknown map, got {:?}", other),
    }
}

#[test]
fn the_cache_holds_no_global_tiles_and_no_tiles_with_direct_anchors() {
    let mut anchors = two_hop_chain((10.0, 5.0, 10.0));
    anchors.insert(key(99, 0, 0), anchor((0.0, 0.0, 0.0), (99, 1, 0), (0.0, 0.0, 0.0)));
    anchors.add_inverse_anchors();
    // The inverses make tiles of the global tile and of the dead end.
    assert!(anchors.contains_key(key(60, 40, 35)));
    assert!(anchors.contains_key(key(99, 1, 0)));
    let paths = precompute_paths_to_global(&anchors);
    assert_eq!(paths.len(), 1);
    assert!(paths.contains_key(key(10, 1, 0)));
    assert!(!paths.contains_key(key(10, 0, 0)));
    assert!(!paths.contains_key(key(60, 40, 35)));
    assert!(!paths.contains_key(key(99, 0, 0)));
    assert!(!paths.contains_key(key(99, 1, 0)));
    let path = paths.get(key(10, 1, 0)).unwrap();
    assert_eq!(path.steps.len(), 2);
    assert_eq!(path.final_global_tile, key(60, 40, 35));
}

#[test]
fn among_shortest_chains_the_first_in_list_order_is_found() {
    let mut anchors = AnchorGraph::new();
    // Two ways of two steps; the one by the anchor listed first wins,
    // though the other is entered in the graph earlier as a tile.
    anchors.insert(key(31, 2, 0), anchor((0.0, 0.0, 0.0), (61, 5, 5), (2.0, 2.0, 2.0)));
    anchors.insert(key(31, 0, 0), anchor((0.0, 0.0, 0.0), (31, 1, 0), (1.0, 0.0, 0.0)));
    anchors.insert(key(31, 0, 0), anchor((0.0, 0.0, 0.0), (31, 2, 0), (2.0, 0.0, 0.0)));
    anchors.insert(key(31, 1, 0), anchor((0.0, 0.0, 0.0), (31, 9, 9), (0.0, 0.0, 0.0)));
    anchors.insert(key(31, 1, 0), anchor((0.0, 0.0, 0.0), (60, 4, 4), (1.0, 1.0, 1.0)));
    let path = bfs_find_path_to_global(key(31, 0, 0), &anchors).unwrap();
    assert_eq!(path.steps.len(), 2);
    assert_eq!(path.steps[0].anchor.dst_grid_x, 1);
    assert_eq!(path.final_global_tile, key(60, 4, 4));
}
