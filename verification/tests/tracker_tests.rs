use route_tracker::coord::Position;
use route_tracker::graph::{Anchor, AnchorGraph};
use route_tracker::icons::{
    convert_icon, frame_for_area, frame_name, ConversionTally, GlobalFrame, MapIcon,
};
use route_tracker::map_id::{pack_map_id, TileKey};
use route_tracker::tracker::{Reading, RouteTracker};
use route_tracker::transformer::WorldPositionTransformer;

fn pos(x: f32, y: f32, z: f32) -> Position {
    Position { x: x.to_bits(), y: y.to_bits(), z: z.to_bits() }
}

fn transformer() -> WorldPositionTransformer {
    let mut anchors = AnchorGraph::new();
    anchors.insert(
        TileKey { area: 10, grid_x: 0, grid_z: 0 },
        Anchor {
            src_pos: pos(0.0, 0.0, 0.0),
            dst_area_no: 61,
            dst_grid_x: 2,
            dst_grid_z: 3,
            dst_pos: pos(1.0, 2.0, 3.0),
        },
    );
    WorldPositionTransformer::from_records(anchors)
}

fn reading(map_id: u32, x: f32, y: f32, z: f32) -> Reading {
    Reading { x: x.to_bits(), y: y.to_bits(), z: z.to_bits(), map_id }
}

#[test]
fn recording_samples_once_per_interval() {
    let mut tracker = RouteTracker::new(transformer(), 100, false, 1_000);
    let here = Some(reading(0x3C28_2300, 10.0, 100.0, 20.0));
    tracker.record_position(5_000, here);
    assert!(tracker.route.is_empty(), "not recording yet");
    tracker.start_recording(5_000);
    tracker.record_position(5_050, here);
    assert_eq!(tracker.route.len(), 1);
    assert_eq!(tracker.route[0].timestamp_ms, 50);
    tracker.record_position(5_100, here);
    assert_eq!(tracker.route.len(), 1, "the interval has not gone by");
    tracker.record_position(5_150, None);
    assert_eq!(tracker.route.len(), 1, "no reading");
    assert_eq!(tracker.last_record_time, 5_050);
    tracker.record_position(5_150, here);
    assert_eq!(tracker.route.len(), 2);
    assert_eq!(tracker.route[1].timestamp_ms, 150);
    let point = &tracker.route[1];
    assert_eq!(f32::from_bits(point.global_x), 10.0 + 40.0 * 256.0);
    assert_eq!(f32::from_bits(point.global_y), 100.0);
    assert_eq!(f32::from_bits(point.global_z), 20.0 + 35.0 * 256.0);
    assert_eq!(point.global_map_id, 60);
    assert_eq!(point.map_id_str, "m60_40_35_00");
    tracker.stop_recording();
    tracker.record_position(9_000, here);
    assert_eq!(tracker.route.len(), 2);
    tracker.start_recording(10_000);
    assert!(tracker.route.is_empty());
}

#[test]
fn an_unresolvable_tile_falls_back_to_the_local_point() {
    let mut tracker = RouteTracker::new(transformer(), 0, false, 0);
    tracker.start_recording(0);
    tracker.record_position(1, Some(reading(0x6300_0000, 1.0, 2.0, 3.0)));
    let point = &tracker.route[0];
    assert_eq!(f32::from_bits(point.global_x), 1.0);
    assert_eq!(f32::from_bits(point.global_y), 2.0);
    assert_eq!(f32::from_bits(point.global_z), 3.0);
    assert_eq!(point.global_map_id, 99);
    assert_eq!(point.map_id_str, "m99_00_00_00");
    assert_eq!(
        tracker.get_current_position(Some(reading(0x6300_0000, 1.0, 2.0, 3.0))),
        Some((
            1.0f32.to_bits(),
            2.0f32.to_bits(),
            3.0f32.to_bits(),
            1.0f32.to_bits(),
            2.0f32.to_bits(),
            3.0f32.to_bits(),
            0x6300_0000
        ))
    );
    assert_eq!(tracker.get_current_position(None), None);
}

#[test]
fn streaming_needs_a_client_and_keeps_its_own_session() {
    let here = Some(reading(0x0A00_0000, 5.0, 5.0, 5.0));
    let mut silent = RouteTracker::new(transformer(), 100, false, 0);
    silent.start_streaming(10);
    assert!(silent.stream_position(1_000, here).is_none());

    let mut tracker = RouteTracker::new(transformer(), 100, true, 0);
    assert!(tracker.stream_position(1_000, here).is_none(), "not streaming yet");
    tracker.start_streaming(1_000);
    let first = tracker.stream_position(1_200, here).unwrap();
    assert_eq!(first.timestamp_ms, 200);
    assert_eq!(f32::from_bits(first.global_x), 6.0 + 2.0 * 256.0);
    assert_eq!(f32::from_bits(first.global_y), 7.0);
    assert_eq!(f32::from_bits(first.global_z), 8.0 + 3.0 * 256.0);
    assert_eq!(first.global_map_id, 61);
    assert!(tracker.stream_position(1_250, here).is_none());
    assert!(tracker.stream_position(1_400, None).is_none());
    assert_eq!(tracker.last_stream_time, 1_200);
    // A recording resets the streaming session and lends it its own clock.
    tracker.start_recording(2_000);
    assert_eq!(tracker.stream_start_time, None);
    assert_eq!(tracker.stream_position(2_500, here).unwrap().timestamp_ms, 500);
    assert_eq!(tracker.stream_start_time, None);
    tracker.stop_recording();
    assert_eq!(tracker.stream_position(2_700, here).unwrap().timestamp_ms, 700);
    tracker.stop_streaming();
    assert!(tracker.stream_position(9_000, here).is_none());
}

#[test]
fn streaming_without_a_recording_starts_its_session_at_the_first_due_call() {
    let mut tracker = RouteTracker::new(transformer(), 100, true, 0);
    tracker.start_streaming(50);
    tracker.start_recording(60);
    tracker.stop_recording();
    // The recording cleared the streaming session; its clock still runs.
    assert_eq!(tracker.stream_start_time, None);
    let sent = tracker.stream_position(400, Some(reading(0x3C00_0000, 0.0, 0.0, 0.0))).unwrap();
    assert_eq!(sent.timestamp_ms, 340);
    assert_eq!(tracker.stream_start_time, Some(400));
}

#[test]
fn status_messages_expire() {
    let mut tracker = RouteTracker::new(transformer(), 100, false, 0);
    assert_eq!(tracker.get_status(0), None);
    tracker.set_status("Route saved".to_string(), 1_000);
    assert_eq!(tracker.get_status(1_000), Some("Route saved"));
    assert_eq!(tracker.get_status(3_999), Some("Route saved"));
    assert_eq!(tracker.get_status(4_000), None);
    assert_eq!(tracker.get_status(500), Some("Route saved"));
}

#[test]
fn frames_go_by_the_area_of_the_icon() {
    assert_eq!(frame_for_area(60), GlobalFrame::M60);
    assert_eq!(frame_for_area(61), GlobalFrame::M61);
    assert_eq!(frame_for_area(19), GlobalFrame::M60);
    assert_eq!(frame_for_area(20), GlobalFrame::M61);
    assert_eq!(frame_for_area(29), GlobalFrame::M61);
    assert_eq!(frame_for_area(30), GlobalFrame::M60);
    assert_eq!(frame_for_area(10), GlobalFrame::M60);
    assert_eq!(frame_name(GlobalFrame::M60), "m60");
    assert_eq!(frame_name(GlobalFrame::M61), "m61");
}

#[test]
fn icons_are_converted_counted_and_filed() {
    let transformer = transformer();
    let mut tally = ConversionTally::new();
    let icon = |icon_id: u32, area_no: u8| MapIcon {
        icon_id,
        area_no,
        grid_x_no: 0,
        grid_z_no: 0,
        pos: pos(5.0, 5.0, 5.0),
    };
    assert!(convert_icon(&icon(83, 60), &transformer, &mut tally).is_none());
    assert_eq!((tally.converted_count, tally.failed_count), (0, 0));

    // The interior of area 10 resolves into the secondary frame but is
    // filed under the primary one: the filing goes by the icon's own area.
    let converted = convert_icon(&icon(1, 10), &transformer, &mut tally).unwrap();
    assert_eq!(converted.frame, GlobalFrame::M60);
    assert_eq!(f32::from_bits(converted.global.x), 6.0 + 2.0 * 256.0);
    assert_eq!(f32::from_bits(converted.global.y), 7.0);
    assert_eq!(f32::from_bits(converted.global.z), 8.0 + 3.0 * 256.0);

    assert!(convert_icon(&icon(2, 21), &transformer, &mut tally).is_none());
    assert!(convert_icon(&icon(3, 99), &transformer, &mut tally).is_none());
    assert!(convert_icon(&icon(4, 21), &transformer, &mut tally).is_none());
    assert_eq!((tally.converted_count, tally.failed_count), (1, 3));
    assert_eq!(tally.failed_maps.len(), 2);
    assert_eq!(tally.failed_maps[0].map_id, pack_map_id(21, 0, 0));
    assert_eq!(tally.failed_maps[0].count, 2);
    assert_eq!(tally.failed_maps[1].map_id, 0x6300_0000);
    assert_eq!(tally.failed_maps[1].count, 1);
}
