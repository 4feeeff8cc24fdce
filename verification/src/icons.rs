//! Converting a static set of map icons into the global frames, with a
//! tally of what could and could not be converted.

use vstd::prelude::*;
use crate::coord::Position;
use crate::graph::Tile;
use crate::map_id::{
    pack_map_id,
    packed,
    TileKey,
    AREA_PRIMARY,
    AREA_SECONDARY,
};
use crate::transformer::{resolvable, world_position, WorldPositionTransformer};

verus! {

/// The icon category that is left out of the conversion.
pub const EXCLUDED_ICON_ID: u32 = 83;

/// The first area number of the interiors that belong to the secondary
/// frame.
pub const SECONDARY_INTERIORS_FROM: u8 = 20;

/// The area number after the last interior that belongs to the secondary
/// frame.
pub const SECONDARY_INTERIORS_UPTO: u8 = 30;

/// One of the two global frames, as data sets name them.
#[derive(Clone, Copy, Debug, PartialEq, Eq, Structural)]
pub enum GlobalFrame {
    M60,
    M61,
}

/// An icon of the data set: its category, its tile and its point there.
#[derive(Clone, Copy, Debug, PartialEq, Eq, Structural)]
pub struct MapIcon {
    pub icon_id: u32,
    pub area_no: u8,
    pub grid_x_no: u8,
    pub grid_z_no: u8,
    pub pos: Position,
}

/// A converted icon: its global point and the frame it is filed under.
#[derive(Clone, Copy, Debug, PartialEq, Eq, Structural)]
pub struct ConvertedIcon {
    pub global: Position,
    pub frame: GlobalFrame,
}

/// How often icons of one tile could not be converted.
#[derive(Clone, Copy, Debug, PartialEq, Eq, Structural)]
pub struct FailedMap {
    pub map_id: u32,
    pub count: usize,
}

/// What became of the icons seen so far.
pub struct ConversionTally {
    pub converted_count: usize,
    pub failed_count: usize,
    /// The tiles whose icons failed, in the order of their first failure.
    pub failed_maps: Vec<FailedMap>,
}

/// Whether an icon category is left out.
pub open spec fn excluded(icon_id: u32) -> bool {
    icon_id == EXCLUDED_ICON_ID
}

/// The frame under which the icons of an area are filed: the secondary
/// frame for its own area and for the interiors that belong to it, the
/// primary frame for every other area. It goes by the area of the icon's
/// own tile, not by the frame into which the icon resolves.
pub open spec fn frame_of(area: u8) -> GlobalFrame {
    if area == AREA_SECONDARY || (SECONDARY_INTERIORS_FROM <= area < SECONDARY_INTERIORS_UPTO) {
        GlobalFrame::M61
    } else {
        GlobalFrame::M60
    }
}

/// The packed identifier of an icon's tile, with a zero reserved byte.
pub open spec fn icon_map_id(icon: MapIcon) -> u32 {
    packed(icon.area_no, icon.grid_x_no, icon.grid_z_no, 0)
}

/// The tile of an icon.
pub open spec fn icon_tile(icon: MapIcon) -> TileKey {
    TileKey { area: icon.area_no, grid_x: icon.grid_x_no, grid_z: icon.grid_z_no }
}

/// Whether the icon is counted as converted: it is not left out, and its
/// tile resolves.
pub open spec fn counts_as_converted(g: Seq<Tile>, icon: MapIcon) -> bool {
    !excluded(icon.icon_id) && resolvable(g, icon_tile(icon))
}

/// Whether the icon is counted as failed: it is not left out, and its
/// tile does not resolve.
pub open spec fn counts_as_failed(g: Seq<Tile>, icon: MapIcon) -> bool {
    !excluded(icon.icon_id) && !resolvable(g, icon_tile(icon))
}

/// Whether the tile is listed among the failures.
pub open spec fn listed(entries: Seq<FailedMap>, map_id: u32) -> bool {
    exists|i: int| 0 <= i < entries.len() && (#[trigger] entries[i]).map_id == map_id
}

/// The failures with one more for the tile: its entry counts one more,
/// or, if it has none, a new entry at the end counts one.
pub open spec fn with_failure(entries: Seq<FailedMap>, map_id: u32) -> Seq<FailedMap> {
    if listed(entries, map_id) {
        let i = choose|i: int| 0 <= i < entries.len() && (#[trigger] entries[i]).map_id == map_id;
        entries.update(i, FailedMap { map_id, count: (entries[i].count + 1) as usize })
    } else {
        entries.push(FailedMap { map_id, count: 1 })
    }
}

/// The frame under which the icons of an area are filed.
pub fn frame_for_area(area: u8) -> (frame: GlobalFrame)
    ensures
        frame == frame_of(area),
{
    if area == AREA_PRIMARY {
        GlobalFrame::M60
    } else if area == AREA_SECONDARY {
        GlobalFrame::M61
    } else if area >= SECONDARY_INTERIORS_FROM && area < SECONDARY_INTERIORS_UPTO {
        GlobalFrame::M61
    } else {
        GlobalFrame::M60
    }
}

/// The name of a frame.
pub fn frame_name(frame: GlobalFrame) -> (name: &'static str)
    ensures
        name@ == match frame {
            GlobalFrame::M60 => "m60"@,
            GlobalFrame::M61 => "m61"@,
        },
{
    match frame {
        GlobalFrame::M60 => "m60",
        GlobalFrame::M61 => "m61",
    }
}

impl ConversionTally {
    /// The invariant of a tally: no tile is listed twice among the
    /// failures, each listed tile has failed at least once, and no tile
    /// has failed more often than icons have failed in all.
    pub open spec fn wf(&self) -> bool {
        &&& forall|i: int, j: int|
            0 <= i < j < self.failed_maps@.len() ==> (#[trigger] self.failed_maps@[i]).map_id != (
            #[trigger] self.failed_maps@[j]).map_id
        &&& forall|i: int|
            0 <= i < self.failed_maps@.len() ==> 0 < (#[trigger] self.failed_maps@[i]).count
                <= self.failed_count
    }

    /// A tally of nothing.
    pub fn new() -> (tally: ConversionTally)
        ensures
            tally.wf(),
            tally.converted_count == 0,
            tally.failed_count == 0,
            tally.failed_maps@.len() == 0,
    {
        ConversionTally { converted_count: 0, failed_count: 0, failed_maps: Vec::new() }
    }

    /// Counts one more failure for a tile.
    fn count_failure(&mut self, map_id: u32)
        requires
            old(self).wf(),
            old(self).failed_count < usize::MAX,
        ensures
            final(self).wf(),
            final(self).converted_count == old(self).converted_count,
            final(self).failed_count == old(self).failed_count + 1,
            final(self).failed_maps@ == with_failure(old(self).failed_maps@, map_id),
    {
        let mut i: usize = 0;
        while i < self.failed_maps.len()
            invariant
                i <= self.failed_maps.len(),
                *self == *old(self),
                self.wf(),
                self.failed_count < usize::MAX,
                forall|k: int| 0 <= k < i ==> (#[trigger] self.failed_maps@[k]).map_id != map_id,
            decreases self.failed_maps.len() - i,
        {
            if self.failed_maps[i].map_id == map_id {
                let entry = self.failed_maps[i];
                proof {
                    let entries = self.failed_maps@;
                    let found = choose|k: int|
                        0 <= k < entries.len() && (#[trigger] entries[k]).map_id == map_id;
                    if found < i {
                        assert(entries[found].map_id != map_id);
                    } else if found > i {
                        assert(entries[i as int].map_id != entries[found].map_id);
                    }
                }
                self.failed_maps.set(i, FailedMap { map_id, count: entry.count + 1 });
                self.failed_count = self.failed_count + 1;
                return ;
            }
            i = i + 1;
        }
        self.failed_maps.push(FailedMap { map_id, count: 1 });
        self.failed_count = self.failed_count + 1;
    }
}

/// Converts one icon and counts it. An icon of the excluded category is
/// passed over and not counted. An icon whose tile resolves is converted
/// and filed under the frame that goes with the area of its tile. An
/// icon whose tile does not resolve is counted as failed, for its tile.
pub fn convert_icon(
    icon: &MapIcon,
    transformer: &WorldPositionTransformer,
    tally: &mut ConversionTally,
) -> (converted: Option<ConvertedIcon>)
    requires
        transformer.wf(),
        old(tally).wf(),
        counts_as_converted(transformer.graph(), *icon) ==> old(tally).converted_count
            < usize::MAX,
        counts_as_failed(transformer.graph(), *icon) ==> old(tally).failed_count < usize::MAX,
    ensures
        final(tally).wf(),
        converted is Some <==> !excluded(icon.icon_id) && resolvable(
            transformer.graph(),
            icon_tile(*icon),
        ),
        converted matches Some(c) ==> c.frame == frame_of(icon.area_no) && c.global
            == world_position(transformer.graph(), icon_tile(*icon), icon.pos),
        excluded(icon.icon_id) ==> *final(tally) == *old(tally),
        !excluded(icon.icon_id) && converted is Some ==> {
            &&& final(tally).converted_count == old(tally).converted_count + 1
            &&& final(tally).failed_count == old(tally).failed_count
            &&& final(tally).failed_maps == old(tally).failed_maps
        },
        !excluded(icon.icon_id) && converted is None ==> {
            &&& final(tally).converted_count == old(tally).converted_count
            &&& final(tally).failed_count == old(tally).failed_count + 1
            &&& final(tally).failed_maps@ == with_failure(
                old(tally).failed_maps@,
                icon_map_id(*icon),
            )
        },
{
    if icon.icon_id == EXCLUDED_ICON_ID {
        return None;
    }
    let map_id = pack_map_id(icon.area_no, icon.grid_x_no, icon.grid_z_no);
    match transformer.local_to_world_first(map_id, icon.pos.x, icon.pos.y, icon.pos.z) {
        Ok(world) => {
            proof {
                let point = Position { x: icon.pos.x, y: icon.pos.y, z: icon.pos.z };
                assert(point == icon.pos);
            }
            tally.converted_count = tally.converted_count + 1;
            Some(
                ConvertedIcon {
                    global: Position { x: world.0, y: world.1, z: world.2 },
                    frame: frame_for_area(icon.area_no),
                },
            )
        },
        Err(_) => {
            tally.count_failure(map_id);
            None
        },
    }
}

} // verus!
