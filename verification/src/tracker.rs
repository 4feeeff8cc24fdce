//! The sampling decisions of the route tracker: when a reading of the
//! position becomes a route point, and what that point holds.
//!
//! Times are milliseconds on a clock that never runs backwards, read by
//! whoever drives the tracker.

use vstd::prelude::*;
use vstd::string::*;
use crate::coord::Position;
use crate::graph::Tile;
use crate::map_id::{area_of, map_id_text, tile_of};
use crate::streaming::RoutePoint;
use crate::transformer::{global_tile_of, resolvable, world_position, WorldPositionTransformer};

verus! {

/// How long a status message is shown.
pub const STATUS_SHOWN_MS: u64 = 3000;

/// One reading of the position: the point in its tile's frame and the
/// tile's packed identifier.
#[derive(Clone, Copy, Debug, PartialEq, Eq, Structural)]
pub struct Reading {
    pub x: u32,
    pub y: u32,
    pub z: u32,
    pub map_id: u32,
}

/// The state of the route tracker.
pub struct RouteTracker {
    /// The points recorded since recording last began.
    pub route: Vec<RoutePoint>,
    pub is_recording: bool,
    pub is_streaming: bool,
    /// When recording last began.
    pub start_time: Option<u64>,
    /// When streaming began, where it did not begin during a recording.
    pub stream_start_time: Option<u64>,
    pub last_record_time: u64,
    pub last_stream_time: u64,
    /// The least time between two samples.
    pub record_interval_ms: u64,
    /// The status message and when it was set.
    pub status_message: Option<(String, u64)>,
    /// Whether a client for streaming is there.
    pub has_client: bool,
    /// The transformer that gives the global positions.
    pub transformer: WorldPositionTransformer,
}

/// The time from `since` to `now`; none if `now` is not later.
pub open spec fn elapsed(now: u64, since: u64) -> u64 {
    if now >= since {
        (now - since) as u64
    } else {
        0
    }
}

/// The time since an optional start; zero without a start.
pub open spec fn session_time(now: u64, start: Option<u64>) -> u64 {
    match start {
        Some(since) => elapsed(now, since),
        None => 0,
    }
}

/// Whether the point is the sample that a reading gives at the given
/// session time. It holds the reading and the canonical text of its
/// tile. Where the tile resolves, it holds the global position and the
/// area of the global frame; where not, it holds the local point in
/// place of the global one, with the tile's own area.
pub open spec fn is_sample(point: RoutePoint, reading: Reading, time: u64, g: Seq<Tile>) -> bool {
    let local = Position { x: reading.x, y: reading.y, z: reading.z };
    let global = Position { x: point.global_x, y: point.global_y, z: point.global_z };
    &&& point.x == reading.x
    &&& point.y == reading.y
    &&& point.z == reading.z
    &&& point.map_id == reading.map_id
    &&& point.map_id_str@ == map_id_text(reading.map_id)
    &&& point.timestamp_ms == time
    &&& if resolvable(g, tile_of(reading.map_id)) {
        global == world_position(g, tile_of(reading.map_id), local) && point.global_map_id
            == global_tile_of(g, tile_of(reading.map_id)).area
    } else {
        global == local && point.global_map_id == area_of(reading.map_id)
    }
}

/// The time from `since` to `now`.
fn time_since(now: u64, since: u64) -> (time: u64)
    ensures
        time == elapsed(now, since),
{
    if now >= since {
        now - since
    } else {
        0
    }
}

impl RouteTracker {
    /// The anchor graph that the tracker transforms by.
    pub open spec fn graph(&self) -> Seq<Tile> {
        self.transformer.graph()
    }

    /// The invariant of a tracker: that of its transformer.
    pub open spec fn wf(&self) -> bool {
        self.transformer.wf()
    }

    /// Whether a call of `record_position` takes a sample: the tracker
    /// records, the interval has gone by since the last sample, and there
    /// is a reading.
    pub open spec fn records(&self, now: u64, reading: Option<Reading>) -> bool {
        self.is_recording && elapsed(now, self.last_record_time) >= self.record_interval_ms
            && reading is Some
    }

    /// Whether a call of `stream_position` gets as far as the reading: the
    /// tracker streams, there is a client, and the interval has gone by
    /// since the last streamed sample.
    pub open spec fn stream_due(&self, now: u64) -> bool {
        self.is_streaming && self.has_client && elapsed(now, self.last_stream_time)
            >= self.record_interval_ms
    }

    /// The session time of a streamed sample: the time since recording
    /// began if it ever did, else the time since streaming began.
    pub open spec fn stream_time(&self, now: u64) -> u64 {
        match self.start_time {
            Some(since) => elapsed(now, since),
            None => session_time(
                now,
                if self.stream_start_time is None && !self.is_recording {
                    Some(now)
                } else {
                    self.stream_start_time
                },
            ),
        }
    }

    /// A tracker that neither records nor streams.
    pub fn new(
        transformer: WorldPositionTransformer,
        record_interval_ms: u64,
        has_client: bool,
        now: u64,
    ) -> (tracker: RouteTracker)
        requires
            transformer.wf(),
        ensures
            tracker.wf(),
            tracker.graph() == transformer.graph(),
            tracker.route@.len() == 0,
            !tracker.is_recording,
            !tracker.is_streaming,
            tracker.start_time is None,
            tracker.stream_start_time is None,
            tracker.last_record_time == now,
            tracker.last_stream_time == now,
            tracker.record_interval_ms == record_interval_ms,
            tracker.status_message is None,
            tracker.has_client == has_client,
    {
        RouteTracker {
            route: Vec::new(),
            is_recording: false,
            is_streaming: false,
            start_time: None,
            stream_start_time: None,
            last_record_time: now,
            last_stream_time: now,
            record_interval_ms,
            status_message: None,
            has_client,
            transformer,
        }
    }

    /// Begins a recording: the route is emptied and the session begins
    /// anew.
    pub fn start_recording(&mut self, now: u64)
        requires
            old(self).wf(),
        ensures
            final(self).wf(),
            final(self).graph() == old(self).graph(),
            final(self).route@.len() == 0,
            final(self).is_recording,
            final(self).start_time == Some(now),
            final(self).stream_start_time is None,
            final(self).is_streaming == old(self).is_streaming,
            final(self).last_record_time == old(self).last_record_time,
            final(self).last_stream_time == old(self).last_stream_time,
            final(self).record_interval_ms == old(self).record_interval_ms,
            final(self).status_message == old(self).status_message,
            final(self).has_client == old(self).has_client,
    {
        self.route.clear();
        self.start_time = Some(now);
        self.stream_start_time = None;
        self.is_recording = true;
    }

    /// Ends the recording; the route stays.
    pub fn stop_recording(&mut self)
        requires
            old(self).wf(),
        ensures
            final(self).wf(),
            final(self).graph() == old(self).graph(),
            !final(self).is_recording,
            final(self).route == old(self).route,
            final(self).start_time == old(self).start_time,
            final(self).stream_start_time == old(self).stream_start_time,
            final(self).is_streaming == old(self).is_streaming,
            final(self).last_record_time == old(self).last_record_time,
            final(self).last_stream_time == old(self).last_stream_time,
            final(self).record_interval_ms == old(self).record_interval_ms,
            final(self).status_message == old(self).status_message,
            final(self).has_client == old(self).has_client,
    {
        self.is_recording = false;
    }

    /// Begins streaming.
    pub fn start_streaming(&mut self, now: u64)
        requires
            old(self).wf(),
        ensures
            final(self).wf(),
            final(self).graph() == old(self).graph(),
            final(self).is_streaming,
            final(self).stream_start_time == Some(now),
            final(self).route == old(self).route,
            final(self).start_time == old(self).start_time,
            final(self).is_recording == old(self).is_recording,
            final(self).last_record_time == old(self).last_record_time,
            final(self).last_stream_time == old(self).last_stream_time,
            final(self).record_interval_ms == old(self).record_interval_ms,
            final(self).status_message == old(self).status_message,
            final(self).has_client == old(self).has_client,
    {
        self.stream_start_time = Some(now);
        self.is_streaming = true;
    }

    /// Ends streaming.
    pub fn stop_streaming(&mut self)
        requires
            old(self).wf(),
        ensures
            final(self).wf(),
            final(self).graph() == old(self).graph(),
            !final(self).is_streaming,
            final(self).stream_start_time == old(self).stream_start_time,
            final(self).route == old(self).route,
            final(self).start_time == old(self).start_time,
            final(self).is_recording == old(self).is_recording,
            final(self).last_record_time == old(self).last_record_time,
            final(self).last_stream_time == old(self).last_stream_time,
            final(self).record_interval_ms == old(self).record_interval_ms,
            final(self).status_message == old(self).status_message,
            final(self).has_client == old(self).has_client,
    {
        self.is_streaming = false;
    }

    /// The sample that a reading gives at the given session time.
    pub fn sample(&self, reading: Reading, time: u64) -> (point: RoutePoint)
        requires
            self.wf(),
        ensures
            is_sample(point, reading, time, self.graph()),
    {
        let map_id_str = WorldPositionTransformer::format_map_id(reading.map_id);
        let (area, _, _, _) = WorldPositionTransformer::parse_map_id(reading.map_id);
        let world = match self.transformer.local_to_world_with_global_map(
            reading.map_id,
            reading.x,
            reading.y,
            reading.z,
        ) {
            Ok(world) => world,
            Err(_) => (reading.x, reading.y, reading.z, area),
        };
        RoutePoint {
            x: reading.x,
            y: reading.y,
            z: reading.z,
            global_x: world.0,
            global_y: world.1,
            global_z: world.2,
            map_id: reading.map_id,
            map_id_str,
            global_map_id: world.3,
            timestamp_ms: time,
        }
    }

    /// Takes a sample for the recording, if one is due: the tracker has
    /// to record, the interval has to have gone by since the last sample,
    /// and there has to be a reading. The sample goes to the end of the
    /// route, at the time since the recording began.
    pub fn record_position(&mut self, now: u64, reading: Option<Reading>)
        requires
            old(self).wf(),
        ensures
            final(self).wf(),
            final(self).graph() == old(self).graph(),
            final(self).is_recording == old(self).is_recording,
            final(self).is_streaming == old(self).is_streaming,
            final(self).start_time == old(self).start_time,
            final(self).stream_start_time == old(self).stream_start_time,
            final(self).last_stream_time == old(self).last_stream_time,
            final(self).record_interval_ms == old(self).record_interval_ms,
            final(self).status_message == old(self).status_message,
            final(self).has_client == old(self).has_client,
            !old(self).records(now, reading) ==> {
                &&& final(self).route == old(self).route
                &&& final(self).last_record_time == old(self).last_record_time
            },
            old(self).records(now, reading) ==> {
                &&& final(self).last_record_time == now
                &&& final(self).route@.len() == old(self).route@.len() + 1
                &&& final(self).route@.drop_last() == old(self).route@
                &&& is_sample(
                    final(self).route@.last(),
                    reading.unwrap(),
                    session_time(now, old(self).start_time),
                    old(self).graph(),
                )
            },
    {
        if !self.is_recording {
            return ;
        }
        if time_since(now, self.last_record_time) < self.record_interval_ms {
            return ;
        }
        match reading {
            Some(reading) => {
                let time = match self.start_time {
                    Some(since) => time_since(now, since),
                    None => 0,
                };
                let point = self.sample(reading, time);
                self.route.push(point);
                self.last_record_time = now;
                proof {
                    assert(self.route@.drop_last() =~= old(self).route@);
                }
            },
            None => {},
        }
    }

    /// Takes a sample for streaming, if one is due: the tracker has to
    /// stream, there has to be a client, and the interval has to have
    /// gone by since the last streamed sample. Where streaming did not
    /// begin during a recording, its session begins with the first call
    /// that gets this far. With a reading, the sample is handed back to
    /// be sent.
    pub fn stream_position(&mut self, now: u64, reading: Option<Reading>) -> (sent: Option<
        RoutePoint,
    >)
        requires
            old(self).wf(),
        ensures
            final(self).wf(),
            final(self).graph() == old(self).graph(),
            final(self).route == old(self).route,
            final(self).is_recording == old(self).is_recording,
            final(self).is_streaming == old(self).is_streaming,
            final(self).start_time == old(self).start_time,
            final(self).last_record_time == old(self).last_record_time,
            final(self).record_interval_ms == old(self).record_interval_ms,
            final(self).status_message == old(self).status_message,
            final(self).has_client == old(self).has_client,
            sent is Some <==> old(self).stream_due(now) && reading is Some,
            sent matches Some(point) ==> is_sample(
                point,
                reading.unwrap(),
                old(self).stream_time(now),
                old(self).graph(),
            ),
            final(self).last_stream_time == if sent is Some {
                now
            } else {
                old(self).last_stream_time
            },
            final(self).stream_start_time == if old(self).stream_due(now)
                && old(self).stream_start_time is None && !old(self).is_recording {
                Some(now)
            } else {
                old(self).stream_start_time
            },
    {
        if !self.is_streaming {
            return None;
        }
        if !self.has_client {
            return None;
        }
        if time_since(now, self.last_stream_time) < self.record_interval_ms {
            return None;
        }
        if self.stream_start_time.is_none() && !self.is_recording {
            self.stream_start_time = Some(now);
        }
        match reading {
            Some(reading) => {
                let time = match self.start_time {
                    Some(since) => time_since(now, since),
                    None => match self.stream_start_time {
                        Some(since) => time_since(now, since),
                        None => 0,
                    },
                };
                let point = self.sample(reading, time);
                self.last_stream_time = now;
                Some(point)
            },
            None => None,
        }
    }

    /// Sets the status message.
    pub fn set_status(&mut self, message: String, now: u64)
        requires
            old(self).wf(),
        ensures
            final(self).wf(),
            final(self).graph() == old(self).graph(),
            final(self).status_message == Some((message, now)),
            final(self).route == old(self).route,
            final(self).is_recording == old(self).is_recording,
            final(self).is_streaming == old(self).is_streaming,
            final(self).start_time == old(self).start_time,
            final(self).stream_start_time == old(self).stream_start_time,
            final(self).last_record_time == old(self).last_record_time,
            final(self).last_stream_time == old(self).last_stream_time,
            final(self).record_interval_ms == old(self).record_interval_ms,
            final(self).has_client == old(self).has_client,
    {
        self.status_message = Some((message, now));
    }

    /// The status message, as long as it is shown.
    pub fn get_status(&self, now: u64) -> (shown: Option<&str>)
        ensures
            shown is Some <==> self.status_message is Some && elapsed(
                now,
                self.status_message.unwrap().1,
            ) < STATUS_SHOWN_MS,
            shown matches Some(text) ==> text@ == self.status_message.unwrap().0@,
    {
        match &self.status_message {
            Some(entry) => {
                if time_since(now, entry.1) < STATUS_SHOWN_MS {
                    Some(entry.0.as_str())
                } else {
                    None
                }
            },
            None => None,
        }
    }

    /// A reading with its global position: the local point, the global
    /// point, and the tile's identifier. The local point stands in for
    /// the global one where the tile does not resolve.
    pub fn get_current_position(&self, reading: Option<Reading>) -> (position: Option<
        (u32, u32, u32, u32, u32, u32, u32),
    >)
        requires
            self.wf(),
        ensures
            position is Some == reading is Some,
            position matches Some(p) ==> {
                let r = reading.unwrap();
                let local = Position { x: r.x, y: r.y, z: r.z };
                let global = Position { x: p.3, y: p.4, z: p.5 };
                &&& p.0 == r.x && p.1 == r.y && p.2 == r.z && p.6 == r.map_id
                &&& if resolvable(self.graph(), tile_of(r.map_id)) {
                    global == world_position(self.graph(), tile_of(r.map_id), local)
                } else {
                    global == local
                }
            },
    {
        match reading {
            Some(r) => {
                let world = match self.transformer.local_to_world_first(r.map_id, r.x, r.y, r.z) {
                    Ok(world) => world,
                    Err(_) => (r.x, r.y, r.z),
                };
                Some((r.x, r.y, r.z, world.0, world.1, world.2, r.map_id))
            },
            None => None,
        }
    }
}

} // verus!
