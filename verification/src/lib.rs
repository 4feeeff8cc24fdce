//! Coordinate transformation between tile-local frames and two global
//! frames, and the decisions of a pipeline that delivers the transformed
//! points in batches.
//!
//! Coordinates are single-precision numbers held as their bit patterns;
//! all arithmetic on them is integer arithmetic with an exact statement
//! of what it computes.
//!
//! - `map_id`: packed map identifiers, tile keys and their text form.
//! - `coord`, `arith`, `tolerance`: coordinates, their sums and
//!   differences, and equality within tolerance.
//! - `graph`: the anchor graph and the synthesis of inverse anchors.
//! - `routes`, `search`, `paths`: routes into the global frames, the
//!   breadth-first search for the first of the shortest, and the cache of
//!   the routes found.
//! - `transformer`: the query surface.
//! - `records`: alignment records from the lines of a table.
//! - `streaming`, `delivery`: the batching worker and the retry policy.
//! - `tracker`: when a reading becomes a route point.
//! - `icons`: the conversion of a static set of icons.

pub mod arith;
pub mod coord;
pub mod delivery;
pub mod graph;
pub mod icons;
pub mod map_id;
pub mod paths;
pub mod records;
pub mod routes;
pub mod search;
pub mod streaming;
pub mod tolerance;
pub mod tracker;
pub mod transformer;

pub use coord::Position;
pub use delivery::RealtimeClient;
pub use graph::{Anchor, AnchorGraph};
pub use map_id::TileKey;
pub use streaming::RoutePoint;
pub use tracker::RouteTracker;
pub use transformer::{TransformError, WorldPositionTransformer};
