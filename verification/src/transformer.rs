//! The query surface: which anchors carry a point of a tile into a global
//! frame, and into which tile of that frame.

use vstd::prelude::*;
use crate::arith::{add_bits, difference_bits, grid_offset, subtract_bits, sum_bits, whole_bits};
use crate::coord::Position;
use crate::graph::{
    anchor_total,
    destination,
    edges,
    leads_to_global,
    with_inverses,
    Anchor,
    AnchorGraph,
    Tile,
};
use crate::map_id::{
    area_of,
    grid_x_of,
    grid_z_of,
    is_global_area,
    map_id_text,
    render_map_id,
    reserved_of,
    split_map_id,
    tile_of,
    TileKey,
    AREA_PRIMARY,
    AREA_SECONDARY,
};
use crate::paths::{
    cache_for,
    has_direct_global,
    lemma_cached_route,
    lemma_route_needs_cache,
    precompute_paths_to_global,
    PathCache,
    PathStep,
};
use crate::routes::{end_tile, lemma_direct_route, lemma_the_route, reachable, the_route};

verus! {

/// Why a transformation failed.
#[derive(Debug)]
pub enum TransformError {
    /// The tile has no way into a global frame; holds the identifier's
    /// canonical text.
    UnknownMap(String),
    /// The alignment records could not be read; holds the reason.
    IoError(String),
}

/// The prefix of the message of an unknown map.
pub open spec fn unknown_map_prefix() -> Seq<char> {
    "Unknown map_id: "@
}

/// The prefix of the message of a read failure.
pub open spec fn io_error_prefix() -> Seq<char> {
    "IO error: "@
}

impl TransformError {
    /// The message of the error, as one line of text.
    pub fn message(&self) -> (text: String)
        ensures
            self matches TransformError::UnknownMap(id) ==> text@ == unknown_map_prefix() + id@,
            self matches TransformError::IoError(reason) ==> text@ == io_error_prefix() + reason@,
    {
        match self {
            TransformError::UnknownMap(id) => {
                let mut text = String::from_str("Unknown map_id: ");
                text.append(id.as_str());
                text
            },
            TransformError::IoError(reason) => {
                let mut text = String::from_str("IO error: ");
                text.append(reason.as_str());
                text
            },
        }
    }
}

/// How a point of a tile gets into a global frame: the anchors to apply,
/// first to last, and the tile of the global frame whose grid offset is
/// added in the end.
#[derive(Debug)]
pub struct Resolution {
    pub steps: Vec<Anchor>,
    pub tile: TileKey,
}

/// The first anchor of the list that leads to the given area.
pub open spec fn first_to(list: Seq<Anchor>, area: u8) -> Option<int> {
    if exists|i: int| 0 <= i < list.len() && (#[trigger] list[i]).dst_area_no == area {
        Some(
            choose|i: int|
                0 <= i < list.len() && (#[trigger] list[i]).dst_area_no == area && forall|j: int|
                    0 <= j < i ==> (#[trigger] list[j]).dst_area_no != area,
        )
    } else {
        None
    }
}

/// The anchor that is applied alone where a tile has anchors straight
/// into a global frame: the first into the primary frame, else the first
/// into the secondary frame.
pub open spec fn direct_anchor(list: Seq<Anchor>) -> Option<Anchor> {
    match first_to(list, AREA_PRIMARY) {
        Some(i) => Some(list[i]),
        None => match first_to(list, AREA_SECONDARY) {
            Some(i) => Some(list[i]),
            None => None,
        },
    }
}

/// Whether a tile resolves at all: it lies in a global frame, or some
/// route leads from it into one.
pub open spec fn resolvable(g: Seq<Tile>, key: TileKey) -> bool {
    is_global_area(key.area) || reachable(g, key)
}

/// The steps by which a tile resolves. A tile of a global frame needs no
/// step. An anchor straight into a global frame is applied alone, the
/// primary frame first. Else the steps are the route that the search
/// finds: the first of the shortest.
pub open spec fn steps_of(g: Seq<Tile>, key: TileKey) -> Seq<Anchor> {
    if is_global_area(key.area) {
        Seq::empty()
    } else {
        match direct_anchor(edges(g, key)) {
            Some(a) => seq![a],
            None => the_route(g, key),
        }
    }
}

/// The tile of a global frame in which the steps of a tile end.
pub open spec fn global_tile_of(g: Seq<Tile>, key: TileKey) -> TileKey {
    end_tile(key, steps_of(g, key))
}

/// The global position of a point of a tile that resolves.
pub open spec fn world_position(g: Seq<Tile>, key: TileKey, p: Position) -> Position {
    global_position(p, steps_of(g, key), global_tile_of(g, key))
}

/// The side of one grid cell of a global frame, in world units.
pub const TILE_SIZE: u32 = 256;

/// A point carried over one anchor, from the frame of the anchor's source
/// tile into that of its destination: on each axis the point, less the
/// anchor's source point, plus its destination point.
pub open spec fn translated(p: Position, a: Anchor) -> Position {
    Position {
        x: sum_bits(difference_bits(p.x, a.src_pos.x), a.dst_pos.x),
        y: sum_bits(difference_bits(p.y, a.src_pos.y), a.dst_pos.y),
        z: sum_bits(difference_bits(p.z, a.src_pos.z), a.dst_pos.z),
    }
}

/// A point carried over a chain of anchors, first to last.
pub open spec fn carried(p: Position, chain: Seq<Anchor>) -> Position
    decreases chain.len(),
{
    if chain.len() == 0 {
        p
    } else {
        translated(carried(p, chain.drop_last()), chain.last())
    }
}

/// A point of a tile of a global frame, in that frame: X and Z grow by
/// the grid index times the tile size, Y stays as it is.
pub open spec fn on_grid(p: Position, tile: TileKey) -> Position {
    Position {
        x: sum_bits(p.x, whole_bits(tile.grid_x as nat * TILE_SIZE as nat)),
        y: p.y,
        z: sum_bits(p.z, whole_bits(tile.grid_z as nat * TILE_SIZE as nat)),
    }
}

/// The global position of a point that resolves by the given steps into
/// the given tile.
pub open spec fn global_position(p: Position, steps: Seq<Anchor>, tile: TileKey) -> Position {
    on_grid(carried(p, steps), tile)
}

/// A chain of two anchors carries a point over the first, then over the
/// second; with the grid offset of the tile it ends in, that is the
/// global position.
pub proof fn lemma_two_steps_compose(p: Position, first: Anchor, second: Anchor, tile: TileKey)
    ensures
        carried(p, seq![first, second]) == translated(translated(p, first), second),
        global_position(p, seq![first, second], tile) == on_grid(
            translated(translated(p, first), second),
            tile,
        ),
{
    let chain = seq![first, second];
    lemma_one_step(p, first);
    assert(chain.drop_last() =~= seq![first]);
    assert(chain.last() == second);
}

/// A point of a tile of a global frame keeps its Y and grows in X and Z
/// by the grid index times the tile size, whatever the graph holds.
pub proof fn lemma_global_tile_formula(g: Seq<Tile>, map_id: u32, p: Position)
    requires
        is_global_area(area_of(map_id)),
    ensures
        resolvable(g, tile_of(map_id)),
        global_tile_of(g, tile_of(map_id)) == tile_of(map_id),
        world_position(g, tile_of(map_id), p) == (Position {
            x: sum_bits(p.x, whole_bits(grid_x_of(map_id) as nat * TILE_SIZE as nat)),
            y: p.y,
            z: sum_bits(p.z, whole_bits(grid_z_of(map_id) as nat * TILE_SIZE as nat)),
        }),
{
}

/// A tile that resolves by a chain of two anchors has its points carried
/// over the first, then over the second, and onto the grid of the tile
/// in which the second ends.
pub proof fn lemma_two_hop_position(g: Seq<Tile>, key: TileKey, p: Position)
    requires
        steps_of(g, key).len() == 2,
    ensures
        world_position(g, key, p) == on_grid(
            translated(translated(p, steps_of(g, key)[0]), steps_of(g, key)[1]),
            destination(steps_of(g, key)[1]),
        ),
{
    let steps = steps_of(g, key);
    assert(steps =~= seq![steps[0], steps[1]]);
    lemma_two_steps_compose(p, steps[0], steps[1], global_tile_of(g, key));
}

/// A tile outside the global frames from which no route leads into one
/// does not resolve.
pub proof fn lemma_unreachable_unresolvable(g: Seq<Tile>, key: TileKey)
    requires
        !is_global_area(key.area),
        !reachable(g, key),
    ensures
        !resolvable(g, key),
{
}

/// A chain of one anchor carries a point over that anchor.
pub proof fn lemma_one_step(p: Position, a: Anchor)
    ensures
        carried(p, seq![a]) == translated(p, a),
{
    assert(seq![a].drop_last() =~= Seq::<Anchor>::empty());
    assert(carried(p, Seq::<Anchor>::empty()) == p);
    assert(seq![a].last() == a);
}

/// A chain with one more anchor carries a point over the chain, then over
/// that anchor.
pub proof fn lemma_carried_push(p: Position, chain: Seq<Anchor>, a: Anchor)
    ensures
        carried(p, chain.push(a)) == translated(carried(p, chain), a),
{
    assert(chain.push(a).drop_last() =~= chain);
}

/// A point carried over one anchor.
pub fn apply_anchor(p: Position, a: &Anchor) -> (moved: Position)
    ensures
        moved == translated(p, *a),
{
    Position {
        x: add_bits(subtract_bits(p.x, a.src_pos.x), a.dst_pos.x),
        y: add_bits(subtract_bits(p.y, a.src_pos.y), a.dst_pos.y),
        z: add_bits(subtract_bits(p.z, a.src_pos.z), a.dst_pos.z),
    }
}

/// A point of a tile of a global frame, in that frame.
pub fn apply_grid(p: Position, tile: TileKey) -> (global: Position)
    ensures
        global == on_grid(p, tile),
{
    Position {
        x: add_bits(p.x, grid_offset(tile.grid_x)),
        y: p.y,
        z: add_bits(p.z, grid_offset(tile.grid_z)),
    }
}

/// The first anchor of the list that leads to the given area.
fn find_first_to(list: &Vec<Anchor>, area: u8) -> (found: Option<usize>)
    ensures
        first_to(list@, area) == match found {
            Some(i) => Some(i as int),
            None => None,
        },
        found matches Some(i) ==> i < list@.len() && list@[i as int].dst_area_no == area,
{
    let mut i: usize = 0;
    while i < list.len()
        invariant
            i <= list.len(),
            forall|j: int| 0 <= j < i ==> (#[trigger] list@[j]).dst_area_no != area,
        decreases list.len() - i,
    {
        if list[i].dst_area_no == area {
            proof {
                let k = choose|k: int|
                    0 <= k < list@.len() && (#[trigger] list@[k]).dst_area_no == area && forall|
                        j: int,
                    |
                        0 <= j < k ==> (#[trigger] list@[j]).dst_area_no != area;
                assert(k == i);
            }
            return Some(i);
        }
        i = i + 1;
    }
    None
}

/// A copy of the anchors of a path.
fn chain_of_steps(steps: &Vec<PathStep>) -> (chain: Vec<Anchor>)
    ensures
        chain@ == crate::paths::chain_of(steps@),
{
    let mut chain: Vec<Anchor> = Vec::new();
    let mut i: usize = 0;
    while i < steps.len()
        invariant
            i <= steps.len(),
            chain@.len() == i,
            forall|k: int| 0 <= k < i ==> #[trigger] chain@[k] == steps@[k].anchor,
        decreases steps.len() - i,
    {
        chain.push(steps[i].anchor);
        i = i + 1;
    }
    assert(chain@ =~= crate::paths::chain_of(steps@));
    chain
}

/// Transforms points of tile-local frames into the global frames.
pub struct WorldPositionTransformer {
    anchors: AnchorGraph,
    paths_to_global: PathCache,
}

impl WorldPositionTransformer {
    /// The anchor graph of the transformer.
    pub closed spec fn graph(&self) -> Seq<Tile> {
        self.anchors@
    }

    /// The invariant of a transformer: its graph is well formed and its
    /// cache is the one that belongs to the graph.
    pub closed spec fn wf(&self) -> bool {
        self.anchors.wf() && cache_for(self.anchors@, self.paths_to_global@)
    }

    /// A transformer without anchors: it resolves the tiles of the global
    /// frames and no others.
    pub fn empty() -> (transformer: WorldPositionTransformer)
        ensures
            transformer.wf(),
            transformer.graph() == Seq::<Tile>::empty(),
    {
        WorldPositionTransformer { anchors: AnchorGraph::new(), paths_to_global: PathCache::new() }
    }

    /// A transformer over the graph as it stands, with a chain computed
    /// for every tile that needs one.
    pub fn from_graph(graph: AnchorGraph) -> (transformer: WorldPositionTransformer)
        requires
            graph.wf(),
        ensures
            transformer.wf(),
            transformer.graph() == graph@,
    {
        let paths_to_global = precompute_paths_to_global(&graph);
        WorldPositionTransformer { anchors: graph, paths_to_global }
    }

    /// A transformer over the alignment records as they were read: the
    /// graph first gets the inverse of every anchor, then a chain is
    /// computed for every tile that needs one.
    pub fn from_records(graph: AnchorGraph) -> (transformer: WorldPositionTransformer)
        requires
            graph.wf(),
        ensures
            transformer.wf(),
            transformer.graph() == with_inverses(graph@),
    {
        let mut graph = graph;
        graph.add_inverse_anchors();
        Self::from_graph(graph)
    }

    /// Splits a packed identifier into area, grid X, grid Z and the
    /// reserved byte.
    pub fn parse_map_id(map_id: u32) -> (parts: (u8, u8, u8, u8))
        ensures
            parts.0 == area_of(map_id),
            parts.1 == grid_x_of(map_id),
            parts.2 == grid_z_of(map_id),
            parts.3 == reserved_of(map_id),
    {
        split_map_id(map_id)
    }

    /// Renders a packed identifier as `m`, then its four bytes in decimal,
    /// each padded with zeros to two digits, joined by underscores.
    pub fn format_map_id(map_id: u32) -> (text: String)
        ensures
            text@ == map_id_text(map_id),
    {
        render_map_id(map_id)
    }

    /// The number of anchors in the graph.
    pub fn anchor_count(&self) -> (count: usize)
        requires
            self.wf(),
            anchor_total(self.graph(), self.graph().len()) <= usize::MAX,
        ensures
            count == anchor_total(self.graph(), self.graph().len()),
    {
        self.anchors.anchor_count()
    }

    /// The number of anchors in the graph; none if there are more than
    /// can be counted.
    pub fn try_anchor_count(&self) -> (count: Option<usize>)
        ensures
            count == if anchor_total(self.graph(), self.graph().len()) <= usize::MAX {
                Some(anchor_total(self.graph(), self.graph().len()) as usize)
            } else {
                None
            },
    {
        self.anchors.try_anchor_count()
    }

    /// The number of tiles that have anchors.
    pub fn map_count(&self) -> (count: usize)
        ensures
            count == self.graph().len(),
    {
        self.anchors.map_count()
    }

    /// Decides how the tile named by a packed identifier gets into a
    /// global frame. It fails exactly for a tile outside the global frames
    /// from which no route leads into one, with the identifier's canonical
    /// text in the error.
    pub fn resolve(&self, map_id: u32) -> (outcome: Result<Resolution, TransformError>)
        requires
            self.wf(),
        ensures
            outcome is Ok <==> resolvable(self.graph(), tile_of(map_id)),
            outcome matches Ok(r) ==> r.steps@ == steps_of(self.graph(), tile_of(map_id)) && r.tile
                == global_tile_of(self.graph(), tile_of(map_id)),
            outcome matches Err(e) ==> e matches TransformError::UnknownMap(id) && id@
                == map_id_text(map_id),
    {
        let (area_no, grid_x, grid_z, _) = Self::parse_map_id(map_id);
        let key = TileKey { area: area_no, grid_x, grid_z };
        let ghost g = self.anchors@;
        if area_no == AREA_PRIMARY || area_no == AREA_SECONDARY {
            let steps: Vec<Anchor> = Vec::new();
            proof {
                assert(steps@ =~= steps_of(g, key));
            }
            return Ok(Resolution { steps, tile: key });
        }
        match self.anchors.get(key) {
            Some(list) => {
                let primary = find_first_to(list, AREA_PRIMARY);
                let chosen = match primary {
                    Some(i) => Some(i),
                    None => find_first_to(list, AREA_SECONDARY),
                };
                match chosen {
                    Some(i) => {
                        let a = list[i];
                        let mut steps: Vec<Anchor> = Vec::new();
                        steps.push(a);
                        proof {
                            assert(steps@ =~= seq![a]);
                            assert(list@[i as int] == a);
                            lemma_direct_route(g, key, a);
                        }
                        return Ok(Resolution { steps, tile: a.destination() });
                    },
                    None => {
                        proof {
                            assert forall|i: int| 0 <= i < list@.len() implies !leads_to_global(
                                #[trigger] list@[i],
                            ) by {
                                if list@[i].dst_area_no == AREA_PRIMARY {
                                    assert(first_to(list@, AREA_PRIMARY) is Some);
                                }
                                if list@[i].dst_area_no == AREA_SECONDARY {
                                    assert(first_to(list@, AREA_SECONDARY) is Some);
                                }
                            }
                            assert(!has_direct_global(edges(g, key)));
                        }
                    },
                }
            },
            None => {
                proof {
                    assert(edges(g, key) =~= Seq::<Anchor>::empty());
                }
            },
        }
        assert(direct_anchor(edges(g, key)) is None);
        proof {
            lemma_route_needs_cache(g, self.paths_to_global@, key);
        }
        match self.paths_to_global.get(key) {
            Some(path) => {
                let steps = chain_of_steps(&path.steps);
                proof {
                    let cache = self.paths_to_global@;
                    let c = choose|c: int|
                        0 <= c < cache.len() && (#[trigger] cache[c]).key == key && cache[c].chain
                            == path@ && cache[c].final_tile == path.final_global_tile;
                    lemma_cached_route(g, cache, c);
                    lemma_the_route(g, key, path@);
                }
                Ok(Resolution { steps, tile: path.final_global_tile })
            },
            None => Err(TransformError::UnknownMap(Self::format_map_id(map_id))),
        }
    }
    /// Carries a point over one anchor and onto the grid of the anchor's
    /// destination tile.
    pub fn apply_anchor_and_convert_to_global(p: Position, anchor: &Anchor) -> (global: Position)
        ensures
            global == global_position(p, seq![*anchor], crate::graph::destination(*anchor)),
    {
        proof {
            lemma_one_step(p, *anchor);
        }
        apply_grid(apply_anchor(p, anchor), anchor.destination())
    }

    /// Carries a point over the steps of a resolution and onto the grid
    /// of the tile it ends in.
    pub fn apply_path_to_global(p: Position, resolution: &Resolution) -> (global: Position)
        ensures
            global == global_position(p, resolution.steps@, resolution.tile),
    {
        let mut current = p;
        let mut i: usize = 0;
        while i < resolution.steps.len()
            invariant
                i <= resolution.steps.len(),
                current == carried(p, resolution.steps@.take(i as int)),
            decreases resolution.steps.len() - i,
        {
            proof {
                lemma_carried_push(
                    p,
                    resolution.steps@.take(i as int),
                    resolution.steps@[i as int],
                );
                assert(resolution.steps@.take(i + 1) =~= resolution.steps@.take(i as int).push(
                    resolution.steps@[i as int],
                ));
            }
            current = apply_anchor(current, &resolution.steps[i]);
            i = i + 1;
        }
        proof {
            assert(resolution.steps@.take(resolution.steps@.len() as int) =~= resolution.steps@);
        }
        apply_grid(current, resolution.tile)
    }

    /// The global position of a point of the tile named by a packed
    /// identifier, with the area number of the global frame it lies in. A
    /// point of a tile of a global frame goes onto that tile's grid as it
    /// is. Else the point is carried over the steps by which the tile
    /// resolves, and onto the grid of the tile they end in. The call fails
    /// exactly for a tile that does not resolve.
    pub fn local_to_world_with_global_map(&self, map_id: u32, x: u32, y: u32, z: u32) -> (outcome:
        Result<(u32, u32, u32, u8), TransformError>)
        requires
            self.wf(),
        ensures
            outcome is Ok <==> resolvable(self.graph(), tile_of(map_id)),
            outcome matches Ok(world) ==> {
                let global = world_position(
                    self.graph(),
                    tile_of(map_id),
                    (Position { x, y, z }),
                );
                &&& world.0 == global.x
                &&& world.1 == global.y
                &&& world.2 == global.z
                &&& world.3 == global_tile_of(self.graph(), tile_of(map_id)).area
            },
            outcome matches Err(e) ==> e matches TransformError::UnknownMap(id) && id@
                == map_id_text(map_id),
    {
        match self.resolve(map_id) {
            Ok(resolution) => {
                let global = Self::apply_path_to_global(Position { x, y, z }, &resolution);
                Ok((global.x, global.y, global.z, resolution.tile.area))
            },
            Err(e) => Err(e),
        }
    }

    /// The global position of a point of the tile named by a packed
    /// identifier, without the frame it lies in.
    pub fn local_to_world_first(&self, map_id: u32, x: u32, y: u32, z: u32) -> (outcome: Result<
        (u32, u32, u32),
        TransformError,
    >)
        requires
            self.wf(),
        ensures
            outcome is Ok <==> resolvable(self.graph(), tile_of(map_id)),
            outcome matches Ok(world) ==> {
                let global = world_position(
                    self.graph(),
                    tile_of(map_id),
                    (Position { x, y, z }),
                );
                &&& world.0 == global.x
                &&& world.1 == global.y
                &&& world.2 == global.z
            },
            outcome matches Err(e) ==> e matches TransformError::UnknownMap(id) && id@
                == map_id_text(map_id),
    {
        match self.local_to_world_with_global_map(map_id, x, y, z) {
            Ok(world) => Ok((world.0, world.1, world.2)),
            Err(e) => Err(e),
        }
    }
}

} // verus!
