//! Paths into the global frames, computed once for every tile that
//! needs one.

use vstd::prelude::*;
use crate::graph::{edges, has_key, leads_to_global, lemma_slot_unique, slot, Anchor, AnchorGraph, Tile};
use crate::map_id::{is_global_area, TileKey, AREA_PRIMARY, AREA_SECONDARY};
use crate::routes::{end_tile, first_shortest_route, reachable, route, tile_before, walk};
use crate::search::{find_destinations, search_from};

verus! {

/// One step of a chain: the anchor to apply.
#[derive(Clone, Copy, Debug, PartialEq, Eq, Structural)]
pub struct PathStep {
    pub anchor: Anchor,
}

/// A chain of anchors that leads from a tile into a global frame, and the
/// global tile it ends in.
#[derive(Debug)]
pub struct PathToGlobalMap {
    /// The anchors to apply, first to last.
    pub steps: Vec<PathStep>,
    /// The tile of the global frame that the last anchor leads to.
    pub final_global_tile: TileKey,
}

/// The anchors of a sequence of steps.
pub open spec fn chain_of(steps: Seq<PathStep>) -> Seq<Anchor> {
    Seq::new(steps.len(), |i: int| steps[i].anchor)
}

impl View for PathToGlobalMap {
    type V = Seq<Anchor>;

    open spec fn view(&self) -> Seq<Anchor> {
        chain_of(self.steps@)
    }
}

/// Whether some anchor of the list leads straight into a global frame.
pub open spec fn has_direct_global(list: Seq<Anchor>) -> bool {
    exists|i: int| 0 <= i < list.len() && leads_to_global(#[trigger] list[i])
}

/// Whether a tile needs a chain computed for it: it is a tile of the
/// graph, outside the global frames, and none of its anchors leads
/// straight into one.
pub open spec fn needs_path(g: Seq<Tile>, key: TileKey) -> bool {
    has_key(g, key) && !is_global_area(key.area) && !has_direct_global(edges(g, key))
}

/// One entry of the path cache.
pub struct CachedPath {
    pub key: TileKey,
    pub path: PathToGlobalMap,
}

/// The chains computed for a graph, one for each tile that needs one and
/// has one, in the order of the tiles.
pub struct PathCache {
    entries: Vec<CachedPath>,
}

/// The mathematical content of a cache entry.
pub ghost struct Cached {
    pub key: TileKey,
    pub chain: Seq<Anchor>,
    pub final_tile: TileKey,
}

/// Whether the cache has an entry for the key.
pub open spec fn cached(cache: Seq<Cached>, key: TileKey) -> bool {
    exists|c: int| 0 <= c < cache.len() && (#[trigger] cache[c]).key == key
}

/// The cache holds what it should for the first `n` tiles of the graph:
/// its entries are for tiles among those, in the order of the tiles;
/// each is for a tile that needs a path, and holds the first of the
/// shortest routes from it with the tile it ends in; and each of those
/// tiles that needs a path and can reach a global frame has an entry.
pub open spec fn cache_upto(g: Seq<Tile>, cache: Seq<Cached>, n: int) -> bool {
    &&& forall|c: int, d: int|
        0 <= c < d < cache.len() ==> slot(g, (#[trigger] cache[c]).key).unwrap() < slot(
            g,
            (#[trigger] cache[d]).key,
        ).unwrap()
    &&& forall|c: int|
        0 <= c < cache.len() ==> {
            &&& needs_path(g, (#[trigger] cache[c]).key)
            &&& slot(g, cache[c].key).unwrap() < n
            &&& first_shortest_route(g, cache[c].key, cache[c].chain)
            &&& cache[c].final_tile == end_tile(cache[c].key, cache[c].chain)
        }
    &&& forall|t: int|
        0 <= t < n && needs_path(g, (#[trigger] g[t]).key) && reachable(g, g[t].key) ==> cached(
            cache,
            g[t].key,
        )
}

/// The cache is the one that belongs to the graph.
pub open spec fn cache_for(g: Seq<Tile>, cache: Seq<Cached>) -> bool {
    cache_upto(g, cache, g.len() as int)
}

impl View for CachedPath {
    type V = Cached;

    open spec fn view(&self) -> Cached {
        Cached { key: self.key, chain: self.path@, final_tile: self.path.final_global_tile }
    }
}

impl View for PathCache {
    type V = Seq<Cached>;

    closed spec fn view(&self) -> Seq<Cached> {
        Seq::new(self.entries@.len(), |i: int| self.entries@[i]@)
    }
}

impl PathCache {
    /// A cache without entries.
    pub fn new() -> (cache: PathCache)
        ensures
            cache@ == Seq::<Cached>::empty(),
    {
        let cache = PathCache { entries: Vec::new() };
        assert(cache@ =~= Seq::<Cached>::empty());
        cache
    }

    /// The number of cached chains.
    pub fn len(&self) -> (count: usize)
        ensures
            count == self@.len(),
    {
        self.entries.len()
    }

    /// The chain cached for a tile.
    pub fn get(&self, key: TileKey) -> (found: Option<&PathToGlobalMap>)
        ensures
            found is Some <==> cached(self@, key),
            found matches Some(path) ==> exists|c: int|
                0 <= c < self@.len() && (#[trigger] self@[c]).key == key && self@[c].chain == path@
                    && self@[c].final_tile == path.final_global_tile,
    {
        let mut i: usize = 0;
        while i < self.entries.len()
            invariant
                i <= self.entries.len(),
                self@.len() == self.entries.len(),
                forall|c: int| 0 <= c < i ==> (#[trigger] self@[c]).key != key,
            decreases self.entries.len() - i,
        {
            if self.entries[i].key == key {
                assert(self@[i as int].key == key);
                return Some(&self.entries[i].path);
            }
            i = i + 1;
        }
        None
    }

    /// Whether a chain is cached for a tile.
    pub fn contains_key(&self, key: TileKey) -> (present: bool)
        ensures
            present == cached(self@, key),
    {
        self.get(key).is_some()
    }
}

/// For a tile outside the global frames without an anchor straight into
/// one, the cache of the graph has an entry exactly if a global frame can
/// be reached.
pub proof fn lemma_route_needs_cache(g: Seq<Tile>, cache: Seq<Cached>, key: TileKey)
    requires
        crate::graph::distinct_keys(g),
        cache_for(g, cache),
        !is_global_area(key.area),
        !has_direct_global(edges(g, key)),
    ensures
        cached(cache, key) <==> reachable(g, key),
{
    if reachable(g, key) {
        let chain = choose|chain: Seq<Anchor>| route(g, key, chain);
        reveal(walk);
        assert(edges(g, tile_before(key, chain, 0)).contains(chain[0]));
        assert(has_key(g, key));
        let t = slot(g, key).unwrap();
        assert(g[t].key == key);
        assert(cached(cache, g[t].key));
    }
    if cached(cache, key) {
        let c = choose|c: int| 0 <= c < cache.len() && (#[trigger] cache[c]).key == key;
        assert(route(g, key, cache[c].chain));
    }
}

/// The entry that the cache of a graph holds for a tile is a shortest
/// route from that tile, with the tile it ends in.
pub proof fn lemma_cached_route(g: Seq<Tile>, cache: Seq<Cached>, c: int)
    requires
        cache_for(g, cache),
        0 <= c < cache.len(),
    ensures
        first_shortest_route(g, cache[c].key, cache[c].chain),
        cache[c].final_tile == end_tile(cache[c].key, cache[c].chain),
{
}

/// A tile that needs no entry, or can reach no global frame, leaves the
/// cache as it should be for one tile more.
proof fn lemma_cache_skip(g: Seq<Tile>, cache: Seq<Cached>, i: int)
    requires
        cache_upto(g, cache, i),
        0 <= i < g.len(),
        !(needs_path(g, g[i].key) && reachable(g, g[i].key)),
    ensures
        cache_upto(g, cache, i + 1),
{
}

/// An entry for tile `i`, added to a cache that is as it should be for
/// the tiles before it, makes the cache as it should be for one tile more.
proof fn lemma_cache_add(g: Seq<Tile>, cache: Seq<Cached>, i: int, entry: Cached)
    requires
        crate::graph::distinct_keys(g),
        cache_upto(g, cache, i),
        0 <= i < g.len(),
        entry.key == g[i].key,
        needs_path(g, entry.key),
        first_shortest_route(g, entry.key, entry.chain),
        entry.final_tile == end_tile(entry.key, entry.chain),
    ensures
        cache_upto(g, cache.push(entry), i + 1),
{
    let longer = cache.push(entry);
    let last = cache.len() as int;
    lemma_slot_unique(g, i);
    assert(forall|c: int| 0 <= c < cache.len() ==> longer[c] == cache[c]);
    assert(longer[last] == entry);
    assert forall|c: int, d: int| 0 <= c < d < longer.len() implies slot(
        g,
        (#[trigger] longer[c]).key,
    ).unwrap() < slot(g, (#[trigger] longer[d]).key).unwrap() by {
        if d == last {
            assert(slot(g, cache[c].key).unwrap() < i);
        } else {
            assert(slot(g, cache[c].key).unwrap() < slot(g, cache[d].key).unwrap());
        }
    }
    assert forall|c: int| 0 <= c < longer.len() implies {
        &&& needs_path(g, (#[trigger] longer[c]).key)
        &&& slot(g, longer[c].key).unwrap() < i + 1
        &&& first_shortest_route(g, longer[c].key, longer[c].chain)
        &&& longer[c].final_tile == end_tile(longer[c].key, longer[c].chain)
    } by {
        if c < last {
            assert(needs_path(g, cache[c].key));
        }
    }
    assert forall|t: int|
        0 <= t < i + 1 && needs_path(g, (#[trigger] g[t]).key) && reachable(
            g,
            g[t].key,
        ) implies cached(longer, g[t].key) by {
        if t < i {
            assert(cached(cache, g[t].key));
            let c = choose|c: int| 0 <= c < cache.len() && (#[trigger] cache[c]).key == g[t].key;
            assert(longer[c].key == g[t].key);
        } else {
            assert(longer[last].key == g[t].key);
        }
    }
}

/// Whether some anchor of the list leads straight into a global frame.
fn leads_out(list: &Vec<Anchor>) -> (direct: bool)
    ensures
        direct == has_direct_global(list@),
{
    let mut i: usize = 0;
    while i < list.len()
        invariant
            i <= list.len(),
            forall|k: int| 0 <= k < i ==> !leads_to_global(#[trigger] list@[k]),
        decreases list.len() - i,
    {
        if list[i].leads_to_global() {
            return true;
        }
        i = i + 1;
    }
    false
}

/// Computes, for every tile of the graph that lies outside the global
/// frames and has no anchor straight into one, a shortest chain into a
/// global frame. A tile from which no global frame can be reached gets no
/// entry.
pub fn precompute_paths_to_global(graph: &AnchorGraph) -> (cache: PathCache)
    requires
        graph.wf(),
    ensures
        cache_for(graph@, cache@),
{
    let ghost g = graph@;
    let mut cache = PathCache::new();
    let table = find_destinations(graph);
    let n = graph.map_count();
    let mut i: usize = 0;
    while i < n
        invariant
            graph.wf(),
            g == graph@,
            n == g.len(),
            i <= n,
            crate::search::destinations_found(g, table@),
            cache_upto(g, cache@, i as int),
        decreases n - i,
    {
        let key = graph.key_at(i);
        let ghost old_cache = cache@;
        proof {
            lemma_slot_unique(g, i as int);
        }
        let global: bool = key.area == AREA_PRIMARY || key.area == AREA_SECONDARY;
        let direct: bool = leads_out(graph.anchors_at(i));
        let found = if global || direct {
            None
        } else {
            search_from(i, graph, &table)
        };
        match found {
            Some(path) => {
                cache.entries.push(CachedPath { key, path });
                proof {
                    let entry = cache@[cache@.len() - 1];
                    assert(cache@ =~= old_cache.push(entry));
                    lemma_cache_add(g, old_cache, i as int, entry);
                }
            },
            None => {
                proof {
                    lemma_cache_skip(g, old_cache, i as int);
                }
            },
        }
        i = i + 1;
    }
    cache
}

} // verus!
