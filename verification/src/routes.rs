//! Routes: chains of anchors that lead from a tile into a global frame,
//! and the order by which one of the shortest is the first.

use vstd::prelude::*;
use crate::graph::{destination, edges, leads_to_global, Anchor, Tile};
use crate::map_id::{is_global_area, TileKey};

verus! {

/// The tile in which step `i` of a chain is taken: the start for the first
/// step, else the destination of the step before.
pub open spec fn tile_before(start: TileKey, chain: Seq<Anchor>, i: int) -> TileKey {
    if i <= 0 {
        start
    } else {
        destination(chain[i - 1])
    }
}

/// The tile a chain ends in.
pub open spec fn end_tile(start: TileKey, chain: Seq<Anchor>) -> TileKey {
    tile_before(start, chain, chain.len() as int)
}

/// Every step of the chain is an anchor of the tile it is taken in.
#[verifier::opaque]
pub open spec fn walk(g: Seq<Tile>, start: TileKey, chain: Seq<Anchor>) -> bool {
    forall|i: int|
        0 <= i < chain.len() ==> edges(g, #[trigger] tile_before(start, chain, i)).contains(
            chain[i],
        )
}

/// No step of the chain leads into a global frame.
pub open spec fn local(chain: Seq<Anchor>) -> bool {
    forall|i: int| 0 <= i < chain.len() ==> !leads_to_global(#[trigger] chain[i])
}

/// A route from `start`: a chain through the graph whose last step, and
/// no step before it, leads into a global frame.
pub open spec fn route(g: Seq<Tile>, start: TileKey, chain: Seq<Anchor>) -> bool {
    &&& chain.len() > 0
    &&& walk(g, start, chain)
    &&& local(chain.drop_last())
    &&& leads_to_global(chain.last())
}

/// Whether some route leads from `start` into a global frame.
pub open spec fn reachable(g: Seq<Tile>, start: TileKey) -> bool {
    exists|chain: Seq<Anchor>| route(g, start, chain)
}

/// A route with the fewest steps among all routes from `start`.
pub open spec fn shortest_route(g: Seq<Tile>, start: TileKey, chain: Seq<Anchor>) -> bool {
    &&& route(g, start, chain)
    &&& forall|other: Seq<Anchor>| #[trigger] route(g, start, other) ==> chain.len() <= other.len()
}

/// No route leads out of a tile that has no anchors.
pub proof fn lemma_no_route_without_anchors(g: Seq<Tile>, start: TileKey)
    requires
        edges(g, start).len() == 0,
    ensures
        !reachable(g, start),
{
    reveal(walk);
    assert forall|chain: Seq<Anchor>| !route(g, start, chain) by {
        if route(g, start, chain) {
            assert(edges(g, tile_before(start, chain, 0)).contains(chain[0]));
        }
    }
}

/// The last step of a route ends in a tile of a global frame.
pub proof fn lemma_route_ends_global(g: Seq<Tile>, start: TileKey, chain: Seq<Anchor>)
    requires
        route(g, start, chain),
    ensures
        is_global_area(end_tile(start, chain).area),
        end_tile(start, chain) == destination(chain.last()),
{
}

/// A shortest route takes no two of its steps in the same tile: a route
/// that came back to a tile could leave out what lies between.
pub proof fn lemma_shortest_route_acyclic(
    g: Seq<Tile>,
    start: TileKey,
    chain: Seq<Anchor>,
    i: int,
    j: int,
)
    requires
        shortest_route(g, start, chain),
        0 <= i < j < chain.len(),
    ensures
        tile_before(start, chain, i) != tile_before(start, chain, j),
{
    if tile_before(start, chain, i) == tile_before(start, chain, j) {
        reveal(walk);
        let gap = j - i;
        let shorter = chain.take(i) + chain.skip(j);
        assert(shorter.len() == chain.len() - gap);
        assert(forall|x: int| 0 <= x < i ==> shorter[x] == chain[x]);
        assert(forall|x: int| i <= x < shorter.len() ==> shorter[x] == chain[x + gap]);
        assert forall|x: int| 0 <= x < shorter.len() implies edges(
            g,
            #[trigger] tile_before(start, shorter, x),
        ).contains(shorter[x]) by {
            if x < i {
                assert(tile_before(start, shorter, x) == tile_before(start, chain, x));
            } else if x == i {
                assert(tile_before(start, shorter, x) == tile_before(start, chain, i));
                assert(edges(g, tile_before(start, chain, j)).contains(chain[j]));
            } else {
                assert(tile_before(start, shorter, x) == tile_before(start, chain, x + gap));
            }
        }
        assert(walk(g, start, shorter));
        assert(shorter.last() == chain.last());
        assert forall|x: int| 0 <= x < shorter.drop_last().len() implies !leads_to_global(
            #[trigger] shorter.drop_last()[x],
        ) by {
            if x < i {
                assert(shorter.drop_last()[x] == chain.drop_last()[x]);
            } else {
                assert(shorter.drop_last()[x] == chain.drop_last()[x + gap]);
            }
        }
        assert(route(g, start, shorter));
    }
}

/// In the list, `a` comes no later than `b`: `a` stands at a place
/// before which `b` does not occur.
pub open spec fn precedes(list: Seq<Anchor>, a: Anchor, b: Anchor) -> bool {
    exists|i: int|
        0 <= i < list.len() && #[trigger] list[i] == a && forall|j: int|
            0 <= j < i ==> #[trigger] list[j] != b
}

/// The chain `c` comes no later than `d` in the order of the lists: they
/// are the same, or at the first step in which they differ the anchor of
/// `c` comes first in the list of the tile in which that step is taken.
pub open spec fn not_after(g: Seq<Tile>, start: TileKey, c: Seq<Anchor>, d: Seq<Anchor>) -> bool {
    c == d || exists|i: int| #[trigger] differ_at(g, start, c, d, i)
}

/// The chains agree before step `i` and differ in it, and there the
/// anchor of `c` comes first.
pub open spec fn differ_at(
    g: Seq<Tile>,
    start: TileKey,
    c: Seq<Anchor>,
    d: Seq<Anchor>,
    i: int,
) -> bool {
    &&& 0 <= i < c.len()
    &&& i < d.len()
    &&& c.take(i) == d.take(i)
    &&& c[i] != d[i]
    &&& precedes(edges(g, tile_before(start, c, i)), c[i], d[i])
}

/// The route that the search finds: one with the fewest steps, and among
/// those the first in the order of the lists.
pub open spec fn first_shortest_route(g: Seq<Tile>, start: TileKey, chain: Seq<Anchor>) -> bool {
    &&& shortest_route(g, start, chain)
    &&& forall|other: Seq<Anchor>|
        #[trigger] route(g, start, other) && other.len() == chain.len() ==> not_after(
            g,
            start,
            chain,
            other,
        )
}

/// The route from `start` that the search finds, where there is one.
pub open spec fn the_route(g: Seq<Tile>, start: TileKey) -> Seq<Anchor> {
    choose|chain: Seq<Anchor>| first_shortest_route(g, start, chain)
}

/// Of two different anchors, only one comes no later than the other.
pub proof fn lemma_precedes_one_way(list: Seq<Anchor>, a: Anchor, b: Anchor)
    requires
        a != b,
        precedes(list, a, b),
    ensures
        !precedes(list, b, a),
{
    if precedes(list, b, a) {
        let i = choose|i: int|
            0 <= i < list.len() && #[trigger] list[i] == a && forall|j: int|
                0 <= j < i ==> #[trigger] list[j] != b;
        let k = choose|k: int|
            0 <= k < list.len() && #[trigger] list[k] == b && forall|j: int|
                0 <= j < k ==> #[trigger] list[j] != a;
        if i < k {
            assert(list[i] != a);
        } else if k < i {
            assert(list[k] != b);
        }
    }
}

/// There is at most one route that is the first of the shortest: the
/// search can find no other.
pub proof fn lemma_first_shortest_unique(
    g: Seq<Tile>,
    start: TileKey,
    c: Seq<Anchor>,
    d: Seq<Anchor>,
)
    requires
        first_shortest_route(g, start, c),
        first_shortest_route(g, start, d),
    ensures
        c == d,
{
    assert(c.len() == d.len());
    assert(not_after(g, start, c, d));
    assert(not_after(g, start, d, c));
    if c != d {
        let i = choose|i: int| #[trigger] differ_at(g, start, c, d, i);
        let k = choose|k: int| #[trigger] differ_at(g, start, d, c, k);
        if i < k {
            assert(d.take(k)[i] == c.take(k)[i]);
        } else if k < i {
            assert(c.take(i)[k] == d.take(i)[k]);
        } else {
            assert(forall|x: int| 0 <= x < i ==> c.take(i)[x] == d.take(i)[x]);
            assert(tile_before(start, c, i) == tile_before(start, d, i)) by {
                if i > 0 {
                    assert(c.take(i)[i - 1] == d.take(i)[i - 1]);
                }
            }
            lemma_precedes_one_way(edges(g, tile_before(start, c, i)), c[i], d[i]);
        }
    }
}

/// Where the search finds a route, it is the one that `the_route` names.
pub proof fn lemma_the_route(g: Seq<Tile>, start: TileKey, chain: Seq<Anchor>)
    requires
        first_shortest_route(g, start, chain),
    ensures
        the_route(g, start) == chain,
{
    lemma_first_shortest_unique(g, start, the_route(g, start), chain);
}

/// An anchor of a tile that leads into a global frame is a route of one
/// step.
pub proof fn lemma_direct_route(g: Seq<Tile>, key: TileKey, a: Anchor)
    requires
        edges(g, key).contains(a),
        leads_to_global(a),
    ensures
        route(g, key, seq![a]),
        reachable(g, key),
        end_tile(key, seq![a]) == destination(a),
{
    reveal(walk);
    let chain = seq![a];
    assert(chain.drop_last() =~= Seq::<Anchor>::empty());
    assert forall|i: int| 0 <= i < chain.len() implies edges(
        g,
        #[trigger] tile_before(key, chain, i),
    ).contains(chain[i]) by {}
    assert(route(g, key, chain));
}

} // verus!
