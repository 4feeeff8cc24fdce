//! The breadth-first search for the first of the shortest routes from a
//! tile into a global frame.
//!
//! The search keeps a queue of tiles, each with the chain by which it was
//! reached. Tiles leave the queue in the order in which they entered it;
//! a tile enters it when an anchor of the tile at its head leads to it
//! and it was not in the queue before. The search ends with the first
//! anchor that leads into a global frame.

use vstd::prelude::*;
use crate::graph::{
    destination,
    distinct_keys,
    edges,
    has_key,
    leads_to_global,
    lemma_slot_unique,
    slot,
    Anchor,
    AnchorGraph,
    Tile,
};
use crate::map_id::TileKey;
use crate::paths::{chain_of, PathStep, PathToGlobalMap};
use crate::routes::{
    differ_at,
    end_tile,
    first_shortest_route,
    lemma_no_route_without_anchors,
    local,
    not_after,
    precedes,
    reachable,
    route,
    tile_before,
    walk,
};

verus! {

/// One entry of the search queue: a tile, by its place in the graph, and
/// the chain by which the search came to it.
struct Frontier {
    tile: usize,
    path: Vec<Anchor>,
}

/// Some queue entry is for tile `t`, with a chain of at most `level` steps.
spec fn reached(queue: Seq<Frontier>, t: int, level: int) -> bool {
    exists|q: int| 0 <= q < queue.len() && (#[trigger] queue[q]).tile == t && queue[q].path@.len() <= level
}

/// Some queue entry is for tile `t`.
spec fn queued(queue: Seq<Frontier>, t: int) -> bool {
    exists|q: int| 0 <= q < queue.len() && (#[trigger] queue[q]).tile == t
}

/// The first `upto` anchors of the tile of entry `q` are dealt with: none
/// leads into a global frame, and each destination that the graph holds
/// is in the queue, at most one step further than the entry itself.
#[verifier::opaque]
spec fn expanded(g: Seq<Tile>, queue: Seq<Frontier>, q: int, upto: int) -> bool {
    forall|j: int|
        0 <= j < upto ==> {
            let a = #[trigger] g[queue[q].tile as int].anchors[j];
            &&& !leads_to_global(a)
            &&& has_key(g, destination(a)) ==> reached(
                queue,
                slot(g, destination(a)).unwrap(),
                (queue[q].path@.len() + 1) as int,
            )
        }
}

/// Some queue entry before place `q` is for tile `t`.
spec fn queued_before(queue: Seq<Frontier>, q: int, t: int) -> bool {
    exists|p: int| 0 <= p < q && p < queue.len() && (#[trigger] queue[p]).tile == t
}

/// The chain of entry `q` comes no later than any chain of its length
/// that stays out of the global frames and ends in a tile of the graph
/// that no earlier entry is for.
#[verifier::opaque]
spec fn least(g: Seq<Tile>, start: TileKey, queue: Seq<Frontier>, q: int) -> bool {
    forall|c: Seq<Anchor>|
        #[trigger] walk(g, start, c) && local(c) && c.len() == queue[q].path@.len() && has_key(
            g,
            end_tile(start, c),
        ) && !queued_before(queue, q, slot(g, end_tile(start, c)).unwrap()) ==> not_after(
            g,
            start,
            queue[q].path@,
            c,
        )
}

/// What holds of the queue throughout the search.
#[verifier::opaque]
spec fn search_state(
    g: Seq<Tile>,
    start: TileKey,
    queue: Seq<Frontier>,
    head: int,
    visited: Seq<bool>,
) -> bool {
    &&& visited.len() == g.len()
    &&& 0 <= head <= queue.len()
    &&& queue.len() > 0
    &&& queue[0].path@.len() == 0
    &&& forall|q: int|
        0 <= q < queue.len() ==> {
            &&& (#[trigger] queue[q]).tile < g.len()
            &&& local(queue[q].path@)
            &&& walk(g, start, queue[q].path@)
            &&& end_tile(start, queue[q].path@) == g[queue[q].tile as int].key
        }
    &&& forall|p: int, q: int|
        0 <= p <= q < queue.len() ==> (#[trigger] queue[p]).path@.len() <= (
        #[trigger] queue[q]).path@.len()
    &&& forall|q: int|
        head < queue.len() && 0 <= q < queue.len() ==> (#[trigger] queue[q]).path@.len()
            <= queue[head].path@.len() + 1
    &&& forall|t: int| 0 <= t < g.len() ==> (#[trigger] visited[t] <==> queued(queue, t))
    &&& forall|q: int|
        0 <= q < head ==> expanded(g, queue, q, g[(#[trigger] queue[q]).tile as int].anchors.len() as int)
    &&& forall|p: int, q: int|
        0 <= p < q < queue.len() ==> (#[trigger] queue[p]).tile != (#[trigger] queue[q]).tile
    &&& forall|q: int| 0 <= q < queue.len() ==> #[trigger] least(g, start, queue, q)
}

/// The number of tiles not yet visited.
spec fn unvisited(visited: Seq<bool>) -> nat
    decreases visited.len(),
{
    if visited.len() == 0 {
        0
    } else {
        unvisited(visited.drop_last()) + if visited.last() {
            0nat
        } else {
            1nat
        }
    }
}

/// Visiting a tile leaves one tile less to visit.
proof fn lemma_visit(visited: Seq<bool>, t: int)
    requires
        0 <= t < visited.len(),
        !visited[t],
    ensures
        unvisited(visited.update(t, true)) + 1 == unvisited(visited),
    decreases visited.len(),
{
    let after = visited.update(t, true);
    if t == visited.len() - 1 {
        assert(after.drop_last() =~= visited.drop_last());
    } else {
        assert(after.drop_last() =~= visited.drop_last().update(t, true));
        lemma_visit(visited.drop_last(), t);
    }
}

/// A chain without its last step is a walk, and stays out of the global
/// frames, where the chain does.
proof fn lemma_walk_prefix(g: Seq<Tile>, start: TileKey, chain: Seq<Anchor>)
    requires
        chain.len() > 0,
        walk(g, start, chain),
    ensures
        walk(g, start, chain.drop_last()),
        edges(g, end_tile(start, chain.drop_last())).contains(chain.last()),
        end_tile(start, chain) == destination(chain.last()),
        local(chain) ==> local(chain.drop_last()),
{
    reveal(walk);
    let shorter = chain.drop_last();
    assert forall|i: int| 0 <= i < shorter.len() implies edges(
        g,
        #[trigger] tile_before(start, shorter, i),
    ).contains(shorter[i]) by {
        assert(tile_before(start, shorter, i) == tile_before(start, chain, i));
        assert(shorter[i] == chain[i]);
    }
    let last = chain.len() - 1;
    assert(tile_before(start, chain, last) == end_tile(start, shorter));
    if local(chain) {
        assert forall|i: int| 0 <= i < shorter.len() implies !leads_to_global(
            #[trigger] shorter[i],
        ) by {
            assert(shorter[i] == chain[i]);
        }
    }
}

/// With every queue entry from `head` on holding a chain of at least
/// `level` steps, the tile in which step `i` of a chain of at most
/// `level` steps is taken, or in which the chain ends, is in the queue
/// with a chain of at most `i` steps, as long as the chain stays out of
/// the global frames and the tile is one of the graph.
proof fn lemma_walk_tiles(
    g: Seq<Tile>,
    start: TileKey,
    queue: Seq<Frontier>,
    head: int,
    visited: Seq<bool>,
    level: int,
    chain: Seq<Anchor>,
    i: int,
)
    requires
        distinct_keys(g),
        search_state(g, start, queue, head, visited),
        forall|q: int| head <= q < queue.len() ==> (#[trigger] queue[q]).path@.len() >= level,
        walk(g, start, chain),
        local(chain),
        chain.len() <= level,
        0 <= i <= chain.len(),
        has_key(g, tile_before(start, chain, i)),
    ensures
        reached(queue, slot(g, tile_before(start, chain, i)).unwrap(), i),
    decreases i,
{
    reveal(search_state);
    reveal(expanded);
    reveal(walk);
    let u = tile_before(start, chain, i);
    if i == 0 {
        let t = queue[0].tile as int;
        assert(end_tile(start, queue[0].path@) == g[t].key);
        assert(g[t].key == start);
        lemma_slot_unique(g, t);
        assert(queue[0].tile == t && queue[0].path@.len() <= 0);
    } else {
        let before = tile_before(start, chain, i - 1);
        assert(edges(g, before).contains(chain[i - 1]));
        assert(has_key(g, before));
        lemma_walk_tiles(g, start, queue, head, visited, level, chain, i - 1);
        let t = slot(g, before).unwrap();
        let q = choose|q: int|
            0 <= q < queue.len() && (#[trigger] queue[q]).tile == t && queue[q].path@.len() <= i
                - 1;
        assert(q < head);
        lemma_slot_unique(g, t);
        let j = choose|j: int|
            0 <= j < edges(g, before).len() && edges(g, before)[j] == chain[i - 1];
        assert(expanded(g, queue, q, g[queue[q].tile as int].anchors.len() as int));
        let a = g[queue[q].tile as int].anchors[j];
        assert(a == chain[i - 1]);
        assert(destination(a) == u);
        let n = slot(g, u).unwrap();
        assert(reached(queue, n, (queue[q].path@.len() + 1) as int));
        let r = choose|r: int|
            0 <= r < queue.len() && (#[trigger] queue[r]).tile == n && queue[r].path@.len()
                <= queue[q].path@.len() + 1;
        assert(queue[r].tile == n && queue[r].path@.len() <= i);
    }
}

/// The tile in which the last step of a chain is taken is in the queue
/// at `head` or after it, with a chain of exactly one step less, if the
/// chain has one step more than the chain at `head`, stays out of the
/// global frames before its last step, and its last step is one that no
/// tile before `head` has: one that leads into a global frame, or to a
/// tile of the graph that is not in the queue.
proof fn lemma_last_tile(
    g: Seq<Tile>,
    start: TileKey,
    queue: Seq<Frontier>,
    head: int,
    visited: Seq<bool>,
    chain: Seq<Anchor>,
) -> (place: int)
    requires
        distinct_keys(g),
        search_state(g, start, queue, head, visited),
        head < queue.len(),
        chain.len() == queue[head].path@.len() + 1,
        walk(g, start, chain),
        local(chain.drop_last()),
        leads_to_global(chain.last()) || (has_key(g, destination(chain.last())) && !queued(
            queue,
            slot(g, destination(chain.last())).unwrap(),
        )),
    ensures
        head <= place < queue.len(),
        g[queue[place].tile as int].key == end_tile(start, chain.drop_last()),
        queue[place].path@.len() == chain.len() - 1,
        edges(g, end_tile(start, chain.drop_last())) == g[queue[place].tile as int].anchors,
        not_after(g, start, queue[head].path@, chain.drop_last()),
{
    let shorter = chain.drop_last();
    let b = chain.last();
    let level = queue[head].path@.len() as int;
    lemma_walk_prefix(g, start, chain);
    let u = end_tile(start, shorter);
    assert(has_key(g, u));
    assert(forall|q: int| head <= q < queue.len() ==> (#[trigger] queue[q]).path@.len() >= level)
        by {
        reveal(search_state);
    }
    lemma_walk_tiles(g, start, queue, head, visited, level, shorter, shorter.len() as int);
    let t = slot(g, u).unwrap();
    let place = choose|q: int|
        0 <= q < queue.len() && (#[trigger] queue[q]).tile == t && queue[q].path@.len()
            <= shorter.len();
    lemma_slot_unique(g, t);
    let j = choose|j: int| 0 <= j < edges(g, u).len() && edges(g, u)[j] == b;
    reveal(search_state);
    if place < head {
        reveal(expanded);
        assert(expanded(g, queue, place, g[queue[place].tile as int].anchors.len() as int));
        let a = g[queue[place].tile as int].anchors[j];
        assert(a == b);
        assert(!leads_to_global(a));
        let n = slot(g, destination(b)).unwrap();
        assert(reached(queue, n, (queue[place].path@.len() + 1) as int));
        let r = choose|r: int|
            0 <= r < queue.len() && (#[trigger] queue[r]).tile == n && queue[r].path@.len()
                <= queue[place].path@.len() + 1;
        assert(queued(queue, n));
    }
    assert(queue[head].path@.len() <= queue[place].path@.len());
    assert(least(g, start, queue, head));
    reveal(least);
    if queued_before(queue, head, t) {
        let p = choose|p: int| 0 <= p < head && p < queue.len() && (#[trigger] queue[p]).tile == t;
        assert(queue[p].tile != queue[place].tile);
    }
    place
}

/// Two chains of the same length that differ keep their order when each
/// gets one more step.
proof fn lemma_not_after_longer(
    g: Seq<Tile>,
    start: TileKey,
    c: Seq<Anchor>,
    d: Seq<Anchor>,
    a: Anchor,
    b: Anchor,
)
    requires
        not_after(g, start, c, d),
        c.len() == d.len(),
        c != d,
    ensures
        not_after(g, start, c.push(a), d.push(b)),
{
    let i = choose|i: int| #[trigger] differ_at(g, start, c, d, i);
    assert(c.push(a).take(i) =~= c.take(i));
    assert(d.push(b).take(i) =~= d.take(i));
    assert(tile_before(start, c.push(a), i) == tile_before(start, c, i));
    assert(differ_at(g, start, c.push(a), d.push(b), i));
}

/// A chain with one more step comes no later than the chain with
/// another step in its place, if its step comes no later in the list of
/// the tile in which the chain ends.
proof fn lemma_not_after_last(
    g: Seq<Tile>,
    start: TileKey,
    c: Seq<Anchor>,
    a: Anchor,
    b: Anchor,
)
    requires
        precedes(edges(g, end_tile(start, c)), a, b),
    ensures
        not_after(g, start, c.push(a), c.push(b)),
{
    if a != b {
        let i = c.len() as int;
        assert(c.push(a).take(i) =~= c.push(b).take(i));
        assert(tile_before(start, c.push(a), i) == end_tile(start, c));
        assert(differ_at(g, start, c.push(a), c.push(b), i));
    }
}

/// The chain at `head`, with the anchor at place `j` of its tile's list
/// as one more step, comes no later than any chain of that length that
/// ends with a step which no tile before `head` has and which does not
/// stand before place `j` in the list of the tile at `head`.
proof fn lemma_next_is_least(
    g: Seq<Tile>,
    start: TileKey,
    queue: Seq<Frontier>,
    head: int,
    visited: Seq<bool>,
    j: int,
    chain: Seq<Anchor>,
)
    requires
        distinct_keys(g),
        search_state(g, start, queue, head, visited),
        head < queue.len(),
        0 <= j < g[queue[head].tile as int].anchors.len(),
        chain.len() == queue[head].path@.len() + 1,
        walk(g, start, chain),
        local(chain.drop_last()),
        leads_to_global(chain.last()) || (has_key(g, destination(chain.last())) && !queued(
            queue,
            slot(g, destination(chain.last())).unwrap(),
        )),
        forall|x: int| 0 <= x < j ==> g[queue[head].tile as int].anchors[x] != chain.last(),
    ensures
        not_after(
            g,
            start,
            queue[head].path@.push(g[queue[head].tile as int].anchors[j]),
            chain,
        ),
{
    let shorter = chain.drop_last();
    let b = chain.last();
    let list = g[queue[head].tile as int].anchors;
    let a = list[j];
    let path = queue[head].path@;
    let place = lemma_last_tile(g, start, queue, head, visited, chain);
    assert(shorter.push(b) =~= chain);
    if path == shorter {
        assert(queue[head].tile < g.len() && g[queue[head].tile as int].key == end_tile(
            start,
            path,
        )) by {
            reveal(search_state);
        }
        lemma_slot_unique(g, queue[head].tile as int);
        assert(edges(g, end_tile(start, path)) == list);
        assert(precedes(list, a, b));
        lemma_not_after_last(g, start, path, a, b);
    } else {
        lemma_not_after_longer(g, start, path, shorter, a, b);
    }
}

/// A route of one step more than the chain at `head` comes no earlier
/// than that chain with the first anchor of its tile that leads into a
/// global frame.
proof fn lemma_found_is_first(
    g: Seq<Tile>,
    start: TileKey,
    queue: Seq<Frontier>,
    head: int,
    visited: Seq<bool>,
    j: int,
    other: Seq<Anchor>,
)
    requires
        distinct_keys(g),
        search_state(g, start, queue, head, visited),
        head < queue.len(),
        0 <= j < g[queue[head].tile as int].anchors.len(),
        expanded(g, queue, head, j),
        route(g, start, other),
        other.len() == queue[head].path@.len() + 1,
    ensures
        not_after(
            g,
            start,
            queue[head].path@.push(g[queue[head].tile as int].anchors[j]),
            other,
        ),
{
    assert forall|x: int| 0 <= x < j implies g[queue[head].tile as int].anchors[x]
        != other.last() by {
        reveal(expanded);
        assert(!leads_to_global(g[queue[head].tile as int].anchors[x]));
    }
    lemma_next_is_least(g, start, queue, head, visited, j, other);
}

/// With the search in the given state, and every queue entry from `head`
/// on holding a chain of at least `level` steps, no route has `level`
/// steps or fewer: the tile in which its last step is taken would be in
/// the queue before `head`, where no anchor leads into a global frame.
proof fn lemma_no_short_route(
    g: Seq<Tile>,
    start: TileKey,
    queue: Seq<Frontier>,
    head: int,
    visited: Seq<bool>,
    level: int,
    chain: Seq<Anchor>,
)
    requires
        distinct_keys(g),
        search_state(g, start, queue, head, visited),
        forall|q: int| head <= q < queue.len() ==> (#[trigger] queue[q]).path@.len() >= level,
        route(g, start, chain),
    ensures
        chain.len() > level,
{
    if chain.len() <= level {
        let shorter = chain.drop_last();
        lemma_walk_prefix(g, start, chain);
        let u = end_tile(start, shorter);
        assert(has_key(g, u));
        lemma_walk_tiles(g, start, queue, head, visited, level, shorter, shorter.len() as int);
        let t = slot(g, u).unwrap();
        let q = choose|q: int|
            0 <= q < queue.len() && (#[trigger] queue[q]).tile == t && queue[q].path@.len()
                <= shorter.len();
        assert(q < head);
        lemma_slot_unique(g, t);
        let j = choose|j: int| 0 <= j < edges(g, u).len() && edges(g, u)[j] == chain.last();
        reveal(search_state);
        reveal(expanded);
        assert(expanded(g, queue, q, g[queue[q].tile as int].anchors.len() as int));
        assert(!leads_to_global(g[queue[q].tile as int].anchors[j]));
    }
}

/// Entering a tile that was not visited, by the anchor at place `upto`
/// of the list of the entry at `head`, keeps the state of the search and
/// what is already dealt with.
proof fn lemma_push(
    g: Seq<Tile>,
    start: TileKey,
    queue: Seq<Frontier>,
    head: int,
    visited: Seq<bool>,
    upto: int,
    entry: Frontier,
)
    requires
        distinct_keys(g),
        search_state(g, start, queue, head, visited),
        head < queue.len(),
        expanded(g, queue, head, upto),
        0 <= upto < g[queue[head].tile as int].anchors.len(),
        entry.path@ == queue[head].path@.push(g[queue[head].tile as int].anchors[upto]),
        entry.tile < g.len(),
        !visited[entry.tile as int],
        local(entry.path@),
        walk(g, start, entry.path@),
        end_tile(start, entry.path@) == g[entry.tile as int].key,
    ensures
        search_state(g, start, queue.push(entry), head, visited.update(entry.tile as int, true)),
        expanded(g, queue.push(entry), head, upto),
        reached(queue.push(entry), entry.tile as int, (queue[head].path@.len() + 1) as int),
{
    let longer = queue.push(entry);
    let seen = visited.update(entry.tile as int, true);
    let last = queue.len() as int;
    let list = g[queue[head].tile as int].anchors;
    assert(longer[last] == entry);
    assert(forall|q: int| 0 <= q < queue.len() ==> longer[q] == queue[q]);
    assert(!queued(queue, entry.tile as int)) by {
        reveal(search_state);
    }
    assert forall|c: Seq<Anchor>|
        #[trigger] walk(g, start, c) && local(c) && c.len() == entry.path@.len() && has_key(
            g,
            end_tile(start, c),
        ) && !queued_before(longer, last, slot(g, end_tile(start, c)).unwrap()) implies not_after(
        g,
        start,
        entry.path@,
        c,
    ) by {
        let t = slot(g, end_tile(start, c)).unwrap();
        lemma_walk_prefix(g, start, c);
        if queued(queue, t) {
            let q = choose|q: int| 0 <= q < queue.len() && (#[trigger] queue[q]).tile == t;
            assert(longer[q].tile == t);
            assert(queued_before(longer, last, t));
        }
        assert forall|x: int| 0 <= x < upto implies list[x] != c.last() by {
            reveal(expanded);
            let a = g[queue[head].tile as int].anchors[x];
            if a == c.last() {
                assert(reached(queue, t, (queue[head].path@.len() + 1) as int));
                let r = choose|r: int|
                    0 <= r < queue.len() && (#[trigger] queue[r]).tile == t && queue[r].path@.len()
                        <= queue[head].path@.len() + 1;
                assert(queued(queue, t));
            }
        }
        lemma_next_is_least(g, start, queue, head, visited, upto, c);
    }
    assert(least(g, start, longer, last)) by {
        reveal(least);
    }
    reveal(search_state);
    reveal(expanded);
    assert forall|q: int| 0 <= q < longer.len() implies #[trigger] least(g, start, longer, q) by {
        if q < last {
            assert(least(g, start, queue, q));
            reveal(least);
            assert forall|c: Seq<Anchor>|
                #[trigger] walk(g, start, c) && local(c) && c.len() == longer[q].path@.len()
                    && has_key(g, end_tile(start, c)) && !queued_before(
                    longer,
                    q,
                    slot(g, end_tile(start, c)).unwrap(),
                ) implies not_after(g, start, longer[q].path@, c) by {
                let t = slot(g, end_tile(start, c)).unwrap();
                if queued_before(queue, q, t) {
                    let x = choose|x: int|
                        0 <= x < q && x < queue.len() && (#[trigger] queue[x]).tile == t;
                    assert(longer[x].tile == t);
                }
            }
        }
    }
    assert forall|x: int, y: int| 0 <= x < y < longer.len() implies (#[trigger] longer[x]).tile != (
    #[trigger] longer[y]).tile by {
        if y == last {
            assert(queue[x].tile != entry.tile);
        } else {
            assert(queue[x].tile != queue[y].tile);
        }
    }
    assert forall|t: int, level: int| reached(queue, t, level) implies reached(
        longer,
        t,
        level,
    ) by {
        let q = choose|q: int|
            0 <= q < queue.len() && (#[trigger] queue[q]).tile == t && queue[q].path@.len()
                <= level;
        assert(longer[q].tile == t);
    }
    assert forall|t: int| 0 <= t < g.len() implies (#[trigger] seen[t] <==> queued(longer, t)) by {
        if t == entry.tile {
            assert(longer[last].tile == t);
        } else {
            if queued(queue, t) {
                let q = choose|q: int| 0 <= q < queue.len() && (#[trigger] queue[q]).tile == t;
                assert(longer[q].tile == t);
            }
            if queued(longer, t) {
                let q = choose|q: int| 0 <= q < longer.len() && (#[trigger] longer[q]).tile == t;
                assert(queue[q].tile == t);
            }
        }
    }
    assert forall|q: int| 0 <= q < head implies expanded(
        g,
        longer,
        q,
        g[(#[trigger] longer[q]).tile as int].anchors.len() as int,
    ) by {
        assert(expanded(g, queue, q, g[queue[q].tile as int].anchors.len() as int));
    }
    assert(expanded(g, longer, head, upto));
    assert forall|p: int, q: int| 0 <= p <= q < longer.len() implies (#[trigger] longer[p]).path@.len()
        <= (#[trigger] longer[q]).path@.len() by {
        if q == last && p < last {
            assert(queue[p].path@.len() <= queue[head].path@.len() + 1);
        } else if q < last {
            assert(queue[p].path@.len() <= queue[q].path@.len());
        }
    }
    assert forall|q: int| 0 <= q < longer.len() implies (#[trigger] longer[q]).path@.len()
        <= longer[head].path@.len() + 1 by {
        if q < last {
            assert(queue[q].path@.len() <= queue[head].path@.len() + 1);
        }
    }
    assert(longer[last].tile == entry.tile && longer[last].path@.len() <= queue[head].path@.len()
        + 1);
}

/// A tile that is already visited is in the queue, at most one step
/// further than the entry at `head`.
proof fn lemma_seen(
    g: Seq<Tile>,
    start: TileKey,
    queue: Seq<Frontier>,
    head: int,
    visited: Seq<bool>,
    t: int,
)
    requires
        search_state(g, start, queue, head, visited),
        head < queue.len(),
        0 <= t < g.len(),
        visited[t],
    ensures
        reached(queue, t, (queue[head].path@.len() + 1) as int),
{
    reveal(search_state);
    assert(queued(queue, t));
    let q = choose|q: int| 0 <= q < queue.len() && (#[trigger] queue[q]).tile == t;
    assert(queue[q].path@.len() <= queue[head].path@.len() + 1);
}

/// Once all anchors of the entry at `head` are dealt with, the search
/// goes on with the next entry.
proof fn lemma_advance(
    g: Seq<Tile>,
    start: TileKey,
    queue: Seq<Frontier>,
    head: int,
    visited: Seq<bool>,
)
    requires
        search_state(g, start, queue, head, visited),
        head < queue.len(),
        expanded(g, queue, head, g[queue[head].tile as int].anchors.len() as int),
    ensures
        search_state(g, start, queue, head + 1, visited),
{
    reveal(expanded);
    reveal(search_state);
    assert forall|q: int| head + 1 < queue.len() && 0 <= q < queue.len() implies (
    #[trigger] queue[q]).path@.len() <= queue[head + 1].path@.len() + 1 by {
        assert(queue[q].path@.len() <= queue[head].path@.len() + 1);
        assert(queue[head].path@.len() <= queue[head + 1].path@.len());
    }
}

/// A copy of `path` with one more anchor at its end.
fn extended(path: &Vec<Anchor>, a: Anchor) -> (longer: Vec<Anchor>)
    ensures
        longer@ == path@.push(a),
{
    let mut longer: Vec<Anchor> = Vec::new();
    let mut i: usize = 0;
    while i < path.len()
        invariant
            i <= path.len(),
            longer@ == path@.take(i as int),
        decreases path.len() - i,
    {
        longer.push(path[i]);
        assert(longer@ =~= path@.take(i + 1));
        i = i + 1;
    }
    assert(path@.take(path.len() as int) =~= path@);
    longer.push(a);
    longer
}

/// The chain as a path: one step per anchor.
fn as_steps(chain: &Vec<Anchor>) -> (steps: Vec<PathStep>)
    ensures
        chain_of(steps@) == chain@,
{
    let mut steps: Vec<PathStep> = Vec::new();
    let mut i: usize = 0;
    while i < chain.len()
        invariant
            i <= chain.len(),
            steps@.len() == i,
            forall|k: int| 0 <= k < i ==> (#[trigger] steps@[k]).anchor == chain@[k],
        decreases chain.len() - i,
    {
        steps.push(PathStep { anchor: chain[i] });
        i = i + 1;
    }
    assert(chain_of(steps@) =~= chain@);
    steps
}

/// One more step at the end of a chain that stays out of the global
/// frames: the longer chain is a walk, and a route if the step leads into
/// a global frame, else again a chain that stays out of them.
proof fn lemma_step(g: Seq<Tile>, start: TileKey, path: Seq<Anchor>, a: Anchor)
    requires
        walk(g, start, path),
        local(path),
        edges(g, end_tile(start, path)).contains(a),
    ensures
        walk(g, start, path.push(a)),
        end_tile(start, path.push(a)) == destination(a),
        leads_to_global(a) ==> route(g, start, path.push(a)),
        !leads_to_global(a) ==> local(path.push(a)),
{
    reveal(walk);
    let longer = path.push(a);
    assert(longer.drop_last() =~= path);
    assert forall|i: int| 0 <= i < longer.len() implies edges(
        g,
        #[trigger] tile_before(start, longer, i),
    ).contains(longer[i]) by {
        if i < path.len() {
            assert(longer[i] == path[i]);
            assert(tile_before(start, longer, i) == tile_before(start, path, i));
        } else {
            assert(tile_before(start, longer, i) == end_tile(start, path));
        }
    }
    if !leads_to_global(a) {
        assert forall|i: int| 0 <= i < longer.len() implies !leads_to_global(
            #[trigger] longer[i],
        ) by {
            if i < path.len() {
                assert(longer[i] == path[i]);
            }
        }
    }
}

/// What the state of the search says of one queue entry.
proof fn lemma_entry(
    g: Seq<Tile>,
    start: TileKey,
    queue: Seq<Frontier>,
    head: int,
    visited: Seq<bool>,
    q: int,
)
    requires
        search_state(g, start, queue, head, visited),
        0 <= q < queue.len(),
    ensures
        visited.len() == g.len(),
        0 <= head <= queue.len(),
        queue[q].tile < g.len(),
        local(queue[q].path@),
        walk(g, start, queue[q].path@),
        end_tile(start, queue[q].path@) == g[queue[q].tile as int].key,
        forall|r: int| q <= r < queue.len() ==> queue[q].path@.len() <= (#[trigger] queue[r]).path@.len(),
{
    reveal(search_state);
}

/// The state in which the search starts: the start tile alone in the
/// queue, visited, with the empty chain.
proof fn lemma_begin(g: Seq<Tile>, start: TileKey, queue: Seq<Frontier>, visited: Seq<bool>)
    requires
        queue.len() == 1,
        queue[0].tile < g.len(),
        queue[0].path@.len() == 0,
        g[queue[0].tile as int].key == start,
        visited.len() == g.len(),
        forall|t: int| 0 <= t < g.len() ==> (#[trigger] visited[t] <==> t == queue[0].tile),
    ensures
        search_state(g, start, queue, 0, visited),
{
    assert(least(g, start, queue, 0)) by {
        reveal(least);
        assert forall|c: Seq<Anchor>|
            #[trigger] walk(g, start, c) && c.len() == queue[0].path@.len() implies not_after(
            g,
            start,
            queue[0].path@,
            c,
        ) by {
            assert(c =~= queue[0].path@);
        }
    }
    reveal(search_state);
    reveal(walk);
    assert forall|t: int| 0 <= t < g.len() implies (#[trigger] visited[t] <==> queued(queue, t)) by {
        if t == queue[0].tile {
            assert(queue[0].tile == t);
        }
        if queued(queue, t) {
            let q = choose|q: int| 0 <= q < queue.len() && (#[trigger] queue[q]).tile == t;
            assert(q == 0);
        }
    }
}

/// Nothing is dealt with before the first anchor.
proof fn lemma_expanded_none(g: Seq<Tile>, queue: Seq<Frontier>, q: int)
    ensures
        expanded(g, queue, q, 0),
{
    reveal(expanded);
}

/// One more anchor of the entry at `head` is dealt with.
proof fn lemma_expanded_next(g: Seq<Tile>, queue: Seq<Frontier>, head: int, j: int)
    requires
        0 <= head < queue.len(),
        0 <= j < g[queue[head].tile as int].anchors.len(),
        expanded(g, queue, head, j),
        !leads_to_global(g[queue[head].tile as int].anchors[j]),
        has_key(g, destination(g[queue[head].tile as int].anchors[j])) ==> reached(
            queue,
            slot(g, destination(g[queue[head].tile as int].anchors[j])).unwrap(),
            (queue[head].path@.len() + 1) as int,
        ),
    ensures
        expanded(g, queue, head, j + 1),
{
    reveal(expanded);
}

/// For each anchor of one tile, the place of the tile it leads to, if the
/// graph holds that tile.
pub open spec fn places_found(g: Seq<Tile>, list: Seq<Anchor>, found: Seq<Option<usize>>) -> bool {
    &&& found.len() == list.len()
    &&& forall|j: int|
        0 <= j < list.len() ==> slot(g, destination(list[j])) == match #[trigger] found[j] {
            Some(m) => Some(m as int),
            None => None::<int>,
        }
}

/// For each anchor of the graph, the place of the tile it leads to.
pub open spec fn destinations_found(g: Seq<Tile>, table: Seq<Vec<Option<usize>>>) -> bool {
    &&& table.len() == g.len()
    &&& forall|t: int| 0 <= t < g.len() ==> places_found(g, g[t].anchors, (#[trigger] table[t])@)
}

/// Looks up, once for the whole graph, the place of the tile that each
/// anchor leads to.
pub fn find_destinations(graph: &AnchorGraph) -> (table: Vec<Vec<Option<usize>>>)
    requires
        graph.wf(),
    ensures
        destinations_found(graph@, table@),
{
    let ghost g = graph@;
    let n = graph.map_count();
    let mut table: Vec<Vec<Option<usize>>> = Vec::new();
    let mut t: usize = 0;
    while t < n
        invariant
            graph.wf(),
            g == graph@,
            n == g.len(),
            t <= n,
            table@.len() == t,
            forall|x: int| 0 <= x < t ==> places_found(g, g[x].anchors, (#[trigger] table@[x])@),
        decreases n - t,
    {
        let list = graph.anchors_at(t);
        let mut found: Vec<Option<usize>> = Vec::new();
        let mut j: usize = 0;
        while j < list.len()
            invariant
                graph.wf(),
                g == graph@,
                j <= list.len(),
                found@.len() == j,
                forall|x: int|
                    0 <= x < j ==> slot(g, destination(list@[x])) == match #[trigger] found@[x] {
                        Some(m) => Some(m as int),
                        None => None::<int>,
                    },
            decreases list.len() - j,
        {
            let place = graph.position(list[j].destination());
            found.push(place);
            j = j + 1;
        }
        table.push(found);
        t = t + 1;
    }
    table
}

/// Searches the graph breadth first for a chain of anchors from `start`
/// into a global frame. The chain found has the fewest steps that any
/// such chain has, and is the first of those in the order of the lists;
/// there is none exactly when the search finds none.
pub fn bfs_find_path_to_global(start: TileKey, graph: &AnchorGraph) -> (found: Option<
    PathToGlobalMap,
>)
    requires
        graph.wf(),
    ensures
        found is Some <==> reachable(graph@, start),
        found matches Some(path) ==> first_shortest_route(graph@, start, path@)
            && path.final_global_tile == end_tile(start, path@),
{
    match graph.position(start) {
        Some(origin) => {
            let table = find_destinations(graph);
            search_from(origin, graph, &table)
        },
        None => {
            proof {
                lemma_no_route_without_anchors(graph@, start);
            }
            None
        },
    }
}

/// The search from the tile at place `origin`, with the places of all
/// destinations looked up beforehand.
pub fn search_from(origin: usize, graph: &AnchorGraph, table: &Vec<Vec<Option<usize>>>) -> (found:
    Option<PathToGlobalMap>)
    requires
        graph.wf(),
        origin < graph@.len(),
        destinations_found(graph@, table@),
    ensures
        found is Some <==> reachable(graph@, graph@[origin as int].key),
        found matches Some(path) ==> first_shortest_route(
            graph@,
            graph@[origin as int].key,
            path@,
        ) && path.final_global_tile == end_tile(graph@[origin as int].key, path@),
{
    let ghost g = graph@;
    let ghost start = g[origin as int].key;
    let n = graph.map_count();
    let mut visited: Vec<bool> = Vec::new();
    let mut v: usize = 0;
    while v < n
        invariant
            v <= n,
            visited@.len() == v,
            forall|t: int| 0 <= t < v ==> !(#[trigger] visited@[t]),
        decreases n - v,
    {
        visited.push(false);
        v = v + 1;
    }
    visited.set(origin, true);
    let mut queue: Vec<Frontier> = Vec::new();
    queue.push(Frontier { tile: origin, path: Vec::new() });
    let mut head: usize = 0;
    proof {
        lemma_begin(g, start, queue@, visited@);
    }
    while head < queue.len()
        invariant
            graph.wf(),
            g == graph@,
            origin < g.len(),
            start == g[origin as int].key,
            destinations_found(g, table@),
            search_state(g, start, queue@, head as int, visited@),
        decreases unvisited(visited@) + queue.len() - head,
    {
        proof {
            lemma_entry(g, start, queue@, head as int, visited@, head as int);
            lemma_expanded_none(g, queue@, head as int);
        }
        let tile = queue[head].tile;
        let list = graph.anchors_at(tile);
        let places = &table[tile];
        let ghost level = queue@[head as int].path@.len();
        let ghost key = g[tile as int].key;
        let ghost before = queue@[head as int].path@;
        let ghost budget = unvisited(visited@) + queue.len();
        proof {
            lemma_slot_unique(g, tile as int);
        }
        let mut j: usize = 0;
        while j < list.len()
            invariant
                graph.wf(),
                g == graph@,
                origin < g.len(),
                start == g[origin as int].key,
                head < queue.len(),
                j <= list.len(),
                tile < g.len(),
                tile == queue@[head as int].tile,
                before == queue@[head as int].path@,
                level == before.len(),
                key == g[tile as int].key,
                list@ == g[tile as int].anchors,
                places_found(g, list@, places@),
                edges(g, key) == list@,
                end_tile(start, before) == key,
                walk(g, start, before),
                local(before),
                visited@.len() == g.len(),
                unvisited(visited@) + queue.len() == budget,
                search_state(g, start, queue@, head as int, visited@),
                expanded(g, queue@, head as int, j as int),
            decreases list.len() - j,
        {
            let a = list[j];
            let next = a.destination();
            proof {
                assert(list@[j as int] == a);
                lemma_step(g, start, before, a);
            }
            if a.leads_to_global() {
                let chain = extended(&queue[head].path, a);
                proof {
                    assert forall|other: Seq<Anchor>| #[trigger]
                        route(g, start, other) implies chain@.len() <= other.len() by {
                        lemma_entry(g, start, queue@, head as int, visited@, head as int);
                        lemma_no_short_route(
                            g,
                            start,
                            queue@,
                            head as int,
                            visited@,
                            level as int,
                            other,
                        );
                    }
                    assert forall|other: Seq<Anchor>|
                        #[trigger] route(g, start, other) && other.len()
                            == chain@.len() implies not_after(g, start, chain@, other) by {
                        lemma_found_is_first(
                            g,
                            start,
                            queue@,
                            head as int,
                            visited@,
                            j as int,
                            other,
                        );
                    }
                }
                let steps = as_steps(&chain);
                return Some(PathToGlobalMap { steps, final_global_tile: next });
            }
            let ghost old_queue = queue@;
            let ghost old_visited = visited@;
            match places[j] {
                Some(m) => {
                    if !visited[m] {
                        let chain = extended(&queue[head].path, a);
                        visited.set(m, true);
                        queue.push(Frontier { tile: m, path: chain });
                        proof {
                            let entry = queue@[queue@.len() - 1];
                            assert(queue@ =~= old_queue.push(entry));
                            lemma_visit(old_visited, m as int);
                            lemma_push(g, start, old_queue, head as int, old_visited, j as int, entry);
                        }
                    } else {
                        proof {
                            lemma_seen(g, start, queue@, head as int, visited@, m as int);
                        }
                    }
                },
                None => {},
            }
            proof {
                lemma_expanded_next(g, queue@, head as int, j as int);
            }
            j = j + 1;
        }
        proof {
            lemma_advance(g, start, queue@, head as int, visited@);
        }
        head = head + 1;
    }
    proof {
        assert forall|chain: Seq<Anchor>| !route(g, start, chain) by {
            if route(g, start, chain) {
                lemma_no_short_route(
                    g,
                    start,
                    queue@,
                    head as int,
                    visited@,
                    chain.len() as int,
                    chain,
                );
            }
        }
    }
    None
}

} // verus!
