//! The anchor graph: for each tile, the alignment records that lead out of
//! it, in the order in which they were added.

use vstd::prelude::*;
use crate::coord::Position;
use crate::tolerance::{position_finite, positions_close, positions_equal};
use crate::map_id::{is_global_area, TileKey, AREA_PRIMARY, AREA_SECONDARY};

verus! {

/// A directed alignment record. It relates a point of its source tile,
/// which is the key it is filed under, to a point of its destination tile.
#[derive(Clone, Copy, Debug, PartialEq, Eq, Structural)]
pub struct Anchor {
    /// The point in the source tile's frame.
    pub src_pos: Position,
    /// Area number of the destination tile.
    pub dst_area_no: u8,
    /// Grid X index of the destination tile.
    pub dst_grid_x: u8,
    /// Grid Z index of the destination tile.
    pub dst_grid_z: u8,
    /// The same point in the destination tile's frame.
    pub dst_pos: Position,
}

/// One tile of the graph with its outgoing anchors.
pub struct TileEntry {
    pub key: TileKey,
    pub anchors: Vec<Anchor>,
}

/// The mathematical content of a tile entry.
pub ghost struct Tile {
    pub key: TileKey,
    pub anchors: Seq<Anchor>,
}

/// A directed multigraph over tile keys. Tiles are kept in the order in
/// which they first received an anchor, and no key occurs twice.
pub struct AnchorGraph {
    tiles: Vec<TileEntry>,
}

/// The tile an anchor leads to.
pub open spec fn destination(a: Anchor) -> TileKey {
    TileKey { area: a.dst_area_no, grid_x: a.dst_grid_x, grid_z: a.dst_grid_z }
}

/// Whether an anchor leads into one of the two global frames.
pub open spec fn leads_to_global(a: Anchor) -> bool {
    is_global_area(a.dst_area_no)
}

/// No key occurs in two tiles.
pub open spec fn distinct_keys(g: Seq<Tile>) -> bool {
    forall|i: int, j: int| 0 <= i < j < g.len() ==> (#[trigger] g[i]).key != (#[trigger] g[j]).key
}

/// Whether some tile of the graph has the key.
pub open spec fn has_key(g: Seq<Tile>, key: TileKey) -> bool {
    exists|i: int| 0 <= i < g.len() && (#[trigger] g[i]).key == key
}

/// The place of the tile with the given key, if there is one.
pub open spec fn slot(g: Seq<Tile>, key: TileKey) -> Option<int> {
    if has_key(g, key) {
        Some(choose|i: int| 0 <= i < g.len() && (#[trigger] g[i]).key == key)
    } else {
        None
    }
}

/// The anchors that lead out of a tile: empty for a key the graph lacks.
pub open spec fn edges(g: Seq<Tile>, key: TileKey) -> Seq<Anchor> {
    match slot(g, key) {
        Some(i) => g[i].anchors,
        None => Seq::empty(),
    }
}

/// The graph with one anchor appended to the list of `key`; a key that is
/// new to the graph gets a tile of its own at the end.
pub open spec fn with_anchor(g: Seq<Tile>, key: TileKey, a: Anchor) -> Seq<Tile> {
    match slot(g, key) {
        Some(i) => g.update(i, Tile { key, anchors: g[i].anchors.push(a) }),
        None => g.push(Tile { key, anchors: seq![a] }),
    }
}

/// The number of anchors in the first `n` tiles.
pub open spec fn anchor_total(g: Seq<Tile>, n: nat) -> nat
    decreases n,
{
    if n == 0 {
        0
    } else {
        anchor_total(g, (n - 1) as nat) + g[n - 1].anchors.len()
    }
}

/// The anchor that undoes `a`, an anchor of the tile `key`: it leads from
/// the destination of `a` back to `key`, with the two points exchanged.
pub open spec fn inverse_of(key: TileKey, a: Anchor) -> Anchor {
    Anchor {
        src_pos: a.dst_pos,
        dst_area_no: key.area,
        dst_grid_x: key.grid_x,
        dst_grid_z: key.grid_z,
        dst_pos: a.src_pos,
    }
}

/// Whether `existing` stands for the same link as `candidate`: the same
/// destination tile, and both points equal within tolerance.
pub open spec fn same_link(existing: Anchor, candidate: Anchor) -> bool {
    &&& destination(existing) == destination(candidate)
    &&& positions_close(existing.src_pos, candidate.src_pos)
    &&& positions_close(existing.dst_pos, candidate.dst_pos)
}

/// Whether a list already holds the link that `candidate` stands for.
pub open spec fn has_link(list: Seq<Anchor>, candidate: Anchor) -> bool {
    exists|i: int| 0 <= i < list.len() && same_link(#[trigger] list[i], candidate)
}

/// The graph after offering one anchor to the list of `key`: it is
/// appended unless the list already holds its link.
pub open spec fn with_link(g: Seq<Tile>, key: TileKey, a: Anchor) -> Seq<Tile> {
    if has_link(edges(g, key), a) {
        g
    } else {
        with_anchor(g, key, a)
    }
}

/// The graph after offering a sequence of keyed anchors, first to last.
pub open spec fn with_links(g: Seq<Tile>, offers: Seq<(TileKey, Anchor)>) -> Seq<Tile>
    decreases offers.len(),
{
    if offers.len() == 0 {
        g
    } else {
        with_link(with_links(g, offers.drop_last()), offers.last().0, offers.last().1)
    }
}

/// The inverses of one tile's anchors, each keyed by the tile it starts
/// from, in list order.
pub open spec fn tile_inverses(t: Tile) -> Seq<(TileKey, Anchor)> {
    Seq::new(t.anchors.len(), |j: int| (destination(t.anchors[j]), inverse_of(t.key, t.anchors[j])))
}

/// The inverses of all anchors of the first `n` tiles, in tile order.
pub open spec fn inverses(g: Seq<Tile>, n: nat) -> Seq<(TileKey, Anchor)>
    decreases n,
{
    if n == 0 {
        Seq::empty()
    } else {
        inverses(g, (n - 1) as nat) + tile_inverses(g[n - 1])
    }
}

/// The graph with the inverse of every anchor offered to it.
pub open spec fn with_inverses(g: Seq<Tile>) -> Seq<Tile> {
    with_links(g, inverses(g, g.len()))
}

/// Whether both points of an anchor are finite on every axis.
pub open spec fn anchor_finite(a: Anchor) -> bool {
    position_finite(a.src_pos) && position_finite(a.dst_pos)
}

/// Whether all anchors of a graph are finite.
pub open spec fn anchors_finite(g: Seq<Tile>) -> bool {
    forall|i: int, j: int|
        0 <= i < g.len() && 0 <= j < g[i].anchors.len() ==> anchor_finite(
            #[trigger] g[i].anchors[j],
        )
}

/// Whether the keyed anchor is the inverse of an anchor of one of the
/// first `n` tiles.
pub open spec fn inverts(g: Seq<Tile>, n: nat, offer: (TileKey, Anchor)) -> bool {
    exists|i: int, j: int|
        0 <= i < n && 0 <= j < g[i].anchors.len() && offer == (
            destination(#[trigger] g[i].anchors[j]),
            inverse_of(g[i].key, g[i].anchors[j]),
        )
}

/// Whether `a` starts `b`.
pub open spec fn starts(a: Seq<Anchor>, b: Seq<Anchor>) -> bool {
    a.len() <= b.len() && forall|j: int| 0 <= j < a.len() ==> #[trigger] b[j] == a[j]
}

/// Whether the keyed anchor occurs among the offers.
pub open spec fn offered(offers: Seq<(TileKey, Anchor)>, key: TileKey, a: Anchor) -> bool {
    exists|m: int| 0 <= m < offers.len() && #[trigger] offers[m] == (key, a)
}

/// In a graph with distinct keys, the tile at place `i` is the one that
/// its key finds.
pub proof fn lemma_slot_unique(g: Seq<Tile>, i: int)
    requires
        distinct_keys(g),
        0 <= i < g.len(),
    ensures
        slot(g, g[i].key) == Some(i),
        edges(g, g[i].key) == g[i].anchors,
{
    let key = g[i].key;
    assert(has_key(g, key));
    let j = choose|j: int| 0 <= j < g.len() && (#[trigger] g[j]).key == key;
    if j != i {
        if j < i {
            assert(g[j].key != g[i].key);
        } else {
            assert(g[i].key != g[j].key);
        }
    }
}

/// Appending an anchor keeps keys distinct, extends the list of its key
/// by that anchor and leaves every other list as it was.
pub proof fn lemma_with_anchor(g: Seq<Tile>, key: TileKey, a: Anchor)
    requires
        distinct_keys(g),
    ensures
        distinct_keys(with_anchor(g, key, a)),
        edges(with_anchor(g, key, a), key) == edges(g, key).push(a),
        forall|other: TileKey|
            other != key ==> #[trigger] edges(with_anchor(g, key, a), other) == edges(g, other),
        forall|other: TileKey|
            #[trigger] has_key(with_anchor(g, key, a), other) <==> (other == key || has_key(
                g,
                other,
            )),
{
    let h = with_anchor(g, key, a);
    match slot(g, key) {
        Some(i) => {
            assert(h.len() == g.len());
            assert forall|x: int| 0 <= x < g.len() implies (#[trigger] h[x]).key == g[x].key by {}
            assert(distinct_keys(h));
            lemma_slot_unique(h, i);
            assert forall|other: TileKey| #[trigger]
                has_key(h, other) <==> (other == key || has_key(g, other)) by {
                if has_key(h, other) {
                    let x = choose|x: int| 0 <= x < h.len() && (#[trigger] h[x]).key == other;
                    assert(g[x].key == other);
                }
                if has_key(g, other) {
                    let x = choose|x: int| 0 <= x < g.len() && (#[trigger] g[x]).key == other;
                    assert(h[x].key == other);
                }
                if other == key {
                    assert(h[i].key == key);
                }
            }
            assert forall|other: TileKey| other != key implies #[trigger] edges(h, other) == edges(
                g,
                other,
            ) by {
                if has_key(g, other) {
                    let x = choose|x: int| 0 <= x < g.len() && (#[trigger] g[x]).key == other;
                    lemma_slot_unique(g, x);
                    assert(h[x].key == other);
                    lemma_slot_unique(h, x);
                } else {
                    assert(!has_key(h, other));
                }
            }
        },
        None => {
            let n = g.len() as int;
            assert forall|x: int, y: int| 0 <= x < y < h.len() implies (#[trigger] h[x]).key != (
            #[trigger] h[y]).key by {
                if y == n {
                    assert(g[x].key != key);
                } else {
                    assert(g[x].key != g[y].key);
                }
            }
            assert(h[n].key == key);
            lemma_slot_unique(h, n);
            assert(edges(g, key).push(a) =~= seq![a]);
            assert forall|other: TileKey| #[trigger]
                has_key(h, other) <==> (other == key || has_key(g, other)) by {
                if has_key(h, other) && other != key {
                    let x = choose|x: int| 0 <= x < h.len() && (#[trigger] h[x]).key == other;
                    assert(g[x].key == other);
                }
                if has_key(g, other) {
                    let x = choose|x: int| 0 <= x < g.len() && (#[trigger] g[x]).key == other;
                    assert(h[x].key == other);
                }
            }
            assert forall|other: TileKey| other != key implies #[trigger] edges(h, other) == edges(
                g,
                other,
            ) by {
                if has_key(g, other) {
                    let x = choose|x: int| 0 <= x < g.len() && (#[trigger] g[x]).key == other;
                    lemma_slot_unique(g, x);
                    assert(h[x].key == other);
                    lemma_slot_unique(h, x);
                } else {
                    assert(!has_key(h, other));
                }
            }
        },
    }
}

/// A finite anchor stands for its own link.
pub proof fn lemma_same_link_reflexive(a: Anchor)
    requires
        anchor_finite(a),
    ensures
        same_link(a, a),
{
    crate::tolerance::lemma_close_reflexive(a.src_pos.x);
    crate::tolerance::lemma_close_reflexive(a.src_pos.y);
    crate::tolerance::lemma_close_reflexive(a.src_pos.z);
    crate::tolerance::lemma_close_reflexive(a.dst_pos.x);
    crate::tolerance::lemma_close_reflexive(a.dst_pos.y);
    crate::tolerance::lemma_close_reflexive(a.dst_pos.z);
}

/// What offering a sequence of anchors does to a graph: keys stay
/// distinct, every list keeps what it had at its front, whatever was
/// appended is one of the offers, and every finite offer finds its link in
/// the result.
pub proof fn lemma_with_links(g: Seq<Tile>, offers: Seq<(TileKey, Anchor)>)
    requires
        distinct_keys(g),
    ensures
        distinct_keys(with_links(g, offers)),
        forall|k: TileKey| starts(#[trigger] edges(g, k), edges(with_links(g, offers), k)),
        forall|k: TileKey, j: int|
            edges(g, k).len() <= j < edges(with_links(g, offers), k).len() ==> offered(
                offers,
                k,
                #[trigger] edges(with_links(g, offers), k)[j],
            ),
        forall|m: int|
            0 <= m < offers.len() && anchor_finite((#[trigger] offers[m]).1) ==> has_link(
                edges(with_links(g, offers), offers[m].0),
                offers[m].1,
            ),
    decreases offers.len(),
{
    let h = with_links(g, offers);
    if offers.len() == 0 {
    } else {
        let before = offers.drop_last();
        let mid = with_links(g, before);
        let key = offers.last().0;
        let a = offers.last().1;
        let last = offers.len() - 1;
        lemma_with_links(g, before);
        assert(forall|m: int| 0 <= m < before.len() ==> before[m] == offers[m]);
        assert forall|k: TileKey, b: Anchor| offered(before, k, b) implies offered(offers, k, b) by {
            let m = choose|m: int| 0 <= m < before.len() && #[trigger] before[m] == (k, b);
            assert(offers[m] == (k, b));
        }
        if has_link(edges(mid, key), a) {
            assert(h == mid);
            assert forall|m: int|
                0 <= m < offers.len() && anchor_finite((#[trigger] offers[m]).1) implies has_link(
                edges(h, offers[m].0),
                offers[m].1,
            ) by {
                if m < last {
                    assert(before[m] == offers[m]);
                }
            }
        } else {
            lemma_with_anchor(mid, key, a);
            assert(h == with_anchor(mid, key, a));
            assert forall|k: TileKey| starts(#[trigger] edges(g, k), edges(h, k)) by {
                assert(starts(edges(g, k), edges(mid, k)));
                if k != key {
                    assert(edges(h, k) == edges(mid, k));
                }
            }
            assert forall|k: TileKey, j: int|
                edges(g, k).len() <= j < edges(h, k).len() implies offered(
                offers,
                k,
                #[trigger] edges(h, k)[j],
            ) by {
                assert(starts(edges(g, k), edges(mid, k)));
                if k == key && j == edges(mid, k).len() {
                    assert(offers[last] == (k, a));
                } else {
                    if k != key {
                        assert(edges(h, k) == edges(mid, k));
                    }
                    assert(edges(h, k)[j] == edges(mid, k)[j]);
                    assert(offered(before, k, edges(mid, k)[j]));
                }
            }
            assert forall|m: int|
                0 <= m < offers.len() && anchor_finite((#[trigger] offers[m]).1) implies has_link(
                edges(h, offers[m].0),
                offers[m].1,
            ) by {
                if m < last {
                    assert(before[m] == offers[m]);
                    let list = edges(mid, offers[m].0);
                    let i = choose|i: int|
                        0 <= i < list.len() && same_link(#[trigger] list[i], offers[m].1);
                    if offers[m].0 != key {
                        assert(edges(h, offers[m].0) == list);
                    }
                    assert(edges(h, offers[m].0)[i] == list[i]);
                } else {
                    lemma_same_link_reflexive(a);
                    assert(edges(h, key)[edges(mid, key).len() as int] == a);
                }
            }
        }
    }
}

/// Offers that all find their link leave the graph as it is.
pub proof fn lemma_links_present(g: Seq<Tile>, offers: Seq<(TileKey, Anchor)>)
    requires
        forall|m: int|
            0 <= m < offers.len() ==> has_link(
                edges(g, (#[trigger] offers[m]).0),
                offers[m].1,
            ),
    ensures
        with_links(g, offers) == g,
    decreases offers.len(),
{
    if offers.len() > 0 {
        let before = offers.drop_last();
        assert(forall|m: int| 0 <= m < before.len() ==> before[m] == offers[m]);
        lemma_links_present(g, before);
        assert(offers.last() == offers[offers.len() - 1]);
    }
}

/// The inverses of the first `n` tiles are exactly the inverses of the
/// anchors of those tiles.
pub proof fn lemma_inverses(g: Seq<Tile>, n: nat)
    requires
        n <= g.len(),
    ensures
        forall|m: int|
            0 <= m < inverses(g, n).len() ==> inverts(g, n, #[trigger] inverses(g, n)[m]),
        forall|i: int, j: int|
            0 <= i < n && 0 <= j < g[i].anchors.len() ==> offered(
                inverses(g, n),
                destination(#[trigger] g[i].anchors[j]),
                inverse_of(g[i].key, g[i].anchors[j]),
            ),
    decreases n,
{
    if n > 0 {
        let before = inverses(g, (n - 1) as nat);
        let here = tile_inverses(g[n - 1]);
        let all = inverses(g, n);
        lemma_inverses(g, (n - 1) as nat);
        assert forall|m: int| 0 <= m < all.len() implies inverts(g, n, #[trigger] all[m]) by {
            if m < before.len() {
                assert(all[m] == before[m]);
                assert(inverts(g, (n - 1) as nat, before[m]));
                let (i, j) = choose|i: int, j: int|
                    0 <= i < n - 1 && 0 <= j < g[i].anchors.len() && before[m] == (
                        destination(#[trigger] g[i].anchors[j]),
                        inverse_of(g[i].key, g[i].anchors[j]),
                    );
                assert(all[m] == (
                    destination(g[i].anchors[j]),
                    inverse_of(g[i].key, g[i].anchors[j]),
                ));
            } else {
                let j = m - before.len();
                assert(all[m] == here[j]);
                assert(all[m] == (
                    destination(g[n - 1].anchors[j]),
                    inverse_of(g[n - 1].key, g[n - 1].anchors[j]),
                ));
            }
        }
        assert forall|i: int, j: int| 0 <= i < n && 0 <= j < g[i].anchors.len() implies offered(
            all,
            destination(#[trigger] g[i].anchors[j]),
            inverse_of(g[i].key, g[i].anchors[j]),
        ) by {
            let k = destination(g[i].anchors[j]);
            let a = inverse_of(g[i].key, g[i].anchors[j]);
            if i < n - 1 {
                assert(offered(before, k, a));
                let m = choose|m: int| 0 <= m < before.len() && #[trigger] before[m] == (k, a);
                assert(all[m] == (k, a));
            } else {
                assert(here[j] == (k, a));
                assert(all[before.len() + j] == (k, a));
            }
        }
    }
}

/// Offering the inverses a second time changes nothing: once every anchor
/// has had its inverse offered, the inverse of each anchor of the result,
/// old or new, finds its link there. The anchors must be finite, since a
/// point that is not finite is not within tolerance of itself.
pub proof fn lemma_inverses_idempotent(g: Seq<Tile>)
    requires
        distinct_keys(g),
        anchors_finite(g),
    ensures
        with_inverses(with_inverses(g)) == with_inverses(g),
{
    let first = inverses(g, g.len());
    let h = with_inverses(g);
    let second = inverses(h, h.len());
    lemma_inverses(g, g.len());
    lemma_with_links(g, first);
    lemma_inverses(h, h.len());
    assert forall|m: int| 0 <= m < second.len() implies has_link(
        edges(h, (#[trigger] second[m]).0),
        second[m].1,
    ) by {
        assert(inverts(h, h.len(), second[m]));
        let (i, j) = choose|i: int, j: int|
            0 <= i < h.len() && 0 <= j < h[i].anchors.len() && second[m] == (
                destination(#[trigger] h[i].anchors[j]),
                inverse_of(h[i].key, h[i].anchors[j]),
            );
        let key = h[i].key;
        let a = h[i].anchors[j];
        lemma_slot_unique(h, i);
        assert(edges(h, key)[j] == a);
        assert(starts(edges(g, key), edges(h, key)));
        if j < edges(g, key).len() {
            // An anchor the graph had from the start: its inverse was offered.
            assert(edges(g, key)[j] == a);
            let i0 = slot(g, key).unwrap();
            assert(g[i0].key == key && g[i0].anchors[j] == a);
            assert(anchor_finite(g[i0].anchors[j]));
            assert(offered(first, destination(g[i0].anchors[j]), inverse_of(g[i0].key, g[i0].anchors[j])));
            let m0 = choose|m0: int|
                0 <= m0 < first.len() && #[trigger] first[m0] == (destination(a), inverse_of(key, a));
            assert(anchor_finite(first[m0].1));
        } else {
            // An anchor that the first pass appended: its inverse is the
            // anchor it was made from.
            assert(offered(first, key, edges(h, key)[j]));
            let m0 = choose|m0: int| 0 <= m0 < first.len() && #[trigger] first[m0] == (key, a);
            assert(inverts(g, g.len(), first[m0]));
            let (i0, j0) = choose|i0: int, j0: int|
                0 <= i0 < g.len() && 0 <= j0 < g[i0].anchors.len() && first[m0] == (
                    destination(#[trigger] g[i0].anchors[j0]),
                    inverse_of(g[i0].key, g[i0].anchors[j0]),
                );
            let origin = g[i0].anchors[j0];
            assert(anchor_finite(origin));
            assert(inverse_of(key, a) == origin);
            assert(destination(a) == g[i0].key);
            lemma_slot_unique(g, i0);
            assert(starts(edges(g, g[i0].key), edges(h, g[i0].key)));
            assert(edges(h, g[i0].key)[j0] == origin);
            lemma_same_link_reflexive(origin);
        }
    }
    lemma_links_present(h, second);
}

/// The number of anchors in the first tiles does not fall as more tiles
/// are counted.
proof fn lemma_anchor_total_monotone(g: Seq<Tile>, m: nat, n: nat)
    requires
        m <= n,
    ensures
        anchor_total(g, m) <= anchor_total(g, n),
    decreases n,
{
    if m < n {
        lemma_anchor_total_monotone(g, m, (n - 1) as nat);
    }
}

impl View for TileEntry {
    type V = Tile;

    open spec fn view(&self) -> Tile {
        Tile { key: self.key, anchors: self.anchors@ }
    }
}

impl View for AnchorGraph {
    type V = Seq<Tile>;

    closed spec fn view(&self) -> Seq<Tile> {
        self.tiles@.map_values(|t: TileEntry| t@)
    }
}

impl Anchor {
    /// The tile this anchor leads to.
    pub fn destination(&self) -> (key: TileKey)
        ensures
            key == destination(*self),
    {
        TileKey { area: self.dst_area_no, grid_x: self.dst_grid_x, grid_z: self.dst_grid_z }
    }

    /// Whether this anchor leads into a global frame.
    pub fn leads_to_global(&self) -> (global: bool)
        ensures
            global == leads_to_global(*self),
    {
        self.dst_area_no == AREA_PRIMARY || self.dst_area_no == AREA_SECONDARY
    }
}

impl AnchorGraph {
    /// The invariant of a graph: no key has two tiles.
    pub open spec fn wf(&self) -> bool {
        distinct_keys(self@)
    }

    /// A graph without tiles.
    pub fn new() -> (graph: AnchorGraph)
        ensures
            graph.wf(),
            graph@ == Seq::<Tile>::empty(),
    {
        let graph = AnchorGraph { tiles: Vec::new() };
        assert(graph@ =~= Seq::<Tile>::empty());
        graph
    }

    /// The place of the tile with the given key.
    pub fn position(&self, key: TileKey) -> (found: Option<usize>)
        requires
            self.wf(),
        ensures
            found matches Some(i) ==> i < self@.len() && self@[i as int].key == key,
            found is None ==> !has_key(self@, key),
            slot(self@, key) == match found {
                Some(i) => Some(i as int),
                None => None,
            },
    {
        let mut i: usize = 0;
        while i < self.tiles.len()
            invariant
                self.wf(),
                i <= self.tiles.len(),
                self@.len() == self.tiles.len(),
                forall|j: int| 0 <= j < i ==> (#[trigger] self@[j]).key != key,
            decreases self.tiles.len() - i,
        {
            if self.tiles[i].key == key {
                proof {
                    assert(self@[i as int].key == key);
                    lemma_slot_unique(self@, i as int);
                }
                return Some(i);
            }
            i = i + 1;
        }
        None
    }

    /// The number of tiles that have anchors.
    pub fn map_count(&self) -> (count: usize)
        ensures
            count == self@.len(),
    {
        self.tiles.len()
    }

    /// The key of the tile at place `i`.
    pub fn key_at(&self, i: usize) -> (key: TileKey)
        requires
            i < self@.len(),
        ensures
            key == self@[i as int].key,
    {
        self.tiles[i].key
    }

    /// The anchors of the tile at place `i`.
    pub fn anchors_at(&self, i: usize) -> (list: &Vec<Anchor>)
        requires
            i < self@.len(),
        ensures
            list@ == self@[i as int].anchors,
    {
        &self.tiles[i].anchors
    }

    /// The anchors that lead out of the tile with the given key.
    pub fn get(&self, key: TileKey) -> (list: Option<&Vec<Anchor>>)
        requires
            self.wf(),
        ensures
            list is Some == has_key(self@, key),
            list matches Some(l) ==> l@ == edges(self@, key),
    {
        match self.position(key) {
            Some(i) => {
                proof {
                    assert(self@[i as int].key == key);
                }
                Some(&self.tiles[i].anchors)
            },
            None => None,
        }
    }

    /// Whether the graph has a tile with the given key.
    pub fn contains_key(&self, key: TileKey) -> (present: bool)
        requires
            self.wf(),
        ensures
            present == has_key(self@, key),
    {
        self.position(key).is_some()
    }

    /// Appends an anchor to the list of `key`.
    pub fn insert(&mut self, key: TileKey, anchor: Anchor)
        requires
            old(self).wf(),
        ensures
            final(self).wf(),
            final(self)@ == with_anchor(old(self)@, key, anchor),
    {
        let found = self.position(key);
        proof {
            lemma_with_anchor(self@, key, anchor);
        }
        match found {
            Some(i) => {
                self.tiles[i].anchors.push(anchor);
                assert(self@ =~= with_anchor(old(self)@, key, anchor));
            },
            None => {
                let mut anchors: Vec<Anchor> = Vec::new();
                anchors.push(anchor);
                self.tiles.push(TileEntry { key, anchors });
                assert(self@ =~= with_anchor(old(self)@, key, anchor));
            },
        }
    }
    /// The number of anchors in the whole graph.
    pub fn anchor_count(&self) -> (count: usize)
        requires
            anchor_total(self@, self@.len()) <= usize::MAX,
        ensures
            count == anchor_total(self@, self@.len()),
    {
        let mut count: usize = 0;
        let mut i: usize = 0;
        while i < self.tiles.len()
            invariant
                i <= self.tiles.len(),
                self@.len() == self.tiles.len(),
                count == anchor_total(self@, i as nat),
                anchor_total(self@, self@.len()) <= usize::MAX,
            decreases self.tiles.len() - i,
        {
            proof {
                lemma_anchor_total_monotone(self@, (i + 1) as nat, self@.len());
            }
            count = count + self.tiles[i].anchors.len();
            i = i + 1;
        }
        count
    }

    /// The number of anchors in the whole graph; none if there are more
    /// than can be counted.
    pub fn try_anchor_count(&self) -> (count: Option<usize>)
        ensures
            count == if anchor_total(self@, self@.len()) <= usize::MAX {
                Some(anchor_total(self@, self@.len()) as usize)
            } else {
                None
            },
    {
        let mut count: usize = 0;
        let mut i: usize = 0;
        while i < self.tiles.len()
            invariant
                i <= self.tiles.len(),
                self@.len() == self.tiles.len(),
                count == anchor_total(self@, i as nat),
            decreases self.tiles.len() - i,
        {
            let more = self.tiles[i].anchors.len();
            if more > usize::MAX - count {
                proof {
                    lemma_anchor_total_monotone(self@, (i + 1) as nat, self@.len());
                }
                return None;
            }
            count = count + more;
            i = i + 1;
        }
        Some(count)
    }

    /// Offers one anchor to the list of `key`: it is appended unless the
    /// list already holds an anchor to the same tile whose two points
    /// equal those of the offer within tolerance.
    pub fn insert_unless_present(&mut self, key: TileKey, anchor: Anchor)
        requires
            old(self).wf(),
        ensures
            final(self).wf(),
            final(self)@ == with_link(old(self)@, key, anchor),
    {
        match self.position(key) {
            Some(i) => {
                let list = &self.tiles[i].anchors;
                assert(list@ == edges(self@, key));
                let mut j: usize = 0;
                while j < list.len()
                    invariant
                        j <= list.len(),
                        self.wf(),
                        self@ == old(self)@,
                        list@ == edges(self@, key),
                        forall|x: int| 0 <= x < j ==> !same_link(#[trigger] list@[x], anchor),
                    decreases list.len() - j,
                {
                    let existing = list[j];
                    if existing.dst_area_no == anchor.dst_area_no && existing.dst_grid_x
                        == anchor.dst_grid_x && existing.dst_grid_z == anchor.dst_grid_z
                        && positions_equal(existing.src_pos, anchor.src_pos) && positions_equal(
                        existing.dst_pos,
                        anchor.dst_pos,
                    ) {
                        assert(same_link(list@[j as int], anchor));
                        return ;
                    }
                    j = j + 1;
                }
            },
            None => {},
        }
        self.insert(key, anchor);
    }

    /// Offers the graph the inverse of every anchor it holds, so that each
    /// tile that is reached from another also leads back to it. The
    /// inverses are offered in the order of the tiles and, within a tile,
    /// of its anchors.
    pub fn add_inverse_anchors(&mut self)
        requires
            old(self).wf(),
        ensures
            final(self).wf(),
            final(self)@ == with_inverses(old(self)@),
    {
        let mut pending: Vec<(TileKey, Anchor)> = Vec::new();
        let mut i: usize = 0;
        while i < self.tiles.len()
            invariant
                i <= self.tiles.len(),
                self@.len() == self.tiles.len(),
                self@ == old(self)@,
                pending@ == inverses(self@, i as nat),
            decreases self.tiles.len() - i,
        {
            let key = self.tiles[i].key;
            let list = &self.tiles[i].anchors;
            let ghost before = pending@;
            let mut j: usize = 0;
            while j < list.len()
                invariant
                    j <= list.len(),
                    i < self@.len(),
                    list@ == self@[i as int].anchors,
                    key == self@[i as int].key,
                    pending@ == before + tile_inverses(self@[i as int]).take(j as int),
                decreases list.len() - j,
            {
                let a = list[j];
                let inverse = Anchor {
                    src_pos: a.dst_pos,
                    dst_area_no: key.area,
                    dst_grid_x: key.grid_x,
                    dst_grid_z: key.grid_z,
                    dst_pos: a.src_pos,
                };
                pending.push((a.destination(), inverse));
                proof {
                    let all = tile_inverses(self@[i as int]);
                    assert(all.take(j + 1) =~= all.take(j as int).push(all[j as int]));
                    assert(pending@ =~= before + all.take(j + 1));
                }
                j = j + 1;
            }
            proof {
                let all = tile_inverses(self@[i as int]);
                assert(all.take(all.len() as int) =~= all);
            }
            i = i + 1;
        }
        let mut k: usize = 0;
        while k < pending.len()
            invariant
                k <= pending.len(),
                self.wf(),
                self@ == with_links(old(self)@, pending@.take(k as int)),
            decreases pending.len() - k,
        {
            let (key, inverse) = pending[k];
            self.insert_unless_present(key, inverse);
            proof {
                assert(pending@.take(k + 1).drop_last() =~= pending@.take(k as int));
                assert(pending@.take(k + 1).last() == pending@[k as int]);
            }
            k = k + 1;
        }
        proof {
            assert(pending@.take(pending@.len() as int) =~= pending@);
        }
    }
}

} // verus!
