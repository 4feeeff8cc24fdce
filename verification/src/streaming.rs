//! The decisions of the delivery worker: how the points that arrive are
//! cut into batches, and what the worker waits for next.
//!
//! The worker owns a buffer of points that are not yet sent. Whoever runs
//! it makes the receive that its phase asks for, hands it what came in,
//! and delivers the batches it hands back, in order.

use vstd::prelude::*;

verus! {

/// The number of points in a full batch.
pub const BATCH_SIZE: usize = 10;

/// How long the worker lets a partial batch settle before it looks for
/// more points.
pub const SETTLE_MS: u64 = 50;

/// How long the worker waits for points when it holds none.
pub const IDLE_WAIT_MS: u64 = 1000;

/// One sample on its way to the collector: a point in its tile's frame
/// and in the global frame, the tile by identifier and by name, the
/// global frame by area number, and the time since the session began.
#[derive(Debug)]
pub struct RoutePoint {
    pub x: u32,
    pub y: u32,
    pub z: u32,
    pub global_x: u32,
    pub global_y: u32,
    pub global_z: u32,
    pub map_id: u32,
    pub map_id_str: String,
    pub global_map_id: u8,
    pub timestamp_ms: u64,
}

/// What the worker does next.
#[derive(Clone, Copy, Debug, PartialEq, Eq, Structural)]
pub enum Phase {
    /// Look at once whether a message is there.
    Poll,
    /// Pause for `SETTLE_MS`, then look whether a message is there.
    Settle,
    /// Wait up to `IDLE_WAIT_MS` for a message.
    Idle,
    /// Nothing: the worker has ended.
    Stopped,
}

/// What a receive brought.
pub enum Incoming {
    /// Points to send.
    Points(Vec<RoutePoint>),
    /// The request to flush and end.
    Shutdown,
    /// No message: none was there, or the wait ran out.
    Nothing,
    /// No message, and none can come any more.
    Disconnected,
}

/// The mathematical content of what a receive brought.
pub ghost enum Event {
    Points(Seq<RoutePoint>),
    Shutdown,
    Nothing,
    Disconnected,
}

impl View for Incoming {
    type V = Event;

    open spec fn view(&self) -> Event {
        match self {
            Incoming::Points(points) => Event::Points(points@),
            Incoming::Shutdown => Event::Shutdown,
            Incoming::Nothing => Event::Nothing,
            Incoming::Disconnected => Event::Disconnected,
        }
    }
}

/// The mathematical content of a worker.
pub ghost struct WorkerState {
    pub pending: Seq<RoutePoint>,
    pub phase: Phase,
}

/// The full batches at the front of a buffer, oldest first.
pub open spec fn full_batches(buffer: Seq<RoutePoint>) -> Seq<Seq<RoutePoint>>
    decreases buffer.len(),
{
    if buffer.len() < BATCH_SIZE {
        Seq::empty()
    } else {
        seq![buffer.take(BATCH_SIZE as int)] + full_batches(buffer.skip(BATCH_SIZE as int))
    }
}

/// What is left of a buffer once its full batches are cut off.
pub open spec fn leftover(buffer: Seq<RoutePoint>) -> Seq<RoutePoint>
    decreases buffer.len(),
{
    if buffer.len() < BATCH_SIZE {
        buffer
    } else {
        leftover(buffer.skip(BATCH_SIZE as int))
    }
}

/// The whole buffer as one batch, or no batch if it is empty.
pub open spec fn flushed(buffer: Seq<RoutePoint>) -> Seq<Seq<RoutePoint>> {
    if buffer.len() == 0 {
        Seq::empty()
    } else {
        seq![buffer]
    }
}

/// The whole buffer in batches: its full batches, then what is left as
/// one more batch, if anything is left.
pub open spec fn drained(buffer: Seq<RoutePoint>) -> Seq<Seq<RoutePoint>> {
    full_batches(buffer) + flushed(leftover(buffer))
}

/// A worker that has ended.
pub open spec fn stopped() -> WorkerState {
    WorkerState { pending: Seq::empty(), phase: Phase::Stopped }
}

/// A worker that has just begun.
pub open spec fn fresh() -> WorkerState {
    WorkerState { pending: Seq::empty(), phase: Phase::Poll }
}

/// The worker after it has cut the full batches off its buffer: it lets
/// what is left settle, or waits idle if nothing is left.
pub open spec fn cut(buffer: Seq<RoutePoint>) -> (WorkerState, Seq<Seq<RoutePoint>>) {
    let rest = leftover(buffer);
    (
        WorkerState {
            pending: rest,
            phase: if rest.len() > 0 {
                Phase::Settle
            } else {
                Phase::Idle
            },
        },
        full_batches(buffer),
    )
}

/// The worker after one receive, and the batches to deliver.
///
/// Whenever points come, the worker takes them in and cuts off the full
/// batches at once. A shutdown sends all that the worker holds, in full
/// batches and one batch of what is left, and ends the worker. A
/// disconnection ends it without a batch. When polling, the worker lets
/// what is left settle, or idles if nothing is left. After settling,
/// points that came send it back to polling; if none came, it sends what
/// it holds. When idle, it goes back to polling.
pub open spec fn step(w: WorkerState, e: Event) -> (WorkerState, Seq<Seq<RoutePoint>>) {
    if w.phase == Phase::Stopped {
        (w, Seq::empty())
    } else {
        match e {
            Event::Disconnected => (stopped(), Seq::empty()),
            Event::Shutdown => (stopped(), drained(w.pending)),
            Event::Points(points) => if w.phase == Phase::Poll {
                cut(w.pending + points)
            } else {
                (
                    WorkerState { pending: leftover(w.pending + points), phase: Phase::Poll },
                    full_batches(w.pending + points),
                )
            },
            Event::Nothing => if w.phase == Phase::Poll {
                cut(w.pending)
            } else if w.phase == Phase::Settle {
                (WorkerState { pending: Seq::empty(), phase: Phase::Poll }, drained(w.pending))
            } else {
                (WorkerState { pending: w.pending, phase: Phase::Poll }, Seq::empty())
            },
        }
    }
}

/// The worker after a run of receives, and all batches to deliver.
pub open spec fn run(w: WorkerState, events: Seq<Event>) -> (WorkerState, Seq<Seq<RoutePoint>>)
    decreases events.len(),
{
    if events.len() == 0 {
        (w, Seq::empty())
    } else {
        let before = run(w, events.drop_last());
        let last = step(before.0, events.last());
        (last.0, before.1 + last.1)
    }
}

/// The points of a run of batches, in order.
pub open spec fn joined(batches: Seq<Seq<RoutePoint>>) -> Seq<RoutePoint>
    decreases batches.len(),
{
    if batches.len() == 0 {
        Seq::empty()
    } else {
        joined(batches.drop_last()) + batches.last()
    }
}

/// The points that a run of receives brought, in order.
pub open spec fn gathered(events: Seq<Event>) -> Seq<RoutePoint>
    decreases events.len(),
{
    if events.len() == 0 {
        Seq::empty()
    } else {
        gathered(events.drop_last()) + match events.last() {
            Event::Points(points) => points,
            _ => Seq::empty(),
        }
    }
}

/// Whether a receive brought points or nothing.
pub open spec fn ordinary(e: Event) -> bool {
    e is Points || e is Nothing
}

/// `n` receives that bring nothing.
pub open spec fn quiet(n: nat) -> Seq<Event> {
    Seq::new(n, |i: int| Event::Nothing)
}

/// The buffer a worker holds in its phase: always less than a batch,
/// nothing when idle or stopped, something while it settles.
pub open spec fn consistent(w: WorkerState) -> bool {
    &&& w.pending.len() < BATCH_SIZE
    &&& w.phase == Phase::Idle || w.phase == Phase::Stopped ==> w.pending.len() == 0
    &&& w.phase == Phase::Settle ==> 0 < w.pending.len()
}

/// Whether no batch is empty and none holds more points than a batch may.
pub open spec fn bounded(batches: Seq<Seq<RoutePoint>>) -> bool {
    forall|i: int| 0 <= i < batches.len() ==> 0 < (#[trigger] batches[i]).len() <= BATCH_SIZE
}

/// One batch joined is that batch.
pub proof fn lemma_joined_single(batch: Seq<RoutePoint>)
    ensures
        joined(seq![batch]) == batch,
{
    let one = seq![batch];
    assert(one.drop_last() =~= Seq::<Seq<RoutePoint>>::empty());
    assert(joined(one.drop_last()) =~= Seq::<RoutePoint>::empty());
    assert(one.last() == batch);
    assert(joined(one) =~= batch);
}

/// A flushed buffer, joined, is the buffer.
pub proof fn lemma_joined_flushed(buffer: Seq<RoutePoint>)
    ensures
        joined(flushed(buffer)) == buffer,
{
    if buffer.len() == 0 {
        assert(joined(flushed(buffer)) =~= buffer);
    } else {
        lemma_joined_single(buffer);
    }
}

/// One receive brings its points, if it brings any.
pub proof fn lemma_gathered_single(e: Event)
    ensures
        gathered(seq![e]) == match e {
            Event::Points(points) => points,
            _ => Seq::<RoutePoint>::empty(),
        },
{
    let one = seq![e];
    assert(one.drop_last() =~= Seq::<Event>::empty());
    assert(gathered(one.drop_last()) =~= Seq::<RoutePoint>::empty());
    assert(one.last() == e);
    assert(gathered(one) =~= match e {
        Event::Points(points) => points,
        _ => Seq::<RoutePoint>::empty(),
    });
}

/// Batches joined in a row are the first batches joined, then the rest.
pub proof fn lemma_joined_concat(a: Seq<Seq<RoutePoint>>, b: Seq<Seq<RoutePoint>>)
    ensures
        joined(a + b) == joined(a) + joined(b),
    decreases b.len(),
{
    if b.len() == 0 {
        assert(a + b =~= a);
    } else {
        assert((a + b).drop_last() =~= a + b.drop_last());
        assert((a + b).last() == b.last());
        lemma_joined_concat(a, b.drop_last());
    }
}

/// Cutting a buffer loses nothing: the full batches, each of the batch
/// size, followed by what is left, which is less than a batch, are the
/// buffer.
pub proof fn lemma_cut_keeps_points(buffer: Seq<RoutePoint>)
    ensures
        joined(full_batches(buffer)) + leftover(buffer) == buffer,
        leftover(buffer).len() < BATCH_SIZE,
        forall|i: int|
            0 <= i < full_batches(buffer).len() ==> (#[trigger] full_batches(buffer)[i]).len()
                == BATCH_SIZE,
    decreases buffer.len(),
{
    if buffer.len() < BATCH_SIZE {
        assert(joined(full_batches(buffer)) + leftover(buffer) =~= buffer);
    } else {
        let first = buffer.take(BATCH_SIZE as int);
        let rest = buffer.skip(BATCH_SIZE as int);
        lemma_cut_keeps_points(rest);
        lemma_joined_concat(seq![first], full_batches(rest));
        lemma_joined_single(first);
        assert(first + rest =~= buffer);
        assert(joined(full_batches(buffer)) + leftover(buffer) =~= first + (joined(
            full_batches(rest),
        ) + leftover(rest)));
    }
}

/// A buffer sent whole loses nothing and is sent in bounded batches: a
/// buffer of less than a batch as the one batch that it is.
pub proof fn lemma_drained(buffer: Seq<RoutePoint>)
    ensures
        joined(drained(buffer)) == buffer,
        bounded(drained(buffer)),
        bounded(full_batches(buffer)),
        buffer.len() < BATCH_SIZE ==> drained(buffer) == flushed(buffer),
{
    lemma_cut_keeps_points(buffer);
    lemma_joined_concat(full_batches(buffer), flushed(leftover(buffer)));
    lemma_joined_flushed(leftover(buffer));
    if buffer.len() < BATCH_SIZE {
        assert(drained(buffer) =~= flushed(buffer));
    }
}

/// Whatever a receive brings, what the worker hands back to be sent is
/// in bounded batches, and the worker afterwards holds the buffer that
/// goes with its phase.
pub proof fn lemma_step_consistent(w: WorkerState, e: Event)
    ensures
        bounded(step(w, e).1),
        consistent(w) ==> consistent(step(w, e).0),
{
    match e {
        Event::Points(points) => {
            lemma_drained(w.pending + points);
            lemma_cut_keeps_points(w.pending + points);
        },
        _ => {
            lemma_drained(w.pending);
            lemma_cut_keeps_points(w.pending);
        },
    }
}

/// One receive of points or of nothing loses nothing and keeps the
/// worker going: what is delivered, followed by what the worker holds
/// afterwards, is what it held followed by the points that came.
pub proof fn lemma_step_keeps_points(w: WorkerState, e: Event)
    requires
        w.phase != Phase::Stopped,
        consistent(w),
        ordinary(e),
    ensures
        step(w, e).0.phase != Phase::Stopped,
        consistent(step(w, e).0),
        joined(step(w, e).1) + step(w, e).0.pending == w.pending + gathered(seq![e]),
{
    let came = gathered(seq![e]);
    lemma_gathered_single(e);
    let buffer = w.pending + came;
    lemma_drained(buffer);
    lemma_cut_keeps_points(buffer);
    lemma_step_consistent(w, e);
    assert(w.pending + Seq::<RoutePoint>::empty() =~= w.pending);
    let after = step(w, e);
    if w.phase == Phase::Settle && e is Nothing {
        assert(joined(after.1) + after.0.pending =~= w.pending + came);
    } else if w.phase == Phase::Poll {
        assert(after == cut(buffer));
    } else if e is Points {
        assert(joined(after.1) + after.0.pending == buffer);
    } else {
        assert(joined(after.1) + after.0.pending =~= w.pending + came);
    }
}

/// A run of receives of points or of nothing loses nothing and keeps the
/// worker going.
pub proof fn lemma_run_keeps_points(w: WorkerState, events: Seq<Event>)
    requires
        w.phase != Phase::Stopped,
        consistent(w),
        forall|i: int| 0 <= i < events.len() ==> ordinary(#[trigger] events[i]),
    ensures
        run(w, events).0.phase != Phase::Stopped,
        consistent(run(w, events).0),
        joined(run(w, events).1) + run(w, events).0.pending == w.pending + gathered(events),
    decreases events.len(),
{
    if events.len() == 0 {
        assert(joined(run(w, events).1) + w.pending =~= w.pending + gathered(events));
    } else {
        let before = events.drop_last();
        let last = events.last();
        assert(forall|i: int| 0 <= i < before.len() ==> before[i] == events[i]);
        lemma_run_keeps_points(w, before);
        let mid = run(w, before);
        lemma_step_keeps_points(mid.0, last);
        let end = step(mid.0, last);
        lemma_joined_concat(mid.1, end.1);
        lemma_gathered_single(last);
        assert(joined(mid.1 + end.1) + end.0.pending =~= joined(mid.1) + (joined(end.1)
            + end.0.pending));
        assert(w.pending + gathered(events) =~= (w.pending + gathered(before)) + gathered(
            seq![last],
        ));
        assert(joined(mid.1) + (mid.0.pending + gathered(seq![last])) =~= (joined(mid.1)
            + mid.0.pending) + gathered(seq![last]));
    }
}

/// Nothing that was handed to the worker before it is shut down is lost
/// or reordered: over any run of receives of points or of nothing that
/// ends in a shutdown, the batches delivered hold exactly the points that
/// came, in the order in which they came.
pub proof fn lemma_shutdown_delivers_all(events: Seq<Event>)
    requires
        forall|i: int| 0 <= i < events.len() ==> ordinary(#[trigger] events[i]),
    ensures
        joined(run(fresh(), events.push(Event::Shutdown)).1) == gathered(events),
        run(fresh(), events.push(Event::Shutdown)).0 == stopped(),
{
    let all = events.push(Event::Shutdown);
    assert(all.drop_last() =~= events);
    lemma_run_keeps_points(fresh(), events);
    let mid = run(fresh(), events);
    let end = step(mid.0, Event::Shutdown);
    lemma_joined_concat(mid.1, end.1);
    lemma_drained(mid.0.pending);
    assert(Seq::<RoutePoint>::empty() + gathered(events) =~= gathered(events));
}

/// A run of receives in two parts goes on from where the first part
/// left the worker, and delivers the batches of both.
pub proof fn lemma_run_concat(w: WorkerState, a: Seq<Event>, b: Seq<Event>)
    ensures
        run(w, a + b).0 == run(run(w, a).0, b).0,
        run(w, a + b).1 == run(w, a).1 + run(run(w, a).0, b).1,
    decreases b.len(),
{
    if b.len() == 0 {
        assert(a + b =~= a);
        assert(run(w, a).1 + Seq::<Seq<RoutePoint>>::empty() =~= run(w, a).1);
    } else {
        assert((a + b).drop_last() =~= a + b.drop_last());
        assert((a + b).last() == b.last());
        lemma_run_concat(w, a, b.drop_last());
        let mid = run(w, a);
        let before = run(mid.0, b.drop_last());
        let last = step(before.0, b.last());
        assert(run(w, a + b).1 =~= mid.1 + (before.1 + last.1));
    }
}

/// One receive is a run of one.
pub proof fn lemma_run_single(w: WorkerState, e: Event)
    ensures
        run(w, seq![e]) == step(w, e),
{
    let one = seq![e];
    assert(one.drop_last() =~= Seq::<Event>::empty());
    assert(run(w, one.drop_last()) == (w, Seq::<Seq<RoutePoint>>::empty()));
    assert(one.last() == e);
    assert(Seq::<Seq<RoutePoint>>::empty() + step(w, e).1 =~= step(w, e).1);
}

/// A worker that holds nothing delivers nothing while nothing comes.
pub proof fn lemma_quiet_while_empty(w: WorkerState, n: nat)
    requires
        w.pending.len() == 0,
        w.phase == Phase::Poll || w.phase == Phase::Idle,
    ensures
        run(w, quiet(n)).1 == Seq::<Seq<RoutePoint>>::empty(),
        run(w, quiet(n)).0.pending.len() == 0,
        run(w, quiet(n)).0.phase == Phase::Poll || run(w, quiet(n)).0.phase == Phase::Idle,
    decreases n,
{
    if n > 0 {
        assert(quiet(n).drop_last() =~= quiet((n - 1) as nat));
        assert(quiet(n).last() == Event::Nothing);
        lemma_quiet_while_empty(w, (n - 1) as nat);
        let mid = run(w, quiet((n - 1) as nat));
        assert(mid.1 + step(mid.0, Event::Nothing).1 =~= Seq::<Seq<RoutePoint>>::empty());
    }
}

/// A worker that holds less than a batch delivers it as one batch, at
/// most once, while nothing comes.
pub proof fn lemma_quiet_with_partial(w: WorkerState, n: nat)
    requires
        0 < w.pending.len() < BATCH_SIZE,
        w.phase == Phase::Poll || w.phase == Phase::Settle,
    ensures
        ({
            let r = run(w, quiet(n));
            ||| (r.0.pending == w.pending && (r.0.phase == Phase::Poll || r.0.phase
                == Phase::Settle) && r.1 == Seq::<Seq<RoutePoint>>::empty())
            ||| (r.0.pending.len() == 0 && (r.0.phase == Phase::Poll || r.0.phase == Phase::Idle)
                && r.1 == seq![w.pending])
        }),
    decreases n,
{
    if n > 0 {
        assert(quiet(n).drop_last() =~= quiet((n - 1) as nat));
        assert(quiet(n).last() == Event::Nothing);
        lemma_quiet_with_partial(w, (n - 1) as nat);
        lemma_drained(w.pending);
        let mid = run(w, quiet((n - 1) as nat));
        let end = step(mid.0, Event::Nothing);
        if mid.0.pending.len() == 0 {
            assert(mid.1 + end.1 =~= seq![w.pending]);
        } else if mid.0.phase == Phase::Poll {
            assert(mid.1 + end.1 =~= Seq::<Seq<RoutePoint>>::empty());
        } else {
            assert(end.0.pending =~= Seq::<RoutePoint>::empty());
            assert(mid.1 + end.1 =~= seq![w.pending]);
        }
    }
}

/// Fewer points than a batch holds, handed over at one time and followed
/// by a shutdown, leave as exactly one batch that holds them all in
/// order, however long the worker saw nothing before and after them.
pub proof fn lemma_small_burst_one_batch(points: Seq<RoutePoint>, before: nat, after: nat)
    requires
        0 < points.len() < BATCH_SIZE,
    ensures
        run(
            fresh(),
            quiet(before) + seq![Event::Points(points)] + quiet(after) + seq![Event::Shutdown],
        ).1 == seq![points],
{
    let burst = seq![Event::Points(points)];
    let close = seq![Event::Shutdown];
    lemma_quiet_while_empty(fresh(), before);
    let s1 = run(fresh(), quiet(before));
    lemma_run_single(s1.0, Event::Points(points));
    let s2 = step(s1.0, Event::Points(points));
    assert(Seq::<RoutePoint>::empty() + points =~= points);
    assert(s1.0.pending =~= Seq::<RoutePoint>::empty());
    assert(s2.0.pending == points && s2.1 == Seq::<Seq<RoutePoint>>::empty() && (s2.0.phase
        == Phase::Poll || s2.0.phase == Phase::Settle));
    lemma_quiet_with_partial(s2.0, after);
    lemma_drained(points);
    let s3 = run(s2.0, quiet(after));
    lemma_run_single(s3.0, Event::Shutdown);
    let s4 = step(s3.0, Event::Shutdown);
    lemma_run_concat(fresh(), quiet(before), burst);
    lemma_run_concat(fresh(), quiet(before) + burst, quiet(after));
    lemma_run_concat(fresh(), quiet(before) + burst + quiet(after), close);
    assert(s1.1 + s2.1 + s3.1 + s4.1 =~= seq![points]);
}

/// Fewer points than a batch holds, handed over in any number of
/// messages with no wait running out between them and followed by a
/// shutdown, leave as exactly one batch that holds them all in order.
pub proof fn lemma_small_run_one_batch(events: Seq<Event>)
    requires
        forall|i: int| 0 <= i < events.len() ==> (#[trigger] events[i]) is Points,
        0 < gathered(events).len() < BATCH_SIZE,
    ensures
        run(fresh(), events.push(Event::Shutdown)).1 == seq![gathered(events)],
{
    lemma_points_only(events);
    let all = events.push(Event::Shutdown);
    assert(all.drop_last() =~= events);
    let mid = run(fresh(), events);
    lemma_drained(mid.0.pending);
    assert(mid.1 + step(mid.0, Event::Shutdown).1 =~= seq![gathered(events)]);
}

/// While only points come, and fewer than a batch holds, the worker
/// keeps them all and sends nothing.
proof fn lemma_points_only(events: Seq<Event>)
    requires
        forall|i: int| 0 <= i < events.len() ==> (#[trigger] events[i]) is Points,
        gathered(events).len() < BATCH_SIZE,
    ensures
        run(fresh(), events).0.pending == gathered(events),
        run(fresh(), events).0.phase != Phase::Stopped,
        run(fresh(), events).1 == Seq::<Seq<RoutePoint>>::empty(),
    decreases events.len(),
{
    if events.len() == 0 {
    } else {
        let before = events.drop_last();
        assert(forall|i: int| 0 <= i < before.len() ==> before[i] == events[i]);
        lemma_points_only(before);
        let mid = run(fresh(), before);
        let buffer = mid.0.pending + events.last()->Points_0;
        assert(buffer == gathered(events));
        assert(mid.1 + step(mid.0, events.last()).1 =~= Seq::<Seq<RoutePoint>>::empty());
    }
}

/// Over any run of receives, from any worker, what is handed back to be
/// sent is in bounded batches.
pub proof fn lemma_run_bounded(w: WorkerState, events: Seq<Event>)
    ensures
        bounded(run(w, events).1),
    decreases events.len(),
{
    if events.len() > 0 {
        lemma_run_bounded(w, events.drop_last());
        let mid = run(w, events.drop_last());
        lemma_step_consistent(mid.0, events.last());
        let end = step(mid.0, events.last());
        assert forall|i: int| 0 <= i < (mid.1 + end.1).len() implies 0 < (#[trigger] (mid.1
            + end.1)[i]).len() <= BATCH_SIZE by {
            if i < mid.1.len() {
                assert((mid.1 + end.1)[i] == mid.1[i]);
            } else {
                assert((mid.1 + end.1)[i] == end.1[i - mid.1.len()]);
            }
        }
    }
}

/// The batches as sequences of points.
pub open spec fn batch_views(batches: Seq<Vec<RoutePoint>>) -> Seq<Seq<RoutePoint>> {
    Seq::new(batches.len(), |i: int| batches[i]@)
}

/// The decisions of the delivery worker.
pub struct Worker {
    pending: Vec<RoutePoint>,
    phase: Phase,
}

impl View for Worker {
    type V = WorkerState;

    closed spec fn view(&self) -> WorkerState {
        WorkerState { pending: self.pending@, phase: self.phase }
    }
}

/// Cuts the full batches off the front of a buffer.
fn cut_batches(buffer: Vec<RoutePoint>) -> (parts: (Vec<Vec<RoutePoint>>, Vec<RoutePoint>))
    ensures
        batch_views(parts.0@) == full_batches(buffer@),
        parts.1@ == leftover(buffer@),
{
    let mut rest = buffer;
    let mut batches: Vec<Vec<RoutePoint>> = Vec::new();
    proof {
        assert(batch_views(batches@) + full_batches(rest@) =~= full_batches(buffer@));
    }
    while rest.len() >= BATCH_SIZE
        invariant
            batch_views(batches@) + full_batches(rest@) == full_batches(buffer@),
            leftover(rest@) == leftover(buffer@),
        decreases rest.len(),
    {
        let ghost whole = rest@;
        let ghost done = batches@;
        let tail = rest.split_off(BATCH_SIZE);
        batches.push(rest);
        rest = tail;
        proof {
            assert(whole.subrange(0, BATCH_SIZE as int) =~= whole.take(BATCH_SIZE as int));
            assert(whole.subrange(BATCH_SIZE as int, whole.len() as int) =~= whole.skip(
                BATCH_SIZE as int,
            ));
            assert(batch_views(batches@) =~= batch_views(done) + seq![
                whole.take(BATCH_SIZE as int),
            ]);
            assert(batch_views(batches@) + full_batches(rest@) =~= batch_views(done) + (seq![
                whole.take(BATCH_SIZE as int),
            ] + full_batches(whole.skip(BATCH_SIZE as int))));
        }
    }
    proof {
        assert(batch_views(batches@) + full_batches(rest@) =~= batch_views(batches@));
    }
    (batches, rest)
}

/// Cuts a buffer into its full batches and one batch of what is left.
fn drain_batches(buffer: Vec<RoutePoint>) -> (batches: Vec<Vec<RoutePoint>>)
    ensures
        batch_views(batches@) == drained(buffer@),
{
    let (full, rest) = cut_batches(buffer);
    let mut batches = full;
    if rest.len() > 0 {
        let ghost before = batches@;
        batches.push(rest);
        proof {
            assert(batch_views(batches@) =~= batch_views(before) + seq![rest@]);
        }
    } else {
        proof {
            assert(batch_views(batches@) + Seq::<Seq<RoutePoint>>::empty() =~= batch_views(
                batches@,
            ));
        }
    }
    batches
}

impl Worker {
    /// A worker that has just begun: it holds nothing and polls.
    pub fn new() -> (worker: Worker)
        ensures
            worker@ == fresh(),
    {
        Worker { pending: Vec::new(), phase: Phase::Poll }
    }

    /// What the worker does next.
    pub fn phase(&self) -> (phase: Phase)
        ensures
            phase == self@.phase,
    {
        self.phase
    }

    /// The number of points that the worker holds.
    pub fn pending_len(&self) -> (count: usize)
        ensures
            count == self@.pending.len(),
    {
        self.pending.len()
    }

    /// Takes what a receive brought and hands back the batches to
    /// deliver, oldest first. No batch is empty, and none holds more
    /// points than a batch may.
    pub fn on_message(&mut self, incoming: Incoming) -> (batches: Vec<Vec<RoutePoint>>)
        ensures
            final(self)@ == step(old(self)@, incoming@).0,
            batch_views(batches@) == step(old(self)@, incoming@).1,
            forall|i: int| 0 <= i < batches@.len() ==> 0 < (#[trigger] batches@[i])@.len()
                <= BATCH_SIZE,
    {
        proof {
            lemma_step_consistent(self@, incoming@);
        }
        let batches = self.take_in(incoming);
        proof {
            assert forall|i: int| 0 <= i < batches@.len() implies 0 < (#[trigger] batches@[i])@.len()
                <= BATCH_SIZE by {
                assert(batch_views(batches@)[i] == batches@[i]@);
            }
        }
        batches
    }

    /// The worker after one receive, and the batches to deliver.
    fn take_in(&mut self, incoming: Incoming) -> (batches: Vec<Vec<RoutePoint>>)
        ensures
            final(self)@ == step(old(self)@, incoming@).0,
            batch_views(batches@) == step(old(self)@, incoming@).1,
    {
        let mut batches: Vec<Vec<RoutePoint>> = Vec::new();
        proof {
            assert(batch_views(batches@) =~= Seq::<Seq<RoutePoint>>::empty());
        }
        if self.phase == Phase::Stopped {
            return batches;
        }
        let mut buffer: Vec<RoutePoint> = Vec::new();
        core::mem::swap(&mut buffer, &mut self.pending);
        match incoming {
            Incoming::Disconnected => {
                self.phase = Phase::Stopped;
                batches
            },
            Incoming::Shutdown => {
                self.phase = Phase::Stopped;
                drain_batches(buffer)
            },
            Incoming::Points(points) => {
                let mut points = points;
                buffer.append(&mut points);
                let (full, rest) = cut_batches(buffer);
                self.phase = if self.phase != Phase::Poll {
                    Phase::Poll
                } else if rest.len() > 0 {
                    Phase::Settle
                } else {
                    Phase::Idle
                };
                self.pending = rest;
                full
            },
            Incoming::Nothing => {
                if self.phase == Phase::Poll {
                    let (full, rest) = cut_batches(buffer);
                    self.phase = if rest.len() > 0 {
                        Phase::Settle
                    } else {
                        Phase::Idle
                    };
                    self.pending = rest;
                    full
                } else if self.phase == Phase::Settle {
                    self.phase = Phase::Poll;
                    drain_batches(buffer)
                } else {
                    self.pending = buffer;
                    self.phase = Phase::Poll;
                    batches
                }
            },
        }
    }
}

} // verus!
