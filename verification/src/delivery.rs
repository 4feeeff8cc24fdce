//! The retry policy for delivering one batch, and the target of the
//! request.

use vstd::prelude::*;
use vstd::string::*;
use crate::streaming::{Event, Incoming, RoutePoint};

verus! {

/// The most attempts that are made to deliver one batch.
pub const MAX_ATTEMPTS: u32 = 3;

/// The pause before the second attempt; the pause before attempt `n + 1`
/// is `n` times this.
pub const BACKOFF_STEP_MS: u64 = 100;

/// The longest that one request may take.
pub const REQUEST_TIMEOUT_MS: u64 = 5000;

/// The first status of the range that means a batch was taken.
pub const SUCCESS_FROM: u16 = 200;

/// The first status above that range.
pub const SUCCESS_BELOW: u16 = 300;

/// The status that means the key was refused.
pub const STATUS_UNAUTHORIZED: u16 = 401;

/// How one attempt ended: with a status from the collector, or without
/// one because the request never got an answer.
#[derive(Clone, Copy, Debug, PartialEq, Eq, Structural)]
pub enum Reply {
    Status(u16),
    Transport,
}

/// What to do after an attempt.
#[derive(Clone, Copy, Debug, PartialEq, Eq, Structural)]
pub enum Verdict {
    /// The batch was taken; nothing more to do.
    Delivered,
    /// The key was refused; the batch is given up without another attempt.
    Rejected,
    /// Pause for so many milliseconds, then try again.
    Retry(u64),
    /// The last attempt failed; the batch is dropped.
    Exhausted,
}

/// Whether a reply says that the batch was taken: a status of the range
/// of success.
pub open spec fn succeeded(reply: Reply) -> bool {
    reply matches Reply::Status(code) && SUCCESS_FROM <= code < SUCCESS_BELOW
}

/// Whether a reply says that the key was refused.
pub open spec fn refused(reply: Reply) -> bool {
    reply == Reply::Status(STATUS_UNAUTHORIZED)
}

/// Whether a reply leaves the batch to be tried again: every status
/// outside the range of success but that of a refused key, and every
/// request that got no answer.
pub open spec fn retryable(reply: Reply) -> bool {
    !succeeded(reply) && !refused(reply)
}

/// The pause after the attempt with the given index, counted from zero.
pub open spec fn pause_after(attempt: u32) -> u64 {
    ((attempt + 1) * BACKOFF_STEP_MS) as u64
}

/// The verdict after the attempt with the given index, counted from
/// zero, ended with the given reply. Success ends the delivery, and so
/// does a refused key. Any other reply is followed by a pause and
/// another attempt, unless the attempt was the last that is allowed.
pub open spec fn judged(attempt: u32, reply: Reply) -> Verdict {
    if succeeded(reply) {
        Verdict::Delivered
    } else if refused(reply) {
        Verdict::Rejected
    } else if attempt + 1 < MAX_ATTEMPTS {
        Verdict::Retry(pause_after(attempt))
    } else {
        Verdict::Exhausted
    }
}

/// What became of a batch over a run of replies.
pub ghost struct DeliveryLog {
    /// The number of attempts made.
    pub attempts: nat,
    /// The pauses made between them, in order.
    pub pauses: Seq<u64>,
    /// The verdict that ended the delivery, if it has ended.
    pub end: Option<Verdict>,
}

/// The log of a delivery whose attempts, from the one with index
/// `attempt` on, end with the given replies in turn. Replies after the
/// one that ends the delivery are never asked for.
pub open spec fn replay(replies: Seq<Reply>, attempt: u32) -> DeliveryLog
    decreases replies.len(),
{
    if replies.len() == 0 {
        DeliveryLog { attempts: 0, pauses: Seq::empty(), end: None }
    } else {
        match judged(attempt, replies[0]) {
            Verdict::Retry(pause) => {
                let rest = replay(replies.skip(1), (attempt + 1) as u32);
                DeliveryLog {
                    attempts: rest.attempts + 1,
                    pauses: seq![pause] + rest.pauses,
                    end: rest.end,
                }
            },
            verdict => DeliveryLog { attempts: 1, pauses: Seq::empty(), end: Some(verdict) },
        }
    }
}

/// Decides what follows the attempt with the given index, counted from
/// zero.
pub fn after_attempt(attempt: u32, reply: Reply) -> (verdict: Verdict)
    ensures
        verdict == judged(attempt, reply),
{
    match reply {
        Reply::Status(code) => {
            if SUCCESS_FROM <= code && code < SUCCESS_BELOW {
                return Verdict::Delivered;
            }
            if code == STATUS_UNAUTHORIZED {
                return Verdict::Rejected;
            }
        },
        Reply::Transport => {},
    }
    if attempt < MAX_ATTEMPTS - 1 {
        Verdict::Retry((attempt as u64 + 1) * BACKOFF_STEP_MS)
    } else {
        Verdict::Exhausted
    }
}

/// The whole policy. With as many replies at hand as attempts are
/// allowed, the delivery makes its attempts up to the first whose reply
/// is success or a refused key, or all that are allowed if there is no
/// such reply. After each attempt but the last it pauses, for as many
/// steps as attempts were made. It ends delivered exactly if the last
/// reply is success, rejected exactly if it is a refused key, and
/// exhausted otherwise.
pub proof fn lemma_policy(replies: Seq<Reply>, attempt: u32)
    requires
        attempt < MAX_ATTEMPTS,
        replies.len() >= MAX_ATTEMPTS - attempt,
    ensures
        ({
            let log = replay(replies, attempt);
            let last = log.attempts - 1;
            &&& 1 <= log.attempts <= MAX_ATTEMPTS - attempt
            &&& forall|i: int| 0 <= i < last ==> retryable(#[trigger] replies[i])
            &&& log.attempts < MAX_ATTEMPTS - attempt ==> !retryable(replies[last])
            &&& log.pauses.len() == last
            &&& forall|i: int|
                0 <= i < last ==> #[trigger] log.pauses[i] == pause_after((attempt + i) as u32)
            &&& log.end == Some(
                if succeeded(replies[last]) {
                    Verdict::Delivered
                } else if refused(replies[last]) {
                    Verdict::Rejected
                } else {
                    Verdict::Exhausted
                },
            )
        }),
    decreases replies.len(),
{
    match judged(attempt, replies[0]) {
        Verdict::Retry(pause) => {
            let rest = replies.skip(1);
            let next = (attempt + 1) as u32;
            lemma_policy(rest, next);
            let inner = replay(rest, next);
            let log = replay(replies, attempt);
            assert(forall|i: int| 0 <= i < rest.len() ==> rest[i] == replies[i + 1]);
            assert forall|i: int| 0 <= i < log.attempts - 1 implies retryable(
                #[trigger] replies[i],
            ) by {
                if i > 0 {
                    assert(retryable(rest[i - 1]));
                }
            }
            assert forall|i: int| 0 <= i < log.attempts - 1 implies #[trigger] log.pauses[i]
                == pause_after((attempt + i) as u32) by {
                if i > 0 {
                    assert(log.pauses[i] == inner.pauses[i - 1]);
                }
            }
        },
        _ => {},
    }
}

/// Two replies that leave the batch to be tried again, then success:
/// three attempts, pauses of one and two steps between them, delivered.
pub proof fn lemma_third_attempt_delivers(
    first: Reply,
    second: Reply,
    third: Reply,
    rest: Seq<Reply>,
)
    requires
        retryable(first),
        retryable(second),
        succeeded(third),
    ensures
        replay(seq![first, second, third] + rest, 0) == (DeliveryLog {
            attempts: 3,
            pauses: seq![BACKOFF_STEP_MS, (2 * BACKOFF_STEP_MS) as u64],
            end: Some(Verdict::Delivered),
        }),
{
    let all = seq![first, second, third] + rest;
    let after_one = all.skip(1);
    let after_two = after_one.skip(1);
    assert(all[0] == first && after_one[0] == second && after_two[0] == third);
    let last = replay(after_two, 2);
    assert(last == DeliveryLog { attempts: 1, pauses: Seq::empty(), end: Some(Verdict::Delivered) });
    let from_second = replay(after_one, 1);
    assert(judged(1, second) == Verdict::Retry(200));
    assert(from_second.pauses =~= seq![200u64]);
    assert(judged(0, first) == Verdict::Retry(100));
    assert(replay(all, 0).pauses =~= seq![100u64, 200u64]);
}

/// Success on the first attempt: one attempt, no pause, delivered.
pub proof fn lemma_success_ends_at_once(first: Reply, rest: Seq<Reply>)
    requires
        succeeded(first),
    ensures
        replay(seq![first] + rest, 0) == (DeliveryLog {
            attempts: 1,
            pauses: Seq::empty(),
            end: Some(Verdict::Delivered),
        }),
{
    let all = seq![first] + rest;
    assert(all[0] == first);
}

/// A refused key on the first attempt: one attempt, no pause, rejected.
pub proof fn lemma_unauthorized_ends_at_once(rest: Seq<Reply>)
    ensures
        replay(seq![Reply::Status(STATUS_UNAUTHORIZED)] + rest, 0) == (DeliveryLog {
            attempts: 1,
            pauses: Seq::empty(),
            end: Some(Verdict::Rejected),
        }),
{
    let all = seq![Reply::Status(STATUS_UNAUTHORIZED)] + rest;
    assert(all[0] == Reply::Status(STATUS_UNAUTHORIZED));
}

/// No delivery takes more than the allowed attempts, whatever the
/// replies; it pauses once less often than it tries when it goes on or
/// runs out, and it has ended once that many replies are in.
pub proof fn lemma_attempts_bounded(replies: Seq<Reply>, attempt: u32)
    requires
        attempt < MAX_ATTEMPTS,
    ensures
        replay(replies, attempt).attempts <= MAX_ATTEMPTS - attempt,
        replay(replies, attempt).attempts <= replies.len(),
        replay(replies, attempt).end is Some ==> replay(replies, attempt).pauses.len() + 1
            == replay(replies, attempt).attempts,
        replies.len() >= MAX_ATTEMPTS - attempt ==> replay(replies, attempt).end is Some,
    decreases replies.len(),
{
    if replies.len() > 0 {
        match judged(attempt, replies[0]) {
            Verdict::Retry(pause) => {
                lemma_attempts_bounded(replies.skip(1), (attempt + 1) as u32);
            },
            _ => {},
        }
    }
}

/// The sub-path of the collector that takes route points.
pub open spec fn route_points_path() -> Seq<char> {
    "/api/RoutePoints"@
}

/// The text without the slashes at its end.
pub open spec fn without_trailing_slashes(text: Seq<char>) -> Seq<char>
    decreases text.len(),
{
    if text.len() > 0 && text.last() == '/' {
        without_trailing_slashes(text.drop_last())
    } else {
        text
    }
}

/// The producer's side of the pipeline: where the collector is and what
/// key goes with every request. It turns points into the messages that
/// go to the worker.
pub struct RealtimeClient {
    /// The address of the collector.
    pub backend_url: String,
    /// The key that goes with every request.
    pub push_key: String,
}

impl RealtimeClient {
    /// A client for the given collector and key.
    pub fn new(backend_url: String, push_key: String) -> (client: RealtimeClient)
        ensures
            client.backend_url == backend_url,
            client.push_key == push_key,
    {
        RealtimeClient { backend_url, push_key }
    }

    /// The message that hands one point to the worker.
    pub fn send_point(&self, point: RoutePoint) -> (message: Option<Incoming>)
        ensures
            message matches Some(m) && m@ == Event::Points(seq![point]),
    {
        let mut points: Vec<RoutePoint> = Vec::new();
        points.push(point);
        proof {
            assert(points@ =~= seq![point]);
        }
        self.send_points(points)
    }

    /// The message that hands points to the worker; none for no points.
    pub fn send_points(&self, points: Vec<RoutePoint>) -> (message: Option<Incoming>)
        ensures
            points@.len() == 0 ==> message is None,
            points@.len() > 0 ==> (message matches Some(m) && m@ == Event::Points(points@)),
    {
        if points.len() == 0 {
            None
        } else {
            Some(Incoming::Points(points))
        }
    }

    /// The message that tells the worker to flush and end. It goes the
    /// same way as the points, so that it arrives after all of them.
    pub fn close(&self) -> (message: Incoming)
        ensures
            message@ == Event::Shutdown,
    {
        Incoming::Shutdown
    }

    /// Whether both an address and a key are set.
    pub fn is_configured(&self) -> (ready: bool)
        ensures
            ready == (self.push_key@.len() > 0 && self.backend_url@.len() > 0),
    {
        !self.push_key.as_str().is_empty() && !self.backend_url.as_str().is_empty()
    }

    /// The address that requests go to: the collector's address without
    /// slashes at its end, then the path for route points.
    pub fn endpoint(&self) -> (target: String)
        ensures
            target@ == without_trailing_slashes(self.backend_url@) + route_points_path(),
    {
        let base = self.backend_url.as_str();
        let mut end: usize = base.unicode_len();
        proof {
            assert(base@.take(base@.len() as int) =~= base@);
        }
        while end > 0 && base.get_char(end - 1) == '/'
            invariant
                end <= base@.len(),
                without_trailing_slashes(base@) == without_trailing_slashes(
                    base@.take(end as int),
                ),
            decreases end,
        {
            proof {
                assert(base@.take(end as int).drop_last() =~= base@.take(end - 1));
            }
            end = end - 1;
        }
        let mut target = String::from_str(base.substring_char(0, end));
        target.append("/api/RoutePoints");
        proof {
            assert(base@.subrange(0, end as int) =~= base@.take(end as int));
        }
        target
    }
}

/// Whether streaming is set up, and if not, why not.
#[derive(Clone, Copy, Debug, PartialEq, Eq, Structural)]
pub enum StreamingSetup {
    /// Streaming is switched on and has a key.
    Enabled,
    /// Streaming is switched off.
    Disabled,
    /// Streaming is switched on, but the key is empty.
    EmptyKey,
    /// Streaming is switched on, but no key is set.
    MissingKey,
}

/// Decides whether a client is started: streaming has to be switched on,
/// and a key that is not empty has to be set.
pub fn streaming_setup(enabled: bool, push_key: Option<&str>) -> (setup: StreamingSetup)
    ensures
        setup == if !enabled {
            StreamingSetup::Disabled
        } else {
            match push_key {
                None => StreamingSetup::MissingKey,
                Some(key) => if key@.len() == 0 {
                    StreamingSetup::EmptyKey
                } else {
                    StreamingSetup::Enabled
                },
            }
        },
{
    if !enabled {
        return StreamingSetup::Disabled;
    }
    match push_key {
        None => StreamingSetup::MissingKey,
        Some(key) => if key.is_empty() {
            StreamingSetup::EmptyKey
        } else {
            StreamingSetup::Enabled
        },
    }
}

} // verus!
