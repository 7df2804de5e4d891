//! The multiplexing engine, modelled as explicit state with one step
//! function per concurrent role: the client-facing read loop publishes onto
//! a fan-out broadcaster; one writer task per backend drains its own
//! subscription and frames messages for the backend; one reader task per
//! backend decodes backend output into a bounded per-backend queue; the
//! aggregator drains those queues in configured order onto the client
//! stream. The surrounding process runs these steps concurrently and does
//! the actual I/O; every decision and every buffer lives here.
use vstd::prelude::*;

use crate::codec::CodecError;
use crate::codec::decode_frame;
use crate::codec::decode_message;
use crate::codec::encode_frame;
use crate::codec::frame_bytes;
use crate::codec::json_canon;
use crate::codec::json_ok;
use crate::codec::parse_headers;
use crate::codec::spec_decode;
use crate::config::LspConfig;

verus! {

/// Copies one message body.
fn clone_bytes(v: &Vec<u8>) -> (r: Vec<u8>)
    ensures
        r@ == v@,
{
    let mut r: Vec<u8> = Vec::new();
    let mut i: usize = 0;
    while i < v.len()
        invariant
            i <= v@.len(),
            r@ =~= v@.take(i as int),
        decreases v.len() - i,
    {
        r.push(v[i]);
        assert(r@ =~= v@.take(i + 1 as int));
        i = i + 1;
    }
    assert(v@.take(v@.len() as int) =~= v@);
    r
}

/// What one receive on a broadcast subscription yields.
pub enum RecvOutcome {
    /// The next message, in publish order.
    Message(Vec<u8>),
    /// The subscriber fell more than the capacity behind: this many messages
    /// were lost, and the subscription resumes at the oldest retained one.
    Lagged(usize),
    /// Nothing published yet beyond what was already received.
    Empty,
    /// The publisher is closed and everything published was received.
    Closed,
}

/// The fan-out point: every message published is observed, in order, by
/// every subscriber that keeps up; a subscriber that falls more than the
/// capacity behind loses the overrun messages and is told so.
pub struct Broadcaster {
    capacity: usize,
    closed: bool,
    history: Vec<Vec<u8>>,
    next: Vec<usize>,
    desynced: Vec<bool>,
    observed: Ghost<Seq<Seq<Seq<u8>>>>,
}

impl Broadcaster {
    /// Retention capacity of the channel.
    pub closed spec fn spec_capacity(self) -> nat {
        self.capacity as nat
    }

    /// Every message ever published, in publish order.
    pub closed spec fn published(self) -> Seq<Seq<u8>> {
        self.history@.map_values(|v: Vec<u8>| v@)
    }

    /// Number of subscribers, fixed at construction.
    pub closed spec fn subscriber_count(self) -> nat {
        self.next@.len()
    }

    /// Position of subscriber `i`: how many published messages are behind it.
    pub closed spec fn next_of(self, i: int) -> nat {
        self.next@[i] as nat
    }

    /// Whether subscriber `i` has ever been told it lost messages.
    pub closed spec fn is_desynced(self, i: int) -> bool {
        self.desynced@[i]
    }

    /// Every message subscriber `i` has received, in the order received.
    pub closed spec fn observed_of(self, i: int) -> Seq<Seq<u8>> {
        self.observed@[i]
    }

    /// Whether the publishing side has closed the channel.
    pub closed spec fn is_closed(self) -> bool {
        self.closed
    }

    /// How many published messages subscriber `i` has not yet received.
    pub open spec fn lag_of(self, i: int) -> int {
        self.published().len() - self.next_of(i)
    }

    /// The per-subscriber records all cover the same subscribers.
    pub closed spec fn records_consistent(self) -> bool {
        self.desynced@.len() == self.next@.len() && self.observed@.len() == self.next@.len()
    }

    /// Well-formedness, carrying the fan-out completeness invariant: a
    /// subscriber that never lost messages has observed exactly the
    /// published prefix up to its position.
    pub open spec fn wf(self) -> bool {
        &&& self.spec_capacity() >= 1
        &&& self.records_consistent()
        &&& forall|i: int|
            0 <= i < self.subscriber_count() ==> self.next_of(i) <= self.published().len()
        &&& forall|i: int|
            0 <= i < self.subscriber_count() && !self.is_desynced(i) ==> self.observed_of(i)
                == self.published().take(self.next_of(i) as int)
    }

    /// What `wf` says of one subscriber, made available for one instantiation.
    proof fn lemma_wf_at(self, i: int)
        requires
            self.wf(),
            0 <= i < self.subscriber_count(),
        ensures
            self.next_of(i) <= self.published().len(),
            !self.is_desynced(i) ==> self.observed_of(i) == self.published().take(
                self.next_of(i) as int,
            ),
    {
    }

    /// A broadcaster with `subscribers` subscriptions, all registered before
    /// anything is published.
    pub fn new(capacity: usize, subscribers: usize) -> (r: Broadcaster)
        requires
            capacity >= 1,
        ensures
            r.wf(),
            r.spec_capacity() == capacity,
            r.subscriber_count() == subscribers,
            r.published() == Seq::<Seq<u8>>::empty(),
            !r.is_closed(),
            forall|i: int| 0 <= i < subscribers ==> r.next_of(i) == 0,
            forall|i: int| 0 <= i < subscribers ==> !r.is_desynced(i),
            forall|i: int| 0 <= i < subscribers ==> r.observed_of(i) == Seq::<Seq<u8>>::empty(),
    {
        let mut next: Vec<usize> = Vec::new();
        let mut desynced: Vec<bool> = Vec::new();
        let mut k: usize = 0;
        while k < subscribers
            invariant
                k <= subscribers,
                next@.len() == k,
                desynced@.len() == k,
                forall|j: int| 0 <= j < k ==> next@[j] == 0,
                forall|j: int| 0 <= j < k ==> !desynced@[j],
            decreases subscribers - k,
        {
            next.push(0);
            desynced.push(false);
            k = k + 1;
        }
        let r = Broadcaster {
            capacity,
            closed: false,
            history: Vec::new(),
            next,
            desynced,
            observed: Ghost(Seq::new(subscribers as nat, |i: int| Seq::empty())),
        };
        assert(r.published() =~= Seq::<Seq<u8>>::empty());
        assert forall|i: int| 0 <= i < subscribers implies r.observed_of(i) == Seq::<Seq<
            u8,
        >>::empty() by {
            assert(r.observed@[i] =~= Seq::<Seq<u8>>::empty());
        }
        assert forall|i: int|
            0 <= i < r.subscriber_count() && !r.is_desynced(i) implies r.observed_of(i)
            == r.published().take(r.next_of(i) as int) by {
            assert(r.published().take(r.next_of(i) as int) =~= Seq::<Seq<u8>>::empty());
        }
        r
    }

    /// Publishes one message: it is appended to the published sequence and
    /// becomes visible to every subscriber; nothing else changes.
    pub fn publish(&mut self, m: Vec<u8>)
        requires
            old(self).wf(),
            !old(self).is_closed(),
        ensures
            final(self).wf(),
            final(self).published() == old(self).published().push(m@),
            final(self).spec_capacity() == old(self).spec_capacity(),
            final(self).subscriber_count() == old(self).subscriber_count(),
            final(self).is_closed() == old(self).is_closed(),
            forall|i: int|
                0 <= i < final(self).subscriber_count() ==> final(self).next_of(i) == old(self).next_of(i),
            forall|i: int|
                0 <= i < final(self).subscriber_count() ==> final(self).is_desynced(i) == old(self).is_desynced(
                    i,
                ),
            forall|i: int|
                0 <= i < final(self).subscriber_count() ==> final(self).observed_of(i) == old(self).observed_of(
                    i,
                ),
    {
        self.history.push(m);
        proof {
            assert(self.published() =~= old(self).published().push(m@));
            assert forall|i: int|
                0 <= i < self.subscriber_count() implies self.next_of(i)
                <= self.published().len() by {
                old(self).lemma_wf_at(i);
            }
            assert forall|i: int|
                0 <= i < self.subscriber_count() && !self.is_desynced(i) implies self.observed_of(
                i,
            ) == self.published().take(self.next_of(i) as int) by {
                old(self).lemma_wf_at(i);
                assert(self.published().take(self.next_of(i) as int) =~= old(self).published().take(old(self).next_of(i) as int));
            }
        }
    }

    /// Closes the publishing side: subscribers still receive everything
    /// already published, then see `Closed`.
    pub fn close(&mut self)
        requires
            old(self).wf(),
        ensures
            final(self).wf(),
            final(self).is_closed(),
            final(self).published() == old(self).published(),
            final(self).spec_capacity() == old(self).spec_capacity(),
            final(self).subscriber_count() == old(self).subscriber_count(),
            forall|i: int|
                0 <= i < final(self).subscriber_count() ==> final(self).next_of(i) == old(self).next_of(i)
                    && final(self).is_desynced(i) == old(self).is_desynced(i) && final(self).observed_of(i)
                    == old(self).observed_of(i),
    {
        self.closed = true;
        proof {
            assert forall|i: int|
                0 <= i < self.subscriber_count() implies self.next_of(i)
                <= self.published().len() by {
                old(self).lemma_wf_at(i);
            }
            assert forall|i: int|
                0 <= i < self.subscriber_count() && !self.is_desynced(i) implies self.observed_of(
                i,
            ) == self.published().take(self.next_of(i) as int) by {
                old(self).lemma_wf_at(i);
            }
        }
    }

    /// One receive by subscriber `i`. A subscriber within the capacity gets
    /// the next published message, exactly once, in publish order. One that
    /// fell more than the capacity behind gets the count of lost messages
    /// and resumes at the oldest retained message. Otherwise the subscriber
    /// is up to date: nothing yet, or the closed signal.
    pub fn recv(&mut self, i: usize) -> (r: RecvOutcome)
        requires
            old(self).wf(),
            i < old(self).subscriber_count(),
        ensures
            final(self).wf(),
            final(self).published() == old(self).published(),
            final(self).spec_capacity() == old(self).spec_capacity(),
            final(self).subscriber_count() == old(self).subscriber_count(),
            final(self).is_closed() == old(self).is_closed(),
            forall|j: int|
                0 <= j < final(self).subscriber_count() && j != i ==> final(self).next_of(j) == old(self).next_of(j) && final(self).is_desynced(j) == old(self).is_desynced(j)
                    && final(self).observed_of(j) == old(self).observed_of(j),
            match r {
                RecvOutcome::Message(m) => {
                    &&& 0 < old(self).lag_of(i as int) <= old(self).spec_capacity()
                    &&& m@ == old(self).published()[old(self).next_of(i as int) as int]
                    &&& final(self).next_of(i as int) == old(self).next_of(i as int) + 1
                    &&& final(self).is_desynced(i as int) == old(self).is_desynced(i as int)
                    &&& final(self).observed_of(i as int) == old(self).observed_of(i as int).push(m@)
                },
                RecvOutcome::Lagged(missed) => {
                    &&& old(self).lag_of(i as int) > old(self).spec_capacity()
                    &&& missed as int == old(self).lag_of(i as int) - old(self).spec_capacity()
                    &&& final(self).next_of(i as int) == old(self).published().len() - old(self).spec_capacity()
                    &&& final(self).is_desynced(i as int)
                    &&& final(self).observed_of(i as int) == old(self).observed_of(i as int)
                },
                RecvOutcome::Empty => {
                    &&& old(self).lag_of(i as int) == 0
                    &&& !old(self).is_closed()
                    &&& *final(self) == *old(self)
                },
                RecvOutcome::Closed => {
                    &&& old(self).lag_of(i as int) == 0
                    &&& old(self).is_closed()
                    &&& *final(self) == *old(self)
                },
            },
    {
        let len = self.history.len();
        let ni = self.next[i];
        if ni == len {
            if self.closed {
                RecvOutcome::Closed
            } else {
                RecvOutcome::Empty
            }
        } else if len - ni > self.capacity {
            let missed = len - self.capacity - ni;
            self.next.set(i, len - self.capacity);
            self.desynced.set(i, true);
            proof {
                assert forall|j: int|
                    0 <= j < self.subscriber_count() implies self.next_of(j)
                    <= self.published().len() by {
                    old(self).lemma_wf_at(j);
                }
                assert forall|j: int|
                    0 <= j < self.subscriber_count() && !self.is_desynced(j) implies
                    self.observed_of(j) == self.published().take(self.next_of(j) as int) by {
                    old(self).lemma_wf_at(j);
                }
            }
            RecvOutcome::Lagged(missed)
        } else {
            let m = clone_bytes(&self.history[ni]);
            self.next.set(i, ni + 1);
            let ghost obs = self.observed@;
            proof {
                self.observed@ = obs.update(i as int, obs[i as int].push(m@));
                assert(m@ == self.published()[ni as int]);
                assert forall|j: int|
                    0 <= j < self.subscriber_count() implies self.next_of(j)
                    <= self.published().len() by {
                    old(self).lemma_wf_at(j);
                }
                assert forall|j: int|
                    0 <= j < self.subscriber_count() && !self.is_desynced(j) implies
                    self.observed_of(j) == self.published().take(self.next_of(j) as int) by {
                    old(self).lemma_wf_at(j);
                    if j == i {
                        assert(self.observed_of(j) == old(self).observed_of(j).push(m@));
                        assert(self.published().take(ni + 1 as int) =~= self.published().take(
                            ni as int,
                        ).push(self.published()[ni as int]));
                    } else {
                        assert(self.observed_of(j) == old(self).observed_of(j));
                    }
                }
            }
            RecvOutcome::Message(m)
        }
    }
}

/// Fan-out completeness law: a subscriber that has never been told it lost
/// messages has observed, in publish order, exactly one copy of each
/// message published up to its position — no duplicate, no omission, no
/// reordering.
pub proof fn lemma_fanout_completeness(b: Broadcaster, i: int)
    requires
        b.wf(),
        0 <= i < b.subscriber_count(),
        !b.is_desynced(i),
    ensures
        b.observed_of(i) =~= b.published().take(b.next_of(i) as int),
        b.observed_of(i).len() == b.next_of(i),
        forall|k: int|
            0 <= k < b.next_of(i) ==> b.observed_of(i)[k] == b.published()[k],
{
    b.lemma_wf_at(i);
}

/// What a backend writer task does after one receive.
pub enum WriterAction {
    /// Write these frame bytes to the backend's input stream.
    Forward(Vec<u8>),
    /// Nothing to do yet; receive again once something is published.
    Wait,
    /// Exit the task, silencing this backend permanently.
    Stop,
}

/// The backend writer task's decision for one receive outcome: a message is
/// framed for the backend's input stream; a closed channel stops the task;
/// and a lagged subscription is treated exactly like a closed channel — the
/// task stops and the backend is silenced until restart. That last rule is
/// deliberate: a desynchronized backend has already lost messages, and
/// silencing it is preferred over letting it resume with gaps mid-stream.
pub fn writer_step(outcome: RecvOutcome) -> (r: WriterAction)
    ensures
        match outcome {
            RecvOutcome::Message(m) => r matches WriterAction::Forward(f) && f@ == frame_bytes(
                m@,
            ),
            RecvOutcome::Lagged(_) => r == WriterAction::Stop,
            RecvOutcome::Empty => r == WriterAction::Wait,
            RecvOutcome::Closed => r == WriterAction::Stop,
        },
{
    match outcome {
        RecvOutcome::Message(m) => WriterAction::Forward(encode_frame(&m)),
        RecvOutcome::Lagged(_) => WriterAction::Stop,
        RecvOutcome::Empty => WriterAction::Wait,
        RecvOutcome::Closed => WriterAction::Stop,
    }
}

/// What a push onto a bounded queue with the given contents does: under
/// capacity it appends and is accepted; at capacity it is refused and the
/// contents are kept untouched.
pub open spec fn spec_queue_push(s: Seq<Seq<u8>>, cap: nat, m: Seq<u8>) -> (Seq<Seq<u8>>, bool) {
    if s.len() < cap {
        (s.push(m), true)
    } else {
        (s, false)
    }
}

/// Backpressure, not loss: a push onto a full queue is refused with the
/// queue unchanged — the producer must wait, nothing is dropped — and any
/// accepted push appends at the tail, so draining yields accepted messages
/// in push order.
pub proof fn lemma_queue_backpressure(s: Seq<Seq<u8>>, cap: nat, m: Seq<u8>)
    ensures
        s.len() >= cap ==> spec_queue_push(s, cap, m) == (s, false),
        s.len() < cap ==> spec_queue_push(s, cap, m) == (s.push(m), true),
{
}

/// Whether a push was accepted; a refused push hands the message back.
pub enum PushOutcome {
    /// The message is now at the tail of the queue.
    Accepted,
    /// The queue is full: the message comes back, nothing changed.
    Full(Vec<u8>),
}

/// A bounded single-producer single-consumer queue: one per backend, filled
/// by that backend's reader task and drained by the aggregator. A full
/// queue refuses pushes rather than dropping messages.
pub struct BoundedQueue {
    capacity: usize,
    items: Vec<Vec<u8>>,
}

impl BoundedQueue {
    /// Capacity of the queue.
    pub closed spec fn spec_capacity(self) -> nat {
        self.capacity as nat
    }

    /// The queued messages, front first.
    pub closed spec fn contents(self) -> Seq<Seq<u8>> {
        self.items@.map_values(|v: Vec<u8>| v@)
    }

    pub open spec fn wf(self) -> bool {
        self.spec_capacity() >= 1 && self.contents().len() <= self.spec_capacity()
    }

    /// An empty queue of the given capacity.
    pub fn new(capacity: usize) -> (r: BoundedQueue)
        requires
            capacity >= 1,
        ensures
            r.wf(),
            r.spec_capacity() == capacity,
            r.contents() == Seq::<Seq<u8>>::empty(),
    {
        let r = BoundedQueue { capacity, items: Vec::new() };
        assert(r.contents() =~= Seq::<Seq<u8>>::empty());
        r
    }

    /// Number of queued messages.
    pub fn len(&self) -> (r: usize)
        ensures
            r == self.contents().len(),
    {
        self.items.len()
    }

    /// Pushes one message: appended under capacity, refused and handed back
    /// at capacity, exactly as `spec_queue_push` says.
    pub fn push(&mut self, m: Vec<u8>) -> (r: PushOutcome)
        requires
            old(self).wf(),
        ensures
            final(self).wf(),
            final(self).spec_capacity() == old(self).spec_capacity(),
            final(self).contents() == spec_queue_push(
                old(self).contents(),
                old(self).spec_capacity(),
                m@,
            ).0,
            match r {
                PushOutcome::Accepted => spec_queue_push(
                    old(self).contents(),
                    old(self).spec_capacity(),
                    m@,
                ).1,
                PushOutcome::Full(ret) => !spec_queue_push(
                    old(self).contents(),
                    old(self).spec_capacity(),
                    m@,
                ).1 && ret@ == m@,
            },
    {
        if self.items.len() < self.capacity {
            let ghost mv = m@;
            self.items.push(m);
            assert(self.contents() =~= old(self).contents().push(mv));
            PushOutcome::Accepted
        } else {
            PushOutcome::Full(m)
        }
    }

    /// Pops the front message, if any: messages leave in push order.
    pub fn pop(&mut self) -> (r: Option<Vec<u8>>)
        requires
            old(self).wf(),
        ensures
            final(self).wf(),
            final(self).spec_capacity() == old(self).spec_capacity(),
            match r {
                Some(m) => old(self).contents().len() > 0 && m@ == old(self).contents()[0]
                    && final(self).contents() == old(self).contents().skip(1),
                None => old(self).contents().len() == 0 && final(self).contents() == old(self).contents(),
            },
    {
        if self.items.len() == 0 {
            None
        } else {
            let m = self.items.remove(0);
            assert(self.contents() =~= old(self).contents().skip(1));
            Some(m)
        }
    }

    /// Empties the queue, yielding every queued message in push order.
    pub fn drain(&mut self) -> (r: Vec<Vec<u8>>)
        requires
            old(self).wf(),
        ensures
            final(self).wf(),
            final(self).spec_capacity() == old(self).spec_capacity(),
            final(self).contents() == Seq::<Seq<u8>>::empty(),
            r@.map_values(|v: Vec<u8>| v@) == old(self).contents(),
    {
        let mut out: Vec<Vec<u8>> = Vec::new();
        while self.items.len() > 0
            invariant
                self.wf(),
                self.spec_capacity() == old(self).spec_capacity(),
                out@.map_values(|v: Vec<u8>| v@) + self.contents() =~= old(self).contents(),
            decreases self.items.len(),
        {
            let ghost pre = self.contents();
            let ghost outm = out@.map_values(|v: Vec<u8>| v@);
            let m = self.items.remove(0);
            proof {
                assert(self.contents() =~= pre.skip(1));
                assert(m@ == pre[0]);
            }
            out.push(m);
            proof {
                assert(out@.map_values(|v: Vec<u8>| v@) =~= outm.push(pre[0]));
                assert(outm.push(pre[0]) + pre.skip(1) =~= outm + pre);
            }
        }
        assert(self.contents() =~= Seq::<Seq<u8>>::empty());
        assert(out@.map_values(|v: Vec<u8>| v@) + self.contents() =~= out@.map_values(
            |v: Vec<u8>| v@,
        ));
        out
    }
}

/// What a backend reader task does after one attempt to decode and queue.
pub enum ReaderOutcome {
    /// A message was decoded from this many input bytes and queued.
    Queued(usize),
    /// The message decoded but its queue is full: nothing changed, the
    /// reader must wait for the aggregator to drain and try again.
    Blocked,
    /// The input does not decode: the reader task exits and this backend
    /// stops contributing output, the rest of the engine unaffected.
    Stop(CodecError),
}

/// The multiplexer: the broadcaster fanning client messages out to the
/// backends, one bounded queue per backend fanning backend output back in,
/// and the configured backend list fixing the fan-in visiting order.
pub struct Engine {
    /// The configured backends; queue `i` and subscriber `i` belong to
    /// `config.languages[i]`, and the aggregator visits queues in this
    /// order.
    pub config: LspConfig,
    /// Fan-out of client messages, one subscription per backend.
    pub broadcaster: Broadcaster,
    /// Fan-in queues, one per backend, in configured order.
    pub queues: Vec<BoundedQueue>,
}

impl Engine {
    pub open spec fn backend_count(self) -> nat {
        self.config.languages@.len()
    }

    pub open spec fn wf(self) -> bool {
        &&& self.broadcaster.wf()
        &&& self.broadcaster.subscriber_count() == self.backend_count()
        &&& self.queues@.len() == self.backend_count()
        &&& forall|i: int| 0 <= i < self.backend_count() ==> self.queues@[i].wf()
    }

    /// An engine for the configured backends, with nothing published and
    /// every queue empty. Every backend is subscribed from the start: a
    /// message published later is owed to each of them.
    pub fn new(config: LspConfig, capacity: usize) -> (r: Engine)
        requires
            capacity >= 1,
        ensures
            r.wf(),
            r.config.languages@ == config.languages@,
            r.broadcaster.published() == Seq::<Seq<u8>>::empty(),
            r.broadcaster.spec_capacity() == capacity,
            !r.broadcaster.is_closed(),
            forall|i: int| 0 <= i < r.backend_count() ==> r.broadcaster.next_of(i) == 0,
            forall|i: int| 0 <= i < r.backend_count() ==> !r.broadcaster.is_desynced(i),
            forall|i: int|
                0 <= i < r.backend_count() ==> r.queues@[i].contents() == Seq::<Seq<u8>>::empty()
                    && r.queues@[i].spec_capacity() == capacity,
    {
        let n = config.languages.len();
        let broadcaster = Broadcaster::new(capacity, n);
        let mut queues: Vec<BoundedQueue> = Vec::new();
        let mut k: usize = 0;
        while k < n
            invariant
                k <= n,
                queues@.len() == k,
                capacity >= 1,
                forall|i: int|
                    0 <= i < k ==> (#[trigger] queues@[i]).wf() && queues@[i].contents() == Seq::<
                        Seq<u8>,
                    >::empty() && queues@[i].spec_capacity() == capacity,
            decreases n - k,
        {
            queues.push(BoundedQueue::new(capacity));
            k = k + 1;
        }
        Engine { config, broadcaster, queues }
    }

    /// One step of the client-facing read loop: decode one frame from the
    /// client input, parse its body as one JSON document, and broadcast the
    /// document's re-serialization to every backend. Exactly the inputs
    /// framing one JSON document are accepted; on any error nothing is
    /// published and the loop's caller treats the error as fatal to the
    /// whole engine.
    pub fn client_step(&mut self, input: &Vec<u8>) -> (r: Result<usize, CodecError>)
        requires
            old(self).wf(),
            !old(self).broadcaster.is_closed(),
        ensures
            final(self).wf(),
            final(self).config.languages@ == old(self).config.languages@,
            final(self).queues@ == old(self).queues@,
            final(self).broadcaster.spec_capacity() == old(self).broadcaster.spec_capacity(),
            final(self).broadcaster.subscriber_count() == old(self).broadcaster.subscriber_count(),
            final(self).broadcaster.is_closed() == old(self).broadcaster.is_closed(),
            forall|j: int|
                0 <= j < old(self).broadcaster.subscriber_count() ==> final(self).broadcaster.next_of(j) == old(self).broadcaster.next_of(j) && final(self).broadcaster.is_desynced(j) == old(self).broadcaster.is_desynced(j) && final(self).broadcaster.observed_of(j) == old(self).broadcaster.observed_of(j),
            match r {
                Ok(consumed) => ({
                    &&& spec_decode(input@) matches Some((body, c)) && consumed as nat == c
                        && json_ok(body) && final(self).broadcaster.published() == old(self).broadcaster.published().push(json_canon(body))
                }),
                Err(e) => ({
                    &&& *final(self) == *old(self)
                    &&& match e {
                        CodecError::MalformedHeader => parse_headers(input@, 0) is None,
                        CodecError::TruncatedBody => parse_headers(input@, 0) is Some
                            && spec_decode(input@) is None,
                        CodecError::InvalidJson => spec_decode(input@) matches Some((body, _))
                            && !json_ok(body),
                    }
                }),
            },
    {
        match decode_message(input) {
            Ok((msg, consumed)) => {
                self.broadcaster.publish(msg);
                Ok(consumed)
            },
            Err(e) => Err(e),
        }
    }

    /// Marks the client input stream closed: nothing further will be
    /// published, and each writer task, once drained, sees the closed
    /// signal and stops.
    pub fn close_input(&mut self)
        requires
            old(self).wf(),
        ensures
            final(self).wf(),
            final(self).config.languages@ == old(self).config.languages@,
            final(self).queues@ == old(self).queues@,
            final(self).broadcaster.is_closed(),
            final(self).broadcaster.published() == old(self).broadcaster.published(),
    {
        self.broadcaster.close();
    }

    /// One receive by backend `i`'s writer task from its subscription:
    /// exactly `Broadcaster::recv` on subscription `i`, with the rest of
    /// the engine untouched.
    pub fn writer_recv(&mut self, i: usize) -> (r: RecvOutcome)
        requires
            old(self).wf(),
            i < old(self).backend_count(),
        ensures
            final(self).wf(),
            final(self).config.languages@ == old(self).config.languages@,
            final(self).queues@ == old(self).queues@,
            final(self).broadcaster.published() == old(self).broadcaster.published(),
            final(self).broadcaster.spec_capacity() == old(self).broadcaster.spec_capacity(),
            final(self).broadcaster.subscriber_count() == old(self).broadcaster.subscriber_count(),
            final(self).broadcaster.is_closed() == old(self).broadcaster.is_closed(),
            forall|j: int|
                0 <= j < old(self).broadcaster.subscriber_count() && j != i ==> final(self).broadcaster.next_of(j) == old(self).broadcaster.next_of(j) && final(self).broadcaster.is_desynced(j) == old(self).broadcaster.is_desynced(j) && final(self).broadcaster.observed_of(j) == old(self).broadcaster.observed_of(j),
            match r {
                RecvOutcome::Message(m) => {
                    &&& 0 < old(self).broadcaster.lag_of(i as int) <= old(self).broadcaster.spec_capacity()
                    &&& m@ == old(self).broadcaster.published()[old(self).broadcaster.next_of(
                        i as int,
                    ) as int]
                    &&& final(self).broadcaster.next_of(i as int) == old(self).broadcaster.next_of(i as int) + 1
                    &&& final(self).broadcaster.is_desynced(i as int) == old(self).broadcaster.is_desynced(i as int)
                    &&& final(self).broadcaster.observed_of(i as int) == old(self).broadcaster.observed_of(i as int).push(m@)
                },
                RecvOutcome::Lagged(missed) => {
                    &&& old(self).broadcaster.lag_of(i as int) > old(self).broadcaster.spec_capacity()
                    &&& missed as int == old(self).broadcaster.lag_of(i as int) - old(self).broadcaster.spec_capacity()
                    &&& final(self).broadcaster.next_of(i as int) == old(self).broadcaster.published().len() - old(self).broadcaster.spec_capacity()
                    &&& final(self).broadcaster.is_desynced(i as int)
                    &&& final(self).broadcaster.observed_of(i as int) == old(self).broadcaster.observed_of(i as int)
                },
                RecvOutcome::Empty => old(self).broadcaster.lag_of(i as int) == 0 && !old(self).broadcaster.is_closed() && *final(self) == *old(self),
                RecvOutcome::Closed => old(self).broadcaster.lag_of(i as int) == 0 && old(self).broadcaster.is_closed() && *final(self) == *old(self),
            },
    {
        self.broadcaster.recv(i)
    }

    /// One step of backend `i`'s reader task: decode one frame of backend
    /// output, canonicalize its JSON body, and queue it on backend `i`'s
    /// own queue. Only that queue can change; a full queue blocks the
    /// reader (nothing lost), and undecodable output stops this reader
    /// alone.
    pub fn reader_step(&mut self, i: usize, input: &Vec<u8>) -> (r: ReaderOutcome)
        requires
            old(self).wf(),
            i < old(self).backend_count(),
        ensures
            final(self).wf(),
            final(self).config.languages@ == old(self).config.languages@,
            final(self).broadcaster == old(self).broadcaster,
            final(self).queues@.len() == old(self).queues@.len(),
            forall|j: int|
                0 <= j < old(self).queues@.len() && j != i ==> final(self).queues@[j] == old(self).queues@[j],
            match r {
                ReaderOutcome::Queued(consumed) => ({
                    &&& spec_decode(input@) matches Some((body, c)) && consumed as nat == c
                        && json_ok(body) && final(self).queues@[i as int].contents() == old(self).queues@[i as int].contents().push(json_canon(body))
                }),
                ReaderOutcome::Blocked => ({
                    &&& spec_decode(input@) matches Some((body, _)) && json_ok(body)
                    &&& old(self).queues@[i as int].contents().len() == old(self).queues@[
                        i as int
                    ].spec_capacity()
                    &&& final(self).queues@[i as int].contents() == old(self).queues@[
                        i as int
                    ].contents()
                }),
                ReaderOutcome::Stop(e) => ({
                    &&& *final(self) == *old(self)
                    &&& match e {
                        CodecError::MalformedHeader => parse_headers(input@, 0) is None,
                        CodecError::TruncatedBody => parse_headers(input@, 0) is Some
                            && spec_decode(input@) is None,
                        CodecError::InvalidJson => spec_decode(input@) matches Some((body, _))
                            && !json_ok(body),
                    }
                }),
            },
    {
        match decode_message(input) {
            Ok((msg, consumed)) => {
                let mut q = self.queues.remove(i);
                let ghost qpre = q;
                match q.push(msg) {
                    PushOutcome::Accepted => {
                        self.queues.insert(i, q);
                        proof {
                            lemma_queue_put_back(old(self).queues@, self.queues@, i as int, q);
                        }
                        ReaderOutcome::Queued(consumed)
                    },
                    PushOutcome::Full(_) => {
                        self.queues.insert(i, q);
                        proof {
                            lemma_queue_put_back(old(self).queues@, self.queues@, i as int, q);
                        }
                        ReaderOutcome::Blocked
                    },
                }
            },
            Err(e) => ReaderOutcome::Stop(e),
        }
    }

    /// One aggregator dequeue for backend `i`: the front of that backend's
    /// queue leaves, framed for the client stream; every other backend's
    /// queue is untouched, so one backend never costs another its queued
    /// output. The aggregator calls this for each backend in configured
    /// order, blocking on each in turn.
    pub fn aggregator_pop(&mut self, i: usize) -> (r: Option<Vec<u8>>)
        requires
            old(self).wf(),
            i < old(self).backend_count(),
        ensures
            final(self).wf(),
            final(self).config.languages@ == old(self).config.languages@,
            final(self).broadcaster == old(self).broadcaster,
            final(self).queues@.len() == old(self).queues@.len(),
            forall|j: int|
                0 <= j < old(self).queues@.len() && j != i ==> final(self).queues@[j] == old(self).queues@[j],
            match r {
                Some(frame) => old(self).queues@[i as int].contents().len() > 0 && frame@
                    == frame_bytes(old(self).queues@[i as int].contents()[0]) && final(self).queues@[i as int].contents() == old(self).queues@[i as int].contents().skip(1),
                None => old(self).queues@[i as int].contents().len() == 0 && final(self).queues@[i as int].contents() == old(self).queues@[i as int].contents(),
            },
    {
        let mut q = self.queues.remove(i);
        match q.pop() {
            Some(m) => {
                self.queues.insert(i, q);
                        proof {
                            lemma_queue_put_back(old(self).queues@, self.queues@, i as int, q);
                        }
                Some(encode_frame(&m))
            },
            None => {
                self.queues.insert(i, q);
                        proof {
                            lemma_queue_put_back(old(self).queues@, self.queues@, i as int, q);
                        }
                None
            },
        }
    }
}


/// One queue taken out at `i`, operated on, and put back at `i`: every
/// other queue stays exactly in place, the put-back queue stands at `i`,
/// and well-formedness of the whole row is kept.
proof fn lemma_queue_put_back(pre: Seq<BoundedQueue>, post: Seq<BoundedQueue>, i: int, q: BoundedQueue)
    requires
        0 <= i < pre.len(),
        post == pre.remove(i).insert(i, q),
        forall|j: int| 0 <= j < pre.len() ==> (#[trigger] pre[j]).wf(),
        q.wf(),
    ensures
        post.len() == pre.len(),
        post[i] == q,
        forall|j: int| 0 <= j < pre.len() && j != i ==> post[j] == pre[j],
        forall|j: int| 0 <= j < post.len() ==> (#[trigger] post[j]).wf(),
{
    assert forall|j: int| 0 <= j < pre.len() && j != i implies post[j] == pre[j] by {
        if j < i {
            assert(pre.remove(i)[j] == pre[j]);
        } else {
            assert(pre.remove(i)[j - 1] == pre[j]);
        }
    }
    assert forall|j: int| 0 <= j < post.len() implies (#[trigger] post[j]).wf() by {
        if j != i {
            assert(post[j] == pre[j]);
        }
    }
}

} // verus!
