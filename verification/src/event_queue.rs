//! Fixed-capacity event queues used by the realtime render path.
//!
//! A queue is prepared once with a bound and never grows: an event pushed into
//! a full queue is dropped and counted instead of allocating.
use vstd::prelude::*;

verus! {

/// A note event produced by MIDI input or a script.
#[derive(Clone, Copy, Debug, PartialEq, Eq, Structural)]
pub enum ScriptEvent {
    NoteOn { note: u8, velocity: u8 },
    NoteOff { note: u8 },
}

/// An event scheduled at a frame offset inside the current block.
#[derive(Clone, Copy, Debug, PartialEq, Eq, Structural)]
pub struct BlockEvent {
    pub frame_offset: u32,
    pub event: ScriptEvent,
}

/// Reported when an event could not be queued because the queue was full.
#[derive(Clone, Copy, Debug, PartialEq, Eq, Structural)]
pub struct EventQueueOverflow {
    /// Total events this queue has dropped so far, including this one.
    pub dropped_events: usize,
}

/// Index of a prepared event queue.
#[derive(Clone, Copy, Debug, PartialEq, Eq, Structural)]
pub struct EventQueueId(pub usize);

/// A compiled event connection: everything queued at `source` is also
/// delivered to `destination`.
#[derive(Clone, Copy, Debug, PartialEq, Eq, Structural)]
pub struct CompiledEventEdge {
    pub source: EventQueueId,
    pub destination: EventQueueId,
}

/// The note an event concerns.
pub open spec fn note_of(event: ScriptEvent) -> u8 {
    match event {
        ScriptEvent::NoteOn { note, .. } => note,
        ScriptEvent::NoteOff { note } => note,
    }
}

/// `true` when `event` concerns `expected_note`, or when no note is expected.
pub fn event_matches_note(event: &BlockEvent, expected_note: Option<u8>) -> (matches: bool)
    ensures
        matches == match expected_note {
            None => true,
            Some(note) => note_of(event.event) == note,
        },
{
    match expected_note {
        None => true,
        Some(expected) => match event.event {
            ScriptEvent::NoteOn { note, .. } => note == expected,
            ScriptEvent::NoteOff { note } => note == expected,
        },
    }
}

/// The block event an undelayed script event becomes when drained.
pub open spec fn at_block_start(event: ScriptEvent) -> BlockEvent {
    BlockEvent { frame_offset: 0, event }
}

/// A bounded FIFO of script events that counts the events it had to drop.
pub struct BoundedEventQueue {
    events: Vec<ScriptEvent>,
    bound: usize,
    dropped_events: usize,
}

impl BoundedEventQueue {
    /// The queued events, oldest first.
    pub closed spec fn queued(self) -> Seq<ScriptEvent> {
        self.events@
    }

    /// The fixed number of events the queue can hold.
    pub closed spec fn limit(self) -> nat {
        self.bound as nat
    }

    /// Events dropped since the queue was created.
    pub closed spec fn dropped(self) -> nat {
        self.dropped_events as nat
    }

    /// An empty queue that holds at most `capacity` events.
    pub fn with_capacity(capacity: usize) -> (queue: Self)
        ensures
            queue.queued() == Seq::<ScriptEvent>::empty(),
            queue.limit() == capacity,
            queue.dropped() == 0,
    {
        BoundedEventQueue { events: Vec::with_capacity(capacity), bound: capacity, dropped_events: 0 }
    }

    pub fn capacity(&self) -> (capacity: usize)
        ensures
            capacity == self.limit(),
    {
        self.bound
    }

    pub fn len(&self) -> (len: usize)
        ensures
            len == self.queued().len(),
    {
        self.events.len()
    }

    pub fn is_empty(&self) -> (empty: bool)
        ensures
            empty == (self.queued().len() == 0),
    {
        self.events.len() == 0
    }

    pub fn dropped_events(&self) -> (dropped: usize)
        ensures
            dropped == self.dropped(),
    {
        self.dropped_events
    }

    /// The queued event at `index`.
    pub fn event(&self, index: usize) -> (event: ScriptEvent)
        requires
            index < self.queued().len(),
        ensures
            event == self.queued()[index as int],
    {
        self.events[index]
    }

    /// Appends `event`, or drops and counts it when the queue is full.
    pub fn push(&mut self, event: ScriptEvent) -> (result: Result<(), EventQueueOverflow>)
        requires
            old(self).queued().len() >= old(self).limit() ==> old(self).dropped() < usize::MAX,
        ensures
            final(self).limit() == old(self).limit(),
            old(self).queued().len() <= old(self).limit() ==> final(self).queued().len() <= final(self).limit(),
            old(self).queued().len() < old(self).limit() ==> {
                &&& result == Ok::<(), EventQueueOverflow>(())
                &&& final(self).queued() == old(self).queued().push(event)
                &&& final(self).dropped() == old(self).dropped()
            },
            old(self).queued().len() >= old(self).limit() ==> {
                &&& result == Err::<(), EventQueueOverflow>(
                    EventQueueOverflow { dropped_events: (old(self).dropped() + 1) as usize },
                )
                &&& final(self).queued() == old(self).queued()
                &&& final(self).dropped() == old(self).dropped() + 1
            },
    {
        if self.events.len() >= self.bound {
            self.dropped_events = self.dropped_events + 1;
            return Err(EventQueueOverflow { dropped_events: self.dropped_events });
        }
        self.events.push(event);
        Ok(())
    }

    /// Pushes every event of `events` in order, dropping (and counting) those
    /// that do not fit.
    pub fn push_all(&mut self, events: &Vec<ScriptEvent>)
        requires
            old(self).dropped() + events@.len() <= usize::MAX,
        ensures
            final(self).limit() == old(self).limit(),
            (final(self).queued(), final(self).dropped())
                == after_pushes(old(self).queued(), old(self).dropped(), old(self).limit(), events@),
    {
        let mut i: usize = 0;
        assert(events@.skip(0) =~= events@);
        while i < events.len()
            invariant
                i <= events@.len(),
                self.limit() == old(self).limit(),
                self.dropped() + (events@.len() - i) <= usize::MAX,
                after_pushes(self.queued(), self.dropped(), self.limit(), events@.skip(i as int))
                    == after_pushes(old(self).queued(), old(self).dropped(), old(self).limit(), events@),
            decreases events@.len() - i,
        {
            let ghost rest = events@.skip(i as int);
            assert(rest.drop_first() =~= events@.skip(i as int + 1));
            assert(rest[0] == events@[i as int]);
            let _ = self.push(events[i]);
            i = i + 1;
        }
        assert(events@.skip(i as int) =~= Seq::<ScriptEvent>::empty());
    }

    /// Moves as many queued events as fit into `dest` (each at frame offset
    /// zero), counts the rest as dropped, and empties the queue. Returns the
    /// number of events written.
    pub fn drain_into_buffer(&mut self, dest: &mut [BlockEvent]) -> (written: usize)
        requires
            old(self).dropped() + old(self).queued().len() <= usize::MAX,
        ensures
            written == if old(self).queued().len() <= old(dest)@.len() {
                old(self).queued().len()
            } else {
                old(dest)@.len() as nat
            },
            final(dest)@.len() == old(dest)@.len(),
            forall|i: int| 0 <= i < written ==> final(dest)@[i] == at_block_start(old(self).queued()[i]),
            forall|i: int| written <= i < old(dest)@.len() ==> final(dest)@[i] == old(dest)@[i],
            final(self).queued() == Seq::<ScriptEvent>::empty(),
            final(self).limit() == old(self).limit(),
            final(self).dropped() == old(self).dropped() + (old(self).queued().len() - written),
    {
        let len = self.events.len();
        let count = if len <= dest.len() { len } else { dest.len() };
        let mut i: usize = 0;
        while i < count
            invariant
                count <= len,
                len == self.events@.len(),
                count <= dest@.len(),
                dest@.len() == old(dest)@.len(),
                self.events@ == old(self).queued(),
                i <= count,
                forall|j: int| 0 <= j < i ==> dest@[j] == at_block_start(self.events@[j]),
                forall|j: int| i <= j < dest@.len() ==> dest@[j] == old(dest)@[j],
            decreases count - i,
        {
            let event = self.events[i];
            dest[i] = BlockEvent { frame_offset: 0, event };
            i = i + 1;
        }
        let remaining = len - count;
        self.dropped_events = self.dropped_events + remaining;
        self.events.clear();
        count
    }

    /// Empties the queue, returning its events (oldest first) as block events
    /// at frame offset zero.
    pub fn drain_block_events(&mut self) -> (drained: Vec<BlockEvent>)
        ensures
            drained@.len() == old(self).queued().len(),
            forall|i: int| 0 <= i < drained@.len() ==> drained@[i] == at_block_start(old(self).queued()[i]),
            final(self).queued() == Seq::<ScriptEvent>::empty(),
            final(self).limit() == old(self).limit(),
            final(self).dropped() == old(self).dropped(),
    {
        let len = self.events.len();
        let mut drained: Vec<BlockEvent> = Vec::with_capacity(len);
        let mut i: usize = 0;
        while i < len
            invariant
                len == self.events@.len(),
                self.events@ == old(self).queued(),
                i <= len,
                drained@.len() == i,
                forall|j: int| 0 <= j < i ==> drained@[j] == at_block_start(self.events@[j]),
            decreases len - i,
        {
            let event = self.events[i];
            drained.push(BlockEvent { frame_offset: 0, event });
            i = i + 1;
        }
        self.events.clear();
        drained
    }
}

impl Default for BoundedEventQueue {
    fn default() -> (queue: Self)
        ensures
            queue.queued() == Seq::<ScriptEvent>::empty(),
            queue.limit() == 64,
            queue.dropped() == 0,
    {
        Self::with_capacity(64)
    }
}

/// A write handle onto one queue.
pub struct EventWriter<'a> {
    queue: &'a mut BoundedEventQueue,
}

impl<'a> EventWriter<'a> {
    /// The queue this writer writes into.
    pub closed spec fn target(&self) -> BoundedEventQueue {
        *self.queue
    }

    pub fn new(queue: &'a mut BoundedEventQueue) -> (writer: Self)
        ensures
            writer.target() == *old(queue),
    {
        EventWriter { queue }
    }

    /// Pushes `event` into the underlying queue.
    pub fn write(&mut self, event: ScriptEvent) -> (result: Result<(), EventQueueOverflow>)
        requires
            old(self).target().queued().len() >= old(self).target().limit()
                ==> old(self).target().dropped() < usize::MAX,
        ensures
            final(self).target().limit() == old(self).target().limit(),
            old(self).target().queued().len() < old(self).target().limit() ==> {
                &&& result == Ok::<(), EventQueueOverflow>(())
                &&& final(self).target().queued() == old(self).target().queued().push(event)
                &&& final(self).target().dropped() == old(self).target().dropped()
            },
            old(self).target().queued().len() >= old(self).target().limit() ==> {
                &&& result == Err::<(), EventQueueOverflow>(
                    EventQueueOverflow { dropped_events: (old(self).target().dropped() + 1) as usize },
                )
                &&& final(self).target().queued() == old(self).target().queued()
                &&& final(self).target().dropped() == old(self).target().dropped() + 1
            },
    {
        self.queue.push(event)
    }

    pub fn dropped_events(&self) -> (dropped: usize)
        ensures
            dropped == self.target().dropped(),
    {
        self.queue.dropped_events()
    }
}

/// The state of a queue after pushing, in order, as many of `events` as fit
/// and stopping at the first that does not.
pub open spec fn accepted_count(queue_len: nat, limit: nat, incoming: nat) -> nat {
    if queue_len >= limit {
        0
    } else if incoming <= limit - queue_len {
        incoming
    } else {
        (limit - queue_len) as nat
    }
}

/// A fixed set of bounded event queues prepared before rendering.
pub struct PreparedEventQueues {
    queues: Vec<BoundedEventQueue>,
}

impl View for PreparedEventQueues {
    type V = Seq<BoundedEventQueue>;

    closed spec fn view(&self) -> Seq<BoundedEventQueue> {
        self.queues@
    }
}

impl PreparedEventQueues {
    /// `queue_count` empty queues, each bounded by `queue_capacity`.
    pub fn new(queue_count: usize, queue_capacity: usize) -> (queues: Self)
        ensures
            queues@.len() == queue_count,
            forall|i: int|
                0 <= i < queue_count ==> {
                    &&& (#[trigger] queues@[i]).queued() == Seq::<ScriptEvent>::empty()
                    &&& queues@[i].limit() == queue_capacity
                    &&& queues@[i].dropped() == 0
                },
    {
        let mut queues: Vec<BoundedEventQueue> = Vec::with_capacity(queue_count);
        let mut i: usize = 0;
        while i < queue_count
            invariant
                i <= queue_count,
                queues@.len() == i,
                forall|j: int|
                    0 <= j < i ==> {
                        &&& (#[trigger] queues@[j]).queued() == Seq::<ScriptEvent>::empty()
                        &&& queues@[j].limit() == queue_capacity
                        &&& queues@[j].dropped() == 0
                    },
            decreases queue_count - i,
        {
            queues.push(BoundedEventQueue::with_capacity(queue_capacity));
            i = i + 1;
        }
        PreparedEventQueues { queues }
    }

    /// The queue with index `id`, if one was prepared.
    pub fn queue(&mut self, id: usize) -> (queue: Option<&mut BoundedEventQueue>)
        ensures
            id >= old(self)@.len() ==> queue.is_none() && final(self)@ == old(self)@,
            id < old(self)@.len() ==> {
                &&& queue.is_some()
                &&& *queue.unwrap() == old(self)@[id as int]
                &&& final(self)@ == old(self)@.update(id as int, *final(queue.unwrap()))
            },
    {
        if id < self.queues.len() {
            Some(&mut self.queues[id])
        } else {
            None
        }
    }

    /// A writer onto the queue with index `id`, if one was prepared.
    pub fn writer(&mut self, id: usize) -> (writer: Option<EventWriter<'_>>)
        ensures
            id >= old(self)@.len() ==> writer.is_none(),
            id < old(self)@.len() ==> writer.is_some() && writer.unwrap().target() == old(self)@[id as int],
    {
        if id < self.queues.len() {
            Some(EventWriter::new(&mut self.queues[id]))
        } else {
            None
        }
    }

    pub fn queue_count(&self) -> (count: usize)
        ensures
            count == self@.len(),
    {
        self.queues.len()
    }

    /// The capacity of the first queue, or zero when none was prepared.
    pub fn capacity_per_queue(&self) -> (capacity: usize)
        ensures
            self@.len() == 0 ==> capacity == 0,
            self@.len() > 0 ==> capacity == self@[0].limit(),
    {
        if self.queues.len() == 0 {
            0
        } else {
            self.queues[0].capacity()
        }
    }

    /// Copies every event queued at `edge.source` into `edge.destination`,
    /// oldest first, stopping at the first event the destination has to drop.
    /// The source keeps its events. An edge from a queue to itself does
    /// nothing.
    pub fn route_event_edge(&mut self, edge: CompiledEventEdge) -> (result: Result<(), EventQueueOverflow>)
        requires
            edge.source.0 < old(self)@.len(),
            edge.destination.0 < old(self)@.len(),
            old(self)@[edge.destination.0 as int].dropped() < usize::MAX,
        ensures
            edge.source == edge.destination ==> result is Ok && final(self)@ == old(self)@,
            edge.source != edge.destination ==> {
                let source = old(self)@[edge.source.0 as int];
                let before = old(self)@[edge.destination.0 as int];
                let after = final(self)@[edge.destination.0 as int];
                let accepted = accepted_count(before.queued().len(), before.limit(), source.queued().len());
                &&& final(self)@.len() == old(self)@.len()
                &&& forall|i: int| 0 <= i < old(self)@.len() && i != edge.destination.0 ==> final(self)@[i] == old(self)@[i]
                &&& after.limit() == before.limit()
                &&& after.queued() == before.queued() + source.queued().take(accepted as int)
                &&& accepted == source.queued().len() ==> result is Ok && after.dropped() == before.dropped()
                &&& accepted < source.queued().len() ==> {
                    &&& result == Err::<(), EventQueueOverflow>(
                        EventQueueOverflow { dropped_events: (before.dropped() + 1) as usize },
                    )
                    &&& after.dropped() == before.dropped() + 1
                }
            },
    {
        if edge.source.0 == edge.destination.0 {
            return Ok(());
        }
        let s = edge.source.0;
        let d = edge.destination.0;
        let count = self.queues[s].len();
        let ghost source = old(self)@[s as int];
        let ghost before = old(self)@[d as int];
        let mut i: usize = 0;
        while i < count
            invariant
                s != d,
                s == edge.source.0,
                d == edge.destination.0,
                edge.source != edge.destination,
                before.dropped() < usize::MAX,
                s < self.queues@.len(),
                d < self.queues@.len(),
                self.queues@.len() == old(self)@.len(),
                forall|k: int| 0 <= k < old(self)@.len() && k != d ==> self.queues@[k] == old(self)@[k],
                source == old(self)@[s as int],
                before == old(self)@[d as int],
                count == source.queued().len(),
                i <= count,
                i <= accepted_count(before.queued().len(), before.limit(), count as nat),
                self.queues@[d as int].limit() == before.limit(),
                self.queues@[d as int].dropped() == before.dropped(),
                self.queues@[d as int].queued() == before.queued() + source.queued().take(i as int),
                i < count ==> (i < accepted_count(before.queued().len(), before.limit(), count as nat)
                    <==> self.queues@[d as int].queued().len() < before.limit()),
            decreases count - i,
        {
            let event = self.queues[s].event(i);
            let pushed = self.queues[d].push(event);
            if pushed.is_err() {
                return pushed;
            }
            assert(source.queued().take(i as int + 1) =~= source.queued().take(i as int).push(event));
            i = i + 1;
        }
        Ok(())
    }

    /// Pushes each `(id, events)` batch back into queue `id`, in order,
    /// skipping ids with no queue; events that no longer fit are dropped and
    /// counted.
    pub fn revert(&mut self, batches: Vec<(usize, Vec<ScriptEvent>)>)
        requires
            forall|i: int| 0 <= i < old(self)@.len() ==> old(self)@[i].dropped() + total_events(batches@) <= usize::MAX,
        ensures
            final(self)@.len() == old(self)@.len(),
            forall|i: int|
                0 <= i < old(self)@.len() ==> {
                    &&& (#[trigger] final(self)@[i]).limit() == old(self)@[i].limit()
                    &&& (final(self)@[i].queued(), final(self)@[i].dropped()) == after_pushes(
                        old(self)@[i].queued(),
                        old(self)@[i].dropped(),
                        old(self)@[i].limit(),
                        events_for(batches@, i),
                    )
                },
    {
        let mut b: usize = 0;
        assert(batches@.skip(0) =~= batches@);
        while b < batches.len()
            invariant
                b <= batches@.len(),
                self.queues@.len() == old(self)@.len(),
                forall|i: int|
                    0 <= i < old(self)@.len() ==> {
                        &&& (#[trigger] self.queues@[i]).limit() == old(self)@[i].limit()
                        &&& self.queues@[i].dropped() + total_events(batches@.skip(b as int)) <= usize::MAX
                        &&& after_pushes(
                            self.queues@[i].queued(),
                            self.queues@[i].dropped(),
                            self.queues@[i].limit(),
                            events_for(batches@.skip(b as int), i),
                        ) == after_pushes(
                            old(self)@[i].queued(),
                            old(self)@[i].dropped(),
                            old(self)@[i].limit(),
                            events_for(batches@, i),
                        )
                    },
            decreases batches@.len() - b,
        {
            let ghost rest = batches@.skip(b as int);
            let ghost tail = batches@.skip(b as int + 1);
            assert(rest.drop_first() =~= tail);
            assert(rest[0] == batches@[b as int]);
            let id = batches[b].0;
            let events = &batches[b].1;
            proof {
                assert forall|i: int| 0 <= i < old(self)@.len() implies events_for(rest, i) == (if batches@[b as int].0 == i {
                    batches@[b as int].1@
                } else {
                    Seq::<ScriptEvent>::empty()
                }) + events_for(tail, i) by {}
                assert(total_events(rest) == batches@[b as int].1@.len() + total_events(tail));
            }
            if id < self.queues.len() {
                let ghost prior = self.queues@[id as int];
                self.queues[id].push_all(events);
                proof {
                    lemma_after_pushes_append(
                        prior.queued(),
                        prior.dropped(),
                        prior.limit(),
                        events@,
                        events_for(tail, id as int),
                    );
                    lemma_after_pushes_drops(prior.queued(), prior.dropped(), prior.limit(), events@);
                    assert(events_for(rest, id as int) =~= events@ + events_for(tail, id as int));
                }
            }
            proof {
                assert forall|i: int| 0 <= i < old(self)@.len() && i != id implies events_for(rest, i) =~= events_for(tail, i) by {}
            }
            b = b + 1;
        }
        proof {
            assert forall|i: int| 0 <= i < old(self)@.len() implies events_for(batches@.skip(b as int), i) =~= Seq::<ScriptEvent>::empty() by {
                assert(batches@.skip(b as int).len() == 0);
            }
        }
    }
}

/// Every event of the batches addressed to queue `id`, in batch order.
pub open spec fn events_for(batches: Seq<(usize, Vec<ScriptEvent>)>, id: int) -> Seq<ScriptEvent>
    decreases batches.len(),
{
    if batches.len() == 0 {
        Seq::empty()
    } else {
        (if batches[0].0 == id {
            batches[0].1@
        } else {
            Seq::<ScriptEvent>::empty()
        }) + events_for(batches.drop_first(), id)
    }
}

/// The number of events over all batches.
pub open spec fn total_events(batches: Seq<(usize, Vec<ScriptEvent>)>) -> nat
    decreases batches.len(),
{
    if batches.len() == 0 {
        0
    } else {
        batches[0].1@.len() + total_events(batches.drop_first())
    }
}

/// The queued events and drop count after pushing `events` one by one into a
/// queue holding `queued` with drop count `dropped` and bound `limit`.
pub open spec fn after_pushes(queued: Seq<ScriptEvent>, dropped: nat, limit: nat, events: Seq<ScriptEvent>) -> (Seq<ScriptEvent>, nat)
    decreases events.len(),
{
    if events.len() == 0 {
        (queued, dropped)
    } else if queued.len() < limit {
        after_pushes(queued.push(events[0]), dropped, limit, events.drop_first())
    } else {
        after_pushes(queued, dropped + 1, limit, events.drop_first())
    }
}

/// Pushing `a` then `b` is pushing `a + b`.
pub proof fn lemma_after_pushes_append(queued: Seq<ScriptEvent>, dropped: nat, limit: nat, a: Seq<ScriptEvent>, b: Seq<ScriptEvent>)
    ensures
        after_pushes(queued, dropped, limit, a + b) == {
            let first = after_pushes(queued, dropped, limit, a);
            after_pushes(first.0, first.1, limit, b)
        },
    decreases a.len(),
{
    if a.len() == 0 {
        assert(a + b =~= b);
    } else {
        assert((a + b).drop_first() =~= a.drop_first() + b);
        assert((a + b)[0] == a[0]);
        if queued.len() < limit {
            lemma_after_pushes_append(queued.push(a[0]), dropped, limit, a.drop_first(), b);
        } else {
            lemma_after_pushes_append(queued, dropped + 1, limit, a.drop_first(), b);
        }
    }
}

/// Pushing `events` drops at most `events.len()` of them.
pub proof fn lemma_after_pushes_drops(queued: Seq<ScriptEvent>, dropped: nat, limit: nat, events: Seq<ScriptEvent>)
    ensures
        dropped <= after_pushes(queued, dropped, limit, events).1 <= dropped + events.len(),
    decreases events.len(),
{
    if events.len() > 0 {
        if queued.len() < limit {
            lemma_after_pushes_drops(queued.push(events[0]), dropped, limit, events.drop_first());
        } else {
            lemma_after_pushes_drops(queued, dropped + 1, limit, events.drop_first());
        }
    }
}

/// A bounded queue keeps, in order, the events that fit and counts the rest
/// as dropped: pushing `events` into a queue holding `queued` within its bound
/// `limit` appends the first `limit - queued.len()` of them and drops the
/// others, so the queue never grows past its bound.
pub proof fn law_bounded_queue_keeps_what_fits(
    queued: Seq<ScriptEvent>,
    dropped: nat,
    limit: nat,
    events: Seq<ScriptEvent>,
)
    requires
        queued.len() <= limit,
    ensures
        ({
            let room = (limit - queued.len()) as nat;
            let kept = if events.len() <= room {
                events.len()
            } else {
                room
            };
            after_pushes(queued, dropped, limit, events) == (
                queued + events.take(kept as int),
                dropped + (events.len() - kept) as nat,
            )
        }),
    decreases events.len(),
{
    if events.len() == 0 {
        assert(queued + events.take(0) =~= queued);
    } else if queued.len() < limit {
        law_bounded_queue_keeps_what_fits(queued.push(events[0]), dropped, limit, events.drop_first());
        let room = (limit - queued.len()) as nat;
        let kept: nat = if events.len() <= room {
            events.len()
        } else {
            room
        };
        assert(queued.push(events[0]) + events.drop_first().take(kept - 1) =~= queued + events.take(kept as int));
    } else {
        law_bounded_queue_keeps_what_fits(queued, dropped + 1, limit, events.drop_first());
        assert(queued + events.drop_first().take(0) =~= queued + events.take(0));
    }
}

} // verus!
