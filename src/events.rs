use vstd::prelude::*;

use crate::blocker::BlockingDecision;

verus! {

/// The record of one processed request.
#[derive(Debug)]
pub struct Event {
    pub host: String,
    pub decision: BlockingDecision,
    pub timestamp: u64,
}

pub struct EventView {
    pub host: Seq<char>,
    pub decision: BlockingDecision,
    pub timestamp: u64,
}

impl View for Event {
    type V = EventView;

    open spec fn view(&self) -> EventView {
        EventView { host: self.host@, decision: self.decision, timestamp: self.timestamp }
    }
}

impl Event {
    /// A copy of this event.
    pub fn duplicate(&self) -> (r: Event)
        ensures
            r@ == self@,
    {
        Event { host: self.host.clone(), decision: self.decision, timestamp: self.timestamp }
    }
}

/// A subscriber's backlog after `e` is published: `e` is appended, and when
/// the backlog is already full its oldest event is dropped.
pub open spec fn backlog_after(q: Seq<EventView>, e: EventView, capacity: nat) -> Seq<EventView> {
    if q.len() < capacity {
        q.push(e)
    } else {
        q.push(e).drop_first()
    }
}

/// A subscriber's backlog after each of `es` is published in turn.
pub open spec fn backlog_after_all(q: Seq<EventView>, es: Seq<EventView>, capacity: nat) -> Seq<EventView>
    decreases es.len(),
{
    if es.len() == 0 {
        q
    } else {
        backlog_after(backlog_after_all(q, es.drop_last(), capacity), es.last(), capacity)
    }
}

/// Publish-subscribe distribution of events. Each subscriber has its own
/// backlog of at most `capacity` unread events; publishing never waits for a
/// subscriber, and one that falls behind loses its oldest unread events.
#[derive(Debug)]
pub struct EventBroadcast {
    capacity: usize,
    queues: Vec<Vec<Event>>,
}

impl EventBroadcast {
    pub closed spec fn capacity(&self) -> nat {
        self.capacity as nat
    }

    /// The unread events of each subscriber, oldest first.
    pub closed spec fn backlogs(&self) -> Seq<Seq<EventView>> {
        self.queues@.map_values(|q: Vec<Event>| q@.map_values(|e: Event| e@))
    }

    pub open spec fn wf(&self) -> bool {
        &&& self.capacity() > 0
        &&& forall|i: int| 0 <= i < self.backlogs().len() ==> #[trigger] self.backlogs()[i].len() <= self.capacity()
    }

    pub fn new(capacity: usize) -> (r: EventBroadcast)
        requires
            capacity > 0,
        ensures
            r.wf(),
            r.capacity() == capacity,
            r.backlogs().len() == 0,
    {
        EventBroadcast { capacity, queues: Vec::new() }
    }

    /// How many subscribers are attached.
    pub fn subscriber_count(&self) -> (r: usize)
        ensures
            r == self.backlogs().len(),
    {
        self.queues.len()
    }

    /// Attaches a new subscriber, which sees only events published from now on.
    pub fn subscribe(&mut self) -> (id: usize)
        requires
            old(self).wf(),
        ensures
            final(self).wf(),
            final(self).capacity() == old(self).capacity(),
            id == old(self).backlogs().len(),
            final(self).backlogs() == old(self).backlogs().push(Seq::<EventView>::empty()),
    {
        let id = self.queues.len();
        self.queues.push(Vec::new());
        proof {
            assert(self.backlogs() =~~= old(self).backlogs().push(Seq::<EventView>::empty()));
        }
        id
    }

    /// Hands a copy of `event` to every subscriber.
    pub fn publish(&mut self, event: &Event)
        requires
            old(self).wf(),
        ensures
            final(self).wf(),
            final(self).capacity() == old(self).capacity(),
            final(self).backlogs().len() == old(self).backlogs().len(),
            forall|i: int| 0 <= i < old(self).backlogs().len() ==> #[trigger] final(self).backlogs()[i]
                == backlog_after(old(self).backlogs()[i], event@, old(self).capacity()),
    {
        let ghost start = self.backlogs();
        let mut i: usize = 0;
        while i < self.queues.len()
            invariant
                self.capacity() > 0,
                self.capacity() == old(self).capacity(),
                i <= self.queues@.len(),
                self.backlogs().len() == start.len(),
                forall|j: int| 0 <= j < start.len() ==> #[trigger] start[j].len() <= self.capacity(),
                forall|j: int| 0 <= j < i ==> #[trigger] self.backlogs()[j] == backlog_after(start[j], event@, self.capacity()),
                forall|j: int| i <= j < start.len() ==> #[trigger] self.backlogs()[j] == start[j],
            decreases self.queues@.len() - i,
        {
            let ghost before = self.backlogs();
            let ghost old_q = self.queues@[i as int]@;
            assert(self.backlogs()[i as int] == start[i as int]);
            assert(old_q.map_values(|e: Event| e@) == start[i as int]);
            let copy = event.duplicate();
            let full = self.queues[i].len() >= self.capacity;
            self.queues[i].push(copy);
            if full {
                self.queues[i].remove(0);
            }
            proof {
                let q = start[i as int];
                let new_q = self.queues@[i as int]@;
                if full {
                    assert(new_q =~= old_q.push(copy).drop_first());
                } else {
                    assert(new_q =~= old_q.push(copy));
                }
                assert(new_q.map_values(|e: Event| e@) =~= backlog_after(q, event@, self.capacity()));
                assert forall|j: int| 0 <= j < start.len() && j != i implies #[trigger] self.backlogs()[j] == before[j] by {}
            }
            i = i + 1;
        }
        proof {
            assert forall|j: int| 0 <= j < self.backlogs().len() implies #[trigger] self.backlogs()[j].len() <= self.capacity() by {
                assert(self.backlogs()[j] == backlog_after(start[j], event@, self.capacity()));
            }
        }
    }

    /// Takes the oldest unread event of subscriber `id`, if any.
    pub fn receive(&mut self, id: usize) -> (r: Option<Event>)
        requires
            old(self).wf(),
            id < old(self).backlogs().len(),
        ensures
            final(self).wf(),
            final(self).capacity() == old(self).capacity(),
            final(self).backlogs().len() == old(self).backlogs().len(),
            old(self).backlogs()[id as int].len() == 0 ==> r is None && final(self).backlogs() == old(self).backlogs(),
            old(self).backlogs()[id as int].len() > 0 ==> r is Some
                && r->0@ == old(self).backlogs()[id as int][0]
                && final(self).backlogs() == old(self).backlogs().update(id as int, old(self).backlogs()[id as int].drop_first()),
    {
        let ghost start = self.backlogs();
        if self.queues[id].len() == 0 {
            return None;
        }
        let e = self.queues[id].remove(0);
        proof {
            assert(self.backlogs() =~~= start.update(id as int, start[id as int].drop_first()));
            assert forall|j: int| 0 <= j < self.backlogs().len() implies #[trigger] self.backlogs()[j].len() <= self.capacity() by {
                assert(start[j].len() <= self.capacity());
            }
        }
        Some(e)
    }
}

/// A subscriber that starts with an empty backlog and has room for them
/// receives every published event, exactly once and in publish order.
pub proof fn lemma_backlog_keeps_order(q: Seq<EventView>, es: Seq<EventView>, capacity: nat)
    requires
        q.len() + es.len() <= capacity,
    ensures
        backlog_after_all(q, es, capacity) == q + es,
    decreases es.len(),
{
    if es.len() > 0 {
        lemma_backlog_keeps_order(q, es.drop_last(), capacity);
        assert(q + es.drop_last() + seq![es.last()] =~= q + es);
        assert((q + es.drop_last()).push(es.last()) =~= q + es);
    } else {
        assert(q + es =~= q);
    }
}

/// A subscriber that reads as it goes, so that its backlog is below capacity
/// whenever an event is published, loses nothing: each publish appends the
/// event, and each `receive` hands back the oldest one, so it receives every
/// event published after it subscribed, once each and in publish order.
pub proof fn lemma_reader_keeping_up(q: Seq<EventView>, e: EventView, capacity: nat)
    requires
        q.len() < capacity,
    ensures
        backlog_after(q, e, capacity) == q.push(e),
        backlog_after(q, e, capacity)[0] == if q.len() == 0 { e } else { q[0] },
        backlog_after(q, e, capacity).drop_first() == if q.len() == 0 { Seq::<EventView>::empty() } else { q.drop_first().push(e) },
{
    assert(q.push(e).drop_first() =~= if q.len() == 0 { Seq::<EventView>::empty() } else { q.drop_first().push(e) });
}

/// A backlog never holds more than `capacity` events, so a slow subscriber
/// cannot make publishing wait or grow without bound.
pub proof fn lemma_backlog_bounded(q: Seq<EventView>, es: Seq<EventView>, capacity: nat)
    requires
        q.len() <= capacity,
        capacity > 0,
    ensures
        backlog_after_all(q, es, capacity).len() <= capacity,
    decreases es.len(),
{
    if es.len() > 0 {
        lemma_backlog_bounded(q, es.drop_last(), capacity);
    }
}

} // verus!
