//! The server core: client registry, FIFO event queue, and dispatch rules.
//!
//! One control-loop cycle runs three phases in fixed order. The accept phase
//! registers at most one new connection and queues its `Login` event. The
//! poll phase records, per registered client, what one non-blocking read
//! attempt produced. The dispatch phase drains the queue head to tail and
//! turns each event into the lines owed to clients. The surrounding process
//! performs the actual socket operations and the pacing sleep between cycles;
//! this module owns every decision about who is registered and who is sent
//! what.

use vstd::prelude::*;

use crate::events::Event;
use crate::events::EventView;
use crate::events::ack_line;
use crate::events::ack_line_seq;
use crate::events::login_line;
use crate::events::login_line_seq;
use crate::events::message_line;
use crate::events::message_line_seq;
use crate::text::bytes_eq;
use crate::text::copy_bytes;
use crate::text::dec_str;
use crate::text::port_id;
use crate::text::trim_bytes;
use crate::text::trim_seq;

verus! {

/// One line owed to one client, produced by the dispatch phase. The caller
/// writes `line` to the connection registered under `target`; a failed write
/// must not stop the remaining sends.
#[derive(Debug, PartialEq, Eq)]
pub struct Outgoing {
    pub target: Vec<u8>,
    pub line: Vec<u8>,
}

/// The mathematical value of an [`Outgoing`].
pub struct OutgoingView {
    pub target: Seq<u8>,
    pub line: Seq<u8>,
}

impl View for Outgoing {
    type V = OutgoingView;

    open spec fn view(&self) -> OutgoingView {
        OutgoingView { target: self.target@, line: self.line@ }
    }
}

/// What one non-blocking read attempt on a client's connection produced.
#[derive(Debug)]
pub enum PollOutcome {
    /// No complete line, no error: nothing to record.
    NotReady,
    /// One newline-terminated line was available; surrounding whitespace has
    /// not been trimmed yet.
    Line(Vec<u8>),
    /// The connection reached end of stream.
    Closed,
    /// A read error occurred.
    Failed,
}

/// The mathematical value of a [`PollOutcome`].
pub enum PollOutcomeView {
    NotReady,
    Line { line: Seq<u8> },
    Closed,
    Failed,
}

impl View for PollOutcome {
    type V = PollOutcomeView;

    open spec fn view(&self) -> PollOutcomeView {
        match self {
            PollOutcome::NotReady => PollOutcomeView::NotReady,
            PollOutcome::Line(line) => PollOutcomeView::Line { line: line@ },
            PollOutcome::Closed => PollOutcomeView::Closed,
            PollOutcome::Failed => PollOutcomeView::Failed,
        }
    }
}

/// The values of a vector of client ids.
pub open spec fn ids_view(s: Seq<Vec<u8>>) -> Seq<Seq<u8>> {
    s.map_values(|c: Vec<u8>| c@)
}

/// The values of a vector of outgoing lines.
pub open spec fn sends_view(s: Seq<Outgoing>) -> Seq<OutgoingView> {
    s.map_values(|o: Outgoing| o@)
}

/// The values of a vector of events.
pub open spec fn queue_view(s: Seq<Event>) -> Seq<EventView> {
    s.map_values(|e: Event| e@)
}

/// No client id occurs twice in the registry.
pub open spec fn unique_ids(reg: Seq<Seq<u8>>) -> bool {
    forall|i: int, j: int| 0 <= i < j < reg.len() ==> reg[i] != reg[j]
}

/// The events recorded when polling the client `id` produced `outcome`: a
/// ready line becomes a `Message` with surrounding whitespace trimmed, end of
/// stream and read errors both become a `Disconnect`, and "nothing ready" is
/// no event at all.
pub open spec fn poll_events(id: Seq<u8>, outcome: PollOutcomeView) -> Seq<EventView> {
    match outcome {
        PollOutcomeView::NotReady => Seq::<EventView>::empty(),
        PollOutcomeView::Line { line } => seq![
            EventView::Message { id: id, text: trim_seq(line) },
        ],
        PollOutcomeView::Closed => seq![EventView::Disconnect { id: id }],
        PollOutcomeView::Failed => seq![EventView::Disconnect { id: id }],
    }
}

/// One copy of `line` for every registered client except `from`, in registry
/// order.
pub open spec fn fanout(reg: Seq<Seq<u8>>, from: Seq<u8>, line: Seq<u8>) -> Seq<OutgoingView>
    decreases reg.len(),
{
    if reg.len() == 0 {
        Seq::<OutgoingView>::empty()
    } else {
        let rest = fanout(reg.drop_last(), from, line);
        if reg.last() == from {
            rest
        } else {
            rest.push(OutgoingView { target: reg.last(), line: line })
        }
    }
}

/// The lines owed when `e` is dispatched against registry `reg`:
/// a `Login` confirms itself to the subject client if it is still registered;
/// a `Message` acknowledges the sender (if still registered) and then
/// broadcasts to every other registered client; a `Disconnect` sends nothing.
pub open spec fn event_sends(reg: Seq<Seq<u8>>, e: EventView) -> Seq<OutgoingView> {
    match e {
        EventView::Login { id } => if reg.contains(id) {
            seq![OutgoingView { target: id, line: login_line_seq(id) }]
        } else {
            Seq::<OutgoingView>::empty()
        },
        EventView::Message { id, text } => (if reg.contains(id) {
            seq![OutgoingView { target: id, line: ack_line_seq() }]
        } else {
            Seq::<OutgoingView>::empty()
        }) + fanout(reg, id, message_line_seq(id, text)),
        EventView::Disconnect { id } => Seq::<OutgoingView>::empty(),
    }
}

/// The registry after `e` is dispatched: a `Disconnect` removes the subject
/// id (a no-op if it is absent), the other events leave the registry alone.
pub open spec fn registry_after(reg: Seq<Seq<u8>>, e: EventView) -> Seq<Seq<u8>> {
    match e {
        EventView::Disconnect { id } => reg.remove_value(id),
        _ => reg,
    }
}

/// The lines owed by draining `events` head to tail: each event is applied
/// in full, against the registry as earlier events left it, before the next
/// event is looked at.
pub open spec fn dispatch_sends(reg: Seq<Seq<u8>>, events: Seq<EventView>) -> Seq<OutgoingView>
    decreases events.len(),
{
    if events.len() == 0 {
        Seq::<OutgoingView>::empty()
    } else {
        event_sends(reg, events.first()) + dispatch_sends(
            registry_after(reg, events.first()),
            events.drop_first(),
        )
    }
}

/// The registry after draining `events` head to tail.
pub open spec fn registry_after_all(reg: Seq<Seq<u8>>, events: Seq<EventView>) -> Seq<Seq<u8>>
    decreases events.len(),
{
    if events.len() == 0 {
        reg
    } else {
        registry_after_all(registry_after(reg, events.first()), events.drop_first())
    }
}

/// Removing one entry keeps the remaining registry ids distinct.
proof fn lemma_unique_remove_value(reg: Seq<Seq<u8>>, id: Seq<u8>)
    requires
        unique_ids(reg),
    ensures
        unique_ids(reg.remove_value(id)),
{
    reg.index_of_first_ensures(id);
    match reg.index_of_first(id) {
        Option::Some(k) => {
            reg.remove_ensures(k);
            assert forall|i: int, j: int| 0 <= i < j < reg.remove(k).len() implies reg.remove(
                k,
            )[i] != reg.remove(k)[j] by {
                if i < k && k <= j {
                    assert(reg.remove(k)[i] == reg[i]);
                    assert(reg.remove(k)[j] == reg[j + 1]);
                }
            }
        },
        Option::None => {},
    }
}

/// The server core: the registry of live client ids and the FIFO event
/// queue. Both are owned exclusively by the single control loop; the queue
/// is drained completely once per cycle.
pub struct Server {
    clients: Vec<Vec<u8>>,
    queue: Vec<Event>,
}

impl Server {
    /// The registered client ids, in insertion order.
    pub closed spec fn registry(&self) -> Seq<Seq<u8>> {
        ids_view(self.clients@)
    }

    /// The queued events, head first.
    pub closed spec fn pending(&self) -> Seq<EventView> {
        queue_view(self.queue@)
    }

    /// Well-formedness: registry keys are unique at all times.
    pub open spec fn wf(&self) -> bool {
        unique_ids(self.registry())
    }

    /// A server with no clients and no pending events.
    pub fn new() -> (s: Server)
        ensures
            s.wf(),
            s.registry() == Seq::<Seq<u8>>::empty(),
            s.pending() == Seq::<EventView>::empty(),
    {
        let s = Server { clients: Vec::new(), queue: Vec::new() };
        proof {
            assert(s.registry() =~= Seq::<Seq<u8>>::empty());
            assert(s.pending() =~= Seq::<EventView>::empty());
        }
        s
    }

    /// The index of the first registry entry equal to `id`, if any.
    fn find_client(&self, id: &Vec<u8>) -> (r: Option<usize>)
        ensures
            match r {
                Some(k) => {
                    &&& k < self.registry().len()
                    &&& self.registry()[k as int] == id@
                    &&& forall|j: int| 0 <= j < k ==> self.registry()[j] != id@
                },
                None => !self.registry().contains(id@),
            },
    {
        let mut i: usize = 0;
        while i < self.clients.len()
            invariant
                0 <= i <= self.registry().len(),
                self.registry().len() == self.clients@.len(),
                forall|j: int| 0 <= j < i ==> self.registry()[j] != id@,
            decreases self.clients@.len() - i,
        {
            if bytes_eq(&self.clients[i], id) {
                return Some(i);
            }
            i += 1;
        }
        proof {
            assert(!self.registry().contains(id@));
        }
        None
    }

    /// Whether a client is registered under `id`.
    pub fn contains_client(&self, id: &Vec<u8>) -> (r: bool)
        ensures
            r == self.registry().contains(id@),
    {
        match self.find_client(id) {
            Some(k) => {
                proof {
                    assert(self.registry().contains(id@));
                }
                true
            },
            None => false,
        }
    }

    /// How many clients are registered.
    pub fn client_count(&self) -> (n: usize)
        ensures
            n == self.registry().len(),
    {
        self.clients.len()
    }

    /// A snapshot of the registered client ids, in registry order. The poll
    /// phase walks this snapshot, so a client accepted during the same cycle
    /// is first polled in the next one.
    pub fn client_ids(&self) -> (ids: Vec<Vec<u8>>)
        ensures
            ids_view(ids@) == self.registry(),
    {
        let mut ids: Vec<Vec<u8>> = Vec::new();
        let mut i: usize = 0;
        while i < self.clients.len()
            invariant
                0 <= i <= self.clients@.len(),
                ids_view(ids@) == self.registry().subrange(0, i as int),
            decreases self.clients@.len() - i,
        {
            let ghost pre = ids@;
            ids.push(copy_bytes(&self.clients[i]));
            proof {
                assert(ids_view(pre).len() == pre.len());
                assert(ids_view(ids@) =~= self.registry().subrange(0, i + 1));
            }
            i += 1;
        }
        proof {
            assert(ids_view(ids@) =~= self.registry());
        }
        ids
    }

    /// The accept phase, for one ready connection: registers the client under
    /// the decimal rendering of its remote port and queues its `Login` event.
    /// Ports are unique among live connections, so a fresh connection's id is
    /// not yet registered; the caller checks that before calling.
    pub fn accept_client(&mut self, port: u16)
        requires
            old(self).wf(),
            !old(self).registry().contains(dec_str(port as nat)),
        ensures
            final(self).wf(),
            final(self).registry() == old(self).registry().push(dec_str(port as nat)),
            final(self).pending() == old(self).pending().push(
                EventView::Login { id: dec_str(port as nat) },
            ),
    {
        let id = port_id(port);
        let id_for_event = port_id(port);
        self.clients.push(id);
        self.queue.push(Event::Login(id_for_event));
        proof {
            assert(self.registry() =~= old(self).registry().push(dec_str(port as nat)));
            assert(self.pending() =~= old(self).pending().push(
                EventView::Login { id: dec_str(port as nat) },
            ));
            let reg = self.registry();
            assert forall|i: int, j: int| 0 <= i < j < reg.len() implies reg[i] != reg[j] by {
                if j == reg.len() - 1 {
                    if reg[i] == reg[j] {
                        assert(old(self).registry().contains(dec_str(port as nat))) by {
                            assert(old(self).registry()[i] == dec_str(port as nat));
                        }
                    }
                }
            }
        }
    }

    /// The poll phase, for one client: records what one non-blocking read
    /// attempt on the client registered under `id` produced. The registry is
    /// never touched here — a client whose connection ended stays registered
    /// until dispatch processes its `Disconnect` event.
    pub fn record_poll(&mut self, id: &Vec<u8>, outcome: PollOutcome)
        ensures
            final(self).registry() == old(self).registry(),
            final(self).pending() == old(self).pending() + poll_events(id@, outcome@),
    {
        match outcome {
            PollOutcome::NotReady => {
                proof {
                    assert(self.pending() =~= self.pending() + poll_events(id@, outcome@));
                }
            },
            PollOutcome::Line(line) => {
                let text = trim_bytes(&line);
                self.queue.push(Event::Message(copy_bytes(id), text));
                proof {
                    assert(self.pending() =~= old(self).pending() + poll_events(
                        id@,
                        PollOutcomeView::Line { line: line@ },
                    ));
                }
            },
            PollOutcome::Closed => {
                self.queue.push(Event::Disconnect(copy_bytes(id)));
                proof {
                    assert(self.pending() =~= old(self).pending() + poll_events(
                        id@,
                        PollOutcomeView::Closed,
                    ));
                }
            },
            PollOutcome::Failed => {
                self.queue.push(Event::Disconnect(copy_bytes(id)));
                proof {
                    assert(self.pending() =~= old(self).pending() + poll_events(
                        id@,
                        PollOutcomeView::Failed,
                    ));
                }
            },
        }
    }

    /// Removes the first registry entry equal to `id`, if any; a no-op when
    /// no client is registered under `id`.
    fn remove_client(&mut self, id: &Vec<u8>)
        ensures
            final(self).registry() == old(self).registry().remove_value(id@),
            final(self).pending() == old(self).pending(),
    {
        let ghost reg = self.registry();
        match self.find_client(id) {
            Option::Some(k) => {
                self.clients.remove(k);
                proof {
                    reg.index_of_first_ensures(id@);
                    assert(reg.contains(id@)) by {
                        assert(reg[k as int] == id@);
                    }
                    let f = reg.index_of_first(id@).unwrap();
                    assert(f == k) by {
                        if f < k {
                            assert(reg[f] != id@);
                        }
                        if k < f {
                            assert(reg[k as int] != id@);
                        }
                    }
                    assert(self.registry() =~= reg.remove(k as int));
                }
            },
            Option::None => {
                proof {
                    reg.index_of_first_ensures(id@);
                }
            },
        }
    }

    /// The dispatch phase, for the event at the head of the queue: applies
    /// its handler and returns the lines now owed, in send order. For a
    /// `Message`, the acknowledgment to the sender (if it is still
    /// registered) comes before the broadcast, and the broadcast carries one
    /// copy of the line to every other registered client, in registry order.
    /// A `Disconnect` removes the client silently; for an id no longer
    /// registered it changes nothing.
    pub fn handle_event(&mut self, e: &Event) -> (sends: Vec<Outgoing>)
        requires
            old(self).wf(),
        ensures
            final(self).wf(),
            final(self).pending() == old(self).pending(),
            final(self).registry() == registry_after(old(self).registry(), e@),
            sends_view(sends@) == event_sends(old(self).registry(), e@),
    {
        match e {
            Event::Login(id) => {
                let mut sends: Vec<Outgoing> = Vec::new();
                if self.contains_client(id) {
                    sends.push(Outgoing { target: copy_bytes(id), line: login_line(id) });
                }
                proof {
                    assert(sends_view(sends@) =~= event_sends(old(self).registry(), e@));
                }
                sends
            },
            Event::Message(from, text) => {
                let mut sends: Vec<Outgoing> = Vec::new();
                if self.contains_client(from) {
                    sends.push(Outgoing { target: copy_bytes(from), line: ack_line() });
                }
                let ghost ack_part = sends_view(sends@);
                proof {
                    assert(ack_part =~= if old(self).registry().contains(from@) {
                        seq![OutgoingView { target: from@, line: ack_line_seq() }]
                    } else {
                        Seq::<OutgoingView>::empty()
                    });
                    assert(ack_part + fanout(
                        self.registry().subrange(0, 0),
                        from@,
                        message_line_seq(from@, text@),
                    ) =~= ack_part);
                }
                let line = message_line(from, text);
                let mut i: usize = 0;
                while i < self.clients.len()
                    invariant
                        0 <= i <= self.clients@.len(),
                        *self == *old(self),
                        line@ == message_line_seq(from@, text@),
                        sends_view(sends@) == ack_part + fanout(
                            self.registry().subrange(0, i as int),
                            from@,
                            line@,
                        ),
                    decreases self.clients@.len() - i,
                {
                    let ghost pre = sends@;
                    if !bytes_eq(&self.clients[i], from) {
                        sends.push(
                            Outgoing { target: copy_bytes(&self.clients[i]), line: copy_bytes(&line) },
                        );
                    }
                    proof {
                        assert(sends_view(pre).len() == pre.len());
                        assert(self.registry().len() == self.clients@.len());
                        let sub = self.registry().subrange(0, i + 1);
                        assert(sub.len() == i + 1);
                        assert(sub.drop_last() =~= self.registry().subrange(0, i as int));
                        assert(sub.last() == self.registry()[i as int]);
                        let rest = fanout(sub.drop_last(), from@, line@);
                        assert(rest == fanout(self.registry().subrange(0, i as int), from@, line@));
                        if sub.last() == from@ {
                            assert(fanout(sub, from@, line@) == rest);
                            assert(sends@ == pre);
                            assert(sends_view(sends@) =~= ack_part + fanout(sub, from@, line@));
                        } else {
                            assert(fanout(sub, from@, line@) == rest.push(
                                OutgoingView { target: sub.last(), line: line@ },
                            ));
                            assert(sends@.len() == pre.len() + 1);
                            assert(sends@ == pre.push(sends@.last()));
                            assert(sends@.last()@ == OutgoingView { target: sub.last(), line: line@ });
                            assert(sends_view(sends@).len() == sends@.len());
                            assert forall|k: int| 0 <= k < sends@.len() implies sends_view(
                                sends@,
                            )[k] == (ack_part + fanout(sub, from@, line@))[k] by {
                                assert(sends_view(sends@)[k] == sends@[k]@);
                                if k < pre.len() {
                                    assert(sends@[k] == pre[k]);
                                    assert(sends_view(pre)[k] == pre[k]@);
                                    assert(sends_view(pre)[k] == (ack_part + rest)[k]);
                                }
                            }
                            assert(sends_view(sends@) =~= ack_part + fanout(sub, from@, line@));
                        }
                    }
                    i += 1;
                }
                proof {
                    assert(self.registry().subrange(0, self.clients@.len() as int) =~= self.registry());
                    assert(sends_view(sends@) =~= event_sends(old(self).registry(), e@));
                }
                sends
            },
            Event::Disconnect(id) => {
                self.remove_client(id);
                let sends: Vec<Outgoing> = Vec::new();
                proof {
                    lemma_unique_remove_value(old(self).registry(), id@);
                    assert(sends_view(sends@) =~= event_sends(old(self).registry(), e@));
                }
                sends
            },
        }
    }

    /// The dispatch phase in full: drains the queue head to tail, applying
    /// each event's handler before looking at the next, and returns every
    /// line owed, in dispatch order. The queue is empty afterwards, ready
    /// for the next cycle's accept and poll phases.
    pub fn dispatch(&mut self) -> (sends: Vec<Outgoing>)
        requires
            old(self).wf(),
        ensures
            final(self).wf(),
            final(self).pending() == Seq::<EventView>::empty(),
            final(self).registry() == registry_after_all(old(self).registry(), old(self).pending()),
            sends_view(sends@) == dispatch_sends(old(self).registry(), old(self).pending()),
    {
        let ghost reg0 = self.registry();
        let ghost pend0 = self.pending();
        let mut sends: Vec<Outgoing> = Vec::new();
        proof {
            assert(sends_view(sends@) + dispatch_sends(self.registry(), self.pending())
                =~= dispatch_sends(reg0, pend0));
        }
        while self.queue.len() > 0
            invariant
                self.wf(),
                dispatch_sends(reg0, pend0) == sends_view(sends@) + dispatch_sends(
                    self.registry(),
                    self.pending(),
                ),
                registry_after_all(reg0, pend0) == registry_after_all(
                    self.registry(),
                    self.pending(),
                ),
            decreases self.queue@.len(),
        {
            let ghost reg_i = self.registry();
            let ghost pend_i = self.pending();
            let e = self.queue.remove(0);
            proof {
                assert(queue_view(self.queue@).len() == self.queue@.len());
                assert(self.pending() =~= pend_i.drop_first());
                assert(e@ == pend_i.first());
            }
            let mut batch = self.handle_event(&e);
            let ghost done = sends@;
            let ghost batch0 = batch@;
            sends.append(&mut batch);
            proof {
                assert(sends_view(done).len() == done.len());
                assert(sends_view(sends@) =~= sends_view(done) + sends_view(batch0));
                assert(dispatch_sends(reg_i, pend_i) == event_sends(reg_i, pend_i.first())
                    + dispatch_sends(registry_after(reg_i, pend_i.first()), pend_i.drop_first()));
                assert(registry_after_all(reg_i, pend_i) == registry_after_all(
                    registry_after(reg_i, pend_i.first()),
                    pend_i.drop_first(),
                ));
                assert(sends_view(sends@) + dispatch_sends(self.registry(), self.pending())
                    =~= dispatch_sends(reg0, pend0));
            }
        }
        proof {
            assert(self.pending() =~= Seq::<EventView>::empty());
            assert(dispatch_sends(self.registry(), self.pending()) =~= Seq::<OutgoingView>::empty());
            assert(sends_view(sends@) =~= dispatch_sends(reg0, pend0));
        }
        sends
    }
}

} // verus!
