//! The laws of the dispatch rules, stated and proved once and for all:
//! fan-out completeness, self-exclusion, dispatch ordering, disconnect
//! isolation, the login greeting, and idempotent removal.

use vstd::prelude::*;

use crate::events::EventView;
use crate::events::ack_line_seq;
use crate::events::login_line_seq;
use crate::events::message_line_seq;
use crate::server::OutgoingView;
use crate::server::dispatch_sends;
use crate::server::event_sends;
use crate::server::fanout;
use crate::server::registry_after;
use crate::server::registry_after_all;
use crate::server::unique_ids;

verus! {

/// Every fan-out entry carries the broadcast line, targets a registered
/// client other than the sender — and every other registered client is
/// targeted by some entry.
proof fn lemma_fanout_entries(reg: Seq<Seq<u8>>, from: Seq<u8>, line: Seq<u8>)
    ensures
        forall|k: int|
            0 <= k < fanout(reg, from, line).len() ==> {
                &&& (#[trigger] fanout(reg, from, line)[k]).line == line
                &&& fanout(reg, from, line)[k].target != from
                &&& reg.contains(fanout(reg, from, line)[k].target)
            },
        forall|c: Seq<u8>|
            reg.contains(c) && c != from ==> fanout(reg, from, line).contains(
                OutgoingView { target: c, line: line },
            ),
    decreases reg.len(),
{
    if reg.len() > 0 {
        let prefix = reg.drop_last();
        lemma_fanout_entries(prefix, from, line);
        assert forall|k: int|
            0 <= k < fanout(reg, from, line).len() implies {
            &&& (#[trigger] fanout(reg, from, line)[k]).line == line
            &&& fanout(reg, from, line)[k].target != from
            &&& reg.contains(fanout(reg, from, line)[k].target)
        } by {
            if k < fanout(prefix, from, line).len() {
                assert(fanout(reg, from, line)[k] == fanout(prefix, from, line)[k]);
                let t = fanout(prefix, from, line)[k].target;
                let ghost w = choose|j: int| 0 <= j < prefix.len() && prefix[j] == t;
                assert(reg[w] == t);
            } else {
                assert(reg[reg.len() - 1] == reg.last());
            }
        }
        assert forall|c: Seq<u8>| reg.contains(c) && c != from implies fanout(
            reg,
            from,
            line,
        ).contains(OutgoingView { target: c, line: line }) by {
            let ghost w = choose|j: int| 0 <= j < reg.len() && reg[j] == c;
            if w < reg.len() - 1 {
                assert(prefix.contains(c)) by {
                    assert(prefix[w] == c);
                }
                let ghost k = choose|k: int|
                    0 <= k < fanout(prefix, from, line).len() && fanout(prefix, from, line)[k]
                        == (OutgoingView { target: c, line: line });
                assert(fanout(reg, from, line)[k] == (OutgoingView { target: c, line: line }));
            } else {
                assert(reg.last() == c);
                let sends = fanout(reg, from, line);
                assert(sends[sends.len() - 1] == (OutgoingView { target: c, line: line }));
            }
        }
    }
}

/// With unique registry ids, no two fan-out entries target the same client.
proof fn lemma_fanout_once(reg: Seq<Seq<u8>>, from: Seq<u8>, line: Seq<u8>)
    requires
        unique_ids(reg),
    ensures
        forall|k1: int, k2: int|
            0 <= k1 < k2 < fanout(reg, from, line).len() ==> (#[trigger] fanout(
                reg,
                from,
                line,
            )[k1]).target != (#[trigger] fanout(reg, from, line)[k2]).target,
    decreases reg.len(),
{
    if reg.len() > 0 {
        let prefix = reg.drop_last();
        assert(unique_ids(prefix)) by {
            assert forall|i: int, j: int| 0 <= i < j < prefix.len() implies prefix[i] != prefix[j] by {
                assert(reg[i] != reg[j]);
            }
        }
        lemma_fanout_once(prefix, from, line);
        lemma_fanout_entries(prefix, from, line);
        if reg.last() != from {
            assert forall|k1: int, k2: int|
                0 <= k1 < k2 < fanout(reg, from, line).len() implies (#[trigger] fanout(
                reg,
                from,
                line,
            )[k1]).target != (#[trigger] fanout(reg, from, line)[k2]).target by {
                if k2 == fanout(reg, from, line).len() - 1 {
                    let t = fanout(prefix, from, line)[k1].target;
                    let ghost w = choose|j: int| 0 <= j < prefix.len() && prefix[j] == t;
                    if t == reg.last() {
                        assert(reg[w] == reg[reg.len() - 1]);
                    }
                }
            }
        }
    }
}

/// Fan-out completeness: dispatching a message from `from` delivers the
/// broadcast line `MESSAGE:<from> <text>` to every other registered client,
/// exactly once each, and to no one else. The sends that carry the broadcast
/// line target exactly the registered clients other than the sender.
pub proof fn lemma_fanout_completeness(reg: Seq<Seq<u8>>, from: Seq<u8>, text: Seq<u8>)
    requires
        unique_ids(reg),
    ensures
        ({
            let line = message_line_seq(from, text);
            let sends = event_sends(reg, EventView::Message { id: from, text: text });
            &&& forall|c: Seq<u8>|
                reg.contains(c) && c != from ==> sends.contains(
                    OutgoingView { target: c, line: line },
                )
            &&& forall|k: int|
                0 <= k < sends.len() && (#[trigger] sends[k]).line == line ==> {
                    &&& reg.contains(sends[k].target)
                    &&& sends[k].target != from
                }
            &&& forall|k1: int, k2: int|
                0 <= k1 < k2 < sends.len() && (#[trigger] sends[k1]).line == line && (
                #[trigger] sends[k2]).line == line ==> sends[k1].target != sends[k2].target
        }),
{
    let line = message_line_seq(from, text);
    let sends = event_sends(reg, EventView::Message { id: from, text: text });
    let fo = fanout(reg, from, line);
    lemma_fanout_entries(reg, from, line);
    lemma_fanout_once(reg, from, line);
    let ack = if reg.contains(from) {
        seq![OutgoingView { target: from, line: ack_line_seq() }]
    } else {
        Seq::<OutgoingView>::empty()
    };
    assert(sends == ack + fo);
    assert(ack_line_seq() != line) by {
        assert(ack_line_seq()[0] == 65);
        assert(line[0] == 77);
    }
    assert forall|c: Seq<u8>| reg.contains(c) && c != from implies sends.contains(
        OutgoingView { target: c, line: line },
    ) by {
        let ghost k = choose|k: int|
            0 <= k < fo.len() && fo[k] == (OutgoingView { target: c, line: line });
        assert(sends[ack.len() + k] == (OutgoingView { target: c, line: line }));
    }
}

/// The broadcast line delivers the text verbatim: it is exactly
/// `MESSAGE:`, the sender id, one space, the unaltered text, and a newline.
pub proof fn lemma_broadcast_line_verbatim(from: Seq<u8>, text: Seq<u8>)
    ensures
        message_line_seq(from, text).len() == 10 + from.len() + text.len(),
        message_line_seq(from, text).subrange(8, 8 + from.len() as int) == from,
        message_line_seq(from, text).subrange(
            9 + from.len() as int,
            9 + from.len() + text.len() as int,
        ) == text,
        message_line_seq(from, text).last() == 10,
{
    let line = message_line_seq(from, text);
    assert(line.subrange(8, 8 + from.len() as int) =~= from);
    assert(line.subrange(9 + from.len() as int, 9 + from.len() + text.len() as int) =~= text);
}

/// Self-exclusion: a registered sender gets exactly one acknowledgment,
/// at the head of the message's sends, and no later send of that message
/// targets the sender — in particular it never receives its own broadcast.
pub proof fn lemma_self_exclusion(reg: Seq<Seq<u8>>, from: Seq<u8>, text: Seq<u8>)
    requires
        unique_ids(reg),
        reg.contains(from),
    ensures
        ({
            let sends = event_sends(reg, EventView::Message { id: from, text: text });
            &&& sends.len() >= 1
            &&& sends[0] == OutgoingView { target: from, line: ack_line_seq() }
            &&& forall|k: int| 1 <= k < sends.len() ==> (#[trigger] sends[k]).target != from
        }),
{
    let line = message_line_seq(from, text);
    let sends = event_sends(reg, EventView::Message { id: from, text: text });
    let fo = fanout(reg, from, line);
    lemma_fanout_entries(reg, from, line);
    let ack = seq![OutgoingView { target: from, line: ack_line_seq() }];
    assert(sends == ack + fo);
    assert forall|k: int| 1 <= k < sends.len() implies (#[trigger] sends[k]).target != from by {
        assert(sends[k] == fo[k - 1]);
    }
}

/// Dispatch ordering: draining a queue split anywhere emits every send of
/// the first part, in order, before any send of the second part, and the
/// second part runs against the registry as the first part left it.
pub proof fn lemma_dispatch_order(reg: Seq<Seq<u8>>, q1: Seq<EventView>, q2: Seq<EventView>)
    ensures
        dispatch_sends(reg, q1 + q2) == dispatch_sends(reg, q1) + dispatch_sends(
            registry_after_all(reg, q1),
            q2,
        ),
        registry_after_all(reg, q1 + q2) == registry_after_all(registry_after_all(reg, q1), q2),
    decreases q1.len(),
{
    if q1.len() == 0 {
        assert(q1 + q2 =~= q2);
        assert(dispatch_sends(reg, q1) + dispatch_sends(registry_after_all(reg, q1), q2)
            =~= dispatch_sends(reg, q2));
    } else {
        let e = q1.first();
        assert((q1 + q2).first() == e);
        assert((q1 + q2).drop_first() =~= q1.drop_first() + q2);
        lemma_dispatch_order(registry_after(reg, e), q1.drop_first(), q2);
        assert(event_sends(reg, e) + (dispatch_sends(registry_after(reg, e), q1.drop_first())
            + dispatch_sends(registry_after_all(registry_after(reg, e), q1.drop_first()), q2))
            =~= (event_sends(reg, e) + dispatch_sends(registry_after(reg, e), q1.drop_first()))
            + dispatch_sends(registry_after_all(registry_after(reg, e), q1.drop_first()), q2));
    }
}

/// Message ordering: two messages queued in order — as when one client
/// sends twice before the server's next poll cycle — are dispatched as two
/// complete blocks, the first's acknowledgment and broadcast wholly before
/// the second's, both against the same registry.
pub proof fn lemma_message_order(reg: Seq<Seq<u8>>, from: Seq<u8>, t1: Seq<u8>, t2: Seq<u8>)
    ensures
        ({
            let m1 = EventView::Message { id: from, text: t1 };
            let m2 = EventView::Message { id: from, text: t2 };
            dispatch_sends(reg, seq![m1, m2]) == event_sends(reg, m1) + event_sends(reg, m2)
        }),
{
    let m1 = EventView::Message { id: from, text: t1 };
    let m2 = EventView::Message { id: from, text: t2 };
    let q = seq![m1, m2];
    assert(q.drop_first() =~= seq![m2]);
    assert(seq![m2].drop_first() =~= Seq::<EventView>::empty());
    assert(dispatch_sends(reg, seq![m2]) == event_sends(reg, m2) + dispatch_sends(
        reg,
        Seq::<EventView>::empty(),
    ));
    assert(event_sends(reg, m2) + Seq::<OutgoingView>::empty() =~= event_sends(reg, m2));
    assert(dispatch_sends(reg, q) == event_sends(reg, m1) + event_sends(reg, m2));
}

/// Disconnect isolation: after any one client disconnects, a message from a
/// still-registered sender is still broadcast to every other remaining
/// client; clients other than the departed one lose nothing.
pub proof fn lemma_disconnect_isolation(
    reg: Seq<Seq<u8>>,
    b: Seq<u8>,
    from: Seq<u8>,
    text: Seq<u8>,
    c: Seq<u8>,
)
    requires
        unique_ids(reg),
        reg.contains(c),
        c != b,
        c != from,
    ensures
        ({
            let reg2 = registry_after(reg, EventView::Disconnect { id: b });
            event_sends(reg2, EventView::Message { id: from, text: text }).contains(
                OutgoingView { target: c, line: message_line_seq(from, text) },
            )
        }),
{
    let reg2 = registry_after(reg, EventView::Disconnect { id: b });
    reg.index_of_first_ensures(b);
    assert(reg2.contains(c)) by {
        match reg.index_of_first(b) {
            Option::Some(k) => {
                reg.remove_ensures(k);
                let ghost w = choose|j: int| 0 <= j < reg.len() && reg[j] == c;
                assert(reg[k] == b);
                if w < k {
                    assert(reg.remove(k)[w] == c);
                } else {
                    assert(reg.remove(k)[w - 1] == c);
                }
            },
            Option::None => {},
        }
    }
    let line = message_line_seq(from, text);
    let sends = event_sends(reg2, EventView::Message { id: from, text: text });
    let fo = fanout(reg2, from, line);
    lemma_fanout_entries(reg2, from, line);
    let ghost k = choose|k: int| 0 <= k < fo.len() && fo[k] == (OutgoingView { target: c, line: line });
    let ack = if reg2.contains(from) {
        seq![OutgoingView { target: from, line: ack_line_seq() }]
    } else {
        Seq::<OutgoingView>::empty()
    };
    assert(sends == ack + fo);
    assert(sends[ack.len() + k] == (OutgoingView { target: c, line: line }));
}

/// No event of `events` is a `Login` for `id`.
pub open spec fn no_login_for(events: Seq<EventView>, id: Seq<u8>) -> bool {
    forall|k: int| 0 <= k < events.len() ==> events[k] != (EventView::Login { id: id })
}

/// The login line determines its client id.
proof fn lemma_login_line_injective(a: Seq<u8>, b: Seq<u8>)
    requires
        login_line_seq(a) == login_line_seq(b),
    ensures
        a == b,
{
    assert(login_line_seq(a).len() == 7 + a.len());
    assert(login_line_seq(b).len() == 7 + b.len());
    assert(a =~= b) by {
        assert forall|i: int| 0 <= i < a.len() implies a[i] == b[i] by {
            assert(login_line_seq(a)[6 + i] == a[i]);
            assert(login_line_seq(b)[6 + i] == b[i]);
        }
    }
}

/// Draining a queue that holds no `Login` for `id` never emits the line
/// `LOGIN:<id>`.
proof fn lemma_no_login_line(reg: Seq<Seq<u8>>, events: Seq<EventView>, id: Seq<u8>)
    requires
        no_login_for(events, id),
    ensures
        forall|k: int|
            0 <= k < dispatch_sends(reg, events).len() ==> (#[trigger] dispatch_sends(
                reg,
                events,
            )[k]).line != login_line_seq(id),
    decreases events.len(),
{
    if events.len() > 0 {
        let e = events.first();
        let head = event_sends(reg, e);
        let rest = dispatch_sends(registry_after(reg, e), events.drop_first());
        assert(no_login_for(events.drop_first(), id)) by {
            assert forall|k: int| 0 <= k < events.drop_first().len() implies events.drop_first()[k]
                != (EventView::Login { id: id }) by {
                assert(events[k + 1] == events.drop_first()[k]);
            }
        }
        lemma_no_login_line(registry_after(reg, e), events.drop_first(), id);
        assert(events[0] == e);
        assert forall|k: int| 0 <= k < head.len() implies (#[trigger] head[k]).line
            != login_line_seq(id) by {
            match e {
                EventView::Login { id: x } => {
                    assert(head[k].line == login_line_seq(x));
                    if login_line_seq(x) == login_line_seq(id) {
                        lemma_login_line_injective(x, id);
                    }
                },
                EventView::Message { id: x, text } => {
                    let line = message_line_seq(x, text);
                    lemma_fanout_entries(reg, x, line);
                    let ack = if reg.contains(x) {
                        seq![OutgoingView { target: x, line: ack_line_seq() }]
                    } else {
                        Seq::<OutgoingView>::empty()
                    };
                    assert(head == ack + fanout(reg, x, line));
                    assert(login_line_seq(id)[0] == 76);
                    assert(ack_line_seq()[0] == 65);
                    assert(line[0] == 77);
                    if k >= ack.len() {
                        assert(head[k] == fanout(reg, x, line)[k - ack.len()]);
                    }
                },
                EventView::Disconnect { id: x } => {},
            }
        }
        assert forall|k: int| 0 <= k < dispatch_sends(reg, events).len() implies (
        #[trigger] dispatch_sends(reg, events)[k]).line != login_line_seq(id) by {
            assert(dispatch_sends(reg, events) == head + rest);
            if k >= head.len() {
                assert(dispatch_sends(reg, events)[k] == rest[k - head.len()]);
            }
        }
    }
}

/// The login greeting: when a cycle's queue begins with the `Login` event of
/// a freshly accepted client, the very first line the dispatch emits is
/// `LOGIN:<id>` to that client — and, as long as the rest of the cycle's
/// events hold no further `Login` for that id, no later send of the cycle
/// carries that line, so the client receives it exactly once, before any
/// other server-originated line.
pub proof fn lemma_login_first(reg: Seq<Seq<u8>>, id: Seq<u8>, rest: Seq<EventView>)
    requires
        !reg.contains(id),
    ensures
        ({
            let reg1 = reg.push(id);
            let sends = dispatch_sends(reg1, seq![EventView::Login { id: id }] + rest);
            &&& sends.len() >= 1
            &&& sends[0] == OutgoingView { target: id, line: login_line_seq(id) }
            &&& (no_login_for(rest, id) ==> forall|k: int|
                1 <= k < sends.len() ==> (#[trigger] sends[k]).line != login_line_seq(id))
        }),
{
    let reg1 = reg.push(id);
    let q = seq![EventView::Login { id: id }] + rest;
    let sends = dispatch_sends(reg1, q);
    assert(q.first() == EventView::Login { id: id });
    assert(q.drop_first() =~= rest);
    assert(reg1.contains(id)) by {
        assert(reg1[reg1.len() - 1] == id);
    }
    let head = event_sends(reg1, EventView::Login { id: id });
    assert(head == seq![OutgoingView { target: id, line: login_line_seq(id) }]);
    let tail = dispatch_sends(registry_after(reg1, EventView::Login { id: id }), rest);
    assert(sends == head + tail);
    assert(sends[0] == head[0]);
    if no_login_for(rest, id) {
        lemma_no_login_line(reg1, rest, id);
        assert forall|k: int| 1 <= k < sends.len() implies (#[trigger] sends[k]).line
            != login_line_seq(id) by {
            assert(sends[k] == tail[k - 1]);
        }
    }
}

/// Idempotent removal: a `Disconnect` for an id not (or no longer) in the
/// registry changes nothing and sends nothing.
pub proof fn lemma_disconnect_idempotent(reg: Seq<Seq<u8>>, id: Seq<u8>)
    requires
        !reg.contains(id),
    ensures
        registry_after(reg, EventView::Disconnect { id: id }) == reg,
        event_sends(reg, EventView::Disconnect { id: id }) == Seq::<OutgoingView>::empty(),
{
    reg.index_of_first_ensures(id);
}

} // verus!
