//! Events and the exact newline-terminated lines the server emits.
//!
//! An [`Event`] records one thing that happened to a client: it finished the
//! accept handshake, it sent one line of text, or its connection ended.
//! Events are immutable value data, created by the accept and poll phases and
//! consumed exactly once, in FIFO order, by the dispatch phase.

use vstd::prelude::*;

verus! {

/// One thing that happened to a client. The first field is always the client
/// id: the decimal rendering of the connection's remote port.
#[derive(Debug, PartialEq, Eq)]
pub enum Event {
    /// A client finished the accept handshake.
    Login(Vec<u8>),
    /// A client sent one line of text (surrounding whitespace already trimmed).
    Message(Vec<u8>, Vec<u8>),
    /// A client's connection ended (end of stream or I/O error).
    Disconnect(Vec<u8>),
}

/// The mathematical value of an [`Event`]: the same three cases over byte
/// sequences.
pub enum EventView {
    Login { id: Seq<u8> },
    Message { id: Seq<u8>, text: Seq<u8> },
    Disconnect { id: Seq<u8> },
}

impl View for Event {
    type V = EventView;

    open spec fn view(&self) -> EventView {
        match self {
            Event::Login(id) => EventView::Login { id: id@ },
            Event::Message(id, text) => EventView::Message { id: id@, text: text@ },
            Event::Disconnect(id) => EventView::Disconnect { id: id@ },
        }
    }
}

/// The line confirming a login to the freshly accepted client: `LOGIN:<id>\n`.
pub open spec fn login_line_seq(id: Seq<u8>) -> Seq<u8> {
    seq![76u8, 79u8, 71u8, 73u8, 78u8, 58u8] + id + seq![10u8]
}

/// The line broadcast to every peer of a sender: `MESSAGE:<from> <text>\n`.
pub open spec fn message_line_seq(from: Seq<u8>, text: Seq<u8>) -> Seq<u8> {
    seq![77u8, 69u8, 83u8, 83u8, 65u8, 71u8, 69u8, 58u8] + from + seq![32u8] + text + seq![10u8]
}

/// The acknowledgment sent back to a sender: `ACK:MESSAGE\n`.
pub open spec fn ack_line_seq() -> Seq<u8> {
    seq![65u8, 67u8, 75u8, 58u8, 77u8, 69u8, 83u8, 83u8, 65u8, 71u8, 69u8, 10u8]
}

/// The rendering of a departure, `LOGOUT:<id>\n`. Part of the event's
/// human-readable form only: dispatch removes a disconnected client silently
/// and never sends this line.
pub open spec fn logout_line_seq(id: Seq<u8>) -> Seq<u8> {
    seq![76u8, 79u8, 71u8, 79u8, 85u8, 84u8, 58u8] + id + seq![10u8]
}

/// The human-readable, newline-terminated rendering of an event.
pub open spec fn render_seq(e: EventView) -> Seq<u8> {
    match e {
        EventView::Login { id } => login_line_seq(id),
        EventView::Message { id, text } => message_line_seq(id, text),
        EventView::Disconnect { id } => logout_line_seq(id),
    }
}

/// Appends all of `src` to `out`.
fn append_bytes(out: &mut Vec<u8>, src: &Vec<u8>)
    ensures
        final(out)@ == old(out)@ + src@,
{
    let mut i: usize = 0;
    while i < src.len()
        invariant
            0 <= i <= src@.len(),
            out@ == old(out)@ + src@.subrange(0, i as int),
        decreases src@.len() - i,
    {
        out.push(src[i]);
        proof {
            assert(old(out)@ + src@.subrange(0, i + 1) =~= (old(out)@ + src@.subrange(
                0,
                i as int,
            )).push(src@[i as int]));
        }
        i += 1;
    }
    proof {
        assert(old(out)@ + src@.subrange(0, src@.len() as int) =~= old(out)@ + src@);
    }
}

/// Builds `LOGIN:<id>\n`.
pub fn login_line(id: &Vec<u8>) -> (r: Vec<u8>)
    ensures
        r@ == login_line_seq(id@),
{
    let mut r: Vec<u8> = Vec::new();
    r.push(76u8);
    r.push(79u8);
    r.push(71u8);
    r.push(73u8);
    r.push(78u8);
    r.push(58u8);
    append_bytes(&mut r, id);
    r.push(10u8);
    proof {
        assert(r@ =~= login_line_seq(id@));
    }
    r
}

/// Builds `MESSAGE:<from> <text>\n`.
pub fn message_line(from: &Vec<u8>, text: &Vec<u8>) -> (r: Vec<u8>)
    ensures
        r@ == message_line_seq(from@, text@),
{
    let mut r: Vec<u8> = Vec::new();
    r.push(77u8);
    r.push(69u8);
    r.push(83u8);
    r.push(83u8);
    r.push(65u8);
    r.push(71u8);
    r.push(69u8);
    r.push(58u8);
    append_bytes(&mut r, from);
    r.push(32u8);
    append_bytes(&mut r, text);
    r.push(10u8);
    proof {
        assert(r@ =~= message_line_seq(from@, text@));
    }
    r
}

/// Builds `ACK:MESSAGE\n`.
pub fn ack_line() -> (r: Vec<u8>)
    ensures
        r@ == ack_line_seq(),
{
    let mut r: Vec<u8> = Vec::new();
    r.push(65u8);
    r.push(67u8);
    r.push(75u8);
    r.push(58u8);
    r.push(77u8);
    r.push(69u8);
    r.push(83u8);
    r.push(83u8);
    r.push(65u8);
    r.push(71u8);
    r.push(69u8);
    r.push(10u8);
    proof {
        assert(r@ =~= ack_line_seq());
    }
    r
}

/// Builds `LOGOUT:<id>\n`.
pub fn logout_line(id: &Vec<u8>) -> (r: Vec<u8>)
    ensures
        r@ == logout_line_seq(id@),
{
    let mut r: Vec<u8> = Vec::new();
    r.push(76u8);
    r.push(79u8);
    r.push(71u8);
    r.push(79u8);
    r.push(85u8);
    r.push(84u8);
    r.push(58u8);
    append_bytes(&mut r, id);
    r.push(10u8);
    proof {
        assert(r@ =~= logout_line_seq(id@));
    }
    r
}

/// The human-readable rendering of an event, one newline-terminated line.
pub fn render(e: &Event) -> (r: Vec<u8>)
    ensures
        r@ == render_seq(e@),
{
    match e {
        Event::Login(id) => login_line(id),
        Event::Message(id, text) => message_line(id, text),
        Event::Disconnect(id) => logout_line(id),
    }
}

} // verus!
