//! End-to-end exercises of the server core: accept, poll, dispatch, and the
//! exact lines each client is owed.

use st_tcp_server::events::Event;
use st_tcp_server::server::Outgoing;
use st_tcp_server::server::PollOutcome;
use st_tcp_server::server::Server;
use st_tcp_server::events::render;
use st_tcp_server::text::port_id;
use st_tcp_server::text::trim_bytes;

fn b(s: &str) -> Vec<u8> {
    s.as_bytes().to_vec()
}

fn send(target: &str, line: &str) -> Outgoing {
    Outgoing { target: b(target), line: b(line) }
}

#[test]
fn port_id_renders_decimal() {
    assert_eq!(port_id(0), b("0"));
    assert_eq!(port_id(7), b("7"));
    assert_eq!(port_id(3000), b("3000"));
    assert_eq!(port_id(51000), b("51000"));
    assert_eq!(port_id(65535), b("65535"));
}

#[test]
fn trim_removes_surrounding_whitespace() {
    assert_eq!(trim_bytes(&b("  hello \r\n")), b("hello"));
    assert_eq!(trim_bytes(&b("hello")), b("hello"));
    assert_eq!(trim_bytes(&b("\t a b \t")), b("a b"));
    assert_eq!(trim_bytes(&b(" \r\n\t ")), b(""));
    assert_eq!(trim_bytes(&b("")), b(""));
}

#[test]
fn render_writes_one_line_per_event() {
    assert_eq!(render(&Event::Login(b("51000"))), b("LOGIN:51000\n"));
    assert_eq!(render(&Event::Message(b("51000"), b("hello"))), b("MESSAGE:51000 hello\n"));
    assert_eq!(render(&Event::Disconnect(b("51000"))), b("LOGOUT:51000\n"));
}

#[test]
fn fresh_client_gets_login_line_first() {
    let mut s = Server::new();
    s.accept_client(51000);
    let sends = s.dispatch();
    assert_eq!(sends, vec![send("51000", "LOGIN:51000\n")]);
    assert_eq!(s.client_count(), 1);
    assert!(s.contains_client(&b("51000")));
}

#[test]
fn registry_snapshot_lists_clients_in_order() {
    let mut s = Server::new();
    s.accept_client(51000);
    s.accept_client(51001);
    s.dispatch();
    assert_eq!(s.client_ids(), vec![b("51000"), b("51001")]);
    assert_eq!(s.client_count(), 2);
    assert!(!s.contains_client(&b("51002")));
}

#[test]
fn dispatch_with_empty_queue_sends_nothing() {
    let mut s = Server::new();
    assert_eq!(s.dispatch(), vec![]);
    s.accept_client(51000);
    s.dispatch();
    assert_eq!(s.dispatch(), vec![]);
}

#[test]
fn message_is_acked_then_broadcast_to_all_others() {
    let mut s = Server::new();
    s.accept_client(51000);
    s.accept_client(51001);
    s.accept_client(51002);
    s.dispatch();
    s.record_poll(&b("51001"), PollOutcome::Line(b("hello\n")));
    let sends = s.dispatch();
    assert_eq!(
        sends,
        vec![
            send("51001", "ACK:MESSAGE\n"),
            send("51000", "MESSAGE:51001 hello\n"),
            send("51002", "MESSAGE:51001 hello\n"),
        ]
    );
}

#[test]
fn broadcast_text_is_trimmed() {
    let mut s = Server::new();
    s.accept_client(51000);
    s.accept_client(51001);
    s.dispatch();
    s.record_poll(&b("51000"), PollOutcome::Line(b("  hi there \r\n")));
    let sends = s.dispatch();
    assert_eq!(
        sends,
        vec![send("51000", "ACK:MESSAGE\n"), send("51001", "MESSAGE:51000 hi there\n")]
    );
}

#[test]
fn not_ready_poll_records_nothing() {
    let mut s = Server::new();
    s.accept_client(51000);
    s.dispatch();
    s.record_poll(&b("51000"), PollOutcome::NotReady);
    assert_eq!(s.dispatch(), vec![]);
}

#[test]
fn closed_connection_is_removed_silently() {
    let mut s = Server::new();
    s.accept_client(51000);
    s.accept_client(51001);
    s.dispatch();
    s.record_poll(&b("51000"), PollOutcome::Closed);
    let sends = s.dispatch();
    assert_eq!(sends, vec![]);
    assert_eq!(s.client_ids(), vec![b("51001")]);
}

#[test]
fn read_error_is_downgraded_to_disconnect() {
    let mut s = Server::new();
    s.accept_client(51000);
    s.accept_client(51001);
    s.dispatch();
    s.record_poll(&b("51001"), PollOutcome::Failed);
    let sends = s.dispatch();
    assert_eq!(sends, vec![]);
    assert_eq!(s.client_ids(), vec![b("51000")]);
}

#[test]
fn disconnect_for_unknown_id_is_a_no_op() {
    let mut s = Server::new();
    s.accept_client(51000);
    s.dispatch();
    s.record_poll(&b("60000"), PollOutcome::Closed);
    let sends = s.dispatch();
    assert_eq!(sends, vec![]);
    assert_eq!(s.client_ids(), vec![b("51000")]);
    // A second Disconnect for an id already removed is equally silent.
    s.record_poll(&b("60000"), PollOutcome::Closed);
    s.record_poll(&b("60000"), PollOutcome::Closed);
    let sends = s.dispatch();
    assert_eq!(sends, vec![]);
    assert_eq!(s.client_ids(), vec![b("51000")]);
}

#[test]
fn disconnect_queued_before_message_still_orders_fifo() {
    // A message from one client queued before another client's disconnect is
    // applied first: the departing client still receives that broadcast.
    let mut s = Server::new();
    s.accept_client(51000);
    s.accept_client(51001);
    s.dispatch();
    s.record_poll(&b("51000"), PollOutcome::Line(b("bye\n")));
    s.record_poll(&b("51001"), PollOutcome::Closed);
    let sends = s.dispatch();
    assert_eq!(
        sends,
        vec![send("51000", "ACK:MESSAGE\n"), send("51001", "MESSAGE:51000 bye\n")]
    );
    assert_eq!(s.client_ids(), vec![b("51000")]);
}

#[test]
fn two_messages_dispatch_as_two_complete_blocks() {
    let mut s = Server::new();
    s.accept_client(51000);
    s.accept_client(51001);
    s.accept_client(51002);
    s.dispatch();
    s.record_poll(&b("51000"), PollOutcome::Line(b("first\n")));
    s.record_poll(&b("51000"), PollOutcome::Line(b("second\n")));
    let sends = s.dispatch();
    assert_eq!(
        sends,
        vec![
            send("51000", "ACK:MESSAGE\n"),
            send("51001", "MESSAGE:51000 first\n"),
            send("51002", "MESSAGE:51000 first\n"),
            send("51000", "ACK:MESSAGE\n"),
            send("51001", "MESSAGE:51000 second\n"),
            send("51002", "MESSAGE:51000 second\n"),
        ]
    );
}

#[test]
fn broadcasts_after_a_disconnect_reach_remaining_clients() {
    let mut s = Server::new();
    s.accept_client(51000);
    s.accept_client(51001);
    s.accept_client(51002);
    s.dispatch();
    s.record_poll(&b("51001"), PollOutcome::Closed);
    s.dispatch();
    s.record_poll(&b("51000"), PollOutcome::Line(b("still here\n")));
    let sends = s.dispatch();
    assert_eq!(
        sends,
        vec![send("51000", "ACK:MESSAGE\n"), send("51002", "MESSAGE:51000 still here\n")]
    );
}

#[test]
fn message_from_unregistered_id_gets_no_ack() {
    let mut s = Server::new();
    s.accept_client(51000);
    s.dispatch();
    s.record_poll(&b("60000"), PollOutcome::Line(b("ghost\n")));
    let sends = s.dispatch();
    // No acknowledgment for the unknown sender; the broadcast still reaches
    // every registered client, none of which is the sender.
    assert_eq!(sends, vec![send("51000", "MESSAGE:60000 ghost\n")]);
}

#[test]
fn full_session_scenario() {
    let mut s = Server::new();

    // Client 51000 connects and is greeted.
    s.accept_client(51000);
    let sends = s.dispatch();
    assert_eq!(sends, vec![send("51000", "LOGIN:51000\n")]);

    // Client 51001 connects and is greeted; 51000 sees nothing.
    s.accept_client(51001);
    let sends = s.dispatch();
    assert_eq!(sends, vec![send("51001", "LOGIN:51001\n")]);

    // 51000 sends "hello": it is acked, 51001 gets the broadcast.
    s.record_poll(&b("51000"), PollOutcome::Line(b("hello\n")));
    let sends = s.dispatch();
    assert_eq!(
        sends,
        vec![send("51000", "ACK:MESSAGE\n"), send("51001", "MESSAGE:51000 hello\n")]
    );

    // 51000 closes the connection: silent removal, 51001 sees no line.
    s.record_poll(&b("51000"), PollOutcome::Closed);
    let sends = s.dispatch();
    assert_eq!(sends, vec![]);
    assert_eq!(s.client_ids(), vec![b("51001")]);

    // A message from 51001 now reaches no peers, but is still acked.
    s.record_poll(&b("51001"), PollOutcome::Line(b("anyone?\n")));
    let sends = s.dispatch();
    assert_eq!(sends, vec![send("51001", "ACK:MESSAGE\n")]);
}

#[test]
fn whitespace_only_message_broadcasts_empty_text() {
    let mut s = Server::new();
    s.accept_client(51000);
    s.accept_client(51001);
    s.dispatch();
    s.record_poll(&b("51000"), PollOutcome::Line(b(" \r\n")));
    let sends = s.dispatch();
    assert_eq!(
        sends,
        vec![send("51000", "ACK:MESSAGE\n"), send("51001", "MESSAGE:51000 \n")]
    );
}
