use netframe::packet::{PacketBody, PACKET_HEADER_SIZE};
use netframe::{Error, PacketRecipient, Server, ServerEvent, Token};

struct Msg {
    id: u8,
    data: Vec<u8>,
}

impl PacketBody for Msg {
    fn box_clone(&self) -> Box<Msg> {
        Box::new(Msg { id: self.id, data: self.data.clone() })
    }

    fn serialize(&self) -> Result<Vec<u8>, Error> {
        Ok(self.data.clone())
    }

    fn deserialize(data: &[u8]) -> Result<Msg, Error> {
        Ok(Msg { id: 0, data: data.to_vec() })
    }

    fn id(&self) -> u8 {
        self.id
    }
}

fn server_with_peers(limit: usize, peers: usize) -> (Server, Vec<Token>) {
    let mut server = Server::new(limit);
    let mut tokens = Vec::new();
    for k in 0..peers {
        let token = server.handle_accept(format!("10.0.0.{}:5000", k)).unwrap();
        tokens.push(token);
    }
    server.tick(); // consume the connect events
    (server, tokens)
}

#[test]
fn host_state_starts_empty() {
    let server = Server::new(8);
    assert_eq!(server.num_connections(), 0);
    assert_eq!(server.connection_limit(), 8);
}

#[test]
fn accept_allocates_monotonic_tokens_and_reports_connections() {
    let mut server = Server::new(4);
    let t1 = server.handle_accept("1.1.1.1:1".to_string()).unwrap();
    let t2 = server.handle_accept("2.2.2.2:2".to_string()).unwrap();
    assert_eq!(t1, Token(1));
    assert_eq!(t2, Token(2));
    assert_eq!(server.num_connections(), 2);
    let events = server.tick();
    assert_eq!(
        events,
        vec![
            ServerEvent::ClientConnected(t1, "1.1.1.1:1".to_string()),
            ServerEvent::ClientConnected(t2, "2.2.2.2:2".to_string()),
        ]
    );
}

#[test]
fn connection_count_never_exceeds_limit() {
    let mut server = Server::new(2);
    assert!(server.handle_accept("1.1.1.1:1".to_string()).is_some());
    assert!(server.handle_accept("2.2.2.2:2".to_string()).is_some());
    for k in 0..5 {
        assert!(server.handle_accept(format!("9.9.9.{}:9", k)).is_none());
        assert_eq!(server.num_connections(), 2);
    }
    assert!(server.num_connections() <= server.connection_limit());
}

#[test]
fn over_limit_attempt_yields_one_rejection_and_no_entry() {
    let mut server = Server::new(1);
    let t1 = server.handle_accept("1.1.1.1:1".to_string()).unwrap();
    assert!(server.handle_accept("2.2.2.2:2".to_string()).is_none());
    let events = server.tick();
    let connected: Vec<_> = events
        .iter()
        .filter(|e| matches!(e, ServerEvent::ClientConnected(..)))
        .collect();
    let rejected: Vec<_> = events
        .iter()
        .filter(|e| matches!(e, ServerEvent::ConnectionRejected(..)))
        .collect();
    assert_eq!(connected.len(), 1);
    assert_eq!(rejected.len(), 1);
    assert_eq!(events[0], ServerEvent::ClientConnected(t1, "1.1.1.1:1".to_string()));
    assert_eq!(events[1], ServerEvent::ConnectionRejected("2.2.2.2:2".to_string()));
    assert_eq!(server.num_connections(), 1);
}

#[test]
fn kick_flags_now_and_reaps_at_next_tick() {
    let (mut server, tokens) = server_with_peers(4, 2);
    assert_eq!(server.kick(tokens[0]), Ok(()));
    // Not yet removed: removal happens at the tick boundary.
    assert_eq!(server.num_connections(), 2);
    let events = server.tick();
    assert_eq!(events, vec![ServerEvent::ClientDisconnected(tokens[0])]);
    assert_eq!(server.num_connections(), 1);
    // Exactly one disconnect cycle: later ticks stay silent.
    assert!(server.tick().is_empty());
    // And the token is gone for good.
    assert_eq!(server.kick(tokens[0]), Err(Error::ConnectionNotFound));
}

#[test]
fn kick_unknown_token_fails_without_side_effect() {
    let (mut server, _tokens) = server_with_peers(4, 1);
    assert_eq!(server.kick(Token(77)), Err(Error::ConnectionNotFound));
    assert_eq!(server.num_connections(), 1);
    assert!(server.tick().is_empty());
}

#[test]
fn send_single_after_removal_is_silent_noop() {
    let (mut server, tokens) = server_with_peers(4, 2);
    server.kick(tokens[0]).unwrap();
    server.tick();
    server.send(PacketRecipient::Single(tokens[0]), Msg { id: 1, data: vec![1] });
    // Nothing was delivered anywhere.
    assert!(server.next_outgoing(tokens[1]).is_none());
    assert!(server.tick().is_empty());
}

#[test]
fn tokens_are_never_reused() {
    let (mut server, tokens) = server_with_peers(4, 1);
    server.kick(tokens[0]).unwrap();
    server.tick();
    let t2 = server.handle_accept("3.3.3.3:3".to_string()).unwrap();
    assert_ne!(t2, tokens[0]);
    assert_eq!(t2, Token(2));
}

#[test]
fn send_all_delivers_to_every_connection() {
    let (mut server, tokens) = server_with_peers(4, 3);
    server.send(PacketRecipient::All, Msg { id: 1, data: vec![5] });
    for t in &tokens {
        let frame = server.next_outgoing(*t).unwrap();
        assert_eq!(frame, vec![0, 1, 1, 5]);
        assert!(server.next_outgoing(*t).is_none());
    }
}

#[test]
fn send_single_delivers_to_exactly_one() {
    let (mut server, tokens) = server_with_peers(4, 3);
    server.send(PacketRecipient::Single(tokens[1]), Msg { id: 2, data: vec![6] });
    assert!(server.next_outgoing(tokens[0]).is_none());
    assert_eq!(server.next_outgoing(tokens[1]).unwrap(), vec![0, 1, 2, 6]);
    assert!(server.next_outgoing(tokens[2]).is_none());
}

#[test]
fn send_exclude_delivers_to_every_token_but_one() {
    let (mut server, tokens) = server_with_peers(4, 3);
    server.send(PacketRecipient::Exclude(tokens[1]), Msg { id: 3, data: vec![7] });
    assert!(server.next_outgoing(tokens[0]).is_some());
    assert!(server.next_outgoing(tokens[1]).is_none());
    assert!(server.next_outgoing(tokens[2]).is_some());
}

#[test]
fn send_exclude_many_skips_the_given_set() {
    let (mut server, tokens) = server_with_peers(4, 4);
    server.send(
        PacketRecipient::ExcludeMany(vec![tokens[0], tokens[2]]),
        Msg { id: 4, data: vec![8] },
    );
    assert!(server.next_outgoing(tokens[0]).is_none());
    assert!(server.next_outgoing(tokens[1]).is_some());
    assert!(server.next_outgoing(tokens[2]).is_none());
    assert!(server.next_outgoing(tokens[3]).is_some());
}

#[test]
fn send_include_delivers_to_intersection_with_table() {
    let (mut server, tokens) = server_with_peers(4, 3);
    let ghost_token = Token(555); // unknown tokens are silently ignored
    server.send(
        PacketRecipient::Include(vec![tokens[0], tokens[2], ghost_token]),
        Msg { id: 5, data: vec![9] },
    );
    assert!(server.next_outgoing(tokens[0]).is_some());
    assert!(server.next_outgoing(tokens[1]).is_none());
    assert!(server.next_outgoing(tokens[2]).is_some());
}

#[test]
fn outgoing_frames_keep_fifo_order_per_connection() {
    let (mut server, tokens) = server_with_peers(4, 1);
    server.send(PacketRecipient::Single(tokens[0]), Msg { id: 1, data: vec![1] });
    server.send(PacketRecipient::Single(tokens[0]), Msg { id: 2, data: vec![2] });
    server.send(PacketRecipient::All, Msg { id: 3, data: vec![3] });
    assert_eq!(server.next_outgoing(tokens[0]).unwrap()[2], 1);
    assert_eq!(server.next_outgoing(tokens[0]).unwrap()[2], 2);
    assert_eq!(server.next_outgoing(tokens[0]).unwrap()[2], 3);
    assert!(server.next_outgoing(tokens[0]).is_none());
}

#[test]
fn five_byte_body_yields_one_received_event_of_eight_bytes() {
    // A client sends a 5-byte body with id 0x00; the server's single tick
    // yields one received event counting header plus body, and the drained
    // packet carries the declared id and size.
    let (mut server, tokens) = server_with_peers(4, 1);
    let frame = netframe::packet::encode(&vec![1, 2, 3, 4, 5], 0x00).unwrap();
    server.handle_read(tokens[0], &frame);
    server.extract_packets(tokens[0]);
    let events = server.tick();
    assert_eq!(events, vec![ServerEvent::ReceivedPacket(tokens[0], 8)]);
    let incoming = server.drain_incoming_packets();
    assert_eq!(incoming.len(), 1);
    let (token, packet) = &incoming[0];
    assert_eq!(*token, tokens[0]);
    assert_eq!(packet.header.id, 0x00);
    assert_eq!(packet.header.size, 5);
    assert_eq!(packet.body, vec![1, 2, 3, 4, 5]);
}

#[test]
fn limit_one_with_two_attempts_connects_one_and_rejects_one() {
    // Two near-simultaneous connect attempts against a single slot: exactly
    // one connected and one rejected event across the observing ticks.
    let mut server = Server::new(1);
    let first = server.handle_accept("7.7.7.7:1".to_string());
    let second = server.handle_accept("7.7.7.7:2".to_string());
    assert!(first.is_some());
    assert!(second.is_none());
    let events = server.tick();
    let connected = events
        .iter()
        .filter(|e| matches!(e, ServerEvent::ClientConnected(..)))
        .count();
    let rejected = events
        .iter()
        .filter(|e| matches!(e, ServerEvent::ConnectionRejected(..)))
        .count();
    assert_eq!(connected, 1);
    assert_eq!(rejected, 1);
    assert_eq!(server.num_connections(), 1);
}

#[test]
fn read_write_events_precede_disconnects_within_a_tick() {
    let (mut server, tokens) = server_with_peers(4, 2);
    let frame = netframe::packet::encode(&vec![9], 1).unwrap();
    server.handle_read(tokens[0], &frame);
    server.extract_packets(tokens[0]);
    server.mark_disconnected(tokens[1]);
    let events = server.tick();
    assert_eq!(
        events,
        vec![
            ServerEvent::ReceivedPacket(tokens[0], PACKET_HEADER_SIZE + 1),
            ServerEvent::ClientDisconnected(tokens[1]),
        ]
    );
}

#[test]
fn note_sent_reports_token_and_byte_count() {
    let (mut server, tokens) = server_with_peers(4, 1);
    server.send(PacketRecipient::All, Msg { id: 1, data: vec![1, 2] });
    let frame = server.next_outgoing(tokens[0]).unwrap();
    server.note_sent(tokens[0], frame.len());
    let events = server.tick();
    assert_eq!(events, vec![ServerEvent::SentPacket(tokens[0], 5)]);
}

#[test]
fn kicked_connection_still_extracts_buffered_packets() {
    // In-flight bytes already buffered are still extracted into packets
    // before the removal at the tick boundary.
    let (mut server, tokens) = server_with_peers(4, 1);
    let frame = netframe::packet::encode(&vec![4, 4], 2).unwrap();
    server.handle_read(tokens[0], &frame);
    server.kick(tokens[0]).unwrap();
    server.extract_packets(tokens[0]);
    let events = server.tick();
    assert_eq!(
        events,
        vec![
            ServerEvent::ReceivedPacket(tokens[0], PACKET_HEADER_SIZE + 2),
            ServerEvent::ClientDisconnected(tokens[0]),
        ]
    );
    let incoming = server.drain_incoming_packets();
    assert_eq!(incoming.len(), 1);
    assert_eq!(incoming[0].0, tokens[0]);
}

#[test]
fn send_raw_routes_the_exact_frame() {
    let (mut server, tokens) = server_with_peers(4, 2);
    server.send_raw(PacketRecipient::Exclude(tokens[0]), 4, &vec![7]);
    assert!(server.next_outgoing(tokens[0]).is_none());
    assert_eq!(server.next_outgoing(tokens[1]).unwrap(), vec![0, 1, 4, 7]);
    assert!(server.next_outgoing(tokens[1]).is_none());
}
