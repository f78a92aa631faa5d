use netframe::packet::{PacketBody, PACKET_HEADER_SIZE};
use netframe::{Client, ClientEvent, Error};

struct Msg {
    id: u8,
    data: Vec<u8>,
}

impl PacketBody for Msg {
    fn box_clone(&self) -> Box<Msg> {
        Box::new(Msg { id: self.id, data: self.data.clone() })
    }

    fn serialize(&self) -> Result<Vec<u8>, Error> {
        Ok(self.data.clone())
    }

    fn deserialize(data: &[u8]) -> Result<Msg, Error> {
        Ok(Msg { id: 0, data: data.to_vec() })
    }

    fn id(&self) -> u8 {
        self.id
    }
}

/// A body that refuses to serialize: legitimate for receive-only types.
struct Unsendable;

impl PacketBody for Unsendable {
    fn box_clone(&self) -> Box<Unsendable> {
        Box::new(Unsendable)
    }

    fn serialize(&self) -> Result<Vec<u8>, Error> {
        Err(Error::InvalidData)
    }

    fn deserialize(_data: &[u8]) -> Result<Unsendable, Error> {
        Ok(Unsendable)
    }

    fn id(&self) -> u8 {
        99
    }
}

#[test]
fn new_client_is_connected_and_idle() {
    let mut client = Client::new();
    assert!(!client.is_disconnected());
    assert!(client.tick().is_empty());
    assert!(client.drain_incoming_packets().is_empty());
    assert!(client.next_outgoing().is_none());
}

#[test]
fn send_queues_frames_in_fifo_order() {
    let mut client = Client::new();
    client.send(Msg { id: 1, data: vec![0xA] });
    client.send(Msg { id: 2, data: vec![0xB, 0xB] });
    client.send(Msg { id: 3, data: vec![0xC; 3] });

    let f1 = client.next_outgoing().unwrap();
    let f2 = client.next_outgoing().unwrap();
    let f3 = client.next_outgoing().unwrap();
    assert!(client.next_outgoing().is_none());

    assert_eq!(f1, vec![0, 1, 1, 0xA]);
    assert_eq!(f2, vec![0, 2, 2, 0xB, 0xB]);
    assert_eq!(f3, vec![0, 3, 3, 0xC, 0xC, 0xC]);
}

#[test]
fn peer_receives_packets_in_send_order() {
    // One side queues packets; the frames, delivered in order, reassemble on
    // the other side in the exact order sent.
    let mut sender = Client::new();
    sender.send(Msg { id: 1, data: vec![11] });
    sender.send(Msg { id: 2, data: vec![22, 22] });

    let mut receiver = Client::new();
    while let Some(frame) = sender.next_outgoing() {
        receiver.handle_read(&frame);
        receiver.extract_packets();
    }
    let packets = receiver.drain_incoming_packets();
    assert_eq!(packets.len(), 2);
    assert_eq!(packets[0].header.id, 1);
    assert_eq!(packets[0].body, vec![11]);
    assert_eq!(packets[1].header.id, 2);
    assert_eq!(packets[1].body, vec![22, 22]);
}

#[test]
fn extraction_emits_received_events_with_byte_counts() {
    let mut sender = Client::new();
    sender.send(Msg { id: 0, data: vec![1, 2, 3, 4, 5] });
    let frame = sender.next_outgoing().unwrap();

    let mut client = Client::new();
    client.handle_read(&frame);
    client.extract_packets();
    let events = client.tick();
    assert_eq!(events, vec![ClientEvent::ReceivedPacket(PACKET_HEADER_SIZE + 5)]);
    // The tick consumed the events.
    assert!(client.tick().is_empty());
}

#[test]
fn chunked_reads_reassemble_like_one_read() {
    let mut sender = Client::new();
    sender.send(Msg { id: 5, data: vec![1, 2, 3] });
    sender.send(Msg { id: 6, data: vec![4, 5] });
    let mut stream = Vec::new();
    while let Some(frame) = sender.next_outgoing() {
        stream.extend_from_slice(&frame);
    }

    let mut whole = Client::new();
    whole.handle_read(&stream);
    whole.extract_packets();
    let expected = whole.drain_incoming_packets();

    let mut chunked = Client::new();
    for piece in stream.chunks(2) {
        chunked.handle_read(piece);
        chunked.extract_packets();
    }
    let got = chunked.drain_incoming_packets();

    assert_eq!(expected.len(), got.len());
    for (a, b) in expected.iter().zip(got.iter()) {
        assert_eq!(a.header.id, b.header.id);
        assert_eq!(a.body, b.body);
    }
}

#[test]
fn mark_disconnected_is_terminal_and_reported_once() {
    let mut client = Client::new();
    client.mark_disconnected();
    assert!(client.is_disconnected());
    let events = client.tick();
    assert_eq!(events, vec![ClientEvent::Disconnected]);
    assert!(client.tick().is_empty());
}

#[test]
fn note_sent_reports_sent_event() {
    let mut client = Client::new();
    client.send(Msg { id: 1, data: vec![9, 9] });
    let frame = client.next_outgoing().unwrap();
    client.note_sent(frame.len());
    let events = client.tick();
    assert_eq!(events, vec![ClientEvent::SentPacket(PACKET_HEADER_SIZE + 2)]);
}

#[test]
fn failing_serialization_drops_the_packet() {
    let mut client = Client::new();
    client.send(Unsendable);
    assert!(client.next_outgoing().is_none());
    assert!(client.tick().is_empty());
}

#[test]
fn oversized_body_is_dropped_at_send() {
    let mut client = Client::new();
    client.send(Msg { id: 1, data: vec![0; 9000] });
    assert!(client.next_outgoing().is_none());
}

#[test]
fn read_capacity_tracks_buffered_bytes() {
    let mut client = Client::new();
    let before = client.read_capacity();
    client.handle_read(&[0, 9]); // an incomplete header stays buffered
    client.extract_packets();
    assert_eq!(client.read_capacity(), before - 2);
}

#[test]
fn send_raw_queues_the_exact_frame() {
    let mut client = Client::new();
    client.send_raw(9, &vec![1, 2]);
    assert_eq!(client.next_outgoing().unwrap(), vec![0, 2, 9, 1, 2]);
    assert!(client.next_outgoing().is_none());
}

#[test]
fn send_raw_drops_an_oversized_body() {
    let mut client = Client::new();
    client.send_raw(1, &vec![0; 8192]);
    assert!(client.next_outgoing().is_none());
}
