//! The client engine: the state for the single outbound connection — intake
//! buffer, incoming and outgoing FIFO queues, the disconnect flag and the
//! events accumulated during the current tick.
//!
//! The engine never touches a socket. A reactor loop drives it: it feeds
//! bytes read from the socket through [`Client::handle_read`] and
//! [`Client::extract_packets`], flushes [`Client::next_outgoing`] frames to
//! the socket (reporting [`Client::note_sent`] or
//! [`Client::mark_disconnected`]), and closes each tick with [`Client::tick`]
//! to collect the events in the order they arose.

use vstd::prelude::*;

use crate::buffer::{NetworkBuffer, MAX_BUFFER_SIZE};
use crate::packet::{
    encode, extract_packets, frame_bytes, is_frame, parsed_packets, unparsed_rest, Packet,
    PacketBody, MAX_PACKET_BODY_SIZE, PACKET_HEADER_SIZE,
};

verus! {

/// What a client tick can observe, in the order it happened.
#[derive(Clone, Copy, PartialEq, Eq, Structural, Debug)]
pub enum ClientEvent {
    /// The peer closed the stream, or a read or write failed unrecoverably.
    /// Terminal: once seen, later ticks are no-ops.
    Disconnected,
    /// One packet was reassembled; carries its total wire byte count.
    ReceivedPacket(usize),
    /// One packet was flushed to the wire; carries its total byte count.
    SentPacket(usize),
}

/// The spec-level event recorded for one reassembled (id, body) pair.
pub open spec fn received_event(pair: (u8, Seq<u8>)) -> ClientEvent {
    ClientEvent::ReceivedPacket((PACKET_HEADER_SIZE + pair.1.len()) as usize)
}

/// The sans-socket state of one client connection.
pub struct Client {
    pub buffer: NetworkBuffer,
    pub incoming_packets: Vec<Packet>,
    pub outgoing_packets: Vec<Vec<u8>>,
    pub pending_events: Vec<ClientEvent>,
    pub is_disconnected: bool,
}

impl Client {
    /// The serialized frames queued for the wire, front of the FIFO first.
    pub open spec fn out_frames(self) -> Seq<Seq<u8>> {
        self.outgoing_packets@.map_values(|f: Vec<u8>| f@)
    }

    /// The (id, body) pairs of the reassembled packets awaiting drain.
    pub open spec fn incoming_pairs(self) -> Seq<(u8, Seq<u8>)> {
        self.incoming_packets@.map_values(|p: Packet| p.view_pair())
    }

    /// The structural invariant: a well-formed buffer, only well-formed
    /// frames queued outward, only well-formed packets queued inward.
    pub open spec fn wf(self) -> bool {
        &&& self.buffer.wf()
        &&& forall|k: int|
            0 <= k < self.outgoing_packets@.len() ==> is_frame(
                (#[trigger] self.outgoing_packets@[k])@,
            )
        &&& forall|k: int|
            0 <= k < self.incoming_packets@.len() ==> (#[trigger] self.incoming_packets@[k]).wf()
    }

    /// A fresh, connected client state: empty buffer, empty queues, no
    /// events, not disconnected.
    pub fn new() -> (c: Client)
        ensures
            c.wf(),
            !c.is_disconnected,
            c.buffer.contents() == Seq::<u8>::empty(),
            c.incoming_packets@ == Seq::<Packet>::empty(),
            c.out_frames() == Seq::<Seq<u8>>::empty(),
            c.pending_events@ == Seq::<ClientEvent>::empty(),
    {
        let c = Client {
            buffer: NetworkBuffer::new(),
            incoming_packets: Vec::new(),
            outgoing_packets: Vec::new(),
            pending_events: Vec::new(),
            is_disconnected: false,
        };
        proof {
            assert(c.out_frames() =~= Seq::<Seq<u8>>::empty());
        }
        c
    }

    /// Whether the terminal disconnected state has been reached.
    pub fn is_disconnected(&self) -> (r: bool)
        ensures
            r == self.is_disconnected,
    {
        self.is_disconnected
    }

    /// Frames the already-serialized `body` under `type_id` and appends the
    /// frame to the outgoing FIFO; the socket is not touched. A body too
    /// large to frame is dropped and nothing changes.
    pub fn send_raw(&mut self, type_id: u8, body: &Vec<u8>)
        requires
            old(self).wf(),
        ensures
            final(self).wf(),
            final(self).buffer == old(self).buffer,
            final(self).incoming_packets@ == old(self).incoming_packets@,
            final(self).pending_events@ == old(self).pending_events@,
            final(self).is_disconnected == old(self).is_disconnected,
            body@.len() < MAX_PACKET_BODY_SIZE ==> final(self).out_frames() == old(
                self,
            ).out_frames().push(frame_bytes(type_id, body@)),
            body@.len() >= MAX_PACKET_BODY_SIZE ==> final(self).out_frames() == old(
                self,
            ).out_frames(),
    {
        match encode(body, type_id) {
            Ok(frame) => {
                let ghost f = frame@;
                proof {
                    assert(is_frame(f));
                }
                self.outgoing_packets.push(frame);
                proof {
                    assert(self.out_frames() =~= old(self).out_frames().push(f));
                }
            },
            Err(_) => {},
        }
    }

    /// Serializes `packet` and appends its frame to the outgoing FIFO; the
    /// socket is not touched. A body whose serialization fails (or is too
    /// large to frame) is dropped, exactly as a flush-time failure would drop
    /// it, and nothing else changes.
    pub fn send<P: PacketBody>(&mut self, packet: P)
        requires
            old(self).wf(),
        ensures
            final(self).wf(),
            final(self).buffer == old(self).buffer,
            final(self).incoming_packets@ == old(self).incoming_packets@,
            final(self).pending_events@ == old(self).pending_events@,
            final(self).is_disconnected == old(self).is_disconnected,
            final(self).out_frames() == old(self).out_frames() || (exists|f: Seq<u8>|
                is_frame(f) && final(self).out_frames() == old(self).out_frames().push(f)),
    {
        let body = match packet.serialize() {
            Ok(d) => d,
            Err(_) => {
                return ;
            },
        };
        let type_id = packet.id();
        self.send_raw(type_id, &body);
        proof {
            if body@.len() < MAX_PACKET_BODY_SIZE {
                assert(is_frame(frame_bytes(type_id, body@)));
            }
        }
    }

    /// Appends bytes just read from the socket to the intake buffer. The
    /// caller reads at most [`Client::read_capacity`] bytes at a time.
    pub fn handle_read(&mut self, chunk: &[u8])
        requires
            old(self).wf(),
            old(self).buffer.offset + chunk@.len() <= MAX_BUFFER_SIZE,
        ensures
            final(self).wf(),
            final(self).buffer.contents() == old(self).buffer.contents() + chunk@,
            final(self).incoming_packets@ == old(self).incoming_packets@,
            final(self).out_frames() == old(self).out_frames(),
            final(self).pending_events@ == old(self).pending_events@,
            final(self).is_disconnected == old(self).is_disconnected,
    {
        self.buffer.write_bytes(chunk);
    }

    /// How many bytes the intake buffer still accepts.
    pub fn read_capacity(&self) -> (n: usize)
        requires
            self.wf(),
        ensures
            n == MAX_BUFFER_SIZE - self.buffer.offset,
    {
        self.buffer.remaining_capacity()
    }

    /// Records that the connection is gone — the peer closed the stream, or
    /// a read or write failed unrecoverably: sets the terminal flag and
    /// records the disconnect event.
    pub fn mark_disconnected(&mut self)
        requires
            old(self).wf(),
        ensures
            final(self).wf(),
            final(self).is_disconnected,
            final(self).pending_events@ == old(self).pending_events@.push(
                ClientEvent::Disconnected,
            ),
            final(self).buffer == old(self).buffer,
            final(self).incoming_packets@ == old(self).incoming_packets@,
            final(self).out_frames() == old(self).out_frames(),
    {
        self.pending_events.push(ClientEvent::Disconnected);
        self.is_disconnected = true;
    }

    /// Runs the packet extraction loop against the intake buffer: every
    /// complete pending frame becomes a packet on the incoming queue and a
    /// received event; the leftover bytes stay buffered for the next tick.
    pub fn extract_packets(&mut self)
        requires
            old(self).wf(),
        ensures
            final(self).wf(),
            final(self).buffer.contents() == unparsed_rest(old(self).buffer.contents()),
            final(self).incoming_pairs() == old(self).incoming_pairs() + parsed_packets(
                old(self).buffer.contents(),
            ),
            final(self).pending_events@ == old(self).pending_events@ + parsed_packets(
                old(self).buffer.contents(),
            ).map_values(|pair: (u8, Seq<u8>)| received_event(pair)),
            final(self).out_frames() == old(self).out_frames(),
            final(self).is_disconnected == old(self).is_disconnected,
    {
        let ghost parsed = parsed_packets(old(self).buffer.contents());
        let mut rest = extract_packets(&mut self.buffer);
        let ghost pall = rest@;
        proof {
            assert(pall.map_values(|p: Packet| p.view_pair()) == parsed);
            assert(pall.take(0) =~= Seq::<Packet>::empty());
            assert(pall.skip(0) =~= pall);
            assert(self.incoming_packets@ =~= old(self).incoming_packets@ + pall.take(0));
            assert(self.pending_events@ =~= old(self).pending_events@ + pall.take(0).map_values(
                |q: Packet| received_event(q.view_pair()),
            ));
        }
        let ghost mid_buffer = self.buffer;
        while rest.len() > 0
            invariant
                rest@.len() <= pall.len(),
                rest@ == pall.skip(pall.len() - rest@.len()),
                forall|k: int| 0 <= k < pall.len() ==> (#[trigger] pall[k]).wf(),
                self.wf(),
                self.buffer == mid_buffer,
                self.outgoing_packets@ == old(self).outgoing_packets@,
                self.is_disconnected == old(self).is_disconnected,
                self.incoming_packets@ == old(self).incoming_packets@ + pall.take(
                    pall.len() - rest@.len(),
                ),
                self.pending_events@ == old(self).pending_events@ + pall.take(
                    pall.len() - rest@.len(),
                ).map_values(|q: Packet| received_event(q.view_pair())),
            decreases rest@.len(),
        {
            let ghost k = pall.len() - rest@.len();
            let p = rest.remove(0);
            proof {
                assert(p == pall[k]);
                assert(rest@ =~= pall.skip(k + 1));
                assert(pall.take(k + 1) =~= pall.take(k).push(pall[k]));
            }
            let n = PACKET_HEADER_SIZE + p.body.len();
            self.pending_events.push(ClientEvent::ReceivedPacket(n));
            self.incoming_packets.push(p);
            proof {
                assert(self.incoming_packets@ =~= old(self).incoming_packets@ + pall.take(k + 1));
                assert(received_event(pall[k].view_pair()) == ClientEvent::ReceivedPacket(n));
                assert(self.pending_events@ =~= old(self).pending_events@ + pall.take(
                    k + 1,
                ).map_values(|q: Packet| received_event(q.view_pair())));
            }
        }
        proof {
            assert(pall.take(pall.len() as int) =~= pall);
            assert(self.incoming_pairs() =~= old(self).incoming_pairs() + pall.map_values(
                |p: Packet| p.view_pair(),
            ));
            assert(self.pending_events@ =~= old(self).pending_events@ + parsed.map_values(
                |pair: (u8, Seq<u8>)| received_event(pair),
            ));
            assert(self.out_frames() =~= old(self).out_frames());
        }
    }

    /// Pops the frame at the front of the outgoing FIFO, for the reactor to
    /// write to the socket; `None` when the queue is empty.
    pub fn next_outgoing(&mut self) -> (r: Option<Vec<u8>>)
        requires
            old(self).wf(),
        ensures
            final(self).wf(),
            final(self).buffer == old(self).buffer,
            final(self).incoming_packets@ == old(self).incoming_packets@,
            final(self).pending_events@ == old(self).pending_events@,
            final(self).is_disconnected == old(self).is_disconnected,
            match r {
                Some(f) => {
                    &&& old(self).out_frames().len() > 0
                    &&& f@ == old(self).out_frames()[0]
                    &&& is_frame(f@)
                    &&& final(self).out_frames() == old(self).out_frames().skip(1)
                },
                None => {
                    &&& old(self).out_frames().len() == 0
                    &&& final(self).out_frames() == old(self).out_frames()
                },
            },
    {
        if self.outgoing_packets.len() == 0 {
            None
        } else {
            let f = self.outgoing_packets.remove(0);
            proof {
                assert(self.out_frames() =~= old(self).out_frames().skip(1));
            }
            Some(f)
        }
    }

    /// Records that a popped frame of `byte_count` bytes was written to the
    /// wire in full.
    pub fn note_sent(&mut self, byte_count: usize)
        requires
            old(self).wf(),
        ensures
            final(self).wf(),
            final(self).pending_events@ == old(self).pending_events@.push(
                ClientEvent::SentPacket(byte_count),
            ),
            final(self).buffer == old(self).buffer,
            final(self).incoming_packets@ == old(self).incoming_packets@,
            final(self).out_frames() == old(self).out_frames(),
            final(self).is_disconnected == old(self).is_disconnected,
    {
        self.pending_events.push(ClientEvent::SentPacket(byte_count));
    }

    /// Closes the current tick: returns the events generated since the last
    /// tick, in order, and leaves the event list empty. Once the client is
    /// disconnected no further events arise, so later ticks return nothing.
    pub fn tick(&mut self) -> (events: Vec<ClientEvent>)
        requires
            old(self).wf(),
        ensures
            final(self).wf(),
            events@ == old(self).pending_events@,
            final(self).pending_events@ == Seq::<ClientEvent>::empty(),
            final(self).buffer == old(self).buffer,
            final(self).incoming_packets@ == old(self).incoming_packets@,
            final(self).out_frames() == old(self).out_frames(),
            final(self).is_disconnected == old(self).is_disconnected,
    {
        let mut events: Vec<ClientEvent> = Vec::new();
        core::mem::swap(&mut events, &mut self.pending_events);
        events
    }

    /// Atomically empties and returns the incoming packet queue; no events
    /// are generated.
    pub fn drain_incoming_packets(&mut self) -> (packets: Vec<Packet>)
        requires
            old(self).wf(),
        ensures
            final(self).wf(),
            packets@ == old(self).incoming_packets@,
            forall|k: int| 0 <= k < packets@.len() ==> (#[trigger] packets@[k]).wf(),
            final(self).incoming_packets@ == Seq::<Packet>::empty(),
            final(self).buffer == old(self).buffer,
            final(self).pending_events@ == old(self).pending_events@,
            final(self).out_frames() == old(self).out_frames(),
            final(self).is_disconnected == old(self).is_disconnected,
    {
        let mut packets: Vec<Packet> = Vec::new();
        core::mem::swap(&mut packets, &mut self.incoming_packets);
        packets
    }
}

} // verus!
