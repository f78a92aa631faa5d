//! The server engine: a connection table keyed by monotonically allocated
//! tokens, a connection-count ceiling, per-connection intake buffers and
//! outgoing FIFOs, the server-level incoming packet queue, multi-recipient
//! send routing, and the two-phase disconnect scan that closes every tick.
//!
//! Like the client engine, the server never touches a socket: a reactor loop
//! feeds it accepted peers and read bytes, writes out the frames it pops, and
//! closes each tick with [`Server::tick`].

use vstd::prelude::*;

use crate::buffer::{NetworkBuffer, MAX_BUFFER_SIZE};
use crate::error::Error;
use crate::packet::{
    encode, extract_packets, frame_bytes, is_frame, parsed_packets, unparsed_rest, Packet,
    PacketBody, MAX_PACKET_BODY_SIZE, PACKET_HEADER_SIZE,
};
use crate::{recipient_matches, PacketRecipient, Token};

verus! {

/// What a server tick can observe, in the order it happened. Peer addresses
/// are carried in their textual form.
#[derive(Clone, PartialEq, Debug)]
pub enum ServerEvent {
    /// An accepted peer was turned away because the table is at its ceiling.
    ConnectionRejected(String),
    /// A peer was admitted under a freshly allocated token.
    ClientConnected(Token, String),
    /// A connection flagged during this or an earlier tick was reaped.
    ClientDisconnected(Token),
    /// One packet was reassembled on a connection; carries its total wire
    /// byte count.
    ReceivedPacket(Token, usize),
    /// One packet was flushed to a connection; carries its total byte count.
    SentPacket(Token, usize),
}

/// One server-side peer: its token, its disconnect flag, its intake buffer
/// and its outgoing FIFO of serialized frames. The socket itself lives with
/// the reactor that drives the engine.
pub struct Connection {
    pub token: Token,
    pub is_disconnected: bool,
    pub buffer: NetworkBuffer,
    pub outgoing_packets: Vec<Vec<u8>>,
}

impl Connection {
    /// The serialized frames queued for this peer, front of the FIFO first.
    pub open spec fn out_frames(self) -> Seq<Seq<u8>> {
        self.outgoing_packets@.map_values(|f: Vec<u8>| f@)
    }

    /// A well-formed buffer and only well-formed frames queued.
    pub open spec fn wf(self) -> bool {
        &&& self.buffer.wf()
        &&& forall|k: int|
            0 <= k < self.outgoing_packets@.len() ==> is_frame(
                (#[trigger] self.outgoing_packets@[k])@,
            )
    }

    /// A fresh connection under `token`: empty buffer, empty queue, not
    /// disconnected.
    pub fn new(token: Token) -> (c: Connection)
        ensures
            c.wf(),
            c.token == token,
            !c.is_disconnected,
            c.buffer.contents() == Seq::<u8>::empty(),
            c.outgoing_packets@ == Seq::<Vec<u8>>::empty(),
    {
        Connection {
            token,
            is_disconnected: false,
            buffer: NetworkBuffer::new(),
            outgoing_packets: Vec::new(),
        }
    }
}

/// No two connections in `s` share a token.
pub open spec fn tokens_distinct(s: Seq<Connection>) -> bool {
    forall|a: int, b: int| 0 <= a < b < s.len() ==> s[a].token != s[b].token
}

/// The connections that survive a tick's reap: those not flagged, in table
/// order.
pub open spec fn retained(s: Seq<Connection>) -> Seq<Connection>
    decreases s.len(),
{
    if s.len() == 0 {
        Seq::<Connection>::empty()
    } else if s[0].is_disconnected {
        retained(s.skip(1))
    } else {
        seq![s[0]] + retained(s.skip(1))
    }
}

/// The disconnect events a tick's reap emits: one per flagged connection, in
/// table order.
pub open spec fn disc_events(s: Seq<Connection>) -> Seq<ServerEvent>
    decreases s.len(),
{
    if s.len() == 0 {
        Seq::<ServerEvent>::empty()
    } else {
        (if s[0].is_disconnected {
            seq![ServerEvent::ClientDisconnected(s[0].token)]
        } else {
            Seq::<ServerEvent>::empty()
        }) + disc_events(s.skip(1))
    }
}

/// How often the reap events `evs` report token `t` disconnected.
pub open spec fn count_disconnects(evs: Seq<ServerEvent>, t: Token) -> int
    decreases evs.len(),
{
    if evs.len() == 0 {
        0
    } else {
        (if evs[0] == ServerEvent::ClientDisconnected(t) {
            1int
        } else {
            0int
        }) + count_disconnects(evs.skip(1), t)
    }
}

/// The server engine state, sockets aside: the connection table, the ceiling,
/// the token counter, the incoming `(token, packet)` queue and the events of
/// the current tick.
pub struct Server {
    pub connections: Vec<Connection>,
    pub connection_limit: usize,
    pub token_counter: usize,
    pub incoming_packets: Vec<(Token, Packet)>,
    pub pending_events: Vec<ServerEvent>,
}

impl Server {
    /// The structural invariant. In particular: the connection count never
    /// exceeds the ceiling, every token was allocated by the counter, and no
    /// token is held by two table entries.
    pub open spec fn wf(self) -> bool {
        &&& self.connections@.len() <= self.connection_limit
        &&& forall|i: int| 0 <= i < self.connections@.len() ==> (#[trigger] self.connections@[i]).wf()
        &&& forall|i: int|
            0 <= i < self.connections@.len() ==> 1 <= (#[trigger] self.connections@[i]).token.0
                <= self.token_counter
        &&& tokens_distinct(self.connections@)
        &&& forall|k: int|
            0 <= k < self.incoming_packets@.len() ==> (#[trigger] self.incoming_packets@[k]).1.wf()
    }

    /// Whether some table entry holds `t`.
    pub open spec fn has_token(self, t: Token) -> bool {
        exists|i: int| 0 <= i < self.connections@.len() && self.connections@[i].token == t
    }

    /// The table index of the entry holding `t` (unique while `wf`).
    pub open spec fn conn_idx(self, t: Token) -> int {
        choose|i: int| 0 <= i < self.connections@.len() && self.connections@[i].token == t
    }

    /// A fresh engine that will admit at most `connection_limit` concurrent
    /// connections. Binding and listening live with the reactor.
    pub fn new(connection_limit: usize) -> (s: Server)
        ensures
            s.wf(),
            s.connection_limit == connection_limit,
            s.token_counter == 0,
            s.connections@ == Seq::<Connection>::empty(),
            s.incoming_packets@ == Seq::<(Token, Packet)>::empty(),
            s.pending_events@ == Seq::<ServerEvent>::empty(),
    {
        Server {
            connections: Vec::new(),
            connection_limit,
            token_counter: 0,
            incoming_packets: Vec::new(),
            pending_events: Vec::new(),
        }
    }

    /// The current number of connections.
    pub fn num_connections(&self) -> (n: usize)
        ensures
            n == self.connections@.len(),
    {
        self.connections.len()
    }

    /// The maximum number of connections allowed.
    pub fn connection_limit(&self) -> (n: usize)
        ensures
            n == self.connection_limit,
    {
        self.connection_limit
    }

    /// Atomically empties and returns the incoming `(token, packet)` queue;
    /// no events are generated.
    pub fn drain_incoming_packets(&mut self) -> (packets: Vec<(Token, Packet)>)
        requires
            old(self).wf(),
        ensures
            final(self).wf(),
            packets@ == old(self).incoming_packets@,
            final(self).incoming_packets@ == Seq::<(Token, Packet)>::empty(),
            final(self).connections@ == old(self).connections@,
            final(self).pending_events@ == old(self).pending_events@,
            final(self).token_counter == old(self).token_counter,
            final(self).connection_limit == old(self).connection_limit,
    {
        let mut packets: Vec<(Token, Packet)> = Vec::new();
        core::mem::swap(&mut packets, &mut self.incoming_packets);
        packets
    }

    /// The table index holding token `t`, if any.
    fn find_index(&self, t: Token) -> (r: Option<usize>)
        requires
            self.wf(),
        ensures
            match r {
                Some(i) => self.has_token(t) && i == self.conn_idx(t) && i
                    < self.connections@.len() && self.connections@[i as int].token == t,
                None => !self.has_token(t),
            },
    {
        let mut i: usize = 0;
        while i < self.connections.len()
            invariant
                self.wf(),
                i <= self.connections@.len(),
                forall|j: int| 0 <= j < i ==> (#[trigger] self.connections@[j]).token != t,
            decreases self.connections@.len() - i,
        {
            if self.connections[i].token.0 == t.0 {
                proof {
                    assert(self.connections@[i as int].token == t);
                    let j = self.conn_idx(t);
                    assert(self.connections@[j].token == t);
                    assert(j == i as int);
                }
                return Some(i);
            }
            i = i + 1;
        }
        None
    }

    /// Marks the named connection for removal at the next tick boundary; the
    /// socket is not touched and no event is emitted yet. Fails with a
    /// not-found error, and changes nothing, if the token is absent.
    pub fn kick(&mut self, connection_token: Token) -> (r: Result<(), Error>)
        requires
            old(self).wf(),
        ensures
            final(self).wf(),
            final(self).incoming_packets@ == old(self).incoming_packets@,
            final(self).pending_events@ == old(self).pending_events@,
            final(self).token_counter == old(self).token_counter,
            final(self).connection_limit == old(self).connection_limit,
            old(self).has_token(connection_token) ==> {
                let i = old(self).conn_idx(connection_token);
                &&& r == Result::<(), Error>::Ok(())
                &&& final(self).connections@.len() == old(self).connections@.len()
                &&& forall|j: int|
                    0 <= j < old(self).connections@.len() && j != i ==> final(self).connections@[j]
                        == old(self).connections@[j]
                &&& final(self).connections@[i].token == old(self).connections@[i].token
                &&& final(self).connections@[i].is_disconnected
                &&& final(self).connections@[i].buffer == old(self).connections@[i].buffer
                &&& final(self).connections@[i].outgoing_packets@
                    == old(self).connections@[i].outgoing_packets@
            },
            !old(self).has_token(connection_token) ==> r == Result::<(), Error>::Err(
                Error::ConnectionNotFound,
            ) && final(self).connections@ == old(self).connections@,
    {
        let i = match self.find_index(connection_token) {
            Some(i) => i,
            None => {
                return Err(Error::ConnectionNotFound);
            },
        };
        let mut conn = self.connections.remove(i);
        conn.is_disconnected = true;
        self.connections.insert(i, conn);
        proof {
            assert(self.connections@ =~= old(self).connections@.update(
                i as int,
                self.connections@[i as int],
            ));
        }
        Ok(())
    }

    /// Decides one accepted connection attempt from a peer at `addr`. At the
    /// ceiling, records a rejection event and admits nothing (the reactor
    /// drops the socket without registering it); otherwise allocates the next
    /// token, inserts a fresh connection, records the connected event, and
    /// returns the token for the reactor to register the socket under.
    pub fn handle_accept(&mut self, addr: String) -> (r: Option<Token>)
        requires
            old(self).wf(),
            old(self).token_counter < usize::MAX,
        ensures
            final(self).wf(),
            final(self).incoming_packets@ == old(self).incoming_packets@,
            final(self).connection_limit == old(self).connection_limit,
            old(self).connections@.len() >= old(self).connection_limit ==> {
                &&& r is None
                &&& final(self).connections@ == old(self).connections@
                &&& final(self).token_counter == old(self).token_counter
                &&& final(self).pending_events@ == old(self).pending_events@.push(
                    ServerEvent::ConnectionRejected(addr),
                )
            },
            old(self).connections@.len() < old(self).connection_limit ==> {
                let t = Token((old(self).token_counter + 1) as usize);
                &&& r == Some(t)
                &&& final(self).token_counter == old(self).token_counter + 1
                &&& final(self).connections@.len() == old(self).connections@.len() + 1
                &&& forall|j: int|
                    0 <= j < old(self).connections@.len() ==> final(self).connections@[j] == old(self).connections@[j]
                &&& final(self).connections@.last().token == t
                &&& !final(self).connections@.last().is_disconnected
                &&& final(self).connections@.last().buffer.contents() == Seq::<u8>::empty()
                &&& final(self).connections@.last().outgoing_packets@ == Seq::<Vec<u8>>::empty()
                &&& final(self).pending_events@ == old(self).pending_events@.push(
                    ServerEvent::ClientConnected(t, addr),
                )
            },
    {
        if self.connections.len() >= self.connection_limit {
            self.pending_events.push(ServerEvent::ConnectionRejected(addr));
            return None;
        }
        self.token_counter = self.token_counter + 1;
        let token = Token(self.token_counter);
        let conn = Connection::new(token);
        self.connections.push(conn);
        self.pending_events.push(ServerEvent::ClientConnected(token, addr));
        Some(token)
    }
}

/// How one fan-out changes the table: every connection the selector matches
/// gets `f` appended to its outgoing FIFO, every other is untouched.
pub open spec fn routed(
    pre: Seq<Connection>,
    post: Seq<Connection>,
    recipient: PacketRecipient,
    f: Seq<u8>,
) -> bool {
    &&& post.len() == pre.len()
    &&& forall|i: int|
        #![trigger post[i]]
        0 <= i < pre.len() ==> if recipient_matches(recipient, pre[i].token) {
            &&& post[i].token == pre[i].token
            &&& post[i].is_disconnected == pre[i].is_disconnected
            &&& post[i].buffer == pre[i].buffer
            &&& post[i].out_frames() == pre[i].out_frames().push(f)
        } else {
            post[i] == pre[i]
        }
}

impl Server {
    /// Whether `ts` holds `t`.
    fn contains_token(ts: &Vec<Token>, t: Token) -> (r: bool)
        ensures
            r == ts@.contains(t),
    {
        let mut i: usize = 0;
        while i < ts.len()
            invariant
                i <= ts@.len(),
                forall|j: int| 0 <= j < i ==> (#[trigger] ts@[j]) != t,
            decreases ts@.len() - i,
        {
            if ts[i].0 == t.0 {
                return true;
            }
            i = i + 1;
        }
        false
    }

    /// The executable mirror of [`recipient_matches`].
    fn matches_recipient(recipient: &PacketRecipient, t: Token) -> (r: bool)
        ensures
            r == recipient_matches(*recipient, t),
    {
        match recipient {
            PacketRecipient::All => true,
            PacketRecipient::Single(s) => s.0 == t.0,
            PacketRecipient::Exclude(s) => s.0 != t.0,
            PacketRecipient::ExcludeMany(ts) => !Self::contains_token(ts, t),
            PacketRecipient::Include(ts) => Self::contains_token(ts, t),
        }
    }

    /// Serializes the body once, then appends an independent copy of the
    /// frame to the outgoing FIFO of every connection the selector matches.
    /// Unknown tokens in a selector are silently ignored; a body whose
    /// serialization fails is dropped and nothing changes.
    pub fn send_boxed<P: PacketBody>(&mut self, recipient: PacketRecipient, packet_boxed: Box<P>)
        requires
            old(self).wf(),
        ensures
            final(self).wf(),
            final(self).incoming_packets@ == old(self).incoming_packets@,
            final(self).pending_events@ == old(self).pending_events@,
            final(self).token_counter == old(self).token_counter,
            final(self).connection_limit == old(self).connection_limit,
            final(self).connections@ == old(self).connections@ || (exists|f: Seq<u8>|
                is_frame(f) && routed(
                    old(self).connections@,
                    final(self).connections@,
                    recipient,
                    f,
                )),
    {
        let body = match packet_boxed.serialize() {
            Ok(d) => d,
            Err(_) => {
                return ;
            },
        };
        let type_id = packet_boxed.id();
        self.send_raw(recipient, type_id, &body);
        proof {
            if body@.len() < MAX_PACKET_BODY_SIZE {
                assert(is_frame(frame_bytes(type_id, body@)));
            }
        }
    }

    /// Fans one already-serialized body out under `type_id`: every connection
    /// the selector matches gets an independent copy of the frame appended to
    /// its outgoing FIFO; unknown tokens in a selector are silently ignored.
    /// A body too large to frame is dropped and nothing changes.
    pub fn send_raw(&mut self, recipient: PacketRecipient, type_id: u8, body: &Vec<u8>)
        requires
            old(self).wf(),
        ensures
            final(self).wf(),
            final(self).incoming_packets@ == old(self).incoming_packets@,
            final(self).pending_events@ == old(self).pending_events@,
            final(self).token_counter == old(self).token_counter,
            final(self).connection_limit == old(self).connection_limit,
            body@.len() < MAX_PACKET_BODY_SIZE ==> routed(
                old(self).connections@,
                final(self).connections@,
                recipient,
                frame_bytes(type_id, body@),
            ),
            body@.len() >= MAX_PACKET_BODY_SIZE ==> final(self).connections@ == old(
                self,
            ).connections@,
    {
        let frame = match encode(body, type_id) {
            Ok(f) => f,
            Err(_) => {
                return ;
            },
        };
        let ghost f = frame@;
        let ghost pre = old(self).connections@;
        proof {
            assert(is_frame(f));
        }
        let mut i: usize = 0;
        while i < self.connections.len()
            invariant
                self.wf(),
                is_frame(f),
                frame@ == f,
                i <= self.connections@.len(),
                self.connections@.len() == pre.len(),
                self.connection_limit == old(self).connection_limit,
                self.token_counter == old(self).token_counter,
                self.incoming_packets@ == old(self).incoming_packets@,
                self.pending_events@ == old(self).pending_events@,
                forall|j: int|
                    #![trigger self.connections@[j]]
                    0 <= j < i ==> if recipient_matches(recipient, pre[j].token) {
                        &&& self.connections@[j].token == pre[j].token
                        &&& self.connections@[j].is_disconnected == pre[j].is_disconnected
                        &&& self.connections@[j].buffer == pre[j].buffer
                        &&& self.connections@[j].out_frames() == pre[j].out_frames().push(f)
                    } else {
                        self.connections@[j] == pre[j]
                    },
                forall|j: int| i <= j < pre.len() ==> self.connections@[j] == pre[j],
            decreases pre.len() - i,
        {
            let t = self.connections[i].token;
            if Self::matches_recipient(&recipient, t) {
                let frame_copy = vstd::slice::slice_to_vec(frame.as_slice());
                let ghost mid = self.connections@;
                let mut conn = self.connections.remove(i);
                let ghost conn0 = conn;
                conn.outgoing_packets.push(frame_copy);
                proof {
                    assert(conn.out_frames() =~= conn0.out_frames().push(f));
                }
                self.connections.insert(i, conn);
                proof {
                    assert(self.connections@ =~= mid.update(i as int, conn));
                }
            }
            i = i + 1;
        }
        proof {
            assert(routed(pre, self.connections@, recipient, f));
        }
    }

    /// Boxes the body, then queues it as [`Server::send_boxed`] does.
    pub fn send<P: PacketBody>(&mut self, recipient: PacketRecipient, packet: P)
        requires
            old(self).wf(),
        ensures
            final(self).wf(),
            final(self).incoming_packets@ == old(self).incoming_packets@,
            final(self).pending_events@ == old(self).pending_events@,
            final(self).token_counter == old(self).token_counter,
            final(self).connection_limit == old(self).connection_limit,
            final(self).connections@ == old(self).connections@ || (exists|f: Seq<u8>|
                is_frame(f) && routed(
                    old(self).connections@,
                    final(self).connections@,
                    recipient,
                    f,
                )),
    {
        let boxed: Box<P> = Box::new(packet);
        self.send_boxed(recipient, boxed);
    }
}

/// The spec-level event recorded when connection `t` reassembles `pair`.
pub open spec fn received_event_for(t: Token, pair: (u8, Seq<u8>)) -> ServerEvent {
    ServerEvent::ReceivedPacket(t, (PACKET_HEADER_SIZE + pair.1.len()) as usize)
}

impl Server {
    /// How many bytes the intake buffer of connection `t` still accepts.
    pub fn read_capacity(&self, t: Token) -> (n: usize)
        requires
            self.wf(),
            self.has_token(t),
        ensures
            n == MAX_BUFFER_SIZE - self.connections@[self.conn_idx(t)].buffer.offset,
    {
        let i = self.find_index(t).unwrap();
        self.connections[i].buffer.remaining_capacity()
    }

    /// Appends bytes just read from connection `t`'s socket to its intake
    /// buffer. The reactor reads at most [`Server::read_capacity`] bytes at a
    /// time.
    pub fn handle_read(&mut self, t: Token, chunk: &[u8])
        requires
            old(self).wf(),
            old(self).has_token(t),
            old(self).connections@[old(self).conn_idx(t)].buffer.offset + chunk@.len()
                <= MAX_BUFFER_SIZE,
        ensures
            final(self).wf(),
            final(self).incoming_packets@ == old(self).incoming_packets@,
            final(self).pending_events@ == old(self).pending_events@,
            final(self).token_counter == old(self).token_counter,
            final(self).connection_limit == old(self).connection_limit,
            final(self).connections@.len() == old(self).connections@.len(),
            forall|j: int|
                0 <= j < old(self).connections@.len() && j != old(self).conn_idx(t) ==> final(self).connections@[j] == old(self).connections@[j],
            ({
                let i = old(self).conn_idx(t);
                &&& final(self).connections@[i].token == t
                &&& final(self).connections@[i].is_disconnected == old(self).connections@[i].is_disconnected
                &&& final(self).connections@[i].outgoing_packets@ == old(self).connections@[i].outgoing_packets@
                &&& final(self).connections@[i].buffer.contents() == old(self).connections@[i].buffer.contents() + chunk@
            }),
    {
        let i = self.find_index(t).unwrap();
        let ghost mid = self.connections@;
        let mut conn = self.connections.remove(i);
        conn.buffer.write_bytes(chunk);
        self.connections.insert(i, conn);
        proof {
            assert(self.connections@ =~= mid.update(i as int, self.connections@[i as int]));
        }
    }

    /// Records that connection `t` is gone — the peer closed the stream, or
    /// a read or write failed unrecoverably. Removal and the disconnect
    /// event follow at the next tick boundary, like a kick.
    pub fn mark_disconnected(&mut self, t: Token)
        requires
            old(self).wf(),
            old(self).has_token(t),
        ensures
            final(self).wf(),
            final(self).incoming_packets@ == old(self).incoming_packets@,
            final(self).pending_events@ == old(self).pending_events@,
            final(self).token_counter == old(self).token_counter,
            final(self).connection_limit == old(self).connection_limit,
            final(self).connections@.len() == old(self).connections@.len(),
            forall|j: int|
                0 <= j < old(self).connections@.len() && j != old(self).conn_idx(t) ==> final(self).connections@[j] == old(self).connections@[j],
            ({
                let i = old(self).conn_idx(t);
                &&& final(self).connections@[i].token == t
                &&& final(self).connections@[i].is_disconnected
                &&& final(self).connections@[i].buffer == old(self).connections@[i].buffer
                &&& final(self).connections@[i].outgoing_packets@ == old(self).connections@[i].outgoing_packets@
            }),
    {
        let _r = self.kick(t);
    }

    /// Runs the packet extraction loop against connection `t`'s intake
    /// buffer: every complete pending frame becomes a `(token, packet)` pair
    /// on the server-level incoming queue and a received event; leftover
    /// bytes stay buffered.
    pub fn extract_packets(&mut self, t: Token)
        requires
            old(self).wf(),
            old(self).has_token(t),
        ensures
            final(self).wf(),
            final(self).pending_events@ == old(self).pending_events@ + parsed_packets(
                old(self).connections@[old(self).conn_idx(t)].buffer.contents(),
            ).map_values(|pair: (u8, Seq<u8>)| received_event_for(t, pair)),
            final(self).token_counter == old(self).token_counter,
            final(self).connection_limit == old(self).connection_limit,
            final(self).connections@.len() == old(self).connections@.len(),
            forall|j: int|
                0 <= j < old(self).connections@.len() && j != old(self).conn_idx(t) ==> final(self).connections@[j] == old(self).connections@[j],
            ({
                let i = old(self).conn_idx(t);
                &&& final(self).connections@[i].token == t
                &&& final(self).connections@[i].is_disconnected == old(self).connections@[i].is_disconnected
                &&& final(self).connections@[i].outgoing_packets@ == old(self).connections@[i].outgoing_packets@
                &&& final(self).connections@[i].buffer.contents() == unparsed_rest(
                    old(self).connections@[i].buffer.contents(),
                )
            }),
            ({
                let parsed = parsed_packets(
                    old(self).connections@[old(self).conn_idx(t)].buffer.contents(),
                );
                &&& final(self).incoming_packets@.len() == old(self).incoming_packets@.len()
                    + parsed.len()
                &&& forall|k: int|
                    0 <= k < old(self).incoming_packets@.len() ==> final(self).incoming_packets@[k] == old(self).incoming_packets@[k]
                &&& forall|k: int|
                    0 <= k < parsed.len() ==> (#[trigger] final(self).incoming_packets@[old(self).incoming_packets@.len() + k]).0 == t && final(self).incoming_packets@[old(self).incoming_packets@.len() + k].1.view_pair() == parsed[k]
            }),
    {
        let i = self.find_index(t).unwrap();
        let ghost parsed = parsed_packets(old(self).connections@[i as int].buffer.contents());
        let ghost mid = self.connections@;
        let mut conn = self.connections.remove(i);
        let mut rest = extract_packets(&mut conn.buffer);
        let ghost pall = rest@;
        self.connections.insert(i, conn);
        proof {
            assert(self.connections@ =~= mid.update(i as int, self.connections@[i as int]));
            assert(pall.map_values(|p: Packet| p.view_pair()) == parsed);
            assert(pall.take(0) =~= Seq::<Packet>::empty());
            assert(pall.skip(0) =~= pall);
            assert(self.incoming_packets@ =~= old(self).incoming_packets@ + pall.take(
                0,
            ).map_values(|p: Packet| (t, p)));
            assert(self.pending_events@ =~= old(self).pending_events@ + pall.take(0).map_values(
                |q: Packet| received_event_for(t, q.view_pair()),
            ));
        }
        let ghost mid2 = self.connections@;
        while rest.len() > 0
            invariant
                rest@.len() <= pall.len(),
                rest@ == pall.skip(pall.len() - rest@.len()),
                forall|k: int| 0 <= k < pall.len() ==> (#[trigger] pall[k]).wf(),
                self.wf(),
                self.connections@ == mid2,
                self.token_counter == old(self).token_counter,
                self.connection_limit == old(self).connection_limit,
                self.incoming_packets@ == old(self).incoming_packets@ + pall.take(
                    pall.len() - rest@.len(),
                ).map_values(|p: Packet| (t, p)),
                self.pending_events@ == old(self).pending_events@ + pall.take(
                    pall.len() - rest@.len(),
                ).map_values(|q: Packet| received_event_for(t, q.view_pair())),
            decreases rest@.len(),
        {
            let ghost k = pall.len() - rest@.len();
            let p = rest.remove(0);
            proof {
                assert(p == pall[k]);
                assert(rest@ =~= pall.skip(k + 1));
                assert(pall.take(k + 1) =~= pall.take(k).push(pall[k]));
            }
            let n = PACKET_HEADER_SIZE + p.body.len();
            self.pending_events.push(ServerEvent::ReceivedPacket(t, n));
            self.incoming_packets.push((t, p));
            proof {
                assert(self.incoming_packets@ =~= old(self).incoming_packets@ + pall.take(
                    k + 1,
                ).map_values(|q: Packet| (t, q)));
                assert(received_event_for(t, pall[k].view_pair()) == ServerEvent::ReceivedPacket(
                    t,
                    n,
                ));
                assert(self.pending_events@ =~= old(self).pending_events@ + pall.take(
                    k + 1,
                ).map_values(|q: Packet| received_event_for(t, q.view_pair())));
            }
        }
        proof {
            assert(pall.take(pall.len() as int) =~= pall);
            assert(self.pending_events@ =~= old(self).pending_events@ + parsed.map_values(
                |pair: (u8, Seq<u8>)| received_event_for(t, pair),
            ));
            assert(forall|k: int|
                0 <= k < parsed.len() ==> (#[trigger] self.incoming_packets@[old(self).incoming_packets@.len() + k]) == (t, pall[k]));
        }
    }

    /// Pops the frame at the front of connection `t`'s outgoing FIFO, for
    /// the reactor to write to its socket; `None` when the queue is empty.
    pub fn next_outgoing(&mut self, t: Token) -> (r: Option<Vec<u8>>)
        requires
            old(self).wf(),
            old(self).has_token(t),
        ensures
            final(self).wf(),
            final(self).incoming_packets@ == old(self).incoming_packets@,
            final(self).pending_events@ == old(self).pending_events@,
            final(self).token_counter == old(self).token_counter,
            final(self).connection_limit == old(self).connection_limit,
            final(self).connections@.len() == old(self).connections@.len(),
            forall|j: int|
                0 <= j < old(self).connections@.len() && j != old(self).conn_idx(t) ==> final(self).connections@[j] == old(self).connections@[j],
            ({
                let i = old(self).conn_idx(t);
                match r {
                    Some(frame) => {
                        &&& old(self).connections@[i].out_frames().len() > 0
                        &&& frame@ == old(self).connections@[i].out_frames()[0]
                        &&& is_frame(frame@)
                        &&& final(self).connections@[i].out_frames() == old(self).connections@[i].out_frames().skip(1)
                        &&& final(self).connections@[i].token == t
                        &&& final(self).connections@[i].is_disconnected == old(self).connections@[i].is_disconnected
                        &&& final(self).connections@[i].buffer == old(self).connections@[i].buffer
                    },
                    None => {
                        &&& old(self).connections@[i].out_frames().len() == 0
                        &&& final(self).connections@ == old(self).connections@
                    },
                }
            }),
    {
        let i = self.find_index(t).unwrap();
        if self.connections[i].outgoing_packets.len() == 0 {
            return None;
        }
        let ghost mid = self.connections@;
        let mut conn = self.connections.remove(i);
        let ghost conn0 = conn;
        let frame = conn.outgoing_packets.remove(0);
        proof {
            assert(conn.out_frames() =~= conn0.out_frames().skip(1));
        }
        self.connections.insert(i, conn);
        proof {
            assert(self.connections@ =~= mid.update(i as int, self.connections@[i as int]));
        }
        Some(frame)
    }

    /// Records that a popped frame of `byte_count` bytes was written in full
    /// to connection `t`'s socket.
    pub fn note_sent(&mut self, t: Token, byte_count: usize)
        requires
            old(self).wf(),
        ensures
            final(self).wf(),
            final(self).pending_events@ == old(self).pending_events@.push(
                ServerEvent::SentPacket(t, byte_count),
            ),
            final(self).connections@ == old(self).connections@,
            final(self).incoming_packets@ == old(self).incoming_packets@,
            final(self).token_counter == old(self).token_counter,
            final(self).connection_limit == old(self).connection_limit,
    {
        self.pending_events.push(ServerEvent::SentPacket(t, byte_count));
    }

    /// Closes the current tick: emits one disconnected event per flagged
    /// connection (whether flagged by an I/O failure this tick or by an
    /// earlier kick), in table order and after every I/O event of the tick,
    /// then removes all flagged entries in one pass. This scan-then-remove
    /// ordering means a connection that failed mid-tick still gets its
    /// termination event exactly once, and is gone from the table before any
    /// later routing sees it. Returns the tick's events, in order, and leaves
    /// the event list empty.
    pub fn tick(&mut self) -> (events: Vec<ServerEvent>)
        requires
            old(self).wf(),
        ensures
            final(self).wf(),
            events@ == old(self).pending_events@ + disc_events(old(self).connections@),
            final(self).connections@ == retained(old(self).connections@),
            final(self).pending_events@ == Seq::<ServerEvent>::empty(),
            final(self).incoming_packets@ == old(self).incoming_packets@,
            final(self).token_counter == old(self).token_counter,
            final(self).connection_limit == old(self).connection_limit,
    {
        let ghost all = old(self).connections@;
        let mut events: Vec<ServerEvent> = Vec::new();
        core::mem::swap(&mut events, &mut self.pending_events);
        // Phase 1: scan for flagged connections and emit their events.
        let mut i: usize = 0;
        proof {
            assert(all.skip(0) =~= all);
        }
        while i < self.connections.len()
            invariant
                self.wf(),
                i <= all.len(),
                self.connections@ == all,
                self.pending_events@ == Seq::<ServerEvent>::empty(),
                self.incoming_packets@ == old(self).incoming_packets@,
                self.token_counter == old(self).token_counter,
                self.connection_limit == old(self).connection_limit,
                events@ + disc_events(all.skip(i as int)) == old(self).pending_events@
                    + disc_events(all),
            decreases all.len() - i,
        {
            let ghost evs0 = events@;
            if self.connections[i].is_disconnected {
                let tk = self.connections[i].token;
                events.push(ServerEvent::ClientDisconnected(tk));
            }
            proof {
                let s = all.skip(i as int);
                assert(s[0] == all[i as int]);
                assert(s.skip(1) =~= all.skip(i as int + 1));
                let head = if all[i as int].is_disconnected {
                    seq![ServerEvent::ClientDisconnected(all[i as int].token)]
                } else {
                    Seq::<ServerEvent>::empty()
                };
                assert(disc_events(s) == head + disc_events(all.skip(i as int + 1)));
                assert(events@ =~= evs0 + head);
                assert(events@ + disc_events(all.skip(i as int + 1)) =~= (evs0 + head)
                    + disc_events(all.skip(i as int + 1)));
                assert((evs0 + head) + disc_events(all.skip(i as int + 1)) =~= evs0 + (head
                    + disc_events(all.skip(i as int + 1))));
            }
            i = i + 1;
        }
        proof {
            assert(all.skip(all.len() as int) =~= Seq::<Connection>::empty());
            assert(disc_events(Seq::<Connection>::empty()) == Seq::<ServerEvent>::empty());
            assert(events@ + Seq::<ServerEvent>::empty() =~= events@);
        }
        // Phase 2: retain only the connections that are not flagged.
        let mut conns: Vec<Connection> = Vec::new();
        core::mem::swap(&mut conns, &mut self.connections);
        proof {
            assert(self.connections@ + retained(conns@) =~= retained(all));
        }
        while conns.len() > 0
            invariant
                self.connections@ + retained(conns@) == retained(all),
                self.connections@.len() + conns@.len() <= all.len() <= self.connection_limit,
                forall|k: int| 0 <= k < conns@.len() ==> (#[trigger] conns@[k]).wf(),
                forall|k: int|
                    0 <= k < conns@.len() ==> 1 <= (#[trigger] conns@[k]).token.0
                        <= self.token_counter,
                tokens_distinct(conns@),
                forall|k: int|
                    0 <= k < self.connections@.len() ==> (#[trigger] self.connections@[k]).wf(),
                forall|k: int|
                    0 <= k < self.connections@.len() ==> 1 <= (
                    #[trigger] self.connections@[k]).token.0 <= self.token_counter,
                tokens_distinct(self.connections@),
                forall|a: int, b: int|
                    0 <= a < self.connections@.len() && 0 <= b < conns@.len() ==> (
                    #[trigger] self.connections@[a].token) != (#[trigger] conns@[b].token),
                self.pending_events@ == Seq::<ServerEvent>::empty(),
                self.incoming_packets@ == old(self).incoming_packets@,
                self.token_counter == old(self).token_counter,
                self.connection_limit == old(self).connection_limit,
            decreases conns@.len(),
        {
            let ghost conns0 = conns@;
            let ghost kept0 = self.connections@;
            let c = conns.remove(0);
            proof {
                assert(c == conns0[0]);
                assert(conns@ =~= conns0.skip(1));
            }
            if !c.is_disconnected {
                self.connections.push(c);
                proof {
                    assert(retained(conns0) == seq![conns0[0]] + retained(conns0.skip(1)));
                    assert(self.connections@ + retained(conns@) =~= kept0 + retained(conns0));
                }
            } else {
                proof {
                    assert(retained(conns0) == retained(conns0.skip(1)));
                }
            }
        }
        proof {
            assert(retained(Seq::<Connection>::empty()) == Seq::<Connection>::empty());
            assert(self.connections@ =~= retained(all));
        }
        events
    }
}

/// No reap event or surviving entry names a token the table does not hold.
proof fn lemma_absent_token_unreported(s: Seq<Connection>, t: Token)
    requires
        forall|j: int| 0 <= j < s.len() ==> (#[trigger] s[j]).token != t,
    ensures
        count_disconnects(disc_events(s), t) == 0,
        forall|j: int| 0 <= j < retained(s).len() ==> (#[trigger] retained(s)[j]).token != t,
    decreases s.len(),
{
    if s.len() == 0 {
    } else {
        lemma_absent_token_unreported(s.skip(1), t);
        if s[0].is_disconnected {
            let d1 = disc_events(s.skip(1));
            let ev = ServerEvent::ClientDisconnected(s[0].token);
            assert(disc_events(s) == seq![ev] + d1);
            assert((seq![ev] + d1).skip(1) =~= d1);
            assert(count_disconnects(disc_events(s), t) == 0);
            assert(retained(s) == retained(s.skip(1)));
        } else {
            assert(disc_events(s) == Seq::<ServerEvent>::empty() + disc_events(s.skip(1)));
            assert(Seq::<ServerEvent>::empty() + disc_events(s.skip(1)) =~= disc_events(s.skip(1)));
            assert(retained(s) == seq![s[0]] + retained(s.skip(1)));
            assert(forall|j: int|
                0 <= j < retained(s).len() ==> (#[trigger] retained(s)[j]).token != t);
        }
    }
}

/// Kick-then-reap law: once the entry at position `i`, holding token `t`, is
/// flagged in a table with distinct tokens, the next reap emits exactly one
/// disconnected event for `t`, and no surviving entry holds `t` — so a later
/// send addressed to `t` alone is a silent no-op.
pub proof fn lemma_kicked_reported_once(s: Seq<Connection>, t: Token, i: int)
    requires
        tokens_distinct(s),
        0 <= i < s.len(),
        s[i].token == t,
        s[i].is_disconnected,
    ensures
        count_disconnects(disc_events(s), t) == 1,
        forall|j: int| 0 <= j < retained(s).len() ==> (#[trigger] retained(s)[j]).token != t,
    decreases s.len(),
{
    if i == 0 {
        let d1 = disc_events(s.skip(1));
        let ev = ServerEvent::ClientDisconnected(t);
        assert(disc_events(s) == seq![ev] + d1);
        assert((seq![ev] + d1).skip(1) =~= d1);
        assert(forall|j: int| 0 <= j < s.skip(1).len() ==> (#[trigger] s.skip(1)[j]).token != t);
        lemma_absent_token_unreported(s.skip(1), t);
        assert(count_disconnects(disc_events(s), t) == 1);
        assert(retained(s) == retained(s.skip(1)));
    } else {
        assert(s[0].token != t);
        assert(forall|a: int, b: int|
            0 <= a < b < s.skip(1).len() ==> (#[trigger] s.skip(1)[a].token) != (
            #[trigger] s.skip(1)[b].token));
        lemma_kicked_reported_once(s.skip(1), t, i - 1);
        let d1 = disc_events(s.skip(1));
        if s[0].is_disconnected {
            let ev = ServerEvent::ClientDisconnected(s[0].token);
            assert(disc_events(s) == seq![ev] + d1);
            assert((seq![ev] + d1).skip(1) =~= d1);
            assert(count_disconnects(disc_events(s), t) == 1);
            assert(retained(s) == retained(s.skip(1)));
        } else {
            assert(disc_events(s) == Seq::<ServerEvent>::empty() + d1);
            assert(Seq::<ServerEvent>::empty() + d1 =~= d1);
            assert(retained(s) == seq![s[0]] + retained(s.skip(1)));
            assert(forall|j: int|
                0 <= j < retained(s).len() ==> (#[trigger] retained(s)[j]).token != t);
        }
    }
}

} // verus!
