//! The packet wire format: a 3-octet header (16-bit big-endian body length,
//! then an 8-bit type identifier) followed by the body bytes verbatim, frames
//! repeated back-to-back with no other delimiter.

use vstd::prelude::*;

use crate::buffer::NetworkBuffer;
use crate::error::Error;

verus! {

/// Bytes in a packet header: 2 for the body size, 1 for the id.
pub const PACKET_HEADER_SIZE: usize = 3;

/// A declared body length at or above this is rejected by header decoding:
/// the sole admission control against oversized or malicious length fields.
pub const MAX_PACKET_BODY_SIZE: usize = 8192;

/// The largest complete frame that can appear on the wire.
pub const MAX_PACKET_SIZE: usize = PACKET_HEADER_SIZE + MAX_PACKET_BODY_SIZE;

/// The header included with every packet: the body size and the packet id.
#[derive(Clone, Copy, PartialEq, Eq, Structural, Debug)]
pub struct PacketHeader {
    pub size: u16,
    pub id: u8,
}

/// A header and a variable-size body. Constructed upon successful reassembly,
/// consumed by the caller via a drain operation, never persisted.
#[derive(Clone, Debug)]
pub struct Packet {
    pub header: PacketHeader,
    pub body: Vec<u8>,
}

impl Packet {
    /// A reassembled packet's declared size matches its body, and is small
    /// enough to have passed header decoding.
    pub open spec fn wf(self) -> bool {
        self.header.size as int == self.body@.len() && self.body@.len() < MAX_PACKET_BODY_SIZE
    }

    /// The pair a packet stands for on the wire: its id and its body bytes.
    pub open spec fn view_pair(self) -> (u8, Seq<u8>) {
        (self.header.id, self.body@)
    }
}

/// Implementors can be sent as a packet body. Serialization and
/// deserialization are independent, directionally-asymmetric operations: a
/// type meant only to be sent may refuse to deserialize, and vice versa.
pub trait PacketBody: Sized {
    /// A cloned heap handle of this body.
    fn box_clone(&self) -> Box<Self>;

    /// The body bytes this value serializes to, or a typed failure.
    fn serialize(&self) -> Result<Vec<u8>, Error>;

    /// The value the given body bytes deserialize to, or a typed failure.
    fn deserialize(data: &[u8]) -> Result<Self, Error>;

    /// The 1-byte type identifier carried in the header.
    fn id(&self) -> u8;
}

/// The body length a header's first two bytes declare (big-endian).
pub open spec fn header_len(bytes: Seq<u8>) -> int {
    (bytes[0] as int) * 256 + (bytes[1] as int)
}

/// The wire bytes of one frame: 2-byte big-endian body length, 1-byte id,
/// then the body verbatim.
pub open spec fn frame_bytes(id: u8, body: Seq<u8>) -> Seq<u8> {
    seq![
        (((body.len() as int) / 256) as u8),
        (((body.len() as int) % 256) as u8),
        id,
    ] + body
}

/// Whether `f` is some well-formed frame.
pub open spec fn is_frame(f: Seq<u8>) -> bool {
    exists|id: u8, body: Seq<u8>| body.len() < MAX_PACKET_BODY_SIZE && f == frame_bytes(id, body)
}

/// Whether a complete, admissible frame stands at the front of `bytes`.
pub open spec fn frame_ready(bytes: Seq<u8>) -> bool {
    &&& bytes.len() >= PACKET_HEADER_SIZE
    &&& header_len(bytes) < MAX_PACKET_BODY_SIZE
    &&& bytes.len() >= PACKET_HEADER_SIZE + header_len(bytes)
}

/// The (id, body) pairs of every complete frame at the front of `bytes`, in
/// order. Extraction stops at the first incomplete or inadmissible frame.
pub open spec fn parsed_packets(bytes: Seq<u8>) -> Seq<(u8, Seq<u8>)>
    decreases bytes.len(),
{
    if frame_ready(bytes) {
        seq![(bytes[2], bytes.subrange(3, 3 + header_len(bytes)))]
            + parsed_packets(bytes.skip(3 + header_len(bytes)))
    } else {
        seq![]
    }
}

/// The bytes left over once every complete frame at the front of `bytes` has
/// been extracted.
pub open spec fn unparsed_rest(bytes: Seq<u8>) -> Seq<u8>
    decreases bytes.len(),
{
    if frame_ready(bytes) {
        unparsed_rest(bytes.skip(3 + header_len(bytes)))
    } else {
        bytes
    }
}

/// The concatenated wire bytes of a sequence of (id, body) pairs.
pub open spec fn encode_frames(frames: Seq<(u8, Seq<u8>)>) -> Seq<u8>
    decreases frames.len(),
{
    if frames.len() == 0 {
        Seq::<u8>::empty()
    } else {
        frame_bytes(frames[0].0, frames[0].1) + encode_frames(frames.skip(1))
    }
}

/// Writes the 3-byte header for `body` under id `type_id`, followed by the
/// body verbatim. A body at or above the maximum size is refused: the peer's
/// header decoding would reject it anyway.
pub fn encode(body: &Vec<u8>, type_id: u8) -> (r: Result<Vec<u8>, Error>)
    ensures
        body@.len() < MAX_PACKET_BODY_SIZE ==> (r matches Ok(f) && f@ == frame_bytes(
            type_id,
            body@,
        )),
        body@.len() >= MAX_PACKET_BODY_SIZE ==> r == Result::<Vec<u8>, Error>::Err(
            Error::InvalidData,
        ),
{
    let len = body.len();
    if len >= MAX_PACKET_BODY_SIZE {
        return Err(Error::InvalidData);
    }
    let mut data: Vec<u8> = Vec::new();
    data.push((len / 256) as u8);
    data.push((len % 256) as u8);
    data.push(type_id);
    let mut i: usize = 0;
    while i < len
        invariant
            len == body@.len() < MAX_PACKET_BODY_SIZE,
            i <= len,
            data@.len() == 3 + i,
            data@[0] == (((body@.len() as int) / 256) as u8),
            data@[1] == (((body@.len() as int) % 256) as u8),
            data@[2] == type_id,
            forall|j: int| 0 <= j < i ==> data@[3 + j] == body@[j],
        decreases len - i,
    {
        let b = body[i];
        data.push(b);
        i = i + 1;
    }
    proof {
        assert(data@ =~= frame_bytes(type_id, body@));
    }
    Ok(data)
}

/// Serializes `body` and frames the result under the body's own id.
/// Propagates the body's serialization failure.
pub fn serialize_packet<P: PacketBody>(body: &P) -> (r: Result<Vec<u8>, Error>)
    ensures
        r matches Ok(f) ==> is_frame(f@),
{
    let body_data = match body.serialize() {
        Ok(d) => d,
        Err(e) => {
            return Err(e);
        },
    };
    let id = body.id();
    let r = encode(&body_data, id);
    proof {
        if body_data@.len() < MAX_PACKET_BODY_SIZE {
            assert(is_frame(frame_bytes(id, body_data@)));
        }
    }
    r
}

/// Reads the first 3 valid bytes of the buffer as a header, without consuming
/// them. Fewer than a header's worth of pending bytes and an oversized
/// declared body length are rejected alike, with an invalid-data error; the
/// tick loops treat either as "stop extracting from this buffer for now".
pub fn deserialize_packet_header(buffer: &NetworkBuffer) -> (r: Result<PacketHeader, Error>)
    requires
        buffer.wf(),
    ensures
        match r {
            Ok(h) => {
                &&& buffer.contents().len() >= PACKET_HEADER_SIZE
                &&& h.size as int == header_len(buffer.contents())
                &&& (h.size as int) < MAX_PACKET_BODY_SIZE
                &&& h.id == buffer.contents()[2]
            },
            Err(e) => {
                &&& e == Error::InvalidData
                &&& (buffer.contents().len() < PACKET_HEADER_SIZE || header_len(buffer.contents())
                    >= MAX_PACKET_BODY_SIZE)
            },
        },
{
    if buffer.offset < PACKET_HEADER_SIZE {
        return Err(Error::InvalidData);
    }
    let b0 = buffer.data[0];
    let b1 = buffer.data[1];
    let id = buffer.data[2];
    let body_size: u16 = (b0 as u16) * 256 + (b1 as u16);
    proof {
        assert(buffer.contents()[0] == buffer.data@[0]);
        assert(buffer.contents()[1] == buffer.data@[1]);
        assert(buffer.contents()[2] == buffer.data@[2]);
    }
    if body_size as usize >= MAX_PACKET_BODY_SIZE {
        return Err(Error::InvalidData);
    }
    Ok(PacketHeader { size: body_size, id })
}

/// The packet extraction loop shared by the client and server engines: while
/// a complete, admissible frame is pending, copy its body out, drain it from
/// the front of the buffer, and emit the packet. Multiple complete packets
/// may be extracted from one read burst; an incomplete or inadmissible frame
/// stops extraction and leaves its bytes unconsumed.
pub fn extract_packets(buffer: &mut NetworkBuffer) -> (out: Vec<Packet>)
    requires
        old(buffer).wf(),
    ensures
        final(buffer).wf(),
        final(buffer).contents() == unparsed_rest(old(buffer).contents()),
        out@.map_values(|p: Packet| p.view_pair()) == parsed_packets(old(buffer).contents()),
        forall|k: int| 0 <= k < out@.len() ==> (#[trigger] out@[k]).wf(),
{
    let ghost b0 = old(buffer).contents();
    let mut out: Vec<Packet> = Vec::new();
    loop
        invariant
            buffer.wf(),
            out@.map_values(|p: Packet| p.view_pair()) + parsed_packets(buffer.contents())
                =~= parsed_packets(b0),
            unparsed_rest(buffer.contents()) == unparsed_rest(b0),
            forall|k: int| 0 <= k < out@.len() ==> (#[trigger] out@[k]).wf(),
        ensures
            buffer.wf(),
            !frame_ready(buffer.contents()),
            out@.map_values(|p: Packet| p.view_pair()) + parsed_packets(buffer.contents())
                =~= parsed_packets(b0),
            unparsed_rest(buffer.contents()) == unparsed_rest(b0),
            forall|k: int| 0 <= k < out@.len() ==> (#[trigger] out@[k]).wf(),
        decreases buffer.offset,
    {
        let ghost cur = buffer.contents();
        let header = match deserialize_packet_header(buffer) {
            Ok(h) => h,
            Err(_) => {
                proof {
                    assert(!frame_ready(cur));
                }
                break ;
            },
        };
        let packet_size = PACKET_HEADER_SIZE + header.size as usize;
        if buffer.offset < packet_size {
            proof {
                assert(!frame_ready(cur));
            }
            break ;
        }
        proof {
            assert(cur.len() == buffer.offset as int);
            assert(frame_ready(cur));
        }
        let body = buffer.copy_range(PACKET_HEADER_SIZE, packet_size);
        buffer.drain(packet_size);
        let packet = Packet { header, body };
        proof {
            let ghost prev = out@.map_values(|p: Packet| p.view_pair());
            assert(packet.view_pair() == (cur[2], cur.subrange(3, 3 + header_len(cur))));
            assert(buffer.contents() == cur.skip(3 + header_len(cur)));
            assert(parsed_packets(cur) == seq![packet.view_pair()] + parsed_packets(
                buffer.contents(),
            ));
            assert(out@.push(packet).map_values(|p: Packet| p.view_pair()) =~= prev.push(
                packet.view_pair(),
            ));
            assert(prev.push(packet.view_pair()) + parsed_packets(buffer.contents()) =~= prev + (
            seq![packet.view_pair()] + parsed_packets(buffer.contents())));
        }
        out.push(packet);
    }
    proof {
        assert(parsed_packets(buffer.contents()) =~= Seq::<(u8, Seq<u8>)>::empty());
        assert(out@.map_values(|p: Packet| p.view_pair()) =~= parsed_packets(b0));
        assert(unparsed_rest(buffer.contents()) == buffer.contents());
    }
    out
}

/// Round-trip law: the frame written for any admissible body parses back to
/// exactly that body and id, with nothing left over.
pub proof fn lemma_frame_round_trip(id: u8, body: Seq<u8>)
    requires
        body.len() < MAX_PACKET_BODY_SIZE,
    ensures
        parsed_packets(frame_bytes(id, body)) == seq![(id, body)],
        unparsed_rest(frame_bytes(id, body)) == Seq::<u8>::empty(),
{
    let f = frame_bytes(id, body);
    vstd::arithmetic::div_mod::lemma_fundamental_div_mod(body.len() as int, 256);
    assert(0 <= (body.len() as int) / 256 < 256);
    assert(header_len(f) == body.len());
    assert(frame_ready(f));
    assert(f.subrange(3, 3 + body.len() as int) =~= body);
    assert(f.skip(3 + body.len() as int) =~= Seq::<u8>::empty());
    assert(!frame_ready(Seq::<u8>::empty()));
    assert(parsed_packets(Seq::<u8>::empty()) == Seq::<(u8, Seq<u8>)>::empty());
    assert(unparsed_rest(Seq::<u8>::empty()) == Seq::<u8>::empty());
    assert(parsed_packets(f) =~= seq![(id, body)]);
}

/// Chunk-boundary independence: however a byte stream is split, parsing the
/// whole is parsing the first part and then the leftover joined to the rest.
/// Delivering bytes in arbitrary partial reads therefore reassembles the same
/// packets as delivering them at once.
pub proof fn lemma_parse_append(s: Seq<u8>, t: Seq<u8>)
    ensures
        parsed_packets(s + t) == parsed_packets(s) + parsed_packets(unparsed_rest(s) + t),
        unparsed_rest(s + t) == unparsed_rest(unparsed_rest(s) + t),
    decreases s.len(),
{
    if frame_ready(s) {
        let l = header_len(s);
        assert((s + t)[0] == s[0] && (s + t)[1] == s[1] && (s + t)[2] == s[2]);
        assert(frame_ready(s + t));
        assert((s + t).subrange(3, 3 + l) =~= s.subrange(3, 3 + l));
        assert((s + t).skip(3 + l) =~= s.skip(3 + l) + t);
        lemma_parse_append(s.skip(3 + l), t);
        assert(unparsed_rest(s) == unparsed_rest(s.skip(3 + l)));
        assert(parsed_packets(s + t) =~= parsed_packets(s) + parsed_packets(
            unparsed_rest(s) + t,
        ));
    } else {
        assert(unparsed_rest(s) == s);
        assert(parsed_packets(s) + parsed_packets(s + t) =~= parsed_packets(s + t));
    }
}

/// FIFO delivery law: the concatenation of any sequence of admissible frames
/// parses back to exactly those (id, body) pairs, in the order they were
/// written, with nothing left over.
pub proof fn lemma_parse_concat_frames(frames: Seq<(u8, Seq<u8>)>)
    requires
        forall|k: int|
            0 <= k < frames.len() ==> (#[trigger] frames[k]).1.len() < MAX_PACKET_BODY_SIZE,
    ensures
        parsed_packets(encode_frames(frames)) == frames,
        unparsed_rest(encode_frames(frames)) == Seq::<u8>::empty(),
    decreases frames.len(),
{
    if frames.len() == 0 {
        assert(encode_frames(frames) == Seq::<u8>::empty());
        assert(!frame_ready(Seq::<u8>::empty()));
        assert(parsed_packets(Seq::<u8>::empty()) =~= frames);
    } else {
        let f0 = frame_bytes(frames[0].0, frames[0].1);
        let rest = encode_frames(frames.skip(1));
        lemma_frame_round_trip(frames[0].0, frames[0].1);
        lemma_parse_append(f0, rest);
        assert(unparsed_rest(f0) + rest =~= rest);
        lemma_parse_concat_frames(frames.skip(1));
        assert(encode_frames(frames) == f0 + rest);
        assert(parsed_packets(f0 + rest) =~= seq![(frames[0].0, frames[0].1)] + frames.skip(1));
        assert(seq![(frames[0].0, frames[0].1)] + frames.skip(1) =~= frames);
    }
}

} // verus!

