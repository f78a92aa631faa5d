//! A fixed-capacity byte intake buffer: one per connection, it accumulates raw
//! socket reads and yields framed packets by draining consumed prefixes.

use vstd::prelude::*;

verus! {

/// Capacity of every intake buffer, in bytes. The buffer is never resized; a
/// peer that needs more pending bytes than this is a protocol violation.
pub const MAX_BUFFER_SIZE: usize = 16384;

/// A simple byte buffer, useful for storing bytes that are going to be
/// consumed in packets.
///
/// `data` always holds exactly [`MAX_BUFFER_SIZE`] bytes; `data[0 .. offset]`
/// are the valid pending bytes in arrival order, and the rest are undefined.
/// A flat array with a shift-on-drain is used in place of a ring buffer: the
/// shift only moves the unconsumed remainder, which is capped by the small
/// maximum packet size.
pub struct NetworkBuffer {
    pub data: Vec<u8>,
    pub offset: usize,
}

impl NetworkBuffer {
    /// The structural invariant: full backing storage, offset in bounds.
    pub open spec fn wf(self) -> bool {
        self.data@.len() == MAX_BUFFER_SIZE && self.offset <= MAX_BUFFER_SIZE
    }

    /// The valid pending bytes, in arrival order.
    pub open spec fn contents(self) -> Seq<u8> {
        self.data@.take(self.offset as int)
    }

    pub fn new() -> (buf: NetworkBuffer)
        ensures
            buf.wf(),
            buf.offset == 0,
            buf.contents() == Seq::<u8>::empty(),
    {
        let buf = NetworkBuffer { data: vec![0u8; MAX_BUFFER_SIZE], offset: 0 };
        proof {
            assert(buf.contents() =~= Seq::<u8>::empty());
        }
        buf
    }

    /// How many more bytes fit before the buffer is full.
    pub fn remaining_capacity(&self) -> (n: usize)
        requires
            self.wf(),
        ensures
            n == MAX_BUFFER_SIZE - self.offset,
    {
        MAX_BUFFER_SIZE - self.offset
    }

    /// Appends `chunk` at the write offset: the append-read operation, used
    /// after a socket read delivered `chunk` for this connection.
    pub fn write_bytes(&mut self, chunk: &[u8])
        requires
            old(self).wf(),
            old(self).offset + chunk@.len() <= MAX_BUFFER_SIZE,
        ensures
            final(self).wf(),
            final(self).offset == old(self).offset + chunk@.len(),
            final(self).contents() == old(self).contents() + chunk@,
    {
        let mut i: usize = 0;
        while i < chunk.len()
            invariant
                self.wf(),
                i <= chunk@.len(),
                self.offset == old(self).offset,
                self.offset + chunk@.len() <= MAX_BUFFER_SIZE,
                forall|j: int| 0 <= j < self.offset ==> self.data@[j] == old(self).data@[j],
                forall|j: int| 0 <= j < i ==> self.data@[self.offset + j] == chunk@[j],
            decreases chunk@.len() - i,
        {
            self.data[self.offset + i] = chunk[i];
            i = i + 1;
        }
        self.offset = self.offset + chunk.len();
        proof {
            assert(self.contents() =~= old(self).contents() + chunk@);
        }
    }

    /// Deletes `count` bytes from the front of the buffer, then shifts the
    /// rest of the valid bytes back in place at index 0.
    ///
    /// `count` must not exceed the current offset; that is a precondition on
    /// callers, not self-checked at run time.
    pub fn drain(&mut self, count: usize)
        requires
            old(self).wf(),
            count <= old(self).offset,
        ensures
            final(self).wf(),
            final(self).offset == old(self).offset - count,
            final(self).contents() == old(self).contents().skip(count as int),
    {
        let remain = self.offset - count;
        let mut i: usize = 0;
        while i < remain
            invariant
                self.wf(),
                remain == old(self).offset - count,
                count + remain <= old(self).offset <= MAX_BUFFER_SIZE,
                i <= remain,
                self.offset == old(self).offset,
                forall|j: int| 0 <= j < i ==> self.data@[j] == old(self).data@[count + j],
                forall|j: int| i <= j < MAX_BUFFER_SIZE ==> self.data@[j] == old(self).data@[j],
            decreases remain - i,
        {
            let b = self.data[count + i];
            self.data[i] = b;
            i = i + 1;
        }
        self.offset = remain;
        proof {
            assert(self.contents() =~= old(self).contents().skip(count as int));
        }
    }

    /// Resets the write offset to 0; the bytes themselves are not scrubbed.
    pub fn clear(&mut self)
        requires
            old(self).wf(),
        ensures
            final(self).wf(),
            final(self).offset == 0,
            final(self).contents() == Seq::<u8>::empty(),
    {
        self.offset = 0;
        proof {
            assert(self.contents() =~= Seq::<u8>::empty());
        }
    }

    /// Copies the valid bytes `[from, to)` out of the buffer without
    /// consuming them.
    pub fn copy_range(&self, from: usize, to: usize) -> (out: Vec<u8>)
        requires
            self.wf(),
            from <= to <= self.offset,
        ensures
            out@ == self.contents().subrange(from as int, to as int),
    {
        let mut out: Vec<u8> = Vec::new();
        let mut i: usize = from;
        while i < to
            invariant
                self.wf(),
                from <= i <= to <= self.offset,
                out@.len() == i - from,
                forall|j: int| 0 <= j < out@.len() ==> out@[j] == self.data@[from + j],
            decreases to - i,
        {
            let b = self.data[i];
            out.push(b);
            i = i + 1;
        }
        proof {
            assert(out@ =~= self.contents().subrange(from as int, to as int));
        }
        out
    }
}

} // verus!
