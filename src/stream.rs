//! Buffered transport logic: the single pushback slot, exact-size reads over
//! a chunked byte stream, and an in-memory transport that runs them.
use vstd::prelude::*;

use crate::protoc::{
    decode_frame, lemma_parse_frame_prefix, parse_frame, DecodeStep, DecodedResponse, FrameError,
    FrameParse,
};

verus! {

/// The bytes of a list of chunks, one after the other.
pub open spec fn concat_chunks(cs: Seq<Vec<u8>>) -> Seq<u8>
    decreases cs.len(),
{
    if cs.len() == 0 {
        Seq::empty()
    } else {
        cs[0]@ + concat_chunks(cs.skip(1))
    }
}

/// What an exact read of `size` bytes gives on a stream whose remaining
/// bytes are `pending`: the bytes read and the bytes left after them, or
/// `None` when the stream ends first.
pub open spec fn exact_read(pending: Seq<u8>, size: nat) -> Option<(Seq<u8>, Seq<u8>)> {
    if pending.len() >= size {
        Some((pending.take(size as int), pending.skip(size as int)))
    } else {
        None
    }
}

/// An exact read depends on the bytes alone, not on where the chunk
/// boundaries fell: streams that hold the same bytes, however cut into
/// chunks and whatever sits in their pushback slots, give the same bytes and
/// leave the same bytes behind, and what is left follows what was read, in
/// order and intact.
pub proof fn lemma_exact_read_ignores_chunking(
    slot1: Seq<u8>,
    chunks1: Seq<Vec<u8>>,
    slot2: Seq<u8>,
    chunks2: Seq<Vec<u8>>,
    size: nat,
)
    requires
        slot1 + concat_chunks(chunks1) == slot2 + concat_chunks(chunks2),
    ensures
        exact_read(slot1 + concat_chunks(chunks1), size) == exact_read(
            slot2 + concat_chunks(chunks2),
            size,
        ),
        exact_read(slot1 + concat_chunks(chunks1), size) matches Some((bytes, rest)) ==> bytes
            + rest == slot1 + concat_chunks(chunks1) && bytes.len() == size,
{
    let s = slot1 + concat_chunks(chunks1);
    if s.len() >= size {
        assert(s.take(size as int) + s.skip(size as int) =~= s);
    }
}

/// The read side of a transport: the chunk size of one underlying read and
/// the single pushback slot, which holds bytes that were read past the end of
/// an exact read and are handed out first by the next read.
///
/// At most one exact read may be in progress on a transport at a time: the
/// slot holds one buffer only.
pub struct ReadBuffer {
    restored: Option<Vec<u8>>,
    buffer_size: usize,
}

impl ReadBuffer {
    /// The bytes waiting in the pushback slot.
    pub closed spec fn slot(&self) -> Seq<u8> {
        match self.restored {
            Some(b) => b@,
            None => Seq::empty(),
        }
    }

    pub closed spec fn spec_buffer_size(&self) -> usize {
        self.buffer_size
    }

    pub closed spec fn wf(&self) -> bool {
        self.restored matches Some(b) ==> b@.len() > 0
    }

    pub fn new(buffer_size: usize) -> (r: ReadBuffer)
        ensures
            r.wf(),
            r.slot().len() == 0,
            r.spec_buffer_size() == buffer_size,
    {
        ReadBuffer { restored: None, buffer_size }
    }

    /// The largest number of bytes that one underlying read asks for.
    pub fn buffer_size(&self) -> (r: usize)
        ensures
            r == self.spec_buffer_size(),
    {
        self.buffer_size
    }

    /// Puts `bytes` in the pushback slot, replacing what it held.
    pub fn restore_payload(&mut self, bytes: Vec<u8>)
        ensures
            final(self).wf(),
            final(self).slot() == bytes@,
            final(self).spec_buffer_size() == old(self).spec_buffer_size(),
    {
        if bytes.len() == 0 {
            self.restored = None;
        } else {
            self.restored = Some(bytes);
        }
    }

    /// Takes the bytes of the pushback slot, if it holds any, and empties it.
    pub fn take_restored(&mut self) -> (r: Option<Vec<u8>>)
        ensures
            final(self).wf(),
            final(self).slot().len() == 0,
            final(self).spec_buffer_size() == old(self).spec_buffer_size(),
            match r {
                Some(b) => b@ == old(self).slot() && b@.len() > 0,
                None => old(self).slot().len() == 0,
            },
    {
        let mut taken: Option<Vec<u8>> = None;
        std::mem::swap(&mut taken, &mut self.restored);
        match taken {
            Some(bytes) => if bytes.len() > 0 {
                Some(bytes)
            } else {
                None
            },
            None => None,
        }
    }
}

/// Turns the outcome of one underlying read of `read_size` bytes into
/// `buffer` into a chunk. A read of no bytes means that the peer closed the
/// connection.
pub fn accept_read(buffer: Vec<u8>, read_size: usize) -> (r: Result<Vec<u8>, FrameError>)
    requires
        read_size <= buffer@.len(),
    ensures
        read_size == 0 ==> r == Err::<Vec<u8>, FrameError>(FrameError::ConnectionClosed),
        read_size > 0 ==> (r matches Ok(c) && c@ == buffer@.take(read_size as int)),
{
    if read_size == 0 {
        return Err(FrameError::ConnectionClosed);
    }
    let mut chunk = buffer;
    chunk.truncate(read_size);
    Ok(chunk)
}

/// Splits the bytes gathered by an exact read into the `size` bytes that it
/// returns and the bytes that go back to the pushback slot.
pub fn split_exact(gathered: Vec<u8>, size: usize) -> (r: (Vec<u8>, Vec<u8>))
    requires
        size <= gathered@.len(),
    ensures
        r.0@ == gathered@.take(size as int),
        r.1@ == gathered@.skip(size as int),
{
    let mut head = gathered;
    let tail = head.split_off(size);
    (head, tail)
}

/// An in-memory transport: the peer's bytes arrive as queued chunks, one
/// chunk per underlying read, and what is written is gathered in order.
/// Once the queue is empty the peer counts as gone.
pub struct MemoryStream {
    incoming: Vec<Vec<u8>>,
    reader: ReadBuffer,
    written: Vec<u8>,
    closed: bool,
}

impl MemoryStream {
    /// The bytes in the pushback slot.
    pub closed spec fn slot(&self) -> Seq<u8> {
        self.reader.slot()
    }

    /// The bytes that the peer sent and no read has taken yet.
    pub closed spec fn unread(&self) -> Seq<u8> {
        concat_chunks(self.incoming@)
    }

    /// The number of chunks still queued.
    pub closed spec fn queued(&self) -> nat {
        self.incoming@.len()
    }

    /// The bytes written so far, in order.
    pub closed spec fn written_bytes(&self) -> Seq<u8> {
        self.written@
    }

    pub closed spec fn is_shut_down(&self) -> bool {
        self.closed
    }

    pub closed spec fn spec_buffer_size(&self) -> usize {
        self.reader.spec_buffer_size()
    }

    pub closed spec fn wf(&self) -> bool {
        &&& self.reader.wf()
        &&& forall|i: int| 0 <= i < self.incoming@.len() ==> (#[trigger] self.incoming@[i])@.len() > 0
        &&& self.closed ==> self.incoming@.len() == 0 && self.reader.slot().len() == 0
    }

    /// Everything that reads still have to hand out, in order.
    pub open spec fn pending(&self) -> Seq<u8> {
        self.slot() + self.unread()
    }

    pub fn new(buffer_size: usize) -> (r: MemoryStream)
        ensures
            r.wf(),
            r.pending().len() == 0,
            r.written_bytes().len() == 0,
            !r.is_shut_down(),
            r.spec_buffer_size() == buffer_size,
    {
        MemoryStream {
            incoming: Vec::new(),
            reader: ReadBuffer::new(buffer_size),
            written: Vec::new(),
            closed: false,
        }
    }

    /// Queues a chunk sent by the peer. After a shutdown nothing arrives.
    pub fn deliver(&mut self, chunk: Vec<u8>)
        requires
            old(self).wf(),
        ensures
            final(self).wf(),
            final(self).slot() == old(self).slot(),
            final(self).unread() == if old(self).is_shut_down() {
                old(self).unread()
            } else {
                old(self).unread() + chunk@
            },
            final(self).written_bytes() == old(self).written_bytes(),
            final(self).is_shut_down() == old(self).is_shut_down(),
            final(self).spec_buffer_size() == old(self).spec_buffer_size(),
    {
        proof {
            lemma_concat_push(self.incoming@, chunk);
        }
        if !self.closed && chunk.len() > 0 {
            self.incoming.push(chunk);
        } else if !self.closed {
            assert(concat_chunks(self.incoming@) + chunk@ =~= concat_chunks(self.incoming@));
        }
    }

    pub fn buffer_size(&self) -> (r: usize)
        ensures
            r == self.spec_buffer_size(),
    {
        self.reader.buffer_size()
    }

    /// One read: the pushback slot if it holds bytes, else the next chunk
    /// from the peer. Fails with `ConnectionClosed` when there is nothing
    /// left to read.
    pub fn read_chunk(&mut self) -> (r: Result<Vec<u8>, FrameError>)
        requires
            old(self).wf(),
        ensures
            final(self).wf(),
            final(self).slot().len() == 0,
            final(self).written_bytes() == old(self).written_bytes(),
            final(self).is_shut_down() == old(self).is_shut_down(),
            final(self).spec_buffer_size() == old(self).spec_buffer_size(),
            match r {
                Ok(c) => {
                    &&& c@.len() > 0
                    &&& old(self).pending() == c@ + final(self).pending()
                    &&& old(self).slot().len() > 0 ==> c@ == old(self).slot()
                    &&& old(self).slot().len() == 0 ==> final(self).queued() + 1 == old(
                        self,
                    ).queued()
                },
                Err(e) => {
                    &&& e == FrameError::ConnectionClosed
                    &&& old(self).pending().len() == 0
                    &&& final(self).pending().len() == 0
                },
            },
    {
        if self.closed {
            return Err(FrameError::ConnectionClosed);
        }
        match self.reader.take_restored() {
            Some(bytes) => Ok(bytes),
            None => {
                if self.incoming.len() == 0 {
                    return Err(FrameError::ConnectionClosed);
                }
                let ghost before = self.incoming@;
                let chunk = self.incoming.remove(0);
                assert(before.skip(1) =~= self.incoming@);
                assert(chunk@.len() > 0);
                Ok(chunk)
            },
        }
    }

    /// Reads exactly `size` bytes. Bytes read past them wait in the pushback
    /// slot for the next read. When the stream ends first, fails with
    /// `ConnectionClosed` and returns no partial result.
    pub fn read_exact(&mut self, size: usize) -> (r: Result<Vec<u8>, FrameError>)
        requires
            old(self).wf(),
        ensures
            final(self).wf(),
            final(self).written_bytes() == old(self).written_bytes(),
            final(self).is_shut_down() == old(self).is_shut_down(),
            final(self).spec_buffer_size() == old(self).spec_buffer_size(),
            match exact_read(old(self).pending(), size as nat) {
                Some((bytes, rest)) => r matches Ok(v) && v@ == bytes && final(self).pending()
                    == rest,
                None => r == Err::<Vec<u8>, FrameError>(FrameError::ConnectionClosed)
                    && final(self).pending().len() == 0,
            },
    {
        let mut gathered: Vec<u8> = Vec::new();
        while gathered.len() < size
            invariant
                self.wf(),
                gathered@ + self.pending() == old(self).pending(),
                gathered@.len() > 0 ==> self.slot().len() == 0,
                self.written_bytes() == old(self).written_bytes(),
                self.is_shut_down() == old(self).is_shut_down(),
                self.spec_buffer_size() == old(self).spec_buffer_size(),
            decreases self.pending().len(),
        {
            let ghost before = gathered@;
            match self.read_chunk() {
                Ok(chunk) => {
                    let ghost c = chunk@;
                    let mut chunk = chunk;
                    gathered.append(&mut chunk);
                    assert(gathered@ + self.pending() =~= before + (c + self.pending()));
                },
                Err(e) => {
                    return Err(e);
                },
            }
        }
        let ghost all = gathered@;
        let ghost rest = self.pending();
        let ghost unread = self.unread();
        let (head, tail) = split_exact(gathered, size);
        if tail.len() > 0 {
            self.reader.restore_payload(tail);
            assert(rest == unread);
        }
        assert(self.pending() =~= all.skip(size as int) + rest);
        assert((all + rest).skip(size as int) =~= all.skip(size as int) + rest);
        assert((all + rest).take(size as int) =~= all.take(size as int));
        Ok(head)
    }

    /// Puts `bytes` in the pushback slot, replacing what it held, so that the
    /// next read hands them out first. After a shutdown they are dropped.
    pub fn restore_payload(&mut self, bytes: Vec<u8>)
        requires
            old(self).wf(),
        ensures
            final(self).wf(),
            final(self).slot() == if old(self).is_shut_down() {
                Seq::empty()
            } else {
                bytes@
            },
            final(self).unread() == old(self).unread(),
            final(self).written_bytes() == old(self).written_bytes(),
            final(self).is_shut_down() == old(self).is_shut_down(),
            final(self).spec_buffer_size() == old(self).spec_buffer_size(),
    {
        if !self.closed {
            self.reader.restore_payload(bytes);
        }
    }

    /// Writes all of `bytes` as one unit: nothing else lands between them.
    /// Fails with `ConnectionClosed`, writing nothing, after a shutdown.
    pub fn write_chunk(&mut self, bytes: &[u8]) -> (r: Result<(), FrameError>)
        requires
            old(self).wf(),
        ensures
            final(self).wf(),
            final(self).pending() == old(self).pending(),
            final(self).is_shut_down() == old(self).is_shut_down(),
            final(self).spec_buffer_size() == old(self).spec_buffer_size(),
            old(self).is_shut_down() ==> r == Err::<(), FrameError>(FrameError::ConnectionClosed)
                && final(self).written_bytes() == old(self).written_bytes(),
            !old(self).is_shut_down() ==> r is Ok && final(self).written_bytes() == old(
                self,
            ).written_bytes() + bytes@,
    {
        if self.closed {
            return Err(FrameError::ConnectionClosed);
        }
        let mut i: usize = 0;
        while i < bytes.len()
            invariant
                i <= bytes@.len(),
                self.written@ == old(self).written@ + bytes@.take(i as int),
                self.incoming == old(self).incoming,
                self.reader == old(self).reader,
                self.closed == old(self).closed,
            decreases bytes@.len() - i,
        {
            self.written.push(bytes[i]);
            i = i + 1;
            assert(self.written@ =~= old(self).written@ + bytes@.take(i as int));
        }
        assert(bytes@.take(i as int) =~= bytes@);
        Ok(())
    }

    /// Hands out the bytes written so far and forgets them.
    pub fn take_written(&mut self) -> (r: Vec<u8>)
        requires
            old(self).wf(),
        ensures
            final(self).wf(),
            r@ == old(self).written_bytes(),
            final(self).written_bytes().len() == 0,
            final(self).pending() == old(self).pending(),
            final(self).is_shut_down() == old(self).is_shut_down(),
            final(self).spec_buffer_size() == old(self).spec_buffer_size(),
    {
        let mut out: Vec<u8> = Vec::new();
        std::mem::swap(&mut out, &mut self.written);
        out
    }

    /// Closes both directions. Unread bytes are dropped, and every later read
    /// or write fails with `ConnectionClosed`. Shutting down twice is harmless.
    pub fn shutdown(&mut self) -> (r: Result<(), FrameError>)
        requires
            old(self).wf(),
        ensures
            final(self).wf(),
            r is Ok,
            final(self).is_shut_down(),
            final(self).pending().len() == 0,
            final(self).written_bytes() == old(self).written_bytes(),
            final(self).spec_buffer_size() == old(self).spec_buffer_size(),
    {
        self.incoming = Vec::new();
        let _ = self.reader.take_restored();
        self.closed = true;
        assert(concat_chunks(self.incoming@) =~= Seq::empty());
        Ok(())
    }
}

/// Decodes the next frame from `stream`. Reads whole chunks as they come and
/// gives the bytes past the frame back to the pushback slot. A first byte
/// without the marker bit fails with `InvalidStartByte` after taking that
/// one byte; a stream that ends before the frame does fails with
/// `ConnectionClosed`. No partial frame is ever returned.
pub fn decode_tcp_stream(stream: &mut MemoryStream) -> (r: Result<DecodedResponse, FrameError>)
    requires
        old(stream).wf(),
    ensures
        final(stream).wf(),
        final(stream).written_bytes() == old(stream).written_bytes(),
        final(stream).is_shut_down() == old(stream).is_shut_down(),
        final(stream).spec_buffer_size() == old(stream).spec_buffer_size(),
        match parse_frame(old(stream).pending()) {
            FrameParse::Complete(f, n) => {
                &&& r matches Ok(resp) && resp.wf() && resp.model() == f
                &&& final(stream).pending() == old(stream).pending().skip(n as int)
            },
            FrameParse::BadMarker(b) => {
                &&& r == Err::<DecodedResponse, FrameError>(FrameError::InvalidStartByte(b))
                &&& final(stream).pending() == old(stream).pending().skip(1)
            },
            FrameParse::Incomplete => {
                &&& r == Err::<DecodedResponse, FrameError>(FrameError::ConnectionClosed)
                &&& final(stream).pending().len() == 0
            },
        },
{
    let ghost all = stream.pending();
    let mut buffer: Vec<u8> = Vec::new();
    loop
        invariant
            stream.wf(),
            buffer@ + stream.pending() == all,
            all == old(stream).pending(),
            buffer@.len() > 0 ==> stream.slot().len() == 0,
            stream.is_shut_down() ==> buffer@.len() == 0,
            stream.written_bytes() == old(stream).written_bytes(),
            stream.is_shut_down() == old(stream).is_shut_down(),
            stream.spec_buffer_size() == old(stream).spec_buffer_size(),
        decreases stream.pending().len(),
    {
        let step = decode_frame(buffer.as_slice());
        proof {
            if !(parse_frame(buffer@) is Incomplete) {
                assert(all.subrange(0, buffer@.len() as int) =~= buffer@);
                lemma_parse_frame_prefix(buffer@, all);
            }
        }
        match step {
            DecodeStep::Complete(resp, used) => {
                let ghost rest = stream.pending();
                let ghost unread = stream.unread();
                let ghost b = buffer@;
                let (_, tail) = split_exact(buffer, used);
                if tail.len() > 0 {
                    stream.restore_payload(tail);
                    assert(rest == unread);
                }
                assert(stream.pending() =~= b.skip(used as int) + rest);
                assert(all.skip(used as int) =~= b.skip(used as int) + rest);
                return Ok(resp);
            },
            DecodeStep::InvalidStartByte(bit) => {
                let ghost rest = stream.pending();
                let ghost unread = stream.unread();
                let ghost b = buffer@;
                let (_, tail) = split_exact(buffer, 1);
                if tail.len() > 0 {
                    stream.restore_payload(tail);
                    assert(rest == unread);
                }
                assert(stream.pending() =~= b.skip(1) + rest);
                assert(all.skip(1) =~= b.skip(1) + rest);
                return Err(FrameError::InvalidStartByte(bit));
            },
            DecodeStep::NeedMore => {
                let ghost before = buffer@;
                match stream.read_chunk() {
                    Ok(chunk) => {
                        let ghost c = chunk@;
                        let mut chunk = chunk;
                        buffer.append(&mut chunk);
                        assert(buffer@ + stream.pending() =~= before + (c + stream.pending()));
                    },
                    Err(e) => {
                        assert(before =~= all);
                        return Err(e);
                    },
                }
            },
        }
    }
}

proof fn lemma_concat_push(cs: Seq<Vec<u8>>, c: Vec<u8>)
    ensures
        concat_chunks(cs.push(c)) == concat_chunks(cs) + c@,
    decreases cs.len(),
{
    if cs.len() == 0 {
        let t = cs.push(c);
        assert(t.skip(1) =~= Seq::<Vec<u8>>::empty());
        assert(t[0] == c);
        assert(concat_chunks(t.skip(1)) == Seq::<u8>::empty());
        assert(concat_chunks(t) == c@ + concat_chunks(t.skip(1)));
        assert(concat_chunks(cs) + c@ =~= c@);
    } else {
        lemma_concat_push(cs.skip(1), c);
        assert(cs.push(c).skip(1) =~= cs.skip(1).push(c));
        assert(concat_chunks(cs.push(c)) =~= cs[0]@ + (concat_chunks(cs.skip(1)) + c@));
    }
}

} // verus!
