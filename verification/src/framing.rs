//! The wire format: a 2-byte little-endian length prefix followed by exactly
//! that many payload bytes, with no padding or terminator. A payload may be
//! anywhere from 0 to 65535 bytes long.

use vstd::prelude::*;
use vstd::arithmetic::div_mod::lemma_fundamental_div_mod;

verus! {

/// The largest payload a frame can carry: the length prefix is 16 bits.
pub const MAX_PAYLOAD_LEN: usize = 65535;

/// What the framing layer itself can find wrong with a frame. Failures of
/// the transport's own read, write or flush calls are not decided here: the
/// caller that owns the stream surfaces those as the transport's errors.
#[derive(Clone, Copy, Debug, PartialEq, Eq, Structural)]
pub enum FramingError {
    /// A write was asked for a payload longer than 65535 bytes.
    PayloadTooLarge,
    /// The transport closed before the 2-byte length prefix arrived whole.
    HeaderRead,
    /// The length prefix declared a non-empty payload, but not a single
    /// payload byte arrived before the transport closed.
    EmptyTransport,
}

/// The low byte of a length, as the wire carries it first (little-endian).
pub open spec fn lo_byte(len: nat) -> u8 {
    (len % 256) as u8
}

/// The high byte of a length, carried second.
pub open spec fn hi_byte(len: nat) -> u8 {
    ((len / 256) % 256) as u8
}

/// The 2-byte little-endian encoding of a length.
pub open spec fn len_le_bytes(len: nat) -> Seq<u8> {
    seq![lo_byte(len), hi_byte(len)]
}

/// The length a 2-byte little-endian prefix declares.
pub open spec fn decoded_len(b0: u8, b1: u8) -> nat {
    (b0 + 256 * b1) as nat
}

/// The whole wire frame for a payload: length prefix, then the payload.
pub open spec fn frame_of(payload: Seq<u8>) -> Seq<u8>
    recommends
        payload.len() <= MAX_PAYLOAD_LEN,
{
    len_le_bytes(payload.len()) + payload
}

/// Encoding a length of at most 65535 and decoding the two bytes again is
/// the identity.
pub proof fn lemma_len_round_trip(len: nat)
    requires
        len <= MAX_PAYLOAD_LEN,
    ensures
        decoded_len(lo_byte(len), hi_byte(len)) == len,
{
    lemma_fundamental_div_mod(len as int, 256);
    assert(len / 256 < 256) by {
        assert(len <= 65535);
    };
    assert((len / 256) % 256 == len / 256);
}

/// Encode a length as its two little-endian prefix bytes, low byte first.
pub fn encode_len(len: u16) -> (r: (u8, u8))
    ensures
        r.0 == lo_byte(len as nat),
        r.1 == hi_byte(len as nat),
{
    ((len % 256) as u8, (len / 256) as u8)
}

/// Decode the two little-endian prefix bytes into the declared length.
pub fn decode_len(b0: u8, b1: u8) -> (len: usize)
    ensures
        len == decoded_len(b0, b1),
        len <= MAX_PAYLOAD_LEN,
{
    (b0 as usize) + 256 * (b1 as usize)
}

/// Append one frame carrying `data` to `stream`: the 2-byte little-endian
/// length prefix, then the payload bytes, in that order. A payload longer
/// than 65535 bytes is rejected up front and the stream is left untouched,
/// so a rejected write never emits a partial frame.
pub fn write_u16_payload(stream: &mut Vec<u8>, data: &[u8]) -> (r: Result<(), FramingError>)
    ensures
        data@.len() <= MAX_PAYLOAD_LEN ==> r == Ok::<(), FramingError>(())
            && final(stream)@ == old(stream)@ + frame_of(data@),
        data@.len() > MAX_PAYLOAD_LEN ==> r == Err::<(), FramingError>(FramingError::PayloadTooLarge)
            && final(stream)@ == old(stream)@,
{
    if data.len() > MAX_PAYLOAD_LEN {
        return Err(FramingError::PayloadTooLarge);
    }
    let len: u16 = data.len() as u16;
    let (lo, hi) = encode_len(len);
    stream.push(lo);
    stream.push(hi);
    proof {
        assert(stream@ =~= old(stream)@ + len_le_bytes(data@.len()) + data@.subrange(0, 0));
    }
    let mut i: usize = 0;
    while i < data.len()
        invariant
            i <= data@.len() <= MAX_PAYLOAD_LEN,
            stream@ == old(stream)@ + len_le_bytes(data@.len()) + data@.subrange(0, i as int),
        decreases data@.len() - i,
    {
        stream.push(data[i]);
        proof {
            assert(data@.subrange(0, i + 1) =~= data@.subrange(0, i as int).push(data@[i as int]));
            assert(stream@ =~= old(stream)@ + len_le_bytes(data@.len()) + data@.subrange(
                0,
                i + 1,
            ));
        }
        i = i + 1;
    }
    proof {
        assert(data@.subrange(0, data@.len() as int) =~= data@);
        assert(stream@ =~= old(stream)@ + frame_of(data@));
    }
    Ok(())
}

/// Whether a received prefix `s` of a frame holds the whole 2-byte length
/// prefix yet.
pub open spec fn header_complete(s: Seq<u8>) -> bool {
    s.len() >= 2
}

/// The payload length the received prefix declares.
pub open spec fn declared_len(s: Seq<u8>) -> nat
    recommends
        header_complete(s),
{
    decoded_len(s[0], s[1])
}

/// The payload bytes received so far: everything after the length prefix.
pub open spec fn received_payload(s: Seq<u8>) -> Seq<u8>
    recommends
        header_complete(s),
{
    s.skip(2)
}

/// Whether the received prefix holds a whole frame: the length prefix and
/// as many payload bytes as it declares.
pub open spec fn frame_complete(s: Seq<u8>) -> bool {
    header_complete(s) && s.len() - 2 >= declared_len(s)
}

/// How many more bytes a reader that has received `s` still needs: the rest
/// of the length prefix first, then the rest of the declared payload.
pub open spec fn wanted(s: Seq<u8>) -> nat {
    if s.len() < 2 {
        (2 - s.len()) as nat
    } else if s.len() - 2 < declared_len(s) {
        (declared_len(s) - (s.len() - 2)) as nat
    } else {
        0
    }
}

/// Delivering one more byte never raises the count of bytes still wanted by
/// more than it consumes: past the length prefix it falls by exactly one,
/// and completing the prefix resets it to the declared payload length.
proof fn lemma_wanted_step(s: Seq<u8>, b: u8)
    requires
        wanted(s) > 0,
    ensures
        wanted(s.push(b)) >= wanted(s) - 1,
{
    if s.len() == 0 {
        assert(s.push(b).len() == 1);
    } else if s.len() == 1 {
        assert(s.push(b).len() == 2);
    } else {
        assert(s.push(b)[0] == s[0]);
        assert(s.push(b)[1] == s[1]);
    }
}

/// Reads one frame from a byte stream, tolerating delivery in arbitrarily
/// small chunks. The caller asks `wants` how many bytes are still missing,
/// reads at most that many from its transport, and hands whatever arrived to
/// `deliver`; when the frame is complete, or the transport closed early,
/// `close` turns everything received into the result.
///
/// The view of a reader is the sequence of bytes delivered to it so far.
pub struct FrameReader {
    header: Vec<u8>,
    payload: Vec<u8>,
}

impl View for FrameReader {
    type V = Seq<u8>;

    closed spec fn view(&self) -> Seq<u8> {
        self.header@ + self.payload@
    }
}

impl FrameReader {
    /// The reader never holds more than the 2 prefix bytes in `header`, nor
    /// more payload bytes than the completed prefix declares.
    pub closed spec fn wf(&self) -> bool {
        &&& self.header@.len() <= 2
        &&& (self.header@.len() < 2 ==> self.payload@.len() == 0)
        &&& (self.header@.len() == 2 ==> self.payload@.len() <= decoded_len(
            self.header@[0],
            self.header@[1],
        ))
    }

    /// A fresh reader that has received nothing.
    pub fn new() -> (r: FrameReader)
        ensures
            r.wf(),
            r@ == Seq::<u8>::empty(),
    {
        let r = FrameReader { header: Vec::new(), payload: Vec::new() };
        proof {
            assert(r@ =~= Seq::<u8>::empty());
        }
        r
    }

    /// How many bytes the reader still needs before the frame is complete.
    /// Zero means a whole frame has been received.
    pub fn wants(&self) -> (n: usize)
        requires
            self.wf(),
        ensures
            n == wanted(self@),
    {
        if self.header.len() < 2 {
            2 - self.header.len()
        } else {
            proof {
                assert(self@[0] == self.header@[0]);
                assert(self@[1] == self.header@[1]);
                assert(self@.len() - 2 == self.payload@.len());
            }
            let declared = decode_len(self.header[0], self.header[1]);
            declared - self.payload.len()
        }
    }

    /// Whether the 2-byte length prefix has been received whole.
    pub fn header_done(&self) -> (b: bool)
        requires
            self.wf(),
        ensures
            b == header_complete(self@),
    {
        self.header.len() == 2
    }

    /// Take in `chunk`, the next bytes the transport delivered. The caller
    /// never reads more than `wants()` bytes at a time, so a chunk is never
    /// longer than what is still missing.
    pub fn deliver(&mut self, chunk: &[u8])
        requires
            old(self).wf(),
            chunk@.len() <= wanted(old(self)@),
        ensures
            final(self).wf(),
            final(self)@ == old(self)@ + chunk@,
    {
        proof {
            assert(self@ =~= old(self)@ + chunk@.subrange(0, 0));
        }
        let mut i: usize = 0;
        while i < chunk.len()
            invariant
                i <= chunk@.len(),
                self.wf(),
                self@ == old(self)@ + chunk@.subrange(0, i as int),
                chunk@.len() - i <= wanted(self@),
            decreases chunk@.len() - i,
        {
            proof {
                lemma_wanted_step(self@, chunk@[i as int]);
            }
            let ghost prev = self@;
            if self.header.len() < 2 {
                self.header.push(chunk[i]);
            } else {
                proof {
                    assert(self@[0] == self.header@[0]);
                    assert(self@[1] == self.header@[1]);
                }
                self.payload.push(chunk[i]);
            }
            proof {
                assert(self@ =~= prev.push(chunk@[i as int]));
                assert(chunk@.subrange(0, i + 1) =~= chunk@.subrange(0, i as int).push(
                    chunk@[i as int],
                ));
                assert(self@ =~= old(self)@ + chunk@.subrange(0, i + 1));
            }
            i = i + 1;
        }
        proof {
            assert(chunk@.subrange(0, chunk@.len() as int) =~= chunk@);
        }
    }

    /// Finish reading, either because `wants()` reached zero or because the
    /// transport stopped delivering. Everything received decides the result:
    /// without a whole length prefix the read failed; a declared non-empty
    /// payload of which nothing arrived means the transport was empty; and
    /// otherwise the payload received so far is returned as is, even when it
    /// is shorter than declared — a short frame is the caller's to detect.
    pub fn close(self) -> (r: Result<Vec<u8>, FramingError>)
        requires
            self.wf(),
        ensures
            !header_complete(self@) ==> r == Err::<Vec<u8>, FramingError>(FramingError::HeaderRead),
            header_complete(self@) && declared_len(self@) > 0 && received_payload(self@).len() == 0
                ==> r == Err::<Vec<u8>, FramingError>(FramingError::EmptyTransport),
            header_complete(self@) && (declared_len(self@) == 0 || received_payload(self@).len()
                > 0) ==> r is Ok && r->Ok_0@ == received_payload(self@),
    {
        if self.header.len() < 2 {
            Err(FramingError::HeaderRead)
        } else {
            proof {
                assert(self@[0] == self.header@[0]);
                assert(self@[1] == self.header@[1]);
                assert(received_payload(self@) =~= self.payload@);
            }
            if self.payload.len() > 0 {
                Ok(self.payload)
            } else if self.header[0] == 0 && self.header[1] == 0 {
                Ok(self.payload)
            } else {
                Err(FramingError::EmptyTransport)
            }
        }
    }
}

/// Round trip: the frame written for a payload of at most 65535 bytes is,
/// once received whole, decoded back to exactly that payload, and a reader
/// that received it wants nothing more.
pub proof fn lemma_round_trip(payload: Seq<u8>)
    requires
        payload.len() <= MAX_PAYLOAD_LEN,
    ensures
        frame_complete(frame_of(payload)),
        received_payload(frame_of(payload)) == payload,
        wanted(frame_of(payload)) == 0,
{
    let s = frame_of(payload);
    lemma_len_round_trip(payload.len());
    assert(s[0] == lo_byte(payload.len()));
    assert(s[1] == hi_byte(payload.len()));
    assert(declared_len(s) == payload.len());
    assert(received_payload(s) =~= payload);
}

/// Chunked delivery: a reader's view is the concatenation of the chunks
/// delivered to it, in order, so however the transport splits a frame into
/// chunks, delivering them all reconstructs the same payload.
pub proof fn lemma_chunked_delivery(chunks: Seq<Seq<u8>>, payload: Seq<u8>)
    requires
        payload.len() <= MAX_PAYLOAD_LEN,
        chunks.flatten() == frame_of(payload),
    ensures
        frame_complete(chunks.flatten()),
        received_payload(chunks.flatten()) == payload,
{
    lemma_round_trip(payload);
}

} // verus!
