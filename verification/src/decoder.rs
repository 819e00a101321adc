//! The incremental frame decoder: a suspendable two-phase reader that turns a
//! byte stream, delivered in chunks of any size, into a sequence of decoded
//! frames.
//!
//! The caller reads from its transport and hands each read's bytes to
//! [`FrameDecoder::advance`]; a zero-length chunk stands for a zero-length
//! read, which ends the stream cleanly. The decoder's behaviour depends only
//! on the bytes absorbed so far, so a frame split across any number of
//! partial chunks decodes exactly as the same bytes fed whole.

use vstd::prelude::*;

use crate::byte_utils::{decode_incoming_msg, decoded_msg};
use crate::error::Error;
use crate::message::{
    header_bytes, header_of_bytes, lemma_header_bytes_len, lemma_header_bytes_of_any,
    lemma_header_round_trip, BodyBuffer, Header, HeaderBuffer, IncomingMessage,
};

verus! {

/// Whether `s` is one complete frame: a 10-byte header followed by exactly
/// the payload it announces.
pub open spec fn frame_complete(s: Seq<u8>) -> bool {
    s.len() >= 10 && s.len() == 10 + header_of_bytes(s.take(10)).body_size
}

/// Whether `s` is a strict prefix of a frame: part of a header, or a full
/// header and part of the payload it announces.
pub open spec fn frame_incomplete(s: Seq<u8>) -> bool {
    s.len() < 10 || s.len() < 10 + header_of_bytes(s.take(10)).body_size
}

/// What one call to [`FrameDecoder::advance`] reports.
#[derive(Debug)]
pub enum DecodeEvent {
    /// All input was consumed and the frame under way is still incomplete.
    NeedMore,
    /// A frame completed and its payload decoded to a message.
    Frame(Header, IncomingMessage),
    /// A frame completed but its payload failed the check its op code asks
    /// for; the caller decides whether to read on.
    Corrupt(Error),
    /// The stream ended cleanly: a zero-length read arrived between frames or
    /// midway through one.
    Closed,
}

/// The suspendable decoder state: the header accumulates first; once its 10
/// bytes are in, the payload accumulates until `body_size` bytes are in, and
/// the frame is emitted.
pub struct FrameDecoder {
    header_buffer: HeaderBuffer,
    pending: Option<Header>,
    body_buffer: BodyBuffer,
}

impl FrameDecoder {
    pub closed spec fn wf(self) -> bool {
        &&& self.header_buffer.wf()
        &&& self.body_buffer.wf()
        &&& match self.pending {
            Option::None => self.header_buffer.spec_offset() < 10,
            Option::Some(h) => {
                &&& h.wf()
                &&& self.header_buffer.spec_offset() == 0
                &&& self.body_buffer.size() == h.body_size
                &&& self.body_buffer.spec_offset() < h.body_size
            },
        }
    }

    /// The raw bytes of the frame under way absorbed so far.
    pub closed spec fn absorbed(self) -> Seq<u8> {
        match self.pending {
            Option::None => self.header_buffer.filled(),
            Option::Some(h) => header_bytes(h) + self.body_buffer.filled(),
        }
    }

    /// A well-formed decoder only ever sits on a strict prefix of a frame: a
    /// complete one would have been emitted.
    pub proof fn lemma_absorbed_incomplete(self)
        requires
            self.wf(),
        ensures
            frame_incomplete(self.absorbed()),
            !frame_complete(self.absorbed()),
    {
        match self.pending {
            Option::None => {},
            Option::Some(h) => {
                lemma_header_bytes_len(h);
                lemma_header_round_trip(h);
                assert(self.absorbed().take(10) =~= header_bytes(h));
            },
        }
    }

    /// A fresh decoder, awaiting the first header byte.
    pub fn new() -> (r: FrameDecoder)
        ensures
            r.wf(),
            r.absorbed() == Seq::<u8>::empty(),
    {
        let header_buffer: HeaderBuffer = Default::default();
        let r = FrameDecoder { header_buffer, pending: None, body_buffer: BodyBuffer::new(0) };
        proof {
            assert(r.absorbed() =~= Seq::<u8>::empty());
        }
        r
    }

    /// Absorbs bytes from `chunk` — a zero-length chunk stands for a
    /// zero-length read, the end of the stream — and reports what happened.
    /// Returns how many bytes of `chunk` were consumed; the caller hands the
    /// rest to the next call. Everything reported is a function of the bytes
    /// absorbed since the last emitted frame plus the consumed prefix of
    /// `chunk`, so how the stream is cut into chunks cannot change what is
    /// decoded.
    #[verifier::rlimit(50)]
    pub fn advance(&mut self, chunk: &[u8]) -> (r: (usize, DecodeEvent))
        requires
            old(self).wf(),
        ensures
            final(self).wf(),
            r.0 <= chunk@.len(),
            chunk@.len() == 0 ==> r.1 matches DecodeEvent::Closed,
            ({
                let fed = old(self).absorbed() + chunk@.take(r.0 as int);
                match r.1 {
                    DecodeEvent::Closed => {
                        &&& chunk@.len() == 0
                        &&& r.0 == 0
                        &&& final(self).absorbed() == old(self).absorbed()
                        &&& frame_incomplete(old(self).absorbed())
                    },
                    DecodeEvent::NeedMore => {
                        &&& r.0 == chunk@.len()
                        &&& chunk@.len() > 0
                        &&& final(self).absorbed() == fed
                        &&& frame_incomplete(fed)
                    },
                    DecodeEvent::Frame(h, m) => {
                        &&& frame_complete(fed)
                        &&& h == header_of_bytes(fed.take(10))
                        &&& h.wf()
                        &&& decoded_msg(h.op_code, fed.skip(10), Ok(m))
                        &&& final(self).absorbed() == Seq::<u8>::empty()
                    },
                    DecodeEvent::Corrupt(e) => {
                        &&& frame_complete(fed)
                        &&& decoded_msg(
                            header_of_bytes(fed.take(10)).op_code,
                            fed.skip(10),
                            Err(e),
                        )
                        &&& final(self).absorbed() == Seq::<u8>::empty()
                    },
                }
            }),
    {
        let mut consumed: usize = 0;
        if self.pending.is_none() {
            if chunk.len() == 0 {
                proof {
                    old(self).lemma_absorbed_incomplete();
                }
                return (0, DecodeEvent::Closed);
            }
            let n = self.header_buffer.next_section(chunk);
            self.header_buffer.increment_offset(n);
            consumed = n;
            proof {
                assert(self.header_buffer.filled() =~= old(self).header_buffer.filled()
                    + chunk@.take(n as int));
            }
            if self.header_buffer.bytes_remaining() {
                return (consumed, DecodeEvent::NeedMore);
            }
            let ghost raw = self.header_buffer.contents();
            proof {
                assert(self.header_buffer.filled() =~= raw);
            }
            let h = self.header_buffer.to_header();
            proof {
                lemma_header_bytes_of_any(raw);
            }
            self.pending = Some(h);
            self.body_buffer = BodyBuffer::new(h.body_size);
            proof {
                assert(self.body_buffer.filled() =~= Seq::<u8>::empty());
                assert(self.absorbed() =~= old(self).absorbed() + chunk@.take(consumed as int));
            }
        }
        let h: Header = match self.pending {
            Some(hh) => hh,
            None => Header { end: false, id: 0, body_size: 0, op_code: 0 },
        };
        let ghost mid = *self;
        if self.body_buffer.bytes_remaining() {
            if chunk.len() == 0 {
                proof {
                    old(self).lemma_absorbed_incomplete();
                }
                return (0, DecodeEvent::Closed);
            }
            let m = self.body_buffer.next_section(&chunk[consumed..chunk.len()]);
            self.body_buffer.increment_offset(m);
            proof {
                assert(chunk@.skip(consumed as int).take(m as int) =~= chunk@.subrange(
                    consumed as int,
                    consumed + m,
                ));
                assert(self.body_buffer.filled() =~= mid.body_buffer.filled() + chunk@.subrange(
                    consumed as int,
                    consumed + m,
                ));
                assert(chunk@.take(consumed + m) =~= chunk@.take(consumed as int) + chunk@.subrange(
                    consumed as int,
                    consumed + m,
                ));
            }
            consumed = consumed + m;
            proof {
                assert(self.absorbed() =~= old(self).absorbed() + chunk@.take(consumed as int));
            }
            if self.body_buffer.bytes_remaining() {
                proof {
                    self.lemma_absorbed_incomplete();
                }
                return (consumed, DecodeEvent::NeedMore);
            }
        }
        // the body (possibly empty) is complete: decode and reset
        let ghost fed = old(self).absorbed() + chunk@.take(consumed as int);
        proof {
            assert(self.body_buffer.filled() =~= self.body_buffer.contents());
            assert(self.absorbed() =~= fed);
            lemma_header_bytes_len(h);
            lemma_header_round_trip(h);
            assert(fed.take(10) =~= header_bytes(h));
            assert(fed.skip(10) =~= self.body_buffer.contents());
        }
        let msg = decode_incoming_msg(h.op_code, self.body_buffer.bytes());
        self.pending = None;
        self.body_buffer = BodyBuffer::new(0);
        proof {
            assert(self.absorbed() =~= Seq::<u8>::empty());
        }
        match msg {
            Ok(m) => (consumed, DecodeEvent::Frame(h, m)),
            Err(e) => (consumed, DecodeEvent::Corrupt(e)),
        }
    }
}

/// The bytes of a list of read chunks, in order.
pub open spec fn concat_bytes(cs: Seq<Vec<u8>>) -> Seq<u8>
    decreases cs.len(),
{
    if cs.len() == 0 {
        Seq::empty()
    } else {
        concat_bytes(cs.drop_last()) + cs.last()@
    }
}

/// The bytes of the first `j` chunks are a prefix of the bytes of all of
/// them.
pub proof fn lemma_concat_bytes_prefix(cs: Seq<Vec<u8>>, j: int)
    requires
        0 <= j <= cs.len(),
    ensures
        concat_bytes(cs.take(j)).len() <= concat_bytes(cs).len(),
        concat_bytes(cs).take(concat_bytes(cs.take(j)).len() as int) =~= concat_bytes(cs.take(j)),
    decreases cs.len(),
{
    if j == cs.len() {
        assert(cs.take(j) =~= cs);
    } else {
        let dl = cs.drop_last();
        assert(cs.take(j) =~= dl.take(j));
        lemma_concat_bytes_prefix(dl, j);
        assert(concat_bytes(cs).take(concat_bytes(cs.take(j)).len() as int) =~= concat_bytes(
            dl,
        ).take(concat_bytes(dl.take(j)).len() as int));
    }
}

/// A strict prefix of a complete frame is itself an incomplete frame.
pub proof fn lemma_strict_prefix_incomplete(whole: Seq<u8>, k: int)
    requires
        frame_complete(whole),
        0 <= k < whole.len(),
    ensures
        frame_incomplete(whole.take(k)),
        !frame_complete(whole.take(k)),
{
    if k >= 10 {
        assert(whole.take(k).take(10) =~= whole.take(10));
    }
}

/// One frame delivered in arbitrarily many reads decodes exactly as the same
/// bytes fed whole: for any list of nonempty chunks whose concatenation is
/// one complete frame, the header is the one the first 10 bytes decode to,
/// and the payload interpretation is the one [`decoded_msg`] fixes for the
/// remaining bytes — the chunk boundaries cannot matter.
#[verifier::rlimit(100)]
pub fn decode_chunked_frame(chunks: &Vec<Vec<u8>>) -> (r: Result<(Header, IncomingMessage), Error>)
    requires
        frame_complete(concat_bytes(chunks@)),
        forall|i: int| 0 <= i < chunks@.len() ==> #[trigger] chunks@[i]@.len() > 0,
    ensures
        ({
            let whole = concat_bytes(chunks@);
            match r {
                Ok((h, m)) => {
                    &&& h == header_of_bytes(whole.take(10))
                    &&& decoded_msg(h.op_code, whole.skip(10), Ok(m))
                },
                Err(e) => decoded_msg(
                    header_of_bytes(whole.take(10)).op_code,
                    whole.skip(10),
                    Err(e),
                ),
            }
        }),
{
    let ghost whole = concat_bytes(chunks@);
    proof {
        if chunks@.len() == 0 {
            assert(!frame_complete(whole));
        }
    }
    let last: usize = chunks.len() - 1;
    let mut dec = FrameDecoder::new();
    let mut ci: usize = 0;
    while ci < last
        invariant
            ci <= last,
            last == chunks@.len() - 1,
            frame_complete(concat_bytes(chunks@)),
            forall|i: int| 0 <= i < chunks@.len() ==> #[trigger] chunks@[i]@.len() > 0,
            dec.wf(),
            dec.absorbed() == concat_bytes(chunks@.take(ci as int)),
        decreases last - ci,
    {
        let ghost pre = dec.absorbed();
        let (n, ev) = dec.advance(chunks[ci].as_slice());
        proof {
            let whole = concat_bytes(chunks@);
            let chunk = chunks@[ci as int]@;
            let fed = pre + chunk.take(n as int);
            // what was fed so far is a strict prefix of the whole frame,
            // so no frame can have been emitted yet
            assert(chunks@.take(ci + 1).drop_last() =~= chunks@.take(ci as int));
            assert(concat_bytes(chunks@.take(ci + 1)) =~= pre + chunk);
            let part = concat_bytes(chunks@.take(ci + 1));
            assert(fed.len() <= part.len());
            assert(fed =~= part.take(fed.len() as int));
            lemma_concat_bytes_prefix(chunks@, ci + 1);
            assert(part == whole.take(part.len() as int));
            assert(whole.take(part.len() as int).take(fed.len() as int) =~= whole.take(
                fed.len() as int,
            ));
            assert(fed =~= whole.take(fed.len() as int));
            // at least the last chunk, which is nonempty, is still to come
            assert(chunks@.take(last as int).take(ci + 1) =~= chunks@.take(ci + 1));
            lemma_concat_bytes_prefix(chunks@.take(last as int), ci + 1);
            assert(part.len() <= concat_bytes(chunks@.take(last as int)).len());
            assert(chunks@.drop_last() =~= chunks@.take(last as int));
            assert(chunks@.last() == chunks@[last as int]);
            assert(concat_bytes(chunks@) == concat_bytes(chunks@.take(last as int))
                + chunks@[last as int]@);
            assert(chunks@[last as int]@.len() > 0);
            assert(fed.len() < whole.len());
            lemma_strict_prefix_incomplete(whole, fed.len() as int);
            assert(ev matches DecodeEvent::NeedMore);
        }
        ci = ci + 1;
    }
    let ghost pre = dec.absorbed();
    let (n, ev) = dec.advance(chunks[last].as_slice());
    proof {
        let chunk = chunks@[last as int]@;
        let fed = pre + chunk.take(n as int);
        assert(chunks@.take(last + 1) =~= chunks@);
        assert(chunks@.drop_last() =~= chunks@.take(last as int));
        assert(whole =~= pre + chunk);
        // everything short of the full frame is incomplete, so the event is
        // the decoded frame, and it was fed exactly the whole frame
        if n < chunk.len() {
            assert(fed =~= whole.take(fed.len() as int));
            lemma_strict_prefix_incomplete(whole, fed.len() as int);
        } else {
            assert(fed =~= whole);
        }
        assert(!(ev matches DecodeEvent::NeedMore));
        assert(!(ev matches DecodeEvent::Closed));
        assert(fed =~= whole);
    }
    match ev {
        DecodeEvent::Frame(h, m) => Ok((h, m)),
        DecodeEvent::Corrupt(e) => Err(e),
        _ => {
            proof {
                assert(false);
            }
            Err(Error::StreamError)
        },
    }
}

} // verus!
