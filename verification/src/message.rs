//! The frame header codec and the accumulation buffers for the two sections
//! of a frame (header and body).
//!
//! A header is exactly 10 bytes on the wire: the request id shifted left by
//! one bit in the first 7 bytes (big-endian), the end flag in the low bit of
//! byte 6, the body size big-endian in bytes 7..9, and the op code in byte 9.

use vstd::prelude::*;

use crate::byte_utils::{
    be_bytes, be_value, decode_u16, decode_u64, encode_u16, encode_u64, lemma_be_bytes_len,
    lemma_be_bytes_of_be_value, lemma_be_bytes_zero_extend, lemma_be_value_bound,
    lemma_be_value_of_be_bytes, pow256,
};
use crate::json::value_to_bytes;
use vstd::arithmetic::div_mod::lemma_fundamental_div_mod_converse;
use vstd::slice::slice_to_vec;
use vstd::utf8::encode_utf8;

verus! {

/// The largest legal request id: ids take 55 bits on the wire.
pub const MAX_REQUEST_ID: u64 = 0x7f_ffff_ffff_ffff;

/// A decoded frame header.
#[derive(Debug, PartialEq, Eq, Clone, Copy)]
pub struct Header {
    pub end: bool,
    pub id: u64,
    pub body_size: u16,
    pub op_code: u8,
}

pub open spec fn end_bit(end: bool) -> nat {
    if end {
        1
    } else {
        0
    }
}

/// The 10 wire bytes of a header.
pub open spec fn header_bytes(h: Header) -> Seq<u8> {
    be_bytes((h.id * 2 + end_bit(h.end)) as nat, 7) + be_bytes(h.body_size as nat, 2) + seq![
        h.op_code,
    ]
}

/// The header any 10-byte string decodes to. There is no error path here:
/// validity of the op code is checked downstream, on the payload.
pub open spec fn header_of_bytes(s: Seq<u8>) -> Header {
    Header {
        end: s[6] % 2 == 1,
        id: (be_value(s.take(7)) / 2) as u64,
        body_size: be_value(s.subrange(7, 9)) as u16,
        op_code: s[9],
    }
}

impl Header {
    /// A header is well formed when its id fits in 55 bits.
    pub open spec fn wf(self) -> bool {
        self.id <= MAX_REQUEST_ID
    }
}

pub proof fn lemma_pow256_values()
    ensures
        pow256(2) == 0x10000,
        pow256(7) == 0x100_0000_0000_0000,
        pow256(8) == 0x1_0000_0000_0000_0000,
{
    reveal_with_fuel(pow256, 9);
}

/// A header encodes to exactly 10 bytes.
pub proof fn lemma_header_bytes_len(h: Header)
    ensures
        header_bytes(h).len() == 10,
{
    lemma_be_bytes_len((h.id * 2 + end_bit(h.end)) as nat, 7);
    lemma_be_bytes_len(h.body_size as nat, 2);
}

/// Decoding the encoding of any well-formed header gives the header back.
pub proof fn lemma_header_round_trip(h: Header)
    requires
        h.wf(),
    ensures
        header_of_bytes(header_bytes(h)) == h,
{
    let e = end_bit(h.end);
    let packed = (h.id * 2 + e) as nat;
    let s = header_bytes(h);
    lemma_pow256_values();
    lemma_be_bytes_len(packed, 7);
    lemma_be_bytes_len(h.body_size as nat, 2);
    assert(s.take(7) =~= be_bytes(packed, 7));
    assert(s.subrange(7, 9) =~= be_bytes(h.body_size as nat, 2));
    lemma_be_value_of_be_bytes(packed, 7);
    lemma_be_value_of_be_bytes(h.body_size as nat, 2);
    lemma_fundamental_div_mod_converse(packed as int, 2, h.id as int, e as int);
    // the end flag sits in the low bit of byte 6, the last id byte
    assert(s[6] == be_bytes(packed, 7).last());
    assert(be_bytes(packed, 7).last() == (packed % 256) as u8);
    let p64 = packed as u64;
    assert(p64 % 256 % 2 == p64 % 2) by (bit_vector);
    assert(packed % 2 == e);
}

/// Every 10-byte string is the encoding of the header it decodes to, and
/// that header's id always fits in 55 bits.
pub proof fn lemma_header_bytes_of_any(s: Seq<u8>)
    requires
        s.len() == 10,
    ensures
        header_bytes(header_of_bytes(s)) =~= s,
        header_of_bytes(s).wf(),
{
    let h = header_of_bytes(s);
    let bv = be_value(s.take(7));
    lemma_pow256_values();
    lemma_be_value_bound(s.take(7));
    lemma_be_value_bound(s.subrange(7, 9));
    let b64 = bv as u64;
    assert(b64 / 2 < 0x80_0000_0000_0000u64 && b64 % 256 % 2 == b64 % 2 && b64 >> 1u64 == b64
        / 2) by (bit_vector)
        requires
            b64 < 0x100_0000_0000_0000u64,
    ;
    // the low bit of byte 6 is the parity of the 7-byte value
    assert(s.take(7).drop_last() =~= s.take(6));
    assert(bv == be_value(s.take(6)) * 256 + s[6]);
    let q = be_value(s.take(6)) as int;
    let b6 = s[6] as int;
    assert((q * 256 + b6) % 2 == b6 % 2) by (nonlinear_arith)
        requires
            q >= 0,
            0 <= b6 < 256,
    ;
    let e = end_bit(h.end);
    assert(e == bv % 2);
    lemma_fundamental_div_mod_converse(bv as int, 2, (bv / 2) as int, (bv % 2) as int);
    assert(h.id * 2 + e == bv);
    lemma_be_bytes_of_be_value(s.take(7));
    lemma_be_bytes_of_be_value(s.subrange(7, 9));
    lemma_be_bytes_len((h.id * 2 + e) as nat, 7);
    lemma_be_bytes_len(h.body_size as nat, 2);
    assert(header_bytes(h) =~= s);
}

impl Header {
    /// Writes the 10 header bytes into `bytes`.
    pub(crate) fn set_bits(&self, bytes: &mut Vec<u8>)
        requires
            old(bytes)@.len() == 10,
            self.wf(),
        ensures
            final(bytes)@ =~= header_bytes(*self),
    {
        let e: u64 = if self.end {
            1
        } else {
            0
        };
        let packed: u64 = (self.id << 1u64) | e;
        proof {
            let idv = self.id;
            assert((idv << 1u64) | e == (2 * idv + e) as u64) by (bit_vector)
                requires
                    idv < 0x80_0000_0000_0000u64,
                    e <= 1u64,
            ;
            lemma_pow256_values();
        }
        let idb = encode_u64(packed);
        proof {
            lemma_be_bytes_zero_extend(packed as nat, 7);
            lemma_be_bytes_len(packed as nat, 7);
        }
        bytes[0] = idb[1];
        bytes[1] = idb[2];
        bytes[2] = idb[3];
        bytes[3] = idb[4];
        bytes[4] = idb[5];
        bytes[5] = idb[6];
        bytes[6] = idb[7];
        let bs = encode_u16(self.body_size);
        proof {
            lemma_be_bytes_len(self.body_size as nat, 2);
        }
        bytes[7] = bs[0];
        bytes[8] = bs[1];
        bytes[9] = self.op_code;
        proof {
            assert(bytes@ =~= header_bytes(*self));
        }
    }
}

/// Copies bytes from `chunk` into `buffer` starting at `offset`, as many as
/// fit; returns how many were copied.
fn fill_section(buffer: &mut Vec<u8>, offset: usize, chunk: &[u8]) -> (n: usize)
    requires
        offset <= old(buffer)@.len(),
    ensures
        final(buffer)@.len() == old(buffer)@.len(),
        n as int == ({
            let room = old(buffer)@.len() - offset;
            if chunk@.len() < room {
                chunk@.len() as int
            } else {
                room
            }
        }),
        final(buffer)@ =~= old(buffer)@.take(offset as int) + chunk@.take(n as int) + old(
            buffer,
        )@.skip(offset + n),
{
    let blen: usize = buffer.len();
    let room: usize = blen - offset;
    let n: usize = if chunk.len() < room {
        chunk.len()
    } else {
        room
    };
    let mut i: usize = 0;
    while i < n
        invariant
            i <= n,
            offset + n <= blen,
            n <= chunk@.len(),
            blen == buffer@.len(),
            buffer@.len() == old(buffer)@.len(),
            buffer@ =~= old(buffer)@.take(offset as int) + chunk@.take(i as int) + old(
                buffer,
            )@.skip(offset + i),
        decreases n - i,
    {
        buffer[offset + i] = chunk[i];
        assert(buffer@ =~= old(buffer)@.take(offset as int) + chunk@.take(i + 1 as int) + old(
            buffer,
        )@.skip(offset + (i + 1)));
        i = i + 1;
    }
    n
}

/// Accumulates the 10 header bytes of the frame being read, and doubles as
/// the scratch space when a header is encoded for sending.
pub struct HeaderBuffer {
    pub buffer: Vec<u8>,
    pub offset: usize,
}

impl Default for HeaderBuffer {
    /// An empty buffer, ready to accumulate a header.
    fn default() -> (r: Self)
        ensures
            r.wf(),
            r.spec_offset() == 0,
    {
        HeaderBuffer { buffer: vec![0u8, 0u8, 0u8, 0u8, 0u8, 0u8, 0u8, 0u8, 0u8, 0u8], offset: 0 }
    }
}

impl HeaderBuffer {
    pub open spec fn wf(self) -> bool {
        self.buffer@.len() == 10 && self.offset <= 10
    }

    pub open spec fn spec_offset(self) -> nat {
        self.offset as nat
    }

    pub open spec fn contents(self) -> Seq<u8> {
        self.buffer@
    }

    /// The bytes accumulated so far.
    pub open spec fn filled(self) -> Seq<u8> {
        self.buffer@.take(self.offset as int)
    }

    /// A buffer holding the encoding of `header`, for sending.
    pub fn new(header: &Header) -> (r: Self)
        requires
            header.wf(),
        ensures
            r.wf(),
            r.spec_offset() == 0,
            r.contents() =~= header_bytes(*header),
    {
        let mut hb = Self::default();
        hb.set_bits(header);
        hb
    }

    fn set_bits(&mut self, header: &Header)
        requires
            old(self).wf(),
            header.wf(),
        ensures
            final(self).wf(),
            final(self).spec_offset() == old(self).spec_offset(),
            final(self).contents() =~= header_bytes(*header),
    {
        header.set_bits(&mut self.buffer);
        proof {
            lemma_header_bytes_len(*header);
        }
    }

    /// Whether more bytes are needed before the header is complete.
    pub fn bytes_remaining(&self) -> (r: bool)
        requires
            self.wf(),
        ensures
            r == (self.spec_offset() < 10),
    {
        self.offset < 10
    }

    /// Copies bytes from `chunk` into the unfilled section, as many as fit,
    /// without advancing the fill mark; returns how many were copied.
    pub fn next_section(&mut self, chunk: &[u8]) -> (n: usize)
        requires
            old(self).wf(),
        ensures
            final(self).wf(),
            final(self).spec_offset() == old(self).spec_offset(),
            n as int == ({
                let room = 10 - old(self).spec_offset();
                if chunk@.len() < room {
                    chunk@.len() as int
                } else {
                    room as int
                }
            }),
            final(self).contents() =~= old(self).contents().take(old(self).spec_offset() as int)
                + chunk@.take(n as int) + old(self).contents().skip(
                old(self).spec_offset() + n,
            ),
    {
        fill_section(&mut self.buffer, self.offset, chunk)
    }

    /// Advances the fill mark over `n` freshly copied bytes.
    pub fn increment_offset(&mut self, n: usize)
        requires
            old(self).wf(),
            old(self).spec_offset() + n <= 10,
        ensures
            final(self).wf(),
            final(self).spec_offset() == old(self).spec_offset() + n,
            final(self).contents() == old(self).contents(),
    {
        self.offset = self.offset + n;
    }

    /// Decodes the buffered bytes as a header and resets the fill mark, ready
    /// for the next frame. Any 10 bytes decode to some header.
    pub fn to_header(&mut self) -> (r: Header)
        requires
            old(self).wf(),
        ensures
            final(self).wf(),
            final(self).spec_offset() == 0,
            final(self).contents() == old(self).contents(),
            r == header_of_bytes(old(self).contents()),
            r.wf(),
    {
        let body_size = decode_u16(&self.buffer[7..9]);
        let end = self.buffer[6] & 1 == 1;
        let idv = decode_u64(&self.buffer[0..7]);
        let id = idv >> 1u64;
        let op_code = self.buffer[9];
        self.offset = 0;
        proof {
            let s = self.buffer@;
            lemma_pow256_values();
            lemma_be_value_bound(s.subrange(7, 9));
            lemma_be_value_bound(s.take(7));
            assert(s.subrange(7, 9).len() == 2);
            assert(s.take(7) =~= s.subrange(0, 7));
            let b6 = self.buffer[6];
            assert((b6 & 1) == b6 % 2) by (bit_vector);
            let v = idv;
            assert(v >> 1u64 == v / 2) by (bit_vector);
            lemma_be_value_bound(s.take(7));
        }
        Header { body_size, end, id, op_code }
    }
}

/// Accumulates the `body_size` payload bytes of the frame being read.
pub struct BodyBuffer {
    pub buffer: Vec<u8>,
    pub offset: usize,
}

impl BodyBuffer {
    pub open spec fn wf(self) -> bool {
        self.offset <= self.buffer@.len() && self.buffer@.len() <= 0xffff
    }

    pub open spec fn spec_offset(self) -> nat {
        self.offset as nat
    }

    pub open spec fn size(self) -> nat {
        self.buffer@.len()
    }

    pub open spec fn contents(self) -> Seq<u8> {
        self.buffer@
    }

    /// The bytes accumulated so far.
    pub open spec fn filled(self) -> Seq<u8> {
        self.buffer@.take(self.offset as int)
    }

    /// A zero-filled buffer expecting exactly `size` payload bytes.
    pub fn new(size: u16) -> (r: Self)
        ensures
            r.wf(),
            r.spec_offset() == 0,
            r.size() == size,
            r.contents() =~= Seq::new(size as nat, |i: int| 0u8),
    {
        let buffer: Vec<u8> = vec![0u8; size as usize];
        proof {
            assert forall|i: int| 0 <= i < buffer@.len() implies buffer@[i] == 0u8 by {
                assert(cloned(0u8, buffer@[i]));
            }
        }
        BodyBuffer { buffer, offset: 0 }
    }

    /// Whether more bytes are needed before the body is complete.
    pub fn bytes_remaining(&self) -> (r: bool)
        requires
            self.wf(),
        ensures
            r == (self.spec_offset() < self.size()),
    {
        self.offset < self.buffer.len()
    }

    /// The whole payload buffer; meaningful once nothing remains to fill.
    pub fn bytes(&self) -> (r: &[u8])
        ensures
            r@ == self.contents(),
    {
        self.buffer.as_slice()
    }

    /// Copies bytes from `chunk` into the unfilled section, as many as fit,
    /// without advancing the fill mark; returns how many were copied.
    pub fn next_section(&mut self, chunk: &[u8]) -> (n: usize)
        requires
            old(self).wf(),
        ensures
            final(self).wf(),
            final(self).spec_offset() == old(self).spec_offset(),
            final(self).size() == old(self).size(),
            n as int == ({
                let room = old(self).size() - old(self).spec_offset();
                if chunk@.len() < room {
                    chunk@.len() as int
                } else {
                    room as int
                }
            }),
            final(self).contents() =~= old(self).contents().take(old(self).spec_offset() as int)
                + chunk@.take(n as int) + old(self).contents().skip(
                old(self).spec_offset() + n,
            ),
    {
        fill_section(&mut self.buffer, self.offset, chunk)
    }

    /// Advances the fill mark over `n` freshly copied bytes.
    pub fn increment_offset(&mut self, n: usize)
        requires
            old(self).wf(),
            old(self).spec_offset() + n <= old(self).size(),
        ensures
            final(self).wf(),
            final(self).spec_offset() == old(self).spec_offset() + n,
            final(self).size() == old(self).size(),
            final(self).contents() == old(self).contents(),
    {
        self.offset = self.offset + n;
    }
}

/// Result of asking the peer to create a function: the new function's id, or
/// the peer's error text.
#[derive(Debug, PartialEq)]
pub enum CreateFunctionResult {
    Id(u16),
    Error(String),
}

/// Result of calling an endpoint pre-function on the peer.
#[derive(Debug, PartialEq)]
pub enum CallEndpointPreFunctionResult {
    Value(serde_json::Value),
    Error(String),
    Empty,
}

/// A reply from the peer, correlated to an outgoing request by its id.
#[derive(Debug, PartialEq)]
pub enum IncomingResponse {
    CreateUtilFunction,
    CreateEndpointPreFunction(CreateFunctionResult),
    CreateEndpointPostFunction(CreateFunctionResult),
    CallEndpointPreFunction(CallEndpointPreFunctionResult),
    CallEndpointPostFunction(Option<String>),
}

/// Any message arriving from the peer: its own requests, or a reply to ours.
#[derive(Debug, PartialEq)]
pub enum IncomingMessage {
    GetProviderValue(String),
    AddProviderValue(String, serde_json::Value),
    LogMessage(String, serde_json::Value),
    GetResponseBody(u64),
    IncomingResponse(IncomingResponse),
}

/// The ASCII hex digit (lower case) for `n < 16`.
pub open spec fn hex_digit(n: u8) -> u8 {
    if n < 10 {
        (0x30 + n) as u8
    } else {
        (0x57 + n) as u8
    }
}

/// One byte of a JSON string escaped: quote and backslash get a backslash,
/// control bytes a `\u00XX` escape; every other byte passes through (the
/// bytes of a multi-byte UTF-8 sequence are above 0x7f and pass).
pub open spec fn escape_byte(b: u8) -> Seq<u8> {
    if b == 0x22 {
        seq![0x5cu8, 0x22u8]
    } else if b == 0x5c {
        seq![0x5cu8, 0x5cu8]
    } else if b < 0x20 {
        seq![0x5cu8, 0x75u8, 0x30u8, 0x30u8, hex_digit(b / 16), hex_digit(b % 16)]
    } else {
        seq![b]
    }
}

/// A byte string escaped for the inside of a JSON string literal.
pub open spec fn json_escaped(s: Seq<u8>) -> Seq<u8>
    decreases s.len(),
{
    if s.len() == 0 {
        Seq::empty()
    } else {
        json_escaped(s.drop_last()) + escape_byte(s.last())
    }
}

/// The decimal digits of `n` in ASCII, no leading zeros.
pub open spec fn dec_digits(n: nat) -> Seq<u8>
    decreases n,
{
    if n < 10 {
        seq![(0x30 + n) as u8]
    } else {
        dec_digits(n / 10) + seq![(0x30 + n % 10) as u8]
    }
}

fn to_hex_digit(n: u8) -> (r: u8)
    requires
        n < 16,
    ensures
        r == hex_digit(n),
{
    if n < 10 {
        0x30 + n
    } else {
        0x57 + n
    }
}

/// Appends `s` to `out` unchanged.
fn append_slice(out: &mut Vec<u8>, s: &[u8])
    ensures
        final(out)@ == old(out)@ + s@,
{
    let mut i: usize = 0;
    while i < s.len()
        invariant
            i <= s@.len(),
            out@ =~= old(out)@ + s@.take(i as int),
        decreases s@.len() - i,
    {
        out.push(s[i]);
        proof {
            assert(s@.take(i + 1).drop_last() =~= s@.take(i as int));
            assert(out@ =~= old(out)@ + s@.take(i + 1));
        }
        i = i + 1;
    }
    proof {
        assert(s@.take(s@.len() as int) =~= s@);
    }
}

/// Appends `s` to `out`, escaped for the inside of a JSON string literal.
fn append_escaped(out: &mut Vec<u8>, s: &[u8])
    ensures
        final(out)@ == old(out)@ + json_escaped(s@),
{
    let mut i: usize = 0;
    while i < s.len()
        invariant
            i <= s@.len(),
            out@ =~= old(out)@ + json_escaped(s@.take(i as int)),
        decreases s@.len() - i,
    {
        let b = s[i];
        if b == 0x22 {
            out.push(0x5c);
            out.push(0x22);
        } else if b == 0x5c {
            out.push(0x5c);
            out.push(0x5c);
        } else if b < 0x20 {
            out.push(0x5c);
            out.push(0x75);
            out.push(0x30);
            out.push(0x30);
            out.push(to_hex_digit(b / 16));
            out.push(to_hex_digit(b % 16));
        } else {
            out.push(b);
        }
        proof {
            assert(s@.take(i + 1).drop_last() =~= s@.take(i as int));
            assert(out@ =~= old(out)@ + json_escaped(s@.take(i + 1)));
        }
        i = i + 1;
    }
    proof {
        assert(s@.take(s@.len() as int) =~= s@);
    }
}

/// Appends the decimal digits of `n` to `out`.
fn append_decimal(out: &mut Vec<u8>, n: u16)
    ensures
        final(out)@ == old(out)@ + dec_digits(n as nat),
    decreases n,
{
    if n < 10 {
        out.push(0x30 + (n as u8));
    } else {
        append_decimal(out, n / 10);
        out.push(0x30 + ((n % 10) as u8));
        proof {
            assert(out@ =~= old(out)@ + dec_digits(n as nat));
        }
    }
}

/// How a response to a peer exchange is initialised: header pairs and a
/// status code; goes onto the wire as the JSON document [`ri_json`] gives.
pub struct ResponseInit {
    pub headers: Vec<(String, String)>,
    pub status: u16,
}

/// The JSON bytes of one header pair: `["name","value"]`, both escaped.
pub open spec fn ri_entry_json(k: Seq<char>, v: Seq<char>) -> Seq<u8> {
    seq![0x5bu8, 0x22u8] + json_escaped(encode_utf8(k)) + seq![0x22u8, 0x2cu8, 0x22u8]
        + json_escaped(encode_utf8(v)) + seq![0x22u8, 0x5du8]
}

/// The JSON bytes of the header list, entries separated by commas.
pub open spec fn ri_entries_json(headers: Seq<(String, String)>) -> Seq<u8>
    decreases headers.len(),
{
    if headers.len() == 0 {
        Seq::empty()
    } else if headers.len() == 1 {
        ri_entry_json(headers[0].0@, headers[0].1@)
    } else {
        ri_entries_json(headers.drop_last()) + seq![0x2cu8] + ri_entry_json(
            headers.last().0@,
            headers.last().1@,
        )
    }
}

/// The JSON document of a [`ResponseInit`]:
/// `{"headers":[["n","v"],...],"status":NNN}`.
pub open spec fn ri_json(ri: ResponseInit) -> Seq<u8> {
    seq![
        0x7bu8,
        0x22u8,
        0x68u8,
        0x65u8,
        0x61u8,
        0x64u8,
        0x65u8,
        0x72u8,
        0x73u8,
        0x22u8,
        0x3au8,
        0x5bu8,
    ] + ri_entries_json(ri.headers@) + seq![
        0x5du8,
        0x2cu8,
        0x22u8,
        0x73u8,
        0x74u8,
        0x61u8,
        0x74u8,
        0x75u8,
        0x73u8,
        0x22u8,
        0x3au8,
    ] + dec_digits(ri.status as nat) + seq![0x7du8]
}

/// Appends the JSON of one header pair.
fn append_entry(out: &mut Vec<u8>, k: &String, v: &String)
    ensures
        final(out)@ == old(out)@ + ri_entry_json(k@, v@),
{
    out.push(0x5b);
    out.push(0x22);
    append_escaped(out, k.as_str().as_bytes());
    out.push(0x22);
    out.push(0x2c);
    out.push(0x22);
    append_escaped(out, v.as_str().as_bytes());
    out.push(0x22);
    out.push(0x5d);
    proof {
        assert(out@ =~= old(out)@ + ri_entry_json(k@, v@));
    }
}

/// Serializes a [`ResponseInit`] to its JSON document.
pub fn response_init_json(ri: &ResponseInit) -> (r: Vec<u8>)
    ensures
        r@ == ri_json(*ri),
{
    let mut out: Vec<u8> = Vec::new();
    let opening: [u8; 12] = [
        0x7b,
        0x22,
        0x68,
        0x65,
        0x61,
        0x64,
        0x65,
        0x72,
        0x73,
        0x22,
        0x3a,
        0x5b,
    ];
    append_slice(&mut out, &opening);
    let ghost prefix = out@;
    let mut i: usize = 0;
    while i < ri.headers.len()
        invariant
            i <= ri.headers@.len(),
            out@ =~= prefix + ri_entries_json(ri.headers@.take(i as int)),
        decreases ri.headers@.len() - i,
    {
        if i > 0 {
            out.push(0x2c);
        }
        let pair = &ri.headers[i];
        append_entry(&mut out, &pair.0, &pair.1);
        proof {
            assert(ri.headers@.take(i + 1).drop_last() =~= ri.headers@.take(i as int));
            assert(ri.headers@.take(i + 1).last() == ri.headers@[i as int]);
            assert(out@ =~= prefix + ri_entries_json(ri.headers@.take(i + 1)));
        }
        i = i + 1;
    }
    proof {
        assert(ri.headers@.take(ri.headers@.len() as int) =~= ri.headers@);
    }
    let closing: [u8; 11] = [0x5d, 0x2c, 0x22, 0x73, 0x74, 0x61, 0x74, 0x75, 0x73, 0x22, 0x3a];
    append_slice(&mut out, &closing);
    append_decimal(&mut out, ri.status);
    out.push(0x7d);
    proof {
        assert(out@ =~= ri_json(*ri));
    }
    out
}

/// Allocates the monotonically increasing request ids of one channel. Ids
/// start at zero and are never reused; the 55-bit ceiling is the wire
/// format's.
pub struct RequestIdCounter {
    pub next_id: u64,
}

impl RequestIdCounter {
    pub open spec fn wf(self) -> bool {
        self.next_id <= MAX_REQUEST_ID
    }

    pub fn new() -> (r: Self)
        ensures
            r.next_id == 0,
            r.wf(),
    {
        RequestIdCounter { next_id: 0 }
    }
}

/// A reply this side sends to a peer-initiated request; it reuses that
/// request's id, so the peer can correlate it.
pub enum OutgoingResponse {
    GetProviderValue(u64, serde_json::Value),
    AddProviderValue(u64),
    LogMessage(u64),
    GetResponseBody(u64, Vec<u8>),
}

/// A message going out to the peer: a request consuming a fresh id, or a
/// reply to a request of the peer's.
pub enum OutgoingMessage {
    CreateUtilFunction(String),
    CreateEndpointPreFunction(String),
    CreateEndpointPostFunction(String),
    CallEndpointPreFunction(u16),
    CallEndpointPostFunction(u16, ResponseInit),
    OutgoingResponse(OutgoingResponse),
}

impl OutgoingMessage {
    /// The op code the message goes out under.
    pub open spec fn op_code(self) -> u8 {
        match self {
            OutgoingMessage::CreateUtilFunction(_) => 0,
            OutgoingMessage::CreateEndpointPreFunction(_) => 1,
            OutgoingMessage::CreateEndpointPostFunction(_) => 2,
            OutgoingMessage::CallEndpointPreFunction(_) => 3,
            OutgoingMessage::CallEndpointPostFunction(_, _) => 4,
            OutgoingMessage::OutgoingResponse(r) => match r {
                OutgoingResponse::GetProviderValue(_, _) => 5,
                OutgoingResponse::AddProviderValue(_) => 6,
                OutgoingResponse::LogMessage(_) => 7,
                OutgoingResponse::GetResponseBody(_, _) => 8,
            },
        }
    }

    /// Whether the message is a request, consuming a freshly allocated id;
    /// a response instead reuses the id of the request it answers.
    pub open spec fn allocates_id(self) -> bool {
        !(self is OutgoingResponse)
    }

    /// For a response, the id of the peer request being answered.
    pub open spec fn response_id(self) -> u64 {
        match self {
            OutgoingMessage::OutgoingResponse(r) => match r {
                OutgoingResponse::GetProviderValue(req_id, _) => req_id,
                OutgoingResponse::AddProviderValue(req_id) => req_id,
                OutgoingResponse::LogMessage(req_id) => req_id,
                OutgoingResponse::GetResponseBody(req_id, _) => req_id,
            },
            _ => 0,
        }
    }

    /// A message is well formed when any id it reuses fits in 55 bits.
    pub open spec fn wf(self) -> bool {
        self.response_id() <= MAX_REQUEST_ID
    }

    /// The body bytes, where they are a function of the message alone; the
    /// serialization of a raw JSON value is the JSON library's affair.
    pub open spec fn body_bytes(self) -> Option<Seq<u8>> {
        match self {
            OutgoingMessage::CreateUtilFunction(s) => Some(encode_utf8(s@)),
            OutgoingMessage::CreateEndpointPreFunction(s) => Some(encode_utf8(s@)),
            OutgoingMessage::CreateEndpointPostFunction(s) => Some(encode_utf8(s@)),
            OutgoingMessage::CallEndpointPreFunction(fn_id) => Some(be_bytes(fn_id as nat, 2)),
            OutgoingMessage::CallEndpointPostFunction(fn_id, ri) => Some(
                be_bytes(fn_id as nat, 2) + ri_json(ri),
            ),
            OutgoingMessage::OutgoingResponse(r) => match r {
                OutgoingResponse::GetProviderValue(_, _) => None,
                OutgoingResponse::AddProviderValue(_) => Some(Seq::empty()),
                OutgoingResponse::LogMessage(_) => Some(Seq::empty()),
                OutgoingResponse::GetResponseBody(_, b) => Some(b@),
            },
        }
    }

    /// Encodes the message for the wire: the 10 header bytes, the body
    /// bytes, and the id the frame carries — fresh from `ids` for a request,
    /// the answered request's id for a response. The end flag is always set:
    /// no frame splitting exists. `None` when the body cannot go out — over
    /// 65535 bytes, the size field's ceiling, or a raw JSON value that would
    /// not serialize — and the counter is then untouched.
    pub fn encode(self, ids: &mut RequestIdCounter) -> (r: Option<(Vec<u8>, Vec<u8>, u64)>)
        requires
            old(ids).wf(),
            self.allocates_id() ==> old(ids).next_id < MAX_REQUEST_ID,
            self.wf(),
        ensures
            final(ids).wf(),
            match r {
                Some(t) => {
                    &&& t.2 == if self.allocates_id() {
                        old(ids).next_id
                    } else {
                        self.response_id()
                    }
                    &&& final(ids).next_id == old(ids).next_id + if self.allocates_id() {
                        1int
                    } else {
                        0int
                    }
                    &&& t.1@.len() <= 65535
                    &&& (self.body_bytes() matches Some(b) ==> t.1@ == b)
                    &&& t.0@ == header_bytes(
                        Header {
                            end: true,
                            id: t.2,
                            body_size: t.1@.len() as u16,
                            op_code: self.op_code(),
                        },
                    )
                },
                None => {
                    &&& final(ids).next_id == old(ids).next_id
                    &&& (self.body_bytes() matches Some(b) ==> b.len() > 65535)
                },
            },
    {
        let (op_code, body_opt, reuse_id): (u8, Option<Vec<u8>>, Option<u64>) = match self {
            OutgoingMessage::CreateUtilFunction(s) => (0, Some(string_bytes(&s)), None),
            OutgoingMessage::CreateEndpointPreFunction(s) => (1, Some(string_bytes(&s)), None),
            OutgoingMessage::CreateEndpointPostFunction(s) => (2, Some(string_bytes(&s)), None),
            OutgoingMessage::CallEndpointPreFunction(fn_id) => {
                let e = encode_u16(fn_id);
                let mut v: Vec<u8> = Vec::new();
                v.push(e[0]);
                v.push(e[1]);
                proof {
                    assert(v@ =~= be_bytes(fn_id as nat, 2));
                }
                (3, Some(v), None)
            },
            OutgoingMessage::CallEndpointPostFunction(fn_id, ri) => {
                let e = encode_u16(fn_id);
                let mut v: Vec<u8> = Vec::new();
                v.push(e[0]);
                v.push(e[1]);
                let mut j = response_init_json(&ri);
                v.append(&mut j);
                proof {
                    assert(v@ =~= be_bytes(fn_id as nat, 2) + ri_json(ri));
                }
                (4, Some(v), None)
            },
            OutgoingMessage::OutgoingResponse(resp) => match resp {
                OutgoingResponse::GetProviderValue(req_id, value) => (
                    5,
                    value_to_bytes(&value),
                    Some(req_id),
                ),
                OutgoingResponse::AddProviderValue(req_id) => (6, Some(Vec::new()), Some(req_id)),
                OutgoingResponse::LogMessage(req_id) => (7, Some(Vec::new()), Some(req_id)),
                OutgoingResponse::GetResponseBody(req_id, b) => (8, Some(b), Some(req_id)),
            },
        };
        let body = match body_opt {
            Some(b) => b,
            None => {
                return None;
            },
        };
        if body.len() > 65535 {
            return None;
        }
        let id: u64 = match reuse_id {
            Some(i) => i,
            None => {
                let i = ids.next_id;
                ids.next_id = ids.next_id + 1;
                i
            },
        };
        let header = Header { end: true, id, body_size: body.len() as u16, op_code };
        let mut header_bytes_out: Vec<u8> = vec![0u8; 10];
        header.set_bits(&mut header_bytes_out);
        Some((header_bytes_out, body, id))
    }
}

/// The UTF-8 bytes of a string, as a fresh vector.
fn string_bytes(s: &String) -> (r: Vec<u8>)
    ensures
        r@ == encode_utf8(s@),
{
    slice_to_vec(s.as_str().as_bytes())
}

} // verus!
