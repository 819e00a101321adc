//! Fixed-width big-endian numeric codecs with right-aligned decoding.
//!
//! The decoders accept a slice of any length: short inputs are padded on the
//! left with zero bytes, long inputs keep only their low-order (last) bytes.

use vstd::prelude::*;
use vstd::arithmetic::div_mod::{lemma_fundamental_div_mod, lemma_fundamental_div_mod_converse};
use vstd::utf8::{decode_utf8, valid_utf8};

use crate::error::Error;
use crate::json::{
    json_doc_kind, json_pair_key, json_scalar_shape, parse_document, parse_keyed_entry,
    parse_scalar, JsonDocKind, JsonScalar, JsonScalarShape, ParsedJson,
};
use crate::message::{
    CallEndpointPreFunctionResult, CreateFunctionResult, IncomingMessage, IncomingResponse,
};

verus! {

/// Value of a byte string read as a big-endian base-256 numeral.
pub open spec fn be_value(s: Seq<u8>) -> nat
    decreases s.len(),
{
    if s.len() == 0 {
        0
    } else {
        (be_value(s.drop_last()) * 256 + s.last()) as nat
    }
}

/// 256 to the power `n`.
pub open spec fn pow256(n: nat) -> nat
    decreases n,
{
    if n == 0 {
        1
    } else {
        256 * pow256((n - 1) as nat)
    }
}

/// The big-endian byte string of `n`, exactly `len` bytes wide
/// (high digits beyond the width are dropped).
pub open spec fn be_bytes(n: nat, len: nat) -> Seq<u8>
    decreases len,
{
    if len == 0 {
        Seq::empty()
    } else {
        be_bytes(n / 256, (len - 1) as nat).push((n % 256) as u8)
    }
}

/// Right-aligned read of width `width`: the value of the last `width` bytes,
/// or of the whole string when it is shorter.
pub open spec fn be_tail(s: Seq<u8>, width: nat) -> nat {
    if s.len() <= width {
        be_value(s)
    } else {
        be_value(s.skip(s.len() - width))
    }
}

pub proof fn lemma_pow256_pos(n: nat)
    ensures
        pow256(n) >= 1,
    decreases n,
{
    if n > 0 {
        lemma_pow256_pos((n - 1) as nat);
    }
}

pub proof fn lemma_pow256_increases(i: nat, j: nat)
    requires
        i <= j,
    ensures
        pow256(i) <= pow256(j),
    decreases j,
{
    if i < j {
        lemma_pow256_increases(i, (j - 1) as nat);
        lemma_pow256_pos((j - 1) as nat);
    }
}

pub proof fn lemma_be_value_bound(s: Seq<u8>)
    ensures
        be_value(s) < pow256(s.len()),
    decreases s.len(),
{
    if s.len() > 0 {
        let dl = s.drop_last();
        lemma_be_value_bound(dl);
        assert(be_value(dl) * 256 <= (pow256(dl.len()) - 1) * 256) by (nonlinear_arith)
            requires
                be_value(dl) < pow256(dl.len()),
                pow256(dl.len()) >= 1,
        {
        }
        lemma_pow256_pos(dl.len());
    }
}

pub proof fn lemma_be_bytes_len(n: nat, len: nat)
    ensures
        be_bytes(n, len).len() == len,
    decreases len,
{
    if len > 0 {
        lemma_be_bytes_len(n / 256, (len - 1) as nat);
    }
}

/// Writing a value that fits the width and reading it back is the identity.
pub proof fn lemma_be_value_of_be_bytes(n: nat, len: nat)
    requires
        n < pow256(len),
    ensures
        be_value(be_bytes(n, len)) == n,
    decreases len,
{
    if len == 0 {
    } else {
        let rest = (len - 1) as nat;
        assert(n / 256 < pow256(rest)) by (nonlinear_arith)
            requires
                n < 256 * pow256(rest),
        {
        }
        lemma_be_value_of_be_bytes(n / 256, rest);
        lemma_be_bytes_len(n / 256, rest);
        assert(be_bytes(n, len).drop_last() =~= be_bytes(n / 256, rest));
        lemma_fundamental_div_mod(n as int, 256);
    }
}

/// Reading a byte string and writing it back at its own width is the identity.
pub proof fn lemma_be_bytes_of_be_value(s: Seq<u8>)
    ensures
        be_bytes(be_value(s), s.len()) =~= s,
    decreases s.len(),
{
    if s.len() > 0 {
        let dl = s.drop_last();
        lemma_be_bytes_of_be_value(dl);
        lemma_fundamental_div_mod_converse(
            be_value(s) as int,
            256,
            be_value(dl) as int,
            s.last() as int,
        );
        lemma_be_bytes_len(be_value(s) / 256 as nat, dl.len());
    }
}

pub proof fn lemma_be_value_all_zero(z: Seq<u8>)
    requires
        forall|i: int| 0 <= i < z.len() ==> z[i] == 0,
    ensures
        be_value(z) == 0,
    decreases z.len(),
{
    if z.len() > 0 {
        lemma_be_value_all_zero(z.drop_last());
    }
}

/// Zero bytes on the left do not change the value.
pub proof fn lemma_be_value_leading_zeros(z: Seq<u8>, s: Seq<u8>)
    requires
        forall|i: int| 0 <= i < z.len() ==> z[i] == 0,
    ensures
        be_value(z + s) == be_value(s),
    decreases s.len(),
{
    if s.len() == 0 {
        assert(z + s =~= z);
        lemma_be_value_all_zero(z);
    } else {
        assert((z + s).drop_last() =~= z + s.drop_last());
        lemma_be_value_leading_zeros(z, s.drop_last());
    }
}

/// A value that fits `len` bytes gets a zero high byte at width `len + 1`.
pub proof fn lemma_be_bytes_zero_extend(n: nat, len: nat)
    requires
        n < pow256(len),
    ensures
        be_bytes(n, len + 1) =~= seq![0u8] + be_bytes(n, len),
    decreases len,
{
    if len == 0 {
        assert(be_bytes(0nat, 1nat) =~= seq![0u8] + be_bytes(0nat, 0nat));
    } else {
        let rest = (len - 1) as nat;
        assert(n / 256 < pow256(rest)) by (nonlinear_arith)
            requires
                n < 256 * pow256(rest),
        {
        }
        lemma_be_bytes_zero_extend(n / 256, rest);
        assert(be_bytes(n, len + 1) =~= (seq![0u8] + be_bytes(n / 256, rest)).push(
            (n % 256) as u8,
        ));
        assert((seq![0u8] + be_bytes(n / 256, rest)).push((n % 256) as u8) =~= seq![0u8]
            + be_bytes(n, len));
    }
}

/// Copies the tail of `source` onto the tail of `target`, right-aligned:
/// with `k` the smaller of the two lengths, the last `k` bytes of `source`
/// replace the last `k` bytes of `target`, and the rest of `target` stays.
pub fn copy_bytes_right_align(source: &[u8], target: &mut Vec<u8>)
    ensures
        final(target)@.len() == old(target)@.len(),
        final(target)@ == ({
            let k = if source@.len() < old(target)@.len() {
                source@.len() as int
            } else {
                old(target)@.len() as int
            };
            old(target)@.take(old(target)@.len() - k) + source@.skip(source@.len() - k)
        }),
{
    let k: usize = if source.len() < target.len() {
        source.len()
    } else {
        target.len()
    };
    let tlen: usize = target.len();
    let slen: usize = source.len();
    let toff: usize = tlen - k;
    let soff: usize = slen - k;
    let mut i: usize = 0;
    while i < k
        invariant
            i <= k,
            k <= slen,
            k <= tlen,
            slen == source@.len(),
            tlen == target@.len(),
            toff == tlen - k,
            soff == slen - k,
            target@.len() == old(target)@.len(),
            target@ == old(target)@.take(toff as int) + source@.subrange(
                soff as int,
                soff + i as int,
            ) + old(target)@.skip(toff + i as int),
        decreases k - i,
    {
        target[toff + i] = source[soff + i];
        assert(target@ =~= old(target)@.take(toff as int) + source@.subrange(
            soff as int,
            soff + (i + 1) as int,
        ) + old(target)@.skip(toff + (i + 1) as int));
        i = i + 1;
    }
    assert(target@ =~= old(target)@.take(toff as int) + source@.skip(soff as int));
}

/// Decodes a big-endian `u16` from the last two bytes of `bytes`,
/// left-padding with zero when fewer are given.
pub fn decode_u16(bytes: &[u8]) -> (r: u16)
    ensures
        r as nat == be_tail(bytes@, 2),
{
    let mut target: Vec<u8> = vec![0u8, 0u8];
    let ghost zeros = target@;
    copy_bytes_right_align(bytes, &mut target);
    let hi = target[0];
    let lo = target[1];
    proof {
        assert(target@.drop_last() =~= seq![hi]);
        assert(seq![hi].drop_last() =~= Seq::<u8>::empty());
        assert(be_value(Seq::<u8>::empty()) == 0);
        assert(be_value(seq![hi]) == hi);
        assert(be_value(target@) == hi * 256 + lo);
        let k = if bytes@.len() < 2 { bytes@.len() as int } else { 2int };
        let z = zeros.take(2 - k);
        let tail = bytes@.skip(bytes@.len() - k);
        assert(target@ =~= z + tail);
        lemma_be_value_leading_zeros(z, tail);
        if bytes@.len() <= 2 {
            assert(tail =~= bytes@);
        }
    }
    hi as u16 * 256 + lo as u16
}

/// Encodes `n` as two big-endian bytes.
pub fn encode_u16(n: u16) -> (r: [u8; 2])
    ensures
        r@ =~= be_bytes(n as nat, 2),
{
    let r = [(n / 256) as u8, (n % 256) as u8];
    proof {
        let v = n as nat;
        assert(be_bytes(v, 2) =~= be_bytes(v / 256, 1).push((v % 256) as u8));
        assert(be_bytes(v / 256, 1) =~= be_bytes(v / 256 / 256, 0).push((v / 256 % 256) as u8));
        assert(v / 256 % 256 == v / 256);
        assert(r@ =~= be_bytes(v, 2));
    }
    r
}

/// Decodes a big-endian `u64` from the last eight bytes of `bytes`,
/// left-padding with zero when fewer are given.
pub fn decode_u64(bytes: &[u8]) -> (r: u64)
    ensures
        r as nat == be_tail(bytes@, 8),
{
    let mut target: Vec<u8> = vec![0u8, 0u8, 0u8, 0u8, 0u8, 0u8, 0u8, 0u8];
    let ghost zeros = target@;
    copy_bytes_right_align(bytes, &mut target);
    let mut r: u64 = 0;
    let mut i: usize = 0;
    while i < 8
        invariant
            i <= 8,
            target@.len() == 8,
            r as nat == be_value(target@.take(i as int)),
        decreases 8 - i,
    {
        proof {
            lemma_be_value_bound(target@.take(i as int));
            lemma_pow256_increases(i as nat, 7);
            reveal_with_fuel(pow256, 9);
            assert(pow256(7) == 0x100000000000000nat);
            assert(target@.take(i + 1).drop_last() =~= target@.take(i as int));
        }
        r = r * 256 + (target[i] as u64);
        i = i + 1;
    }
    proof {
        assert(target@.take(8) =~= target@);
        let k = if bytes@.len() < 8 { bytes@.len() as int } else { 8int };
        let z = zeros.take(8 - k);
        let tail = bytes@.skip(bytes@.len() - k);
        assert(target@ =~= z + tail);
        lemma_be_value_leading_zeros(z, tail);
        if bytes@.len() <= 8 {
            assert(tail =~= bytes@);
        }
    }
    r
}

/// Encodes `n` as eight big-endian bytes.
pub fn encode_u64(n: u64) -> (r: [u8; 8])
    ensures
        r@ =~= be_bytes(n as nat, 8),
{
    let n0 = n;
    let n1 = n0 / 256;
    let n2 = n1 / 256;
    let n3 = n2 / 256;
    let n4 = n3 / 256;
    let n5 = n4 / 256;
    let n6 = n5 / 256;
    let n7 = n6 / 256;
    let r = [
        (n7 % 256) as u8,
        (n6 % 256) as u8,
        (n5 % 256) as u8,
        (n4 % 256) as u8,
        (n3 % 256) as u8,
        (n2 % 256) as u8,
        (n1 % 256) as u8,
        (n0 % 256) as u8,
    ];
    proof {
        assert(n7 / 256 == 0);
        assert(be_bytes(0nat, 0nat) =~= Seq::<u8>::empty());
        assert(be_bytes(n7 as nat, 1) =~= Seq::<u8>::empty().push((n7 % 256) as u8));
        assert(be_bytes(n6 as nat, 2) =~= be_bytes(n7 as nat, 1).push((n6 % 256) as u8));
        assert(be_bytes(n5 as nat, 3) =~= be_bytes(n6 as nat, 2).push((n5 % 256) as u8));
        assert(be_bytes(n4 as nat, 4) =~= be_bytes(n5 as nat, 3).push((n4 % 256) as u8));
        assert(be_bytes(n3 as nat, 5) =~= be_bytes(n4 as nat, 4).push((n3 % 256) as u8));
        assert(be_bytes(n2 as nat, 6) =~= be_bytes(n3 as nat, 5).push((n2 % 256) as u8));
        assert(be_bytes(n1 as nat, 7) =~= be_bytes(n2 as nat, 6).push((n1 % 256) as u8));
        assert(be_bytes(n0 as nat, 8) =~= be_bytes(n1 as nat, 7).push((n0 % 256) as u8));
        assert(r@ =~= be_bytes(n as nat, 8));
    }
    r
}

/// Relies on `core::str::from_utf8`: succeeds exactly on valid UTF-8 input,
/// and the returned text views those bytes, so its characters are their
/// UTF-8 decoding.
#[verifier::external_body]
fn try_from_utf8(bytes: &[u8]) -> (r: Option<&str>)
    ensures
        (r is Some) == valid_utf8(bytes@),
        r matches Some(s) ==> s@ == decode_utf8(bytes@),
{
    core::str::from_utf8(bytes).ok()
}

/// Decodes `bytes` as UTF-8 text, or reports exactly which error the
/// protocol gives to non-text payloads.
pub fn decode_string(bytes: &[u8]) -> (r: Result<&str, Error>)
    ensures
        (r is Ok) == valid_utf8(bytes@),
        r matches Ok(s) ==> s@ == decode_utf8(bytes@),
        !valid_utf8(bytes@) ==> r == Result::<&str, Error>::Err(Error::InvalidUtf8Bytes),
{
    match try_from_utf8(bytes) {
        Some(s) => Ok(s),
        None => Err(Error::InvalidUtf8Bytes),
    }
}

/// What [`decode_incoming_msg`] returns for a payload `body` under op code
/// `op`: exactly one message or error per op code and payload shape.
pub open spec fn decoded_msg(op: u8, body: Seq<u8>, r: Result<IncomingMessage, Error>) -> bool {
    if op == 0 {
        if valid_utf8(body) {
            r matches Ok(IncomingMessage::GetProviderValue(s)) && s@ == decode_utf8(body)
        } else {
            r == Result::<IncomingMessage, Error>::Err(Error::InvalidIncomingMessage(0))
        }
    } else if op == 1 || op == 2 {
        match json_pair_key(body) {
            Some(k) => {
                if op == 1 {
                    r matches Ok(IncomingMessage::AddProviderValue(s, _)) && s@ == k
                } else {
                    r matches Ok(IncomingMessage::LogMessage(s, _)) && s@ == k
                }
            },
            None => r == Result::<IncomingMessage, Error>::Err(Error::InvalidIncomingMessage(op)),
        }
    } else if op == 3 {
        r matches Ok(IncomingMessage::GetResponseBody(x)) && x as nat == be_tail(body, 8)
    } else if op == 4 {
        r == Result::<IncomingMessage, Error>::Ok(
            IncomingMessage::IncomingResponse(IncomingResponse::CreateUtilFunction),
        )
    } else if op == 5 || op == 6 {
        match json_scalar_shape(body) {
            JsonScalarShape::Text(t) => {
                if op == 5 {
                    r matches Ok(IncomingMessage::IncomingResponse(
                        IncomingResponse::CreateEndpointPreFunction(CreateFunctionResult::Error(s)),
                    )) && s@ == t
                } else {
                    r matches Ok(IncomingMessage::IncomingResponse(
                        IncomingResponse::CreateEndpointPostFunction(
                            CreateFunctionResult::Error(s),
                        ),
                    )) && s@ == t
                }
            },
            JsonScalarShape::Uint(n) => {
                if n < 65536 {
                    if op == 5 {
                        r == Result::<IncomingMessage, Error>::Ok(
                            IncomingMessage::IncomingResponse(
                                IncomingResponse::CreateEndpointPreFunction(
                                    CreateFunctionResult::Id(n as u16),
                                ),
                            ),
                        )
                    } else {
                        r == Result::<IncomingMessage, Error>::Ok(
                            IncomingMessage::IncomingResponse(
                                IncomingResponse::CreateEndpointPostFunction(
                                    CreateFunctionResult::Id(n as u16),
                                ),
                            ),
                        )
                    }
                } else {
                    r == Result::<IncomingMessage, Error>::Err(Error::InvalidJsonBytes)
                }
            },
            JsonScalarShape::Other => r == Result::<IncomingMessage, Error>::Err(
                Error::InvalidJsonBytes,
            ),
        }
    } else if op == 7 {
        if body.len() == 0 {
            r == Result::<IncomingMessage, Error>::Ok(
                IncomingMessage::IncomingResponse(
                    IncomingResponse::CallEndpointPreFunction(CallEndpointPreFunctionResult::Empty),
                ),
            )
        } else {
            match json_doc_kind(body) {
                JsonDocKind::Text(t) => r matches Ok(IncomingMessage::IncomingResponse(
                    IncomingResponse::CallEndpointPreFunction(
                        CallEndpointPreFunctionResult::Error(s),
                    ),
                )) && s@ == t,
                JsonDocKind::NonText => r matches Ok(IncomingMessage::IncomingResponse(
                    IncomingResponse::CallEndpointPreFunction(
                        CallEndpointPreFunctionResult::Value(_),
                    ),
                )),
                JsonDocKind::Invalid => r == Result::<IncomingMessage, Error>::Err(
                    Error::InvalidIncomingMessage(7),
                ),
            }
        }
    } else if op == 8 {
        if body.len() == 0 {
            r == Result::<IncomingMessage, Error>::Ok(
                IncomingMessage::IncomingResponse(
                    IncomingResponse::CallEndpointPostFunction(Option::None),
                ),
            )
        } else if valid_utf8(body) {
            r matches Ok(IncomingMessage::IncomingResponse(
                IncomingResponse::CallEndpointPostFunction(Some(s)),
            )) && s@ == decode_utf8(body)
        } else {
            r == Result::<IncomingMessage, Error>::Err(Error::InvalidIncomingMessage(8))
        }
    } else {
        r == Result::<IncomingMessage, Error>::Err(Error::InvalidIncomingMessage(op))
    }
}

/// Interprets a reply to a function-creation request: a JSON string is the
/// peer's error text, a JSON integer below the id ceiling is the new
/// function's id, and every other payload is invalid.
pub fn parse_create_fn_result(body: &[u8]) -> (r: Result<CreateFunctionResult, Error>)
    ensures
        (match json_scalar_shape(body@) {
            JsonScalarShape::Text(t) => r matches Ok(CreateFunctionResult::Error(s)) && s@ == t,
            JsonScalarShape::Uint(n) => {
                if n < 65536 {
                    r == Result::<CreateFunctionResult, Error>::Ok(
                        CreateFunctionResult::Id(n as u16),
                    )
                } else {
                    r == Result::<CreateFunctionResult, Error>::Err(Error::InvalidJsonBytes)
                }
            },
            JsonScalarShape::Other => r == Result::<CreateFunctionResult, Error>::Err(
                Error::InvalidJsonBytes,
            ),
        }),
{
    match parse_scalar(body) {
        JsonScalar::Text(s) => Ok(CreateFunctionResult::Error(s)),
        JsonScalar::Uint(n) => {
            if n < 65536 {
                Ok(CreateFunctionResult::Id(n as u16))
            } else {
                Err(Error::InvalidJsonBytes)
            }
        },
        JsonScalar::Other => Err(Error::InvalidJsonBytes),
    }
}

/// Interprets a frame payload under its op code, as [`decoded_msg`] states.
pub fn decode_incoming_msg(op_code: u8, body_bytes: &[u8]) -> (r: Result<IncomingMessage, Error>)
    ensures
        decoded_msg(op_code, body_bytes@, r),
{
    match op_code {
        0u8 => match decode_string(body_bytes) {
            Ok(s) => Ok(IncomingMessage::GetProviderValue(s.to_owned())),
            Err(_) => Err(Error::InvalidIncomingMessage(op_code)),
        },
        1u8 => match parse_keyed_entry(body_bytes) {
            Some((name, value)) => Ok(IncomingMessage::AddProviderValue(name, value)),
            None => Err(Error::InvalidIncomingMessage(op_code)),
        },
        2u8 => match parse_keyed_entry(body_bytes) {
            Some((name, value)) => Ok(IncomingMessage::LogMessage(name, value)),
            None => Err(Error::InvalidIncomingMessage(op_code)),
        },
        3u8 => Ok(IncomingMessage::GetResponseBody(decode_u64(body_bytes))),
        4u8 => Ok(IncomingMessage::IncomingResponse(IncomingResponse::CreateUtilFunction)),
        5u8 => match parse_create_fn_result(body_bytes) {
            Ok(fr) => Ok(
                IncomingMessage::IncomingResponse(IncomingResponse::CreateEndpointPreFunction(fr)),
            ),
            Err(e) => Err(e),
        },
        6u8 => match parse_create_fn_result(body_bytes) {
            Ok(fr) => Ok(
                IncomingMessage::IncomingResponse(IncomingResponse::CreateEndpointPostFunction(fr)),
            ),
            Err(e) => Err(e),
        },
        7u8 => {
            if body_bytes.len() == 0 {
                Ok(
                    IncomingMessage::IncomingResponse(
                        IncomingResponse::CallEndpointPreFunction(
                            CallEndpointPreFunctionResult::Empty,
                        ),
                    ),
                )
            } else {
                match parse_document(body_bytes) {
                    ParsedJson::Text(s) => Ok(
                        IncomingMessage::IncomingResponse(
                            IncomingResponse::CallEndpointPreFunction(
                                CallEndpointPreFunctionResult::Error(s),
                            ),
                        ),
                    ),
                    ParsedJson::Value(v) => Ok(
                        IncomingMessage::IncomingResponse(
                            IncomingResponse::CallEndpointPreFunction(
                                CallEndpointPreFunctionResult::Value(v),
                            ),
                        ),
                    ),
                    ParsedJson::Invalid => Err(Error::InvalidIncomingMessage(op_code)),
                }
            }
        },
        8u8 => {
            if body_bytes.len() == 0 {
                Ok(
                    IncomingMessage::IncomingResponse(
                        IncomingResponse::CallEndpointPostFunction(None),
                    ),
                )
            } else {
                match decode_string(body_bytes) {
                    Ok(s) => Ok(
                        IncomingMessage::IncomingResponse(
                            IncomingResponse::CallEndpointPostFunction(Some(s.to_owned())),
                        ),
                    ),
                    Err(_) => Err(Error::InvalidIncomingMessage(op_code)),
                }
            }
        },
        _ => Err(Error::InvalidIncomingMessage(op_code)),
    }
}

} // verus!
