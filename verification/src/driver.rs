//! The per-connection echo loop: decode one message at a time from the bytes
//! a connection delivered, immediately re-encode it, and stop at the first
//! frame that fails to decode.

use vstd::prelude::*;

verus! {

use vstd::utf8::encode_utf8;
use crate::codec::{decode_message, lossy_utf8};
use crate::frame::{decode_ok, encoded, frame_for, frame_len, frame_opcode, unmasked_payload};
use crate::message::{payload_bytes, Message};

/// Opcode of the message echoed for an inbound opcode: 1 stays text, every
/// other opcode is treated as binary.
pub open spec fn echo_class(op: u8) -> u8 {
    if op == 1 {
        1
    } else {
        2
    }
}

/// Payload of the echoed message: a text frame's payload passes through
/// lenient UTF-8 decoding and is re-encoded; any other payload is returned
/// verbatim.
pub open spec fn echo_payload(op: u8, p: Seq<u8>) -> Seq<u8> {
    if op == 1 {
        encode_utf8(lossy_utf8(p))
    } else {
        p
    }
}

/// The bytes written back for the given inbound bytes: each complete masked
/// frame, in order, is answered by one unmasked frame echoing its message;
/// the first frame that fails to decode ends the exchange.
pub open spec fn echo_stream(s: Seq<u8>) -> Seq<u8>
    decreases s.len(),
{
    if decode_ok(s) && 0 < frame_len(s) {
        frame_for(echo_class(frame_opcode(s)), echo_payload(frame_opcode(s), unmasked_payload(s)))
            + echo_stream(s.skip(frame_len(s)))
    } else {
        Seq::empty()
    }
}

/// Run one upgraded connection's message loop over the bytes it delivered:
/// echo every leading complete masked frame and stop at the first decode
/// failure.
pub fn handle_connection(input: &[u8]) -> (r: Vec<u8>)
    ensures
        r@ == echo_stream(input@),
{
    let mut out: Vec<u8> = Vec::new();
    let mut pos: usize = 0;
    let n = input.len();
    proof {
        assert(input@.skip(0) =~= input@);
        assert(out@ + echo_stream(input@) =~= echo_stream(input@));
    }
    loop
        invariant
            pos <= input@.len(),
            n == input@.len(),
            out@ + echo_stream(input@.skip(pos as int)) == echo_stream(input@),
        decreases input@.len() - pos,
    {
        let rest = vstd::slice::slice_subrange(input, pos, n);
        let ghost s1 = input@.skip(pos as int);
        proof {
            assert(rest@ =~= s1);
        }
        match decode_message(rest) {
            Ok((m, used)) => {
                let mut f = m.encode();
                proof {
                    let op = frame_opcode(s1);
                    let p = unmasked_payload(s1);
                    match &m {
                        Message::Text(t) => {
                            assert(payload_bytes(&m) == echo_payload(op, p));
                        },
                        Message::Binary(d) => {
                            assert(payload_bytes(&m) == echo_payload(op, p));
                        },
                    }
                    assert(encoded(&m) == frame_for(echo_class(op), echo_payload(op, p)));
                    assert(s1.skip(used as int) =~= input@.skip(pos + used));
                    assert(out@ + f@ + echo_stream(input@.skip(pos + used)) =~= out@ + (f@
                        + echo_stream(s1.skip(used as int))));
                }
                out.append(&mut f);
                pos = pos + used;
            },
            Err(_) => {
                proof {
                    assert(out@ + echo_stream(s1) =~= out@);
                }
                return out;
            },
        }
    }
}

} // verus!
