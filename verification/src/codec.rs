//! Frame decoding: read exactly one masked frame from the front of a byte
//! buffer, remove its mask, and classify it as a message.

use vstd::prelude::*;

verus! {

use vstd::utf8::{decode_utf8, encode_utf8_decode_utf8, encode_utf8_valid_utf8, valid_utf8};
use crate::frame::{
    apply_mask, decode_ok, encoded, frame_len, frame_masked, frame_opcode, header_len,
    lemma_length_encoding, len7, len_field, mask_adapter, mask_key_of, masked_payload,
    payload_len, unmasked_payload,
};
use crate::message::{opcode_of, payload_bytes, same_message, Message};

/// Why a frame could not be decoded.
#[derive(Debug, Clone, Copy, PartialEq, Eq, Structural)]
pub enum DecodeError {
    /// The inbound frame lacked the mandatory mask bit.
    ProtocolViolation,
    /// The input ended before the expected byte count.
    StreamTruncated,
}

/// What `String::from_utf8_lossy` returns on arbitrary bytes: a best-effort
/// decoding in which invalid sequences are replaced, a function of the bytes
/// alone.
pub uninterp spec fn lossy_utf8(bytes: Seq<u8>) -> Seq<char>;

/// Relies on `String::from_utf8_lossy`: on valid UTF-8 it returns exactly the
/// decoded characters; on any other input it substitutes replacement
/// characters, depending on the bytes alone.
#[verifier::external_body]
fn utf8_lossy_string(bytes: &Vec<u8>) -> (r: String)
    ensures
        r@ == lossy_utf8(bytes@),
        valid_utf8(bytes@) ==> r@ == decode_utf8(bytes@),
{
    String::from_utf8_lossy(bytes.as_slice()).into_owned()
}

/// The message a frame with opcode `op` and unmasked payload `p` decodes to:
/// opcode 1 yields text, decoded leniently from UTF-8; every other opcode
/// yields the raw bytes.
pub open spec fn is_decoded(m: &Message, op: u8, p: Seq<u8>) -> bool {
    if op == 1 {
        match m {
            Message::Text(t) => t@ == lossy_utf8(p) && (valid_utf8(p) ==> t@ == decode_utf8(p)),
            _ => false,
        }
    } else {
        match m {
            Message::Binary(d) => d@ == p,
            _ => false,
        }
    }
}

/// Law: any message, encoded and passed through a client-style masking
/// adapter, decodes back as one whole frame with the same opcode class and
/// the same payload bytes; every message meeting the decoder's contract for
/// that frame equals the original. The length bound is the machine limit of
/// the 64-bit length field.
pub proof fn lemma_round_trip(m: &Message, k: Seq<u8>)
    requires
        k.len() == 4,
        payload_bytes(m).len() < 0x1_0000_0000_0000_0000,
    ensures
        ({
            let c = mask_adapter(encoded(m), k);
            &&& decode_ok(c)
            &&& frame_len(c) == c.len()
            &&& frame_opcode(c) == opcode_of(m)
            &&& unmasked_payload(c) == payload_bytes(m)
            &&& forall|m2: Message|
                is_decoded(&m2, frame_opcode(c), unmasked_payload(c)) ==> same_message(&m2, m)
        }),
{
    let op = opcode_of(m);
    let p = payload_bytes(m);
    let n = p.len() as int;
    let lf = len_field(n);
    let f = encoded(m);
    let c = mask_adapter(f, k);
    lemma_length_encoding(n);
    assert(1 <= lf.len() <= 9);
    assert(lf[0] <= 127);
    assert(op == 1 || op == 2);
    assert(f == seq![(128 + op) as u8] + lf + p);
    assert(f.len() == 1 + lf.len() + n);
    assert(f[0] == 128 + op);
    assert(f[1] == lf[0]);
    let x = lf[0];
    let y = (x + 128) as u8;
    assert(x & 0x7f == x && y >> 7 == 1 && y & 0x7f == x) by (bit_vector)
        requires
            x <= 127,
            y == (x + 128) as u8,
    ;
    let fb = (128 + op) as u8;
    assert(fb & 0x0f == op) by (bit_vector)
        requires
            op == 1 || op == 2,
            fb == (128 + op) as u8,
    ;
    assert(len7(f) == x);
    let hl = 1 + lf.len() as int;
    assert(header_len(f) == hl);
    assert(f.skip(hl) =~= p);
    assert(f.subrange(2, hl) =~= lf.skip(1));
    assert(c == seq![f[0], y] + lf.skip(1) + k + apply_mask(p, k));
    assert(c.len() == hl + 4 + n);
    assert(c[0] == fb);
    assert(c[1] == y);
    assert(frame_masked(c));
    assert(len7(c) == x);
    assert(header_len(c) == hl);
    assert(frame_opcode(c) == op);
    if n <= 125 {
        assert(payload_len(c) == n);
    } else if n <= 0xFFFF {
        assert(c[2] == lf[1]);
        assert(c[3] == lf[2]);
        assert(payload_len(c) == n);
    } else {
        assert(c.subrange(2, 10) =~= lf.skip(1));
        assert(payload_len(c) == n);
    }
    assert(frame_len(c) == c.len());
    assert(mask_key_of(c) =~= k);
    assert(masked_payload(c) =~= apply_mask(p, k));
    assert(forall|a: u8, b: u8| #[trigger] ((a ^ b) ^ b) == a) by (bit_vector);
    assert(unmasked_payload(c) =~= p);
    assert forall|m2: Message|
        is_decoded(&m2, frame_opcode(c), unmasked_payload(c)) implies same_message(&m2, m) by {
        if op == 1 {
            match m {
                Message::Text(s) => {
                    encode_utf8_valid_utf8(s@);
                    encode_utf8_decode_utf8(s@);
                },
                Message::Binary(_) => {
                    assert(false);
                },
            }
        }
    }
}

/// Decode exactly one frame from the front of `input` and return the message
/// together with the number of bytes the frame occupies.
///
/// The frame must carry the mask bit: its absence is a protocol violation,
/// reported before anything else is read. An input too short for the header,
/// the length extension, the mask key or the payload is a truncated stream.
pub fn decode_message(input: &[u8]) -> (r: Result<(Message, usize), DecodeError>)
    ensures
        match r {
            Ok(p) => decode_ok(input@) && p.1 == frame_len(input@) && is_decoded(
                &p.0,
                frame_opcode(input@),
                unmasked_payload(input@),
            ),
            Err(DecodeError::ProtocolViolation) => input@.len() >= 2 && !frame_masked(input@),
            Err(DecodeError::StreamTruncated) => input@.len() < 2 || (frame_masked(input@)
                && frame_len(input@) > input@.len()),
        },
{
    if input.len() < 2 {
        return Err(DecodeError::StreamTruncated);
    }
    let b0 = input[0];
    let b1 = input[1];
    if (b1 >> 7) != 1 {
        return Err(DecodeError::ProtocolViolation);
    }
    let opcode = b0 & 0x0f;
    let small = b1 & 0x7f;
    proof {
        assert(b1 & 0x7f <= 127) by (bit_vector);
    }
    let header: usize;
    let plen64: u64;
    if small == 126 {
        if input.len() < 4 {
            return Err(DecodeError::StreamTruncated);
        }
        plen64 = (input[2] as u64) * 0x100 + (input[3] as u64);
        header = 4;
    } else if small == 127 {
        if input.len() < 10 {
            return Err(DecodeError::StreamTruncated);
        }
        plen64 = (input[2] as u64) * 0x100_0000_0000_0000 + (input[3] as u64) * 0x1_0000_0000_0000
            + (input[4] as u64) * 0x100_0000_0000 + (input[5] as u64) * 0x1_0000_0000 + (
        input[6] as u64) * 0x100_0000 + (input[7] as u64) * 0x1_0000 + (input[8] as u64) * 0x100
            + (input[9] as u64);
        proof {
            assert(input@.subrange(2, 10)[0] == input@[2]);
            assert(input@.subrange(2, 10)[1] == input@[3]);
            assert(input@.subrange(2, 10)[2] == input@[4]);
            assert(input@.subrange(2, 10)[3] == input@[5]);
            assert(input@.subrange(2, 10)[4] == input@[6]);
            assert(input@.subrange(2, 10)[5] == input@[7]);
            assert(input@.subrange(2, 10)[6] == input@[8]);
            assert(input@.subrange(2, 10)[7] == input@[9]);
        }
        header = 10;
    } else {
        plen64 = small as u64;
        header = 2;
    }
    assert(header == header_len(input@));
    assert(plen64 == payload_len(input@));
    if input.len() < header + 4 {
        return Err(DecodeError::StreamTruncated);
    }
    let k0 = input[header];
    let k1 = input[header + 1];
    let k2 = input[header + 2];
    let k3 = input[header + 3];
    proof {
        assert(mask_key_of(input@)[0] == input@[header_len(input@)]);
        assert(mask_key_of(input@)[1] == input@[header_len(input@) + 1]);
        assert(mask_key_of(input@)[2] == input@[header_len(input@) + 2]);
        assert(mask_key_of(input@)[3] == input@[header_len(input@) + 3]);
    }
    let pstart = header + 4;
    let rest = input.len() - pstart;
    if (rest as u64) < plen64 {
        return Err(DecodeError::StreamTruncated);
    }
    let plen = plen64 as usize;
    let mut data: Vec<u8> = Vec::new();
    let mut i: usize = 0;
    while i < plen
        invariant
            i <= plen,
            pstart == header_len(input@) + 4,
            pstart + plen == frame_len(input@) <= input@.len(),
            input@.len() <= usize::MAX,
            data@.len() == i,
            k0 == mask_key_of(input@)[0],
            k1 == mask_key_of(input@)[1],
            k2 == mask_key_of(input@)[2],
            k3 == mask_key_of(input@)[3],
            forall|j: int|
                0 <= j < i ==> data@[j] == (input@[pstart + j] ^ mask_key_of(input@)[j % 4]),
        decreases plen - i,
    {
        let m = i % 4;
        let kb = if m == 0 {
            k0
        } else if m == 1 {
            k1
        } else if m == 2 {
            k2
        } else {
            k3
        };
        assert(kb == mask_key_of(input@)[i as int % 4]);
        data.push(input[pstart + i] ^ kb);
        i += 1;
    }
    proof {
        assert(data@ =~= unmasked_payload(input@));
    }
    let total = pstart + plen;
    if opcode == 1 {
        let text = utf8_lossy_string(&data);
        Ok((Message::Text(text), total))
    } else {
        Ok((Message::Binary(data), total))
    }
}

} // verus!
