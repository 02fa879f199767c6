//! The frame wire format, as specification functions: the two header bytes,
//! the variable-length size field, the mask key, and mask application.
//!
//! A frame is `fin|rsv|opcode` in byte 0, `mask|len7` in byte 1, an optional
//! 16-bit or 64-bit big-endian length extension selected by the escape codes
//! 126 and 127, a 4-byte mask key on inbound frames, and the payload.

use vstd::prelude::*;

verus! {

use vstd::arithmetic::div_mod::{
    lemma_div_denominator, lemma_div_is_ordered, lemma_fundamental_div_mod,
};
use crate::message::{opcode_of, payload_bytes, Message};

/// Big-endian 16-bit value of two bytes.
pub open spec fn be16(hi: u8, lo: u8) -> int {
    hi * 256 + lo
}

/// Big-endian 64-bit value of eight bytes.
pub open spec fn be64(b: Seq<u8>) -> int
    recommends
        b.len() == 8,
{
    b[0] * 0x100_0000_0000_0000 + b[1] * 0x1_0000_0000_0000 + b[2] * 0x100_0000_0000 + b[3]
        * 0x1_0000_0000 + b[4] * 0x100_0000 + b[5] * 0x1_0000 + b[6] * 0x100 + b[7]
}

/// The length field of an outbound frame, in the smallest applicable
/// representation: one inline byte up to 125, escape code 126 with a 16-bit
/// big-endian value up to 65535, escape code 127 with a 64-bit big-endian
/// value beyond.
pub open spec fn len_field(n: int) -> Seq<u8> {
    if n <= 125 {
        seq![n as u8]
    } else if n <= 0xFFFF {
        seq![126u8, (n / 0x100) as u8, (n % 0x100) as u8]
    } else {
        seq![
            127u8,
            ((n / 0x100_0000_0000_0000) % 0x100) as u8,
            ((n / 0x1_0000_0000_0000) % 0x100) as u8,
            ((n / 0x100_0000_0000) % 0x100) as u8,
            ((n / 0x1_0000_0000) % 0x100) as u8,
            ((n / 0x100_0000) % 0x100) as u8,
            ((n / 0x1_0000) % 0x100) as u8,
            ((n / 0x100) % 0x100) as u8,
            (n % 0x100) as u8,
        ]
    }
}

/// A complete unmasked frame with the fin bit set, the given opcode, and the
/// given payload: what the server sends.
pub open spec fn frame_for(op: u8, p: Seq<u8>) -> Seq<u8> {
    seq![(128 + op) as u8] + len_field(p.len() as int) + p
}

/// The outbound encoding of a message.
pub open spec fn encoded(m: &Message) -> Seq<u8> {
    frame_for(opcode_of(m), payload_bytes(m))
}

/// Opcode of a frame: the low 4 bits of byte 0.
pub open spec fn frame_opcode(s: Seq<u8>) -> u8 {
    s[0] & 0x0f
}

/// Mask flag of a frame: the high bit of byte 1.
pub open spec fn frame_masked(s: Seq<u8>) -> bool {
    (s[1] >> 7) == 1
}

/// The 7-bit inline length field of byte 1.
pub open spec fn len7(s: Seq<u8>) -> u8 {
    s[1] & 0x7f
}

/// Bytes taken by the two header bytes plus the length extension that the
/// inline field selects.
pub open spec fn header_len(s: Seq<u8>) -> int {
    if len7(s) <= 125 {
        2
    } else if len7(s) == 126 {
        4
    } else {
        10
    }
}

/// Payload length of a frame: the inline value, or the 16-bit or 64-bit
/// big-endian extension.
pub open spec fn payload_len(s: Seq<u8>) -> int {
    if len7(s) <= 125 {
        len7(s) as int
    } else if len7(s) == 126 {
        be16(s[2], s[3])
    } else {
        be64(s.subrange(2, 10))
    }
}

/// Total length of a masked inbound frame: header, length extension, 4-byte
/// mask key, payload.
pub open spec fn frame_len(s: Seq<u8>) -> int {
    header_len(s) + 4 + payload_len(s)
}

/// The 4-byte mask key of an inbound frame.
pub open spec fn mask_key_of(s: Seq<u8>) -> Seq<u8> {
    s.subrange(header_len(s), header_len(s) + 4)
}

/// The payload bytes of an inbound frame, still masked.
pub open spec fn masked_payload(s: Seq<u8>) -> Seq<u8> {
    s.subrange(header_len(s) + 4, frame_len(s))
}

/// XOR each payload byte with the key byte at its index modulo 4. Applying a
/// mask and removing it are the same operation.
pub open spec fn apply_mask(p: Seq<u8>, k: Seq<u8>) -> Seq<u8>
    recommends
        k.len() == 4,
{
    Seq::new(p.len(), |i: int| p[i] ^ k[i % 4])
}

/// The payload of an inbound frame with its mask removed.
pub open spec fn unmasked_payload(s: Seq<u8>) -> Seq<u8> {
    apply_mask(masked_payload(s), mask_key_of(s))
}

/// The input holds one complete, masked frame at its front.
pub open spec fn decode_ok(s: Seq<u8>) -> bool {
    s.len() >= 2 && frame_masked(s) && frame_len(s) <= s.len()
}

/// A client-style masking adapter applied to an unmasked frame: set the mask
/// bit, insert the 4-byte key after the length field, and mask the payload.
pub open spec fn mask_adapter(f: Seq<u8>, k: Seq<u8>) -> Seq<u8>
    recommends
        f.len() >= 2,
        k.len() == 4,
        !frame_masked(f),
{
    seq![f[0], (f[1] + 128) as u8] + f.subrange(2, header_len(f)) + k + apply_mask(
        f.skip(header_len(f)),
        k,
    )
}

/// Base-256 digits of a 64-bit value recombine to the value.
proof fn lemma_base256(n: int)
    requires
        0 <= n < 0x1_0000_0000_0000_0000,
    ensures
        n == ((n / 0x100_0000_0000_0000) % 0x100) * 0x100_0000_0000_0000 + ((n
            / 0x1_0000_0000_0000) % 0x100) * 0x1_0000_0000_0000 + ((n / 0x100_0000_0000) % 0x100)
            * 0x100_0000_0000 + ((n / 0x1_0000_0000) % 0x100) * 0x1_0000_0000 + ((n / 0x100_0000)
            % 0x100) * 0x100_0000 + ((n / 0x1_0000) % 0x100) * 0x1_0000 + ((n / 0x100) % 0x100)
            * 0x100 + (n % 0x100),
{
    lemma_div_denominator(n, 0x100, 0x100);
    lemma_div_denominator(n, 0x1_0000, 0x100);
    lemma_div_denominator(n, 0x100_0000, 0x100);
    lemma_div_denominator(n, 0x1_0000_0000, 0x100);
    lemma_div_denominator(n, 0x100_0000_0000, 0x100);
    lemma_div_denominator(n, 0x1_0000_0000_0000, 0x100);
    lemma_fundamental_div_mod(n, 0x100);
    lemma_fundamental_div_mod(n / 0x100, 0x100);
    lemma_fundamental_div_mod(n / 0x1_0000, 0x100);
    lemma_fundamental_div_mod(n / 0x100_0000, 0x100);
    lemma_fundamental_div_mod(n / 0x1_0000_0000, 0x100);
    lemma_fundamental_div_mod(n / 0x100_0000_0000, 0x100);
    lemma_fundamental_div_mod(n / 0x1_0000_0000_0000, 0x100);
    lemma_div_is_ordered(n, 0xffff_ffff_ffff_ffff, 0x100_0000_0000_0000);
    lemma_fundamental_div_mod(n / 0x100_0000_0000_0000, 0x100);
}

/// Law: each payload length selects the smallest applicable length
/// representation, and the representation carries exactly that length:
/// inline up to 125, escape code 126 with a 16-bit value up to 65535, escape
/// code 127 with a 64-bit value beyond.
pub proof fn lemma_length_encoding(n: int)
    requires
        0 <= n < 0x1_0000_0000_0000_0000,
    ensures
        n <= 125 ==> len_field(n) == seq![n as u8],
        125 < n <= 0xFFFF ==> len_field(n).len() == 3 && len_field(n)[0] == 126 && be16(
            len_field(n)[1],
            len_field(n)[2],
        ) == n,
        0xFFFF < n ==> len_field(n).len() == 9 && len_field(n)[0] == 127 && be64(
            len_field(n).skip(1),
        ) == n,
{
    if 125 < n && n <= 0xFFFF {
        lemma_fundamental_div_mod(n, 0x100);
        lemma_div_is_ordered(n, 0xFFFF, 0x100);
    }
    if 0xFFFF < n {
        lemma_base256(n);
        assert(len_field(n).skip(1) =~= seq![
            ((n / 0x100_0000_0000_0000) % 0x100) as u8,
            ((n / 0x1_0000_0000_0000) % 0x100) as u8,
            ((n / 0x100_0000_0000) % 0x100) as u8,
            ((n / 0x1_0000_0000) % 0x100) as u8,
            ((n / 0x100_0000) % 0x100) as u8,
            ((n / 0x1_0000) % 0x100) as u8,
            ((n / 0x100) % 0x100) as u8,
            (n % 0x100) as u8,
        ]);
    }
}

/// Append every byte of `src` to `dst`.
pub(crate) fn append_bytes(dst: &mut Vec<u8>, src: &[u8])
    ensures
        final(dst)@ == old(dst)@ + src@,
{
    let mut i: usize = 0;
    proof {
        assert(dst@ =~= old(dst)@ + src@.take(0));
    }
    while i < src.len()
        invariant
            i <= src@.len(),
            dst@ == old(dst)@ + src@.take(i as int),
        decreases src@.len() - i,
    {
        dst.push(src[i]);
        proof {
            assert(src@.take(i + 1) =~= src@.take(i as int).push(src@[i as int]));
        }
        i += 1;
    }
    proof {
        assert(dst@ =~= old(dst)@ + src@);
    }
}

} // verus!
