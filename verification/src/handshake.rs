//! The handshake negotiator: parse the upgrade request's header block,
//! extract the client token, and derive the acceptance response.
//!
//! The caller supplies the request lines as read from the stream, terminator
//! included: the request line first, then header lines up to a line that is
//! exactly CR LF. Each header line is split on its first `:`; the key is
//! lower-cased, the value trimmed of leading whitespace; a later duplicate
//! overwrites an earlier one; a line without `:` is skipped.

use vstd::prelude::*;

use base64::Engine;

verus! {

use vstd::utf8::encode_utf8;
use crate::frame::append_bytes;

/// Why a handshake failed.
#[derive(Debug, Clone, Copy, PartialEq, Eq, Structural)]
pub enum HandshakeError {
    /// The header block lacks the required client token header.
    HandshakeRejected,
}

/// What SHA-1 digests to: a function of the input bytes alone. Relied on
/// through `ring`, not restated here.
pub uninterp spec fn sha1_of(data: Seq<u8>) -> Seq<u8>;

/// What the standard padded base64 alphabet encodes bytes to: a function of
/// the input bytes alone. Relied on through `base64`, not restated here.
pub uninterp spec fn base64_of(data: Seq<u8>) -> Seq<char>;

/// Relies on `ring::digest::digest` with SHA-1: the 20-byte digest depends on
/// the input bytes alone. `ring` rejects inputs of 2^61 bytes or more, so the
/// bound keeps the call panic-free.
#[verifier::external_body]
fn sha1_digest(data: &Vec<u8>) -> (r: Vec<u8>)
    requires
        data@.len() < 0x2000_0000_0000_0000,
    ensures
        r@ == sha1_of(data@),
        r@.len() == 20,
{
    let digest = ring::digest::digest(&ring::digest::SHA1_FOR_LEGACY_USE_ONLY, data.as_slice());
    digest.as_ref().to_vec()
}

/// Relies on `base64::engine::general_purpose::STANDARD.encode`: padded
/// base64 of the input bytes, depending on the bytes alone. The length bound
/// keeps the output-size computation from overflowing, which would panic.
#[verifier::external_body]
fn base64_encode(data: &Vec<u8>) -> (r: String)
    requires
        data@.len() * 4 <= usize::MAX,
    ensures
        r@ == base64_of(data@),
{
    base64::engine::general_purpose::STANDARD.encode(data.as_slice())
}

/// The fixed magic GUID appended to the client token before hashing: the
/// ASCII bytes of `258EAFA5-E914-47DA-95CA-C5AB0DC85B11`.
pub open spec fn magic_guid() -> Seq<u8> {
    seq![
        50u8, 53, 56, 69, 65, 70, 65, 53, 45, 69, 57, 49, 52, 45, 52, 55, 68, 65, 45, 57, 53, 67,
        65, 45, 67, 53, 65, 66, 48, 68, 67, 56, 53, 66, 49, 49,
    ]
}

/// Append the magic GUID's bytes.
fn push_magic_guid(dst: &mut Vec<u8>)
    ensures
        final(dst)@ == old(dst)@ + magic_guid(),
{
    let guid: [u8; 36] = [
        50u8, 53, 56, 69, 65, 70, 65, 53, 45, 69, 57, 49, 52, 45, 52, 55, 68, 65, 45, 57, 53, 67,
        65, 45, 67, 53, 65, 66, 48, 68, 67, 56, 53, 66, 49, 49,
    ];
    let mut i: usize = 0;
    proof {
        assert(dst@ =~= old(dst)@ + guid@.take(0));
    }
    while i < 36
        invariant
            i <= 36,
            guid@ =~= magic_guid(),
            dst@ == old(dst)@ + guid@.take(i as int),
        decreases 36 - i,
    {
        dst.push(guid[i]);
        proof {
            assert(guid@.take(i + 1) =~= guid@.take(i as int).push(guid@[i as int]));
        }
        i += 1;
    }
    proof {
        assert(dst@ =~= old(dst)@ + magic_guid());
    }
}

/// The acceptance value for a client token: base64 of SHA-1 of the token's
/// bytes followed by the magic GUID. The exact concatenation order and the
/// exact constant are what a compliant peer verifies.
pub open spec fn accept_of(key: Seq<u8>) -> Seq<char> {
    base64_of(sha1_of(key + magic_guid()))
}

/// Compute the acceptance value for a client token.
pub fn accept_value(key: &[u8]) -> (r: String)
    requires
        key@.len() + 36 < 0x2000_0000_0000_0000,
    ensures
        r@ == accept_of(key@),
{
    let mut data: Vec<u8> = Vec::new();
    append_bytes(&mut data, key);
    push_magic_guid(&mut data);
    let digest = sha1_digest(&data);
    base64_encode(&digest)
}

/// A header line's bytes with the terminator removed: a trailing CR LF, or a
/// bare trailing LF, is stripped; anything shorter is kept whole.
pub open spec fn line_body(b: Seq<u8>) -> Seq<u8> {
    if b.len() >= 2 && b[b.len() - 2] == 13 && b[b.len() - 1] == 10 {
        b.take(b.len() - 2)
    } else if b.len() >= 1 && b[b.len() - 1] == 10 {
        b.take(b.len() - 1)
    } else {
        b
    }
}

/// `i` indexes the first `:` in `b`.
pub open spec fn is_first_colon(b: Seq<u8>, i: int) -> bool {
    0 <= i < b.len() && b[i] == 58 && (forall|j: int| 0 <= j < i ==> b[j] != 58)
}

/// `b` holds a `:` somewhere.
pub open spec fn has_colon(b: Seq<u8>) -> bool {
    exists|i: int| is_first_colon(b, i)
}

/// Index of the first `:` in `b`, when one exists.
pub open spec fn first_colon(b: Seq<u8>) -> int {
    choose|i: int| is_first_colon(b, i)
}

/// The first colon's index is unique.
pub proof fn lemma_first_colon(b: Seq<u8>, i: int)
    requires
        is_first_colon(b, i),
    ensures
        has_colon(b),
        first_colon(b) == i,
{
    assert(has_colon(b));
    let j = first_colon(b);
    assert(is_first_colon(b, j));
    if j < i {
        assert(b[j] != 58);
        assert(false);
    }
    if i < j {
        assert(b[i] != 58);
        assert(false);
    }
}

/// ASCII lower-casing of one byte: the letters A to Z map to a to z.
pub open spec fn lower_byte(x: u8) -> u8 {
    if 65 <= x <= 90 {
        (x + 32) as u8
    } else {
        x
    }
}

/// ASCII lower-casing of a byte sequence.
pub open spec fn ascii_lower(b: Seq<u8>) -> Seq<u8> {
    Seq::new(b.len(), |i: int| lower_byte(b[i]))
}

/// The byte is ASCII whitespace.
pub open spec fn is_ws(x: u8) -> bool {
    x == 9 || x == 10 || x == 11 || x == 12 || x == 13 || x == 32
}

/// `b` without its leading whitespace.
pub open spec fn trim_left(b: Seq<u8>) -> Seq<u8>
    decreases b.len(),
{
    if b.len() > 0 && is_ws(b[0]) {
        trim_left(b.skip(1))
    } else {
        b
    }
}

/// Trimming drops exactly the whitespace prefix.
proof fn lemma_trim_left(b: Seq<u8>, i: int)
    requires
        0 <= i <= b.len(),
        forall|j: int| 0 <= j < i ==> is_ws(b[j]),
        i == b.len() || !is_ws(b[i]),
    ensures
        trim_left(b) == b.skip(i),
    decreases i,
{
    if i == 0 {
        assert(b.skip(0) =~= b);
    } else {
        assert(is_ws(b[0]));
        let t = b.skip(1);
        assert forall|j: int| 0 <= j < i - 1 implies is_ws(t[j]) by {
            assert(t[j] == b[j + 1]);
        }
        if i - 1 < t.len() {
            assert(t[i - 1] == b[i]);
        }
        lemma_trim_left(t, i - 1);
        assert(b.skip(1).skip(i - 1) =~= b.skip(i));
    }
}

/// Trimming never lengthens a sequence.
proof fn lemma_trim_left_len(b: Seq<u8>)
    ensures
        trim_left(b).len() <= b.len(),
    decreases b.len(),
{
    if b.len() > 0 && is_ws(b[0]) {
        lemma_trim_left_len(b.skip(1));
    }
}

/// The header name that carries the client token, lower-cased.
pub open spec fn token_header_name() -> Seq<u8> {
    encode_utf8("sec-websocket-key"@)
}

/// The stripped line splits on its first `:` into the token header's name
/// (compared lower-cased) and a value.
pub open spec fn line_matches(l: Seq<u8>) -> bool {
    has_colon(line_body(l)) && ascii_lower(line_body(l).take(first_colon(line_body(l))))
        == token_header_name()
}

/// The value a matching header line carries: everything after the first `:`,
/// trimmed of leading whitespace.
pub open spec fn header_value_of(l: Seq<u8>) -> Seq<u8> {
    trim_left(line_body(l).skip(first_colon(line_body(l)) + 1))
}

/// The line is exactly CR LF: the header block's terminator.
pub open spec fn is_blank(l: Seq<u8>) -> bool {
    l == seq![13u8, 10u8]
}

/// Index of the first blank line at or after `i`, or the end of the input.
pub open spec fn block_end_from(lines: Seq<Seq<u8>>, i: int) -> int
    decreases lines.len() - i,
{
    if i < 0 || i >= lines.len() {
        i
    } else if is_blank(lines[i]) {
        i
    } else {
        block_end_from(lines, i + 1)
    }
}

/// Where the header block ends: the first blank line after the request line,
/// or the end of the input.
pub open spec fn block_end(lines: Seq<Seq<u8>>) -> int {
    block_end_from(lines, 1)
}

/// The token value the header lines before `e` carry: the last matching line
/// wins, as a later duplicate overwrites an earlier one.
pub open spec fn lookup_before(lines: Seq<Seq<u8>>, e: int) -> Option<Seq<u8>>
    decreases e,
{
    if e <= 1 {
        None::<Seq<u8>>
    } else if line_matches(lines[e - 1]) {
        Some(header_value_of(lines[e - 1]))
    } else {
        lookup_before(lines, e - 1)
    }
}

/// The request's lines as byte sequences.
pub open spec fn lines_bytes(lines: Seq<String>) -> Seq<Seq<u8>> {
    Seq::new(lines.len(), |i: int| encode_utf8(lines[i]@))
}

/// The client token of a request: the value of the last header line within
/// the block that names the token header, if any does.
pub open spec fn token_value(lines: Seq<Seq<u8>>) -> Option<Seq<u8>> {
    lookup_before(lines, block_end(lines))
}

/// The full upgrade response for a client token: the fixed status line and
/// headers, the acceptance value, and the terminating blank line.
pub open spec fn response_for(key: Seq<u8>) -> Seq<char> {
    "HTTP/1.1 101 Switching Protocols\r\nUpgrade: websocket\r\nConnection: Upgrade\r\nSec-WebSocket-Accept: "@
        + accept_of(key) + "\r\n\r\n"@
}

/// Find the first `:` in `b`.
fn find_colon(b: &[u8]) -> (r: Option<usize>)
    ensures
        match r {
            Some(i) => is_first_colon(b@, i as int),
            None => !has_colon(b@),
        },
{
    let n = b.len();
    let mut i: usize = 0;
    while i < n
        invariant
            i <= n,
            n == b@.len(),
            forall|j: int| 0 <= j < i ==> b@[j] != 58,
        decreases n - i,
    {
        if b[i] == 58 {
            return Some(i);
        }
        i += 1;
    }
    proof {
        if has_colon(b@) {
            let w = choose|w: int| is_first_colon(b@, w);
            assert(b@[w] != 58);
        }
    }
    None
}

/// Strip a trailing CR LF, or a bare trailing LF, bounds-checked.
fn strip_terminator<'a>(b: &'a [u8]) -> (r: &'a [u8])
    ensures
        r@ == line_body(b@),
{
    let n = b.len();
    let end = if n >= 2 && b[n - 2] == 13 && b[n - 1] == 10 {
        n - 2
    } else if n >= 1 && b[n - 1] == 10 {
        n - 1
    } else {
        n
    };
    let r = vstd::slice::slice_subrange(b, 0, end);
    proof {
        assert(r@ =~= line_body(b@));
    }
    r
}

/// Skip leading ASCII whitespace.
fn trim_left_bytes<'a>(b: &'a [u8]) -> (r: &'a [u8])
    ensures
        r@ == trim_left(b@),
{
    let n = b.len();
    let mut i: usize = 0;
    while i < n && (b[i] == 9 || b[i] == 10 || b[i] == 11 || b[i] == 12 || b[i] == 13 || b[i]
        == 32)
        invariant
            i <= n,
            n == b@.len(),
            forall|j: int| 0 <= j < i ==> is_ws(b@[j]),
        decreases n - i,
    {
        i += 1;
    }
    proof {
        lemma_trim_left(b@, i as int);
    }
    vstd::slice::slice_subrange(b, i, n)
}

/// ASCII lower-casing of a byte slice.
fn lower_bytes(b: &[u8]) -> (r: Vec<u8>)
    ensures
        r@ == ascii_lower(b@),
{
    let n = b.len();
    let mut out: Vec<u8> = Vec::new();
    let mut i: usize = 0;
    while i < n
        invariant
            i <= n,
            n == b@.len(),
            out@.len() == i,
            forall|j: int| 0 <= j < i ==> out@[j] == lower_byte(b@[j]),
        decreases n - i,
    {
        let x = b[i];
        if 65 <= x && x <= 90 {
            out.push(x + 32);
        } else {
            out.push(x);
        }
        i += 1;
    }
    proof {
        assert(out@ =~= ascii_lower(b@));
    }
    out
}

/// Byte slices hold the same bytes.
fn bytes_eq(a: &[u8], b: &[u8]) -> (r: bool)
    ensures
        r == (a@ == b@),
{
    let n = a.len();
    if n != b.len() {
        return false;
    }
    let mut i: usize = 0;
    while i < n
        invariant
            i <= n,
            n == a@.len() == b@.len(),
            forall|j: int| 0 <= j < i ==> a@[j] == b@[j],
        decreases n - i,
    {
        if a[i] != b[i] {
            return false;
        }
        i += 1;
    }
    proof {
        assert(a@ =~= b@);
    }
    true
}

/// The header block ends at the first blank line, or at the input's end.
proof fn lemma_block_end(lines: Seq<Seq<u8>>, j: int, e: int)
    requires
        1 <= j <= e <= lines.len(),
        forall|t: int| j <= t < e ==> !is_blank(lines[t]),
        e == lines.len() || is_blank(lines[e]),
    ensures
        block_end_from(lines, j) == e,
    decreases e - j,
{
    if j < e {
        lemma_block_end(lines, j + 1, e);
    }
}

/// Negotiate the upgrade for one request, given its lines as read from the
/// stream, the request line first. Returns the complete response to write
/// back, or rejects the handshake when no header within the block carries the
/// client token, in which case nothing is to be written.
///
/// The length bound on each line is a machine limit: it keeps the digest
/// input below what SHA-1 accepts.
pub fn handshake(lines: &Vec<String>) -> (r: Result<String, HandshakeError>)
    requires
        forall|i: int|
            0 <= i < lines@.len() ==> #[trigger] encode_utf8(
                lines@[i]@,
            ).len() < 0x1fff_ffff_ffff_ffc0,
    ensures
        match r {
            Ok(resp) => token_value(lines_bytes(lines@)) matches Some(v) && resp@ == response_for(
                v,
            ),
            Err(e) => token_value(lines_bytes(lines@)) is None && e
                == HandshakeError::HandshakeRejected,
        },
{
    let ghost bl = lines_bytes(lines@);
    let n = lines.len();
    let mut key_val: Option<Vec<u8>> = None;
    let mut i: usize = 1;
    let mut saw_blank: bool = false;
    if n == 0 {
        return Err(HandshakeError::HandshakeRejected);
    }
    while i < n && !saw_blank
        invariant
            1 <= i <= n,
            n == lines@.len(),
            bl == lines_bytes(lines@),
            forall|i0: int|
                0 <= i0 < lines@.len() ==> #[trigger] encode_utf8(
                    lines@[i0]@,
                ).len() < 0x1fff_ffff_ffff_ffc0,
            forall|j: int| 1 <= j < i ==> !is_blank(bl[j]),
            saw_blank ==> i < n && is_blank(bl[i as int]),
            match key_val {
                None => lookup_before(bl, i as int) is None,
                Some(v) => lookup_before(bl, i as int) == Some(v@) && v@.len() + 36
                    < 0x2000_0000_0000_0000,
            },
        decreases n - i + (if saw_blank { 0int } else { 1int }),
    {
        let lb: &[u8] = lines[i].as_str().as_bytes();
        proof {
            assert(lb@ == bl[i as int]);
        }
        if lb.len() == 2 && lb[0] == 13 && lb[1] == 10 {
            proof {
                assert(bl[i as int] =~= seq![13u8, 10u8]);
            }
            saw_blank = true;
        } else {
            proof {
                if bl[i as int] == seq![13u8, 10u8] {
                    assert(lb@.len() == 2);
                    assert(lb@[0] == 13);
                    assert(lb@[1] == 10);
                    assert(false);
                }
            }
            let body = strip_terminator(lb);
            match find_colon(body) {
                Some(ci) => {
                    proof {
                        lemma_first_colon(body@, ci as int);
                    }
                    let key_part = vstd::slice::slice_subrange(body, 0, ci);
                    proof {
                        assert(key_part@ =~= line_body(bl[i as int]).take(ci as int));
                    }
                    let lowered = lower_bytes(key_part);
                    let target = "sec-websocket-key".as_bytes();
                    if bytes_eq(lowered.as_slice(), target) {
                        let after = vstd::slice::slice_subrange(body, ci + 1, body.len());
                        proof {
                            assert(after@ =~= line_body(bl[i as int]).skip(ci + 1));
                        }
                        let trimmed = trim_left_bytes(after);
                        let v = vstd::slice::slice_to_vec(trimmed);
                        proof {
                            assert(line_matches(bl[i as int]));
                            assert(v@ == header_value_of(bl[i as int]));
                            lemma_trim_left_len(after@);
                        }
                        key_val = Some(v);
                    } else {
                        proof {
                            assert(!line_matches(bl[i as int]));
                        }
                    }
                },
                None => {
                    proof {
                        assert(!line_matches(bl[i as int]));
                    }
                },
            }
            i += 1;
        }
    }
    proof {
        if saw_blank {
            lemma_block_end(bl, 1, i as int);
        } else {
            lemma_block_end(bl, 1, n as int);
        }
        assert(block_end(bl) == i as int);
    }
    match key_val {
        Some(v) => {
            let accept = accept_value(v.as_slice());
            let mut resp = <String as vstd::string::StringExecFns>::from_str(
                "HTTP/1.1 101 Switching Protocols\r\nUpgrade: websocket\r\nConnection: Upgrade\r\nSec-WebSocket-Accept: ",
            );
            resp.append(accept.as_str());
            resp.append("\r\n\r\n");
            Ok(resp)
        },
        None => Err(HandshakeError::HandshakeRejected),
    }
}

} // verus!
