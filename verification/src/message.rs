//! The message model: the value type carried between the codec and the
//! application logic.

use vstd::prelude::*;

verus! {

use vstd::utf8::encode_utf8;

/// A complete protocol message. `Text` carries a UTF-8 string; `Binary`
/// carries raw bytes with no content invariant.
#[derive(Debug, PartialEq, Eq)]
pub enum Message {
    Text(String),
    Binary(Vec<u8>),
}

/// Wire opcode of a message: text maps to 1, binary to 2. No other opcode is
/// representable.
pub open spec fn opcode_of(m: &Message) -> u8 {
    match m {
        Message::Text(_) => 1,
        Message::Binary(_) => 2,
    }
}

/// The payload bytes a message contributes to a frame: the UTF-8 encoding of
/// a text message, the raw bytes of a binary one.
pub open spec fn payload_bytes(m: &Message) -> Seq<u8> {
    match m {
        Message::Text(s) => encode_utf8(s@),
        Message::Binary(d) => d@,
    }
}

/// Two messages carry the same variant and the same payload.
pub open spec fn same_message(a: &Message, b: &Message) -> bool {
    match (a, b) {
        (Message::Text(x), Message::Text(y)) => x@ == y@,
        (Message::Binary(x), Message::Binary(y)) => x@ == y@,
        _ => false,
    }
}

impl Message {
    pub fn opcode(&self) -> (r: u8)
        ensures
            r == opcode_of(self),
    {
        match self {
            Message::Binary(_) => 2,
            Message::Text(_) => 1,
        }
    }

    pub fn as_bytes(&self) -> (r: &[u8])
        ensures
            r@ == payload_bytes(self),
    {
        match self {
            Message::Binary(data) => data.as_slice(),
            Message::Text(data) => data.as_str().as_bytes(),
        }
    }

    /// Serialize the message as one complete, unmasked server frame: fin bit
    /// set, the message's opcode, the smallest applicable length field, and
    /// the payload verbatim.
    pub fn encode(&self) -> (r: Vec<u8>)
        ensures
            r@ == crate::frame::encoded(self),
    {
        let payload = self.as_bytes();
        let n = payload.len();
        let mut buf: Vec<u8> = Vec::new();
        buf.push(128 + self.opcode());
        if n <= 125 {
            buf.push(n as u8);
        } else if n <= 65535 {
            buf.push(126);
            buf.push((n / 0x100) as u8);
            buf.push((n % 0x100) as u8);
        } else {
            buf.push(127);
            let len: u64 = n as u64;
            buf.push(((len / 0x100_0000_0000_0000) % 0x100) as u8);
            buf.push(((len / 0x1_0000_0000_0000) % 0x100) as u8);
            buf.push(((len / 0x100_0000_0000) % 0x100) as u8);
            buf.push(((len / 0x1_0000_0000) % 0x100) as u8);
            buf.push(((len / 0x100_0000) % 0x100) as u8);
            buf.push(((len / 0x1_0000) % 0x100) as u8);
            buf.push(((len / 0x100) % 0x100) as u8);
            buf.push((len % 0x100) as u8);
        }
        proof {
            assert(buf@ =~= seq![(128 + opcode_of(self)) as u8] + crate::frame::len_field(
                n as int,
            ));
        }
        crate::frame::append_bytes(&mut buf, payload);
        proof {
            assert(buf@ =~= crate::frame::encoded(self));
        }
        buf
    }
}

} // verus!
