use wscore::codec::{decode_message, DecodeError};
use wscore::driver::handle_connection;
use wscore::message::Message;

/// Turn an unmasked server frame into a masked client frame: set the mask
/// bit, insert the key after the length field, XOR the payload.
fn mask_frame(frame: &[u8], key: [u8; 4]) -> Vec<u8> {
    let len7 = frame[1] & 0x7f;
    let header = if len7 == 126 {
        4
    } else if len7 == 127 {
        10
    } else {
        2
    };
    let mut out = Vec::new();
    out.push(frame[0]);
    out.push(frame[1] | 0x80);
    out.extend_from_slice(&frame[2..header]);
    out.extend_from_slice(&key);
    for (i, b) in frame[header..].iter().enumerate() {
        out.push(b ^ key[i % 4]);
    }
    out
}

#[test]
fn message_accessors() {
    let t = Message::Text(String::from("abc"));
    assert_eq!(t.opcode(), 1);
    assert_eq!(t.as_bytes(), b"abc");
    let b = Message::Binary(vec![1, 2, 255]);
    assert_eq!(b.opcode(), 2);
    assert_eq!(b.as_bytes(), &[1, 2, 255]);
}

#[test]
fn round_trip_text() {
    let m = Message::Text(String::from("hello"));
    let framed = mask_frame(&m.encode(), [7, 1, 9, 3]);
    let (back, used) = decode_message(&framed).unwrap();
    assert_eq!(used, framed.len());
    match back {
        Message::Text(t) => assert_eq!(t, "hello"),
        Message::Binary(_) => panic!("wrong variant"),
    }
}

#[test]
fn round_trip_text_non_ascii() {
    let m = Message::Text(String::from("héllo ✓"));
    let framed = mask_frame(&m.encode(), [0xff, 0x00, 0xaa, 0x55]);
    let (back, used) = decode_message(&framed).unwrap();
    assert_eq!(used, framed.len());
    match back {
        Message::Text(t) => assert_eq!(t, "héllo ✓"),
        Message::Binary(_) => panic!("wrong variant"),
    }
}

#[test]
fn round_trip_binary() {
    let payload = vec![0u8, 255, 0xfe, 13, 10, 7];
    let m = Message::Binary(payload.clone());
    let framed = mask_frame(&m.encode(), [1, 2, 3, 4]);
    let (back, used) = decode_message(&framed).unwrap();
    assert_eq!(used, framed.len());
    match back {
        Message::Binary(d) => assert_eq!(d, payload),
        Message::Text(_) => panic!("wrong variant"),
    }
}

#[test]
fn length_boundaries_encode() {
    let cases: [(usize, Vec<u8>); 5] = [
        (0, vec![0x82, 0]),
        (125, vec![0x82, 125]),
        (126, vec![0x82, 126, 0, 126]),
        (65535, vec![0x82, 126, 255, 255]),
        (65536, vec![0x82, 127, 0, 0, 0, 0, 0, 1, 0, 0]),
    ];
    for (len, header) in cases.iter() {
        let m = Message::Binary(vec![0xab; *len]);
        let frame = m.encode();
        assert_eq!(frame.len(), header.len() + len);
        assert_eq!(&frame[..header.len()], &header[..]);
    }
}

#[test]
fn length_boundaries_decode() {
    for len in [0usize, 125, 126, 65535, 65536] {
        let m = Message::Binary(vec![0x5c; len]);
        let framed = mask_frame(&m.encode(), [9, 8, 7, 6]);
        let (back, used) = decode_message(&framed).unwrap();
        assert_eq!(used, framed.len());
        match back {
            Message::Binary(d) => assert_eq!(d.len(), len),
            Message::Text(_) => panic!("wrong variant"),
        }
    }
}

#[test]
fn unmasked_frames_rejected_for_every_opcode_and_length() {
    for op in 0u8..16 {
        for len in [0u8, 1, 125] {
            let mut frame = vec![0x80 | op, len];
            frame.extend_from_slice(&vec![0x11; len as usize]);
            assert_eq!(decode_message(&frame), Err(DecodeError::ProtocolViolation));
        }
        let extended = vec![0x80 | op, 126, 1, 0];
        assert_eq!(decode_message(&extended), Err(DecodeError::ProtocolViolation));
    }
}

#[test]
fn unmask_xors_with_key_modulo_four() {
    let key = [0x0f, 0xf0, 0x3c, 0xc3];
    let wire_payload = [10u8, 20, 30, 40, 50, 60];
    let mut frame = vec![0x82, 0x80 | 6];
    frame.extend_from_slice(&key);
    frame.extend_from_slice(&wire_payload);
    let (back, _) = decode_message(&frame).unwrap();
    match back {
        Message::Binary(d) => {
            for i in 0..wire_payload.len() {
                assert_eq!(d[i], wire_payload[i] ^ key[i % 4]);
            }
        },
        Message::Text(_) => panic!("wrong variant"),
    }
}

#[test]
fn truncated_inputs_rejected() {
    assert_eq!(decode_message(&[]), Err(DecodeError::StreamTruncated));
    assert_eq!(decode_message(&[0x81]), Err(DecodeError::StreamTruncated));
    // masked, but the mask key is short
    assert_eq!(decode_message(&[0x81, 0x85, 1, 2, 3]), Err(DecodeError::StreamTruncated));
    // masked, but the payload is short
    assert_eq!(
        decode_message(&[0x81, 0x85, 1, 2, 3, 4, 0x68, 0x65]),
        Err(DecodeError::StreamTruncated)
    );
    // masked, but the 16-bit length extension is short
    assert_eq!(decode_message(&[0x81, 0xfe, 0x01]), Err(DecodeError::StreamTruncated));
    // masked, but the 64-bit length extension is short
    assert_eq!(
        decode_message(&[0x81, 0xff, 0, 0, 0, 0]),
        Err(DecodeError::StreamTruncated)
    );
}

#[test]
fn unknown_opcodes_decode_as_binary() {
    let frame = [0x89u8, 0x81, 1, 1, 1, 1, 0x40];
    let (back, used) = decode_message(&frame).unwrap();
    assert_eq!(used, 7);
    match back {
        Message::Binary(d) => assert_eq!(d, vec![0x41]),
        Message::Text(_) => panic!("wrong variant"),
    }
}

#[test]
fn invalid_utf8_text_is_replaced_not_rejected() {
    // unmasked payload bytes will be [0xff, b'a']
    let key = [0u8, 0, 0, 0];
    let frame = [0x81u8, 0x82, key[0], key[1], key[2], key[3], 0xff, 0x61];
    let (back, _) = decode_message(&frame).unwrap();
    match back {
        Message::Text(t) => assert_eq!(t, "\u{fffd}a"),
        Message::Binary(_) => panic!("wrong variant"),
    }
}

#[test]
fn echo_returns_unmasked_text_frame() {
    let m = Message::Text(String::from("hello"));
    let inbound = mask_frame(&m.encode(), [0x37, 0xfa, 0x21, 0x3d]);
    let out = handle_connection(&inbound);
    assert_eq!(out, vec![0x81, 5, 0x68, 0x65, 0x6c, 0x6c, 0x6f]);
}

#[test]
fn echo_handles_frames_in_order_and_stops_at_failure() {
    let first = mask_frame(&Message::Text(String::from("one")).encode(), [1, 2, 3, 4]);
    let second = mask_frame(&Message::Binary(vec![9, 9]).encode(), [5, 6, 7, 8]);
    let mut input = Vec::new();
    input.extend_from_slice(&first);
    input.extend_from_slice(&second);
    // an unmasked header ends the loop; nothing after it is echoed
    input.extend_from_slice(&[0x81, 0x05]);
    let out = handle_connection(&input);
    let mut expected = Message::Text(String::from("one")).encode();
    expected.extend_from_slice(&Message::Binary(vec![9, 9]).encode());
    assert_eq!(out, expected);
}

#[test]
fn echo_of_empty_input_is_empty() {
    assert_eq!(handle_connection(&[]), Vec::<u8>::new());
}
