use sctl::packet::{decode, decode_message, encode, encode_message, Error, Message};

const U0: (u8, &[u8]) = (0x01, &[0x01, 0x02, 0x03, 0x04]);
const E0: [u8; 6] = [0x01, 0x04, 0x01, 0x02, 0x03, 0x04];

const U1: (u8, &[u8]) = (0x02, &[]);
const E1: [u8; 2] = [0x02, 0x00];

#[test]
fn test_encode() {
    let mut tmp = [0u8; 64];
    assert_eq!(encode(&mut tmp, U0).unwrap(), &E0);
    assert_eq!(encode(&mut tmp, U1).unwrap(), &E1);
}

#[test]
fn test_decode() {
    assert_eq!(decode(&E0).unwrap(), U0);
    assert_eq!(decode(&E1).unwrap(), U1);
}

#[test]
fn test_encode_message() {
    let mut tmp = [0u8; 64];
    assert_eq!(encode_message(&mut tmp, Message::Boot(U0.1)).unwrap(), &E0);
    assert_eq!(encode_message(&mut tmp, Message::Run(U1.1)).unwrap(), &E1);
}

#[test]
fn test_decode_message() {
    assert_eq!(decode_message(&E0).unwrap(), Message::Boot(U0.1));
    assert_eq!(decode_message(&E1).unwrap(), Message::Run(U1.1));
}

#[test]
fn packet_errors_and_other() {
    let mut tmp = [0u8; 4];
    assert_eq!(encode(&mut tmp, (1, &[1, 2, 3])), Err(Error::Overflow));
    let big = [0u8; 256];
    let mut large = [0u8; 300];
    assert_eq!(encode(&mut large, (1, &big)), Err(Error::Overflow));
    assert_eq!(decode(&[0x01]), Err(Error::Underflow));
    assert_eq!(decode(&[0x01, 0x03, 0xAA]), Err(Error::Underflow));
    assert_eq!(decode(&[0x09, 0x01, 0xAA, 0xBB]), Ok((0x09, &[0xAA][..])));
    assert_eq!(decode_message(&[0x42, 0x01, 0x07]), Ok(Message::Other(0x42, &[0x07])));
    assert_eq!(Message::from((0x12, &b"e"[..])), Message::Stderr(b"e"));
    assert_eq!(Message::Other(0x42, b"q").to_parts(), (0x42, &b"q"[..]));
    let mut out = [0u8; 8];
    assert_eq!(encode_message(&mut out, Message::Other(0x42, b"q")), Ok(&[0x42, 0x01, b'q'][..]));
}
