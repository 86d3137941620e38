use sctl::cobs::{decode, decode_old, encode, Error, Reader, Writer};

const U0: [u8; 0] = [];
const E0: [u8; 1] = [0x01];

const U1: [u8; 1] = [0x00];
const E1: [u8; 2] = [0x01, 0x01];

const U2: [u8; 2] = [0x00, 0x00];
const E2: [u8; 3] = [0x01, 0x01, 0x01];

const U3: [u8; 4] = [0x11, 0x22, 0x00, 0x33];
const E3: [u8; 5] = [0x03, 0x11, 0x22, 0x02, 0x33];

const U4: [u8; 4] = [0x11, 0x22, 0x33, 0x44];
const E4: [u8; 5] = [0x05, 0x11, 0x22, 0x33, 0x44];

const U5: [u8; 4] = [0x11, 0x00, 0x00, 0x00];
const E5: [u8; 5] = [0x02, 0x11, 0x01, 0x01, 0x01];

#[test]
fn lib_test_predefined() {
    let predefined_encodings = [
        (&b""[..], &b"\x01"[..]),
        (&b"1"[..], &b"\x021"[..]),
        (&b"12345"[..], &b"\x0612345"[..]),
        (&b"12345\x006789"[..], &b"\x0612345\x056789"[..]),
        (&b"\x0012345\x006789"[..], &b"\x01\x0612345\x056789"[..]),
        (&b"12345\x006789\x00"[..], &b"\x0612345\x056789\x01"[..]),
        (&b"\x00"[..], &b"\x01\x01"[..]),
        (&b"\x00\x00"[..], &b"\x01\x01\x01"[..]),
        (&b"\x00\x00\x00"[..], &b"\x01\x01\x01\x01"[..]),
    ];

    for &(u, e) in predefined_encodings.iter() {
        let mut buf = [0xffu8; 64];
        let dst = &mut buf[..e.len()];
        assert_eq!(encode(&u, dst).unwrap(), e.len());
        assert_eq!(e, dst);
    }

    for &(u, e) in predefined_encodings.iter() {
        let mut buf = [0xffu8; 64];
        let dst = &mut buf[..u.len()];
        assert_eq!(decode(&e, dst).unwrap(), u.len());
        assert_eq!(u, dst);
    }
}

#[test]
fn lib_test_encode() {
    let mut dst = [0xffu8; 256];
    assert_eq!(encode(&U0[..], &mut dst[..0]), Err(Error::DestTooShort));
    assert_eq!(encode(&U0[..], &mut dst[..1]), Ok(1));
    assert_eq!(encode(&U0[..], &mut dst[..2]), Ok(1));
    assert_eq!(E0, &dst[..1]);

    let mut dst = [0xffu8; 256];
    assert_eq!(encode(&U1[..], &mut dst[..1]), Err(Error::DestTooShort));
    assert_eq!(encode(&U1[..], &mut dst[..2]), Ok(2));
    assert_eq!(encode(&U1[..], &mut dst[..3]), Ok(2));
    assert_eq!(E1, &dst[..2]);

    let mut dst = [0xffu8; 256];
    assert_eq!(encode(&U2[..], &mut dst[..2]), Err(Error::DestTooShort));
    assert_eq!(encode(&U2[..], &mut dst[..3]), Ok(3));
    assert_eq!(encode(&U2[..], &mut dst[..4]), Ok(3));
    assert_eq!(E2, &dst[..3]);

    let mut dst = [0xffu8; 256];
    assert_eq!(encode(&U3[..], &mut dst[..4]), Err(Error::DestTooShort));
    assert_eq!(encode(&U3[..], &mut dst[..5]), Ok(5));
    assert_eq!(encode(&U3[..], &mut dst[..6]), Ok(5));
    assert_eq!(E3, &dst[..5]);

    let mut dst = [0xffu8; 256];
    assert_eq!(encode(&U4[..], &mut dst[..4]), Err(Error::DestTooShort));
    assert_eq!(encode(&U4[..], &mut dst[..5]), Ok(5));
    assert_eq!(encode(&U4[..], &mut dst[..6]), Ok(5));
    assert_eq!(E4, &dst[..5]);

    let mut dst = [0xffu8; 256];
    assert_eq!(encode(&U5[..], &mut dst[..4]), Err(Error::DestTooShort));
    assert_eq!(encode(&U5[..], &mut dst[..5]), Ok(5));
    assert_eq!(encode(&U5[..], &mut dst[..6]), Ok(5));
    assert_eq!(E5, &dst[..5]);
}

#[test]
fn lib_test_decode() {
    let mut dst = [0xffu8; 255];
    assert_eq!(decode(&E1[..], &mut dst[..0]), Err(Error::DestTooShort));
    assert_eq!(decode(&E1[..], &mut dst[..1]), Ok(1));
    assert_eq!(decode(&E1[..], &mut dst[..2]), Ok(1));
    assert_eq!(U1, &dst[..1]);

    let mut dst = [0xffu8; 255];
    assert_eq!(decode(&E2[..], &mut dst[..1]), Err(Error::DestTooShort));
    assert_eq!(decode(&E2[..], &mut dst[..2]), Ok(2));
    assert_eq!(decode(&E2[..], &mut dst[..3]), Ok(2));
    assert_eq!(U2, &dst[..2]);

    let mut dst = [0xffu8; 255];
    assert_eq!(decode(&E3[..], &mut dst[..3]), Err(Error::DestTooShort));
    assert_eq!(decode(&E3[..], &mut dst[..4]), Ok(4));
    assert_eq!(decode(&E3[..], &mut dst[..5]), Ok(4));
    assert_eq!(U3, &dst[..4]);

    let mut dst = [0xffu8; 255];
    assert_eq!(decode(&E4[..], &mut dst[..3]), Err(Error::DestTooShort));
    assert_eq!(decode(&E4[..], &mut dst[..4]), Ok(4));
    assert_eq!(decode(&E4[..], &mut dst[..5]), Ok(4));
    assert_eq!(U4, &dst[..4]);

    let mut dst = [0xffu8; 255];
    assert_eq!(decode(&E5[..], &mut dst[..3]), Err(Error::DestTooShort));
    assert_eq!(decode(&E5[..], &mut dst[..4]), Ok(4));
    assert_eq!(decode(&E5[..], &mut dst[..5]), Ok(4));
    assert_eq!(U5, &dst[..4]);
}

#[test]
fn test_encoder_len() {
    let mut enc_buf = [0u8; 0];
    let mut encoder = Writer::new(&mut enc_buf);
    assert_eq!(encoder.encode_packet(&U1[..]), Err(Error::DestTooShort));

    let mut enc_buf = [0u8; 1];
    let mut encoder = Writer::new(&mut enc_buf);
    assert_eq!(encoder.encode_packet(&U1[..]), Err(Error::DestTooShort));

    let mut enc_buf = [0u8; 2];
    let mut encoder = Writer::new(&mut enc_buf);
    assert_eq!(encoder.encode_packet(&U1[..]), Err(Error::DestTooShort));

    let mut enc_buf = [0u8; 3];
    let mut encoder = Writer::new(&mut enc_buf);
    assert_eq!(encoder.encode_packet(&U1[..]), Ok(3));
    assert_eq!(encoder.remaining(), 0);
}

#[test]
fn test_encoder_decoder() {
    let mut enc_buf = [0xffu8; 256];
    let mut encoder = Writer::new(&mut enc_buf);

    assert_eq!(encoder.encode_packet(&U1[..]), Ok(3));
    assert_eq!(&encoder.as_ref()[..2], &E1[..]);
    assert_eq!(encoder.as_ref()[2], 0);

    assert_eq!(encoder.encode_packet(&U2[..]), Ok(4));
    assert_eq!(&encoder.as_ref()[3..6], &E2[..]);
    assert_eq!(encoder.as_ref()[6], 0);

    assert_eq!(encoder.encode_packet(&U3[..]), Ok(6));
    assert_eq!(&encoder.as_ref()[7..12], &E3[..]);
    assert_eq!(encoder.as_ref()[12], 0);

    assert_eq!(encoder.encode_packet(&U4[..]), Ok(6));
    assert_eq!(&encoder.as_ref()[13..18], &E4[..]);
    assert_eq!(encoder.as_ref()[18], 0);

    assert_eq!(encoder.encode_packet(&U5[..]), Ok(6));
    assert_eq!(&encoder.as_ref()[19..24], &E5[..]);
    assert_eq!(encoder.as_ref()[24], 0);

    assert_eq!(encoder.encode_packet(&U0), Ok(2));
    assert_eq!(encoder.as_ref()[25], 1);
    assert_eq!(encoder.as_ref()[26], 0);
    assert_eq!(encoder.pos(), 27);

    let mut dec_buf = [0u8; 1024];
    let mut decoder = Reader::new(&mut dec_buf);
    decoder.as_mut()[..encoder.pos()].copy_from_slice(&encoder.as_ref());
    decoder.extend(encoder.pos());

    let mut dst = [0xffu8; 255];
    assert_eq!(decoder.decode_packet(&mut dst[..1]), Ok(Some(1)));
    assert_eq!(&dst[..1], &U1[..]);
    assert_eq!(decoder.pos(), 3);

    let mut dst = [0xffu8; 255];
    assert_eq!(decoder.decode_packet(&mut dst[..2]), Ok(Some(2)));
    assert_eq!(&dst[..2], &U2[..]);
    assert_eq!(decoder.pos(), 7);

    let mut dst = [0xffu8; 255];
    assert_eq!(decoder.decode_packet(&mut dst[..4]), Ok(Some(4)));
    assert_eq!(&dst[..4], &U3[..]);
    assert_eq!(decoder.pos(), 13);

    let mut dst = [0xffu8; 255];
    assert_eq!(decoder.decode_packet(&mut dst[..4]), Ok(Some(4)));
    assert_eq!(&dst[..4], &U4[..]);
    assert_eq!(decoder.pos(), 19);

    let mut dst = [0xffu8; 255];
    assert_eq!(decoder.decode_packet(&mut dst[..4]), Ok(Some(4)));
    assert_eq!(&dst[..4], &U5[..]);
    assert_eq!(decoder.pos(), 25);

    let mut dst = [0xffu8; 255];
    assert_eq!(decoder.decode_packet(&mut dst[..0]), Ok(Some(0)));
    assert_eq!(decoder.pos(), 27);
    assert_eq!(decoder.len(), 0);

    let mut dst = [0xffu8; 255];
    assert_eq!(decoder.decode_packet(&mut dst[..0]), Ok(None));
    assert_eq!(decoder.pos(), 27);
    assert_eq!(decoder.len(), 0);
}

#[test]
fn test_reader_null() {
    assert_eq!(Reader::new(&mut []).next_null(), None);
    assert_eq!(Reader::new(&mut [0x00]).next_null(), Some(0));
    assert_eq!(Reader::new(&mut [0x01, 0x00]).next_null(), Some(1));
}

#[test]
fn test_encode_null() {
    let mut enc_buf = [0xffu8; 256];
    {
        let mut encoder = Writer::new(&mut enc_buf);
        assert_eq!(encoder.encode_packet(b""), Ok(2));
    }
    assert_eq!(&enc_buf[..1], &[0x01]);
}

#[test]
fn test_decode_empty() {
    let mut src = [];
    let mut dst = [0u8; 8];
    let mut decoder = Reader::new(&mut src);
    assert_eq!(decoder.decode_packet(&mut dst), Ok(None));
    assert_eq!(decoder.pos(), 0);
    assert_eq!(decoder.len(), 0);

    assert_eq!(decoder.decode_packet(&mut dst), Ok(None));
    assert_eq!(decoder.pos(), 0);
    assert_eq!(decoder.len(), 0);
}

#[test]
fn test_decode_short() {
    let src = [0x03, 0x11, 0x00];
    let mut dst = [0u8; 256];
    assert_eq!(decode(&src, &mut dst), Err(Error::UnexpectedNull));
}

#[test]
fn test_short_packets() {
    let mut src = [0x03, 0x11, 0x00, 0x05, 0x11, 0x22, 0x33, 0x44, 0x00];
    let mut dst = [0u8; 256];
    let len = src.len();

    let mut decoder = Reader::new(&mut src);
    decoder.extend(len);
    assert_eq!(decoder.decode_packet(&mut dst), Err(Error::SourceTooShort));
    assert_eq!(decoder.decode_packet(&mut dst), Ok(Some(4)));
    assert_eq!(&dst[..4], &U4);
    assert_eq!(decoder.decode_packet(&mut dst), Ok(None));
}

fn sample(len: usize, zero_every: usize) -> Vec<u8> {
    (0..len)
        .map(|i| if zero_every != 0 && i % zero_every == zero_every - 1 { 0 } else { (i % 255 + 1) as u8 })
        .collect()
}

#[test]
fn round_trip_with_zeros_and_long_runs() {
    for &(len, zero_every) in &[(0, 0), (1, 1), (253, 0), (254, 0), (255, 0), (508, 0), (600, 0), (600, 7), (1000, 300)] {
        let s = sample(len, zero_every);
        let mut enc = vec![0xAAu8; len + len / 254 + 2];
        let n = encode(&s, &mut enc).unwrap();
        let mut dec = vec![0xAAu8; n];
        let m = decode(&enc[..n], &mut dec).unwrap();
        assert_eq!(&dec[..m], &s[..]);
    }
}

#[test]
fn encoding_has_no_zero_and_bounded_overhead() {
    for &(len, zero_every) in &[(0, 0), (1, 1), (100, 3), (254, 0), (255, 0), (508, 0), (509, 0), (1000, 0)] {
        let s = sample(len, zero_every);
        let mut enc = vec![0u8; 2 * len + 2];
        let n = encode(&s, &mut enc).unwrap();
        assert!(enc[..n].iter().all(|&b| b != 0));
        assert!(n >= 1);
        assert!(n <= len + (len + 1 + 253) / 254);
    }
}

#[test]
fn run_of_254_gets_trailing_empty_group() {
    let s = sample(254, 0);
    let mut enc = [0u8; 300];
    assert_eq!(encode(&s, &mut enc), Ok(256));
    assert_eq!(enc[0], 0xFF);
    assert_eq!(enc[255], 0x01);
}

#[test]
fn decode_errors() {
    let mut dst = [0u8; 16];
    assert_eq!(decode(&[0x00, 0x01], &mut dst), Err(Error::UnexpectedNull));
    assert_eq!(decode(&[0x05, 0x11, 0x22], &mut dst), Err(Error::SourceTooShort));
    assert_eq!(decode(&[0x01, 0x01, 0x01, 0x01], &mut dst[..2]), Err(Error::DestTooShort));
    assert_eq!(decode(&[], &mut dst[..0]), Ok(0));
}

#[test]
fn streaming_one_byte_at_a_time() {
    let frames: [&[u8]; 4] = [&[1, 2, 0, 3], &[], &[0, 0], &[9; 300]];
    let mut stream = [0u8; 1024];
    let total = {
        let mut w = Writer::new(&mut stream);
        for f in frames.iter() {
            w.encode_packet(f).unwrap();
        }
        w.pos()
    };

    let mut whole_buf = [0u8; 1024];
    let mut whole = Reader::new(&mut whole_buf);
    whole.as_mut()[..total].copy_from_slice(&stream[..total]);
    whole.extend(total);
    let mut from_whole = Vec::new();
    let mut dst = [0u8; 512];
    while let Some(n) = whole.decode_packet(&mut dst).unwrap() {
        from_whole.push(dst[..n].to_vec());
    }

    let mut chunked_buf = [0u8; 1024];
    let mut chunked = Reader::new(&mut chunked_buf);
    let mut from_chunks = Vec::new();
    for i in 0..total {
        chunked.as_mut()[0] = stream[i];
        chunked.extend(1);
        while let Some(n) = chunked.decode_packet(&mut dst).unwrap() {
            from_chunks.push(dst[..n].to_vec());
        }
        chunked.compact();
    }

    let expected: Vec<Vec<u8>> = frames.iter().map(|f| f.to_vec()).collect();
    assert_eq!(from_whole, expected);
    assert_eq!(from_chunks, expected);
    assert_eq!(chunked.len(), 0);
}

#[test]
fn reader_keeps_partial_frame() {
    let mut buf = [0u8; 16];
    let mut r = Reader::new(&mut buf);
    r.as_mut()[..3].copy_from_slice(&[0x03, 0x11, 0x22]);
    r.extend(3);
    let mut dst = [0u8; 8];
    assert_eq!(r.decode_packet(&mut dst), Ok(None));
    assert_eq!(r.pos(), 0);
    r.as_mut()[0] = 0;
    r.extend(1);
    assert_eq!(r.decode_packet(&mut dst), Ok(Some(2)));
    assert_eq!(&dst[..2], &[0x11, 0x22]);
    assert_eq!(r.remaining(), 12);
}

#[test]
fn decode_old_vectors() {
    let mut dst = [0u8; 16];
    assert_eq!(decode_old(&E3, &mut dst), Ok(4));
    assert_eq!(&dst[..4], &U3);
    assert_eq!(decode_old(&E5, &mut dst), Ok(4));
    assert_eq!(&dst[..4], &U5);
    assert_eq!(decode_old(&E0, &mut dst), Ok(0));
    assert_eq!(decode_old(&[0x05, 0x11], &mut dst), Err(Error::SourceTooShort));
    assert_eq!(decode_old(&E4, &mut dst[..2]), Err(Error::DestTooShort));
}
