use sctl::tlv::{Error, Reader, Writer};

#[test]
fn test_tlv8() {
    let value = b"Hello, World";
    let mut buf = [0u8; 256];
    let mut w = Writer::new(&mut buf);
    w.write_tlv8(0x1234, value).unwrap();
    assert_eq!(w.pos(), 2 + 1 + value.len());
    let mut r = Reader::new(w.as_ref());
    let mut out = [0u8; 256];
    let (tag, msg) = r.read_tlv8(&mut out).unwrap().unwrap();
    assert_eq!(tag, 0x1234);
    assert_eq!(msg, value);
}

#[test]
fn test_tlv16() {
    let value = b"Hello, World";
    let mut buf = [0u8; 256];
    let mut w = Writer::new(&mut buf);
    w.write_tlv16(0x1234, value).unwrap();
    assert_eq!(w.pos(), 2 + 2 + value.len());
    let mut r = Reader::new(w.as_ref());
    let mut out = [0u8; 256];
    let (tag, msg) = r.read_tlv16(&mut out).unwrap().unwrap();
    assert_eq!(tag, 0x1234);
    assert_eq!(msg, &value[..]);
}

#[test]
fn test_tlv32() {
    let value = b"Hello, World";
    let mut buf = [0u8; 256];
    let mut w = Writer::new(&mut buf);
    w.write_tlv32(0x1234, value).unwrap();
    assert_eq!(w.pos(), 2 + 4 + value.len());
    let mut r = Reader::new(w.as_ref());
    let mut out = [0u8; 256];
    let (tag, msg) = r.read_tlv32(&mut out).unwrap().unwrap();
    assert_eq!(tag, 0x1234);
    assert_eq!(msg, &value[..]);
}

#[test]
fn test_tlv8_seq() {
    let (t1, v1) = (0x01, b"Hello, World");
    let (t2, v2) = (0x02, b"Hi, There");
    let mut buf = [0u8; 256];
    let mut w = Writer::new(&mut buf);
    w.write_tlv8(t1, v1).unwrap();
    assert_eq!(w.pos(), 1 + 1 + v1.len());
    w.write_tlv8(t2, v2).unwrap();
    assert_eq!(w.pos(), 1 + 1 + v1.len() + 1 + 1 + v2.len());

    let mut r = Reader::new(w.as_ref());
    let mut out = [0u8; 256];

    let (tag, msg) = r.read_tlv8(&mut out).unwrap().unwrap();
    assert_eq!(tag, t1);
    assert_eq!(msg, &v1[..]);

    let mut out = [0u8; 256];
    let (tag, msg) = r.read_tlv8(&mut out).unwrap().unwrap();
    assert_eq!(tag, t2);
    assert_eq!(msg, &v2[..]);
}

#[test]
fn test_tlv16_seq() {
    let (t1, v1) = (0x01, b"Hello, World");
    let (t2, v2) = (0x02, b"Hi, There");
    let mut buf = [0u8; 256];
    let mut w = Writer::new(&mut buf);
    w.write_tlv16(t1, v1).unwrap();
    assert_eq!(w.pos(), 1 + 2 + v1.len());
    w.write_tlv16(t2, v2).unwrap();
    assert_eq!(w.pos(), 1 + 2 + v1.len() + 1 + 2 + v2.len());

    let mut r = Reader::new(w.as_ref());

    let mut out = [0u8; 256];
    let (tag, msg) = r.read_tlv16(&mut out).unwrap().unwrap();
    assert_eq!(tag, t1);
    assert_eq!(msg, &v1[..]);

    let mut out = [0u8; 256];
    let (tag, msg) = r.read_tlv16(&mut out).unwrap().unwrap();
    assert_eq!(tag, t2);
    assert_eq!(msg, &v2[..]);
}

#[test]
fn test_tlv32_seq() {
    let (t1, v1) = (0x01, b"Hello, World");
    let (t2, v2) = (0x02, b"Hi, There");
    let mut buf = [0u8; 256];
    let mut w = Writer::new(&mut buf);
    w.write_tlv32(t1, v1).unwrap();
    assert_eq!(w.pos(), 1 + 4 + v1.len());
    w.write_tlv32(t2, v2).unwrap();
    assert_eq!(w.pos(), 1 + 4 + v1.len() + 1 + 4 + v2.len());

    let mut r = Reader::new(w.as_ref());

    let mut out = [0u8; 256];
    let (tag, msg) = r.read_tlv32(&mut out).unwrap().unwrap();
    assert_eq!(tag, t1);
    assert_eq!(msg, &v1[..]);

    let mut out = [0u8; 256];
    let (tag, msg) = r.read_tlv32(&mut out).unwrap().unwrap();
    assert_eq!(tag, t2);
    assert_eq!(msg, &v2[..]);
}

#[test]
fn test_atlv8_seq() {
    let (a1, t1, v1) = (b"addr1", 0x01, b"Hello, World");
    let (a2, t2, v2) = (b"addr2", 0x02, b"Hi, There");
    let mut buf = [0u8; 256];
    let mut w = Writer::new(&mut buf);
    w.write_atlv8(a1, t1, v1).unwrap();
    let l1 = 1 + a1.len() + 1 + 1 + v1.len();
    assert_eq!(w.pos(), l1);
    let l2 = 1 + a2.len() + 1 + 1 + v2.len();
    w.write_atlv8(a2, t2, v2).unwrap();
    assert_eq!(w.pos(), l1 + l2);

    let mut r = Reader::new(w.as_ref());

    let mut aout = [0u8; 256];
    let mut out = [0u8; 256];
    let (addr, tag, msg) = r.read_atlv8(&mut aout, &mut out).unwrap().unwrap();
    assert_eq!(addr, &a1[..]);
    assert_eq!(tag, t1);
    assert_eq!(msg, &v1[..]);

    let mut aout = [0u8; 256];
    let mut out = [0u8; 256];
    let (addr, tag, msg) = r.read_atlv8(&mut aout, &mut out).unwrap().unwrap();
    assert_eq!(addr, &a2[..]);
    assert_eq!(tag, t2);
    assert_eq!(msg, &v2[..]);
}

#[test]
fn test_atlv16_seq() {
    let (a1, t1, v1) = (b"addr1", 0x01, b"Hello, World");
    let (a2, t2, v2) = (b"addr2", 0x02, b"Hi, There");
    let mut buf = [0u8; 256];
    let mut w = Writer::new(&mut buf);
    w.write_atlv16(a1, t1, v1).unwrap();
    let l1 = 2 + a1.len() + 1 + 2 + v1.len();
    assert_eq!(w.pos(), l1);
    let l2 = 2 + a2.len() + 1 + 2 + v2.len();
    w.write_atlv16(a2, t2, v2).unwrap();
    assert_eq!(w.pos(), l1 + l2);

    let mut r = Reader::new(w.as_ref());

    let mut aout = [0u8; 256];
    let mut out = [0u8; 256];
    let (addr, tag, msg) = r.read_atlv16(&mut aout, &mut out).unwrap().unwrap();
    assert_eq!(addr, &a1[..]);
    assert_eq!(tag, t1);
    assert_eq!(msg, &v1[..]);

    let mut aout = [0u8; 256];
    let mut out = [0u8; 256];
    let (addr, tag, msg) = r.read_atlv16(&mut aout, &mut out).unwrap().unwrap();
    assert_eq!(addr, &a2[..]);
    assert_eq!(tag, t2);
    assert_eq!(msg, &v2[..]);
}

#[test]
fn test_atlv32_seq() {
    let (a1, t1, v1) = (b"addr1", 0x01, b"Hello, World");
    let (a2, t2, v2) = (b"addr2", 0x02, b"Hi, There");
    let mut buf = [0u8; 256];
    let mut w = Writer::new(&mut buf);
    w.write_atlv32(a1, t1, v1).unwrap();
    let l1 = 4 + a1.len() + 1 + 4 + v1.len();
    assert_eq!(w.pos(), l1);
    let l2 = 4 + a2.len() + 1 + 4 + v2.len();
    w.write_atlv32(a2, t2, v2).unwrap();
    assert_eq!(w.pos(), l1 + l2);

    let mut r = Reader::new(w.as_ref());

    let mut aout = [0u8; 256];
    let mut out = [0u8; 256];
    let (addr, tag, msg) = r.read_atlv32(&mut aout, &mut out).unwrap().unwrap();
    assert_eq!(addr, &a1[..]);
    assert_eq!(tag, t1);
    assert_eq!(msg, &v1[..]);

    let mut aout = [0u8; 256];
    let mut out = [0u8; 256];
    let (addr, tag, msg) = r.read_atlv32(&mut aout, &mut out).unwrap().unwrap();
    assert_eq!(addr, &a2[..]);
    assert_eq!(tag, t2);
    assert_eq!(msg, &v2[..]);
}

#[test]
fn big_endian_fields() {
    let mut buf = [0u8; 16];
    let mut w = Writer::new(&mut buf);
    assert_eq!(w.write_u16(0x1234), Ok(2));
    assert_eq!(w.write_u32(0x89AB_CDEF), Ok(4));
    assert_eq!(w.write_u8(0x7F), Ok(1));
    assert_eq!(w.as_ref(), &[0x12, 0x34, 0x89, 0xAB, 0xCD, 0xEF, 0x7F]);
    assert_eq!(w.cap(), 16);
    assert_eq!(w.remaining(), 9);

    let bytes = [0x12, 0x34, 0x89, 0xAB, 0xCD, 0xEF, 0x7F];
    let mut r = Reader::new(&bytes);
    assert_eq!(r.read_u16(), Ok(Some(0x1234)));
    assert_eq!(r.read_u32(), Ok(Some(0x89AB_CDEF)));
    assert_eq!(r.read_u16(), Ok(None));
    assert_eq!(r.read_u8(), Ok(Some(0x7F)));
    assert_eq!(r.read_u8(), Ok(None));
    assert_eq!(r.remaining(), 0);
    assert_eq!(r.pos(), 7);
}

#[test]
fn tlv_write_errors() {
    let big = [0u8; 256];
    let mut buf = [0u8; 600];
    let mut w = Writer::new(&mut buf);
    assert_eq!(w.write_tlv8(1, &big), Err(Error::OutOfRange));
    assert_eq!(w.write_lv8(&big), Err(Error::OutOfRange));
    assert_eq!(w.write_atlv8(&big, 1, b"x"), Err(Error::OutOfRange));
    assert_eq!(w.pos(), 0);
    assert_eq!(w.write_tlv16(1, &big), Ok(1 + 2 + 256));
    assert_eq!(w.write_lv16(&big[..10]), Ok(12));

    let mut small = [0u8; 4];
    let mut w = Writer::new(&mut small);
    assert_eq!(w.write_tlv8(0x1234, b"ab"), Err(Error::BufferTooShort));
    assert_eq!(w.write_u32(1), Ok(4));
    assert_eq!(w.write_u16(1), Err(Error::BufferTooShort));
    assert_eq!(w.write(b"a"), Err(Error::BufferTooShort));
    assert_eq!(w.write_tag(1), Err(Error::BufferTooShort));
    assert_eq!(w.pos(), 4);

    let mut three = [0u8; 3];
    let mut w = Writer::new(&mut three);
    assert_eq!(w.write_u32(1), Err(Error::BufferTooShort));
    assert_eq!(w.write_lv32(b""), Err(Error::BufferTooShort));
    assert_eq!(w.write_tag(300), Ok(2));
    assert_eq!(w.write(b"z"), Ok(1));
    assert_eq!(w.as_ref(), &[0xAC, 0x02, b'z']);
}

#[test]
fn tlv_read_incomplete_and_errors() {
    let mut buf = [0u8; 64];
    let mut w = Writer::new(&mut buf);
    w.write_tlv8(7, b"abcdef").unwrap();
    let whole = w.as_ref().to_vec();
    for cut in 0..whole.len() {
        let mut r = Reader::new(&whole[..cut]);
        let mut out = [0u8; 16];
        assert_eq!(r.read_tlv8(&mut out), Ok(None));
        assert_eq!(r.pos(), 0);
    }
    let mut r = Reader::new(&whole);
    let mut out = [0u8; 3];
    assert_eq!(r.read_tlv8(&mut out), Err(Error::BufferTooShort));
    assert_eq!(r.pos(), 0);

    let bad = [0xff, 0xff, 0xff, 0xff, 0x7f, 0x00];
    let mut r = Reader::new(&bad);
    assert_eq!(r.read_tag(), Err(Error::OutOfRange));
    let mut out = [0u8; 4];
    assert_eq!(r.read_tlv8(&mut out), Err(Error::OutOfRange));

    let lv = [0x02, 0x61, 0x62, 0x63];
    let mut r = Reader::new(&lv);
    let mut out = [0u8; 4];
    assert_eq!(r.read_lv8(&mut out), Ok(Some(&b"ab"[..])));
    assert_eq!(r.remaining(), 1);
    let mut two = [0u8; 2];
    assert_eq!(r.read(&mut two), Ok(None));
    let mut one = [0u8; 1];
    assert_eq!(r.read(&mut one), Ok(Some(1)));
    assert_eq!(one, [0x63]);
}
