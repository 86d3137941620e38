use sctl::cobs;
use sctl::control::{Error, Message, Reader, Tag, Writer};

#[test]
fn test_boot() {
    let mut wbuf = [0u8; 1024];
    let mut w = Writer::new(&mut wbuf);

    w.boot(b"Hello, World").unwrap();
    w.run(b"Testing").unwrap();
    w.exception(b"Exception").unwrap();
    w.panic(b"Panic").unwrap();
    w.stdin(b"stdin").unwrap();
    w.stdout(b"stdout").unwrap();
    w.stderr(b"stderr").unwrap();
    w.warn(b"warn").unwrap();
    w.info(b"info").unwrap();
    w.debug(b"debug").unwrap();
    w.trace(b"trace").unwrap();
    w.val(b"val").unwrap();
    w.get(b"get").unwrap();
    w.set(b"set").unwrap();
    w.exit(0x55).unwrap();

    let mut r = Reader::new(w.as_ref());
    let mut tmp = [0u8; 256];
    assert_eq!(r.read(&mut tmp[..]), Ok(Some(Message::Boot(b"Hello, World"))));
    assert_eq!(r.read(&mut tmp[..]), Ok(Some(Message::Run(b"Testing"))));
    assert_eq!(r.read(&mut tmp[..]), Ok(Some(Message::Exception(b"Exception"))));
    assert_eq!(r.read(&mut tmp[..]), Ok(Some(Message::Panic(b"Panic"))));
    assert_eq!(r.read(&mut tmp[..]), Ok(Some(Message::Stdin(b"stdin"))));
    assert_eq!(r.read(&mut tmp[..]), Ok(Some(Message::Stdout(b"stdout"))));
    assert_eq!(r.read(&mut tmp[..]), Ok(Some(Message::Stderr(b"stderr"))));
    assert_eq!(r.read(&mut tmp[..]), Ok(Some(Message::Warn(b"warn"))));
    assert_eq!(r.read(&mut tmp[..]), Ok(Some(Message::Info(b"info"))));
    assert_eq!(r.read(&mut tmp[..]), Ok(Some(Message::Debug(b"debug"))));
    assert_eq!(r.read(&mut tmp[..]), Ok(Some(Message::Trace(b"trace"))));
    assert_eq!(r.read(&mut tmp[..]), Ok(Some(Message::Val(b"val"))));
    assert_eq!(r.read(&mut tmp[..]), Ok(Some(Message::Get(b"get"))));
    assert_eq!(r.read(&mut tmp[..]), Ok(Some(Message::SetValue(b"set"))));
    assert_eq!(r.read(&mut tmp[..]), Ok(Some(Message::Exit(0x55))));
}

#[test]
fn end_to_end_boot_then_exit() {
    let mut wbuf = [0u8; 256];
    let mut w = Writer::new(&mut wbuf);
    w.boot(b"Hello, World").unwrap();
    w.exit(0x55).unwrap();

    let mut frame = [0u8; 256];
    let encoded = w.encode(&mut frame).unwrap().to_vec();
    assert_eq!(*encoded.last().unwrap(), 0);
    assert!(encoded[..encoded.len() - 1].iter().all(|&b| b != 0));
    assert_eq!(w.as_ref().len(), 0);

    let mut stream = [0u8; 256];
    let mut reader = cobs::Reader::new(&mut stream);
    for &b in encoded.iter() {
        reader.as_mut()[0] = b;
        reader.extend(1);
    }
    let mut records = [0u8; 256];
    let n = reader.decode_packet(&mut records).unwrap().unwrap();
    assert_eq!(reader.decode_packet(&mut [0u8; 8]), Ok(None));

    let mut r = Reader::new(&records[..n]);
    let mut tmp = [0u8; 64];
    assert_eq!(r.read(&mut tmp), Ok(Some(Message::Boot(b"Hello, World"))));
    assert_eq!(r.read(&mut tmp), Ok(Some(Message::Exit(0x55))));
    assert_eq!(r.read(&mut tmp), Ok(None));
    assert_eq!(r.remaining(), 0);
    assert_eq!(r.pos(), r.len());
}

#[test]
fn unknown_tag_and_bad_exit_are_skipped() {
    let records = [0x40, 0x01, 0xAA, 0x03, 0x02, 0x01, 0x02, 0x20, 0x01, b'e'];
    let mut r = Reader::new(&records);
    let mut tmp = [0u8; 8];
    assert_eq!(r.read(&mut tmp), Err(Error::UnknownTag(0x40)));
    assert_eq!(r.pos(), 3);
    assert_eq!(r.read(&mut tmp), Err(Error::InvalidExit));
    assert_eq!(r.read(&mut tmp), Ok(Some(Message::Error(b"e"))));
    assert_eq!(r.remaining(), 0);

    let truncated = [0x01, 0x05, b'a'];
    let mut r = Reader::new(&truncated);
    assert_eq!(r.read(&mut tmp), Ok(None));
    assert_eq!(r.pos(), 0);
    let mut small = [0u8; 2];
    let long = [0x01, 0x03, b'a', b'b', b'c'];
    let mut r = Reader::new(&long);
    assert_eq!(r.read(&mut small), Err(Error::TlvError(sctl::tlv::Error::BufferTooShort)));
}

#[test]
fn writer_errors() {
    let mut wbuf = [0u8; 4];
    let mut w = Writer::new(&mut wbuf);
    assert_eq!(w.boot(b"abc"), Err(Error::TlvError(sctl::tlv::Error::BufferTooShort)));
    let big = [1u8; 256];
    assert_eq!(w.stdout(&big), Err(Error::TlvError(sctl::tlv::Error::OutOfRange)));
    assert_eq!(w.error(b"ab"), Ok(4));
    let mut frame = [0u8; 5];
    assert_eq!(w.encode(&mut frame), Err(Error::CobsError(cobs::Error::DestTooShort)));
    assert_eq!(w.as_ref(), &[0x20, 0x02, b'a', b'b']);
    let mut frame = [0u8; 6];
    assert_eq!(w.encode(&mut frame), Ok(&[0x05, 0x20, 0x02, b'a', b'b', 0x00][..]));
    assert_eq!(Tag::SetValue.value(), 0x32);
    assert_eq!(Tag::Exit.value(), 3);
}
