//! A fixed-layout tagged message: one tag byte, one length byte, then the
//! value. No stuffing, no variable-length fields.
use vstd::prelude::*;

verus! {

#[derive(Debug, PartialEq, Eq, Clone, Copy)]
pub enum Error {
    Overflow,
    Underflow,
    UnknownTag,
}

#[derive(Debug, PartialEq, Eq, Clone, Copy)]
pub enum Message<'a> {
    Boot(&'a [u8]),
    Run(&'a [u8]),
    Exit(&'a [u8]),
    Exception(&'a [u8]),
    Panic(&'a [u8]),
    Stdin(&'a [u8]),
    Stdout(&'a [u8]),
    Stderr(&'a [u8]),
    Other(u8, &'a [u8]),
}

/// The message that a tag and value stand for; an unknown tag gives `Other`.
pub open spec fn message_of<'a>(tag: u8, value: &'a [u8]) -> Message<'a> {
    if tag == 0x01 {
        Message::Boot(value)
    } else if tag == 0x02 {
        Message::Run(value)
    } else if tag == 0x03 {
        Message::Exit(value)
    } else if tag == 0x04 {
        Message::Exception(value)
    } else if tag == 0x05 {
        Message::Panic(value)
    } else if tag == 0x10 {
        Message::Stdin(value)
    } else if tag == 0x11 {
        Message::Stdout(value)
    } else if tag == 0x12 {
        Message::Stderr(value)
    } else {
        Message::Other(tag, value)
    }
}

/// The tag and value of a message.
pub open spec fn parts_of<'a>(m: Message<'a>) -> (u8, &'a [u8]) {
    match m {
        Message::Boot(v) => (0x01, v),
        Message::Run(v) => (0x02, v),
        Message::Exit(v) => (0x03, v),
        Message::Exception(v) => (0x04, v),
        Message::Panic(v) => (0x05, v),
        Message::Stdin(v) => (0x10, v),
        Message::Stdout(v) => (0x11, v),
        Message::Stderr(v) => (0x12, v),
        Message::Other(t, v) => (t, v),
    }
}

/// The encoding of a tag and value.
pub open spec fn packet_bytes(tag: u8, value: Seq<u8>) -> Seq<u8> {
    seq![tag, value.len() as u8] + value
}

/// What decoding the front of `src` gives: the tag and the value, or
/// `Underflow` when the header or the value is cut short.
pub open spec fn decode_spec(src: Seq<u8>) -> Result<(u8, Seq<u8>), Error> {
    if src.len() < 2 || src.len() < src[1] + 2 {
        Err(Error::Underflow)
    } else {
        Ok((src[0], src.subrange(2, src[1] + 2)))
    }
}

/// Encoding then decoding gives back the tag and the value.
pub proof fn lemma_packet_round_trip(tag: u8, value: Seq<u8>, rest: Seq<u8>)
    requires
        value.len() <= 255,
    ensures
        decode_spec(packet_bytes(tag, value) + rest) == Ok::<(u8, Seq<u8>), Error>((tag, value)),
{
    let s = packet_bytes(tag, value) + rest;
    assert(s[1] == value.len() as u8);
    assert(s.subrange(2, value.len() + 2 as int) =~= value);
}

impl<'a> From<(u8, &'a [u8])> for Message<'a> {
    fn from(other: (u8, &'a [u8])) -> (r: Message<'a>) {
        match other.0 {
            0x01 => Message::Boot(other.1),
            0x02 => Message::Run(other.1),
            0x03 => Message::Exit(other.1),
            0x04 => Message::Exception(other.1),
            0x05 => Message::Panic(other.1),
            0x10 => Message::Stdin(other.1),
            0x11 => Message::Stdout(other.1),
            0x12 => Message::Stderr(other.1),
            _ => Message::Other(other.0, other.1),
        }
    }
}

impl<'a> vstd::std_specs::convert::FromSpecImpl<(u8, &'a [u8])> for Message<'a> {
    open spec fn obeys_from_spec() -> bool {
        true
    }

    open spec fn from_spec(other: (u8, &'a [u8])) -> Message<'a> {
        message_of(other.0, other.1)
    }
}

impl<'a> Message<'a> {
    /// The tag and value of this message.
    pub fn to_parts(self) -> (r: (u8, &'a [u8]))
        ensures
            r == parts_of(self),
    {
        match self {
            Message::Boot(value) => (0x01, value),
            Message::Run(value) => (0x02, value),
            Message::Exit(value) => (0x03, value),
            Message::Exception(value) => (0x04, value),
            Message::Panic(value) => (0x05, value),
            Message::Stdin(value) => (0x10, value),
            Message::Stdout(value) => (0x11, value),
            Message::Stderr(value) => (0x12, value),
            Message::Other(tag, value) => (tag, value),
        }
    }
}

/// Encodes `msg` into the front of `dst` and returns the encoded bytes.
/// Fails with `Overflow` when the value is longer than 255 bytes or `dst`
/// cannot hold the encoding.
pub fn encode<'a>(dst: &'a mut [u8], msg: (u8, &[u8])) -> (r: Result<&'a [u8], Error>)
    ensures
        msg.1@.len() > 255 || msg.1@.len() + 2 > old(dst)@.len() ==> r == Err::<&'a [u8], Error>(
            Error::Overflow,
        ),
        msg.1@.len() <= 255 && msg.1@.len() + 2 <= old(dst)@.len() ==> r is Ok && r->Ok_0@
            == packet_bytes(msg.0, msg.1@),
{
    let (tag, value) = msg;
    let len = value.len();
    if len > 255 || len + 2 > dst.len() {
        return Err(Error::Overflow);
    }
    dst[0] = tag;
    dst[1] = len as u8;
    let mut i: usize = 0;
    while i < len
        invariant
            len == value@.len(),
            len + 2 <= dst@.len(),
            len <= 255,
            dst@.len() == old(dst)@.len(),
            i <= len,
            dst@[0] == tag,
            dst@[1] == len as u8,
            forall|j: int| 0 <= j < i ==> dst@[2 + j] == value@[j],
        decreases len - i,
    {
        dst[2 + i] = value[i];
        i += 1;
    }
    let (head, _tail) = dst.split_at_mut(len + 2);
    assert(head@ =~= packet_bytes(tag, value@));
    Ok(head)
}

/// Encodes a message, as `encode` does its tag and value.
pub fn encode_message<'a>(dst: &'a mut [u8], msg: Message) -> (r: Result<&'a [u8], Error>)
    ensures
        parts_of(msg).1@.len() > 255 || parts_of(msg).1@.len() + 2 > old(dst)@.len() ==> r
            == Err::<&'a [u8], Error>(Error::Overflow),
        parts_of(msg).1@.len() <= 255 && parts_of(msg).1@.len() + 2 <= old(dst)@.len() ==> r is Ok
            && r->Ok_0@ == packet_bytes(parts_of(msg).0, parts_of(msg).1@),
{
    encode(dst, msg.to_parts())
}

/// Decodes the tag and value at the front of `src`.
pub fn decode<'a>(src: &'a [u8]) -> (r: Result<(u8, &'a [u8]), Error>)
    ensures
        match decode_spec(src@) {
            Err(e) => r == Err::<(u8, &'a [u8]), Error>(e),
            Ok((t, v)) => r is Ok && r->Ok_0.0 == t && r->Ok_0.1@ == v,
        },
{
    if src.len() < 2 {
        return Err(Error::Underflow);
    }
    let tag = src[0];
    let len = src[1] as usize;
    if src.len() < len + 2 {
        return Err(Error::Underflow);
    }
    Ok((tag, &src[2..2 + len]))
}

/// Decodes a message; an unknown tag gives `Other`.
pub fn decode_message<'a>(src: &'a [u8]) -> (r: Result<Message<'a>, Error>)
    ensures
        match decode_spec(src@) {
            Err(e) => r == Err::<Message<'a>, Error>(e),
            Ok((t, v)) => r is Ok && parts_of(r->Ok_0).0 == t && parts_of(r->Ok_0).1@ == v
                && r->Ok_0 == message_of(t, parts_of(r->Ok_0).1),
        },
{
    match decode(src) {
        Ok(parts) => Ok(Message::from(parts)),
        Err(e) => Err(e),
    }
}

} // verus!
