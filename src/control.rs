//! The control protocol: a closed vocabulary of lifecycle, stdio, log and
//! key-value messages, each a record with a one-byte length, carried in
//! stuffed frames.
use vstd::prelude::*;
use crate::cobs;
use crate::cobs::cobs_encode;
use crate::tlv;
use crate::tlv::{tlv_bytes, tlv_result, tlv_taken};

verus! {

#[derive(Debug, PartialEq, Eq, Clone, Copy)]
pub enum Error {
    CobsError(cobs::Error),
    TlvError(tlv::Error),
    /// A record whose tag is not in the vocabulary; the record was skipped.
    UnknownTag(u32),
    /// An `Exit` record whose value is not exactly one byte; the record was
    /// skipped.
    InvalidExit,
}

impl From<cobs::Error> for Error {
    fn from(other: cobs::Error) -> (r: Error) {
        Error::CobsError(other)
    }
}

impl vstd::std_specs::convert::FromSpecImpl<cobs::Error> for Error {
    open spec fn obeys_from_spec() -> bool {
        true
    }

    open spec fn from_spec(other: cobs::Error) -> Error {
        Error::CobsError(other)
    }
}

impl From<tlv::Error> for Error {
    fn from(other: tlv::Error) -> (r: Error) {
        Error::TlvError(other)
    }
}

impl vstd::std_specs::convert::FromSpecImpl<tlv::Error> for Error {
    open spec fn obeys_from_spec() -> bool {
        true
    }

    open spec fn from_spec(other: tlv::Error) -> Error {
        Error::TlvError(other)
    }
}

#[derive(Debug, PartialEq, Eq, Clone, Copy)]
pub enum Tag {
    Boot,
    Run,
    Exit,
    Exception,
    Panic,
    Stdin,
    Stdout,
    Stderr,
    Error,
    Warn,
    Info,
    Debug,
    Trace,
    Val,
    Get,
    SetValue,
}

/// The wire value of each tag.
pub open spec fn tag_value(t: Tag) -> u32 {
    match t {
        Tag::Boot => 0x01,
        Tag::Run => 0x02,
        Tag::Exit => 0x03,
        Tag::Exception => 0x04,
        Tag::Panic => 0x05,
        Tag::Stdin => 0x10,
        Tag::Stdout => 0x11,
        Tag::Stderr => 0x12,
        Tag::Error => 0x20,
        Tag::Warn => 0x21,
        Tag::Info => 0x22,
        Tag::Debug => 0x23,
        Tag::Trace => 0x24,
        Tag::Val => 0x30,
        Tag::Get => 0x31,
        Tag::SetValue => 0x32,
    }
}

/// Whether `t` is the wire value of a tag of the vocabulary.
pub open spec fn known_tag(t: u32) -> bool {
    (0x01 <= t <= 0x05) || (0x10 <= t <= 0x12) || (0x20 <= t <= 0x24) || (0x30 <= t <= 0x32)
}

impl Tag {
    pub fn value(&self) -> (r: u32)
        ensures
            r == tag_value(*self),
    {
        match self {
            Tag::Boot => 0x01,
            Tag::Run => 0x02,
            Tag::Exit => 0x03,
            Tag::Exception => 0x04,
            Tag::Panic => 0x05,
            Tag::Stdin => 0x10,
            Tag::Stdout => 0x11,
            Tag::Stderr => 0x12,
            Tag::Error => 0x20,
            Tag::Warn => 0x21,
            Tag::Info => 0x22,
            Tag::Debug => 0x23,
            Tag::Trace => 0x24,
            Tag::Val => 0x30,
            Tag::Get => 0x31,
            Tag::SetValue => 0x32,
        }
    }
}

#[derive(Debug, PartialEq, Eq, Clone, Copy)]
pub enum Message<'a> {
    Boot(&'a [u8]),
    Run(&'a [u8]),
    Exit(u8),
    Exception(&'a [u8]),
    Panic(&'a [u8]),
    Stdin(&'a [u8]),
    Stdout(&'a [u8]),
    Stderr(&'a [u8]),
    Error(&'a [u8]),
    Warn(&'a [u8]),
    Info(&'a [u8]),
    Debug(&'a [u8]),
    Trace(&'a [u8]),
    Val(&'a [u8]),
    Get(&'a [u8]),
    SetValue(&'a [u8]),
}

/// The wire tag of a message.
pub open spec fn msg_tag(m: Message) -> u32 {
    match m {
        Message::Boot(_) => 0x01,
        Message::Run(_) => 0x02,
        Message::Exit(_) => 0x03,
        Message::Exception(_) => 0x04,
        Message::Panic(_) => 0x05,
        Message::Stdin(_) => 0x10,
        Message::Stdout(_) => 0x11,
        Message::Stderr(_) => 0x12,
        Message::Error(_) => 0x20,
        Message::Warn(_) => 0x21,
        Message::Info(_) => 0x22,
        Message::Debug(_) => 0x23,
        Message::Trace(_) => 0x24,
        Message::Val(_) => 0x30,
        Message::Get(_) => 0x31,
        Message::SetValue(_) => 0x32,
    }
}

/// The record value of a message: its bytes, or the one status byte of
/// `Exit`.
pub open spec fn msg_payload(m: Message) -> Seq<u8> {
    match m {
        Message::Exit(code) => seq![code],
        Message::Boot(v) => v@,
        Message::Run(v) => v@,
        Message::Exception(v) => v@,
        Message::Panic(v) => v@,
        Message::Stdin(v) => v@,
        Message::Stdout(v) => v@,
        Message::Stderr(v) => v@,
        Message::Error(v) => v@,
        Message::Warn(v) => v@,
        Message::Info(v) => v@,
        Message::Debug(v) => v@,
        Message::Trace(v) => v@,
        Message::Val(v) => v@,
        Message::Get(v) => v@,
        Message::SetValue(v) => v@,
    }
}

/// `r` is what reading the record with tag `t` and value `v` gives.
pub open spec fn dispatched<'b>(r: Result<Option<Message<'b>>, Error>, t: u32, v: Seq<u8>) -> bool {
    if !known_tag(t) {
        r == Err::<Option<Message<'b>>, Error>(Error::UnknownTag(t))
    } else if t == 0x03 && v.len() != 1 {
        r == Err::<Option<Message<'b>>, Error>(Error::InvalidExit)
    } else {
        r is Ok && r->Ok_0 is Some && msg_tag(r->Ok_0->Some_0) == t && msg_payload(r->Ok_0->Some_0) == v
    }
}

/// A reader of control messages from one decoded frame.
pub struct Reader<'a> {
    buf: &'a [u8],
    len: usize,
    pos: usize,
}

impl<'a> Reader<'a> {
    pub closed spec fn wf(&self) -> bool {
        self.pos <= self.len == self.buf@.len()
    }

    pub closed spec fn data(&self) -> Seq<u8> {
        self.buf@
    }

    pub closed spec fn offset(&self) -> nat {
        self.pos as nat
    }

    /// The bytes not yet read.
    pub open spec fn rest(&self) -> Seq<u8> {
        self.data().subrange(self.offset() as int, self.data().len() as int)
    }

    pub fn new(buf: &'a [u8]) -> (r: Self)
        ensures
            r.wf(),
            r.data() == buf@,
            r.offset() == 0,
    {
        Reader { buf, len: buf.len(), pos: 0 }
    }

    /// Reads the next record as a message, its value copied into `buf`.
    /// `None` when no complete record remains. A record with an unknown tag
    /// or a malformed `Exit` is skipped and reported as an error; a record
    /// that cannot be read at all is not skipped.
    pub fn read<'b>(&mut self, buf: &'b mut [u8]) -> (r: Result<Option<Message<'b>>, Error>)
        requires
            old(self).wf(),
        ensures
            final(self).wf(),
            final(self).data() == old(self).data(),
            match tlv_result(old(self).rest(), 1, old(buf)@.len()) {
                Err(e) => r == Err::<Option<Message<'b>>, Error>(Error::TlvError(e)) && final(self).offset() == old(self).offset(),
                Ok(None) => r == Ok::<Option<Message<'b>>, Error>(None) && final(self).offset()
                    == old(self).offset(),
                Ok(Some((t, v, n))) => dispatched(r, t, v) && final(self).offset() == old(self).offset() + n,
            },
    {
        let mut r = tlv::Reader::new(&self.buf[self.pos..self.len]);
        assert(r.rest() =~= self.rest());
        proof {
            tlv::lemma_tlv_taken_bound(self.rest(), 1, buf@.len());
        }
        match r.read_tlv8(buf) {
            Err(e) => Err(Error::TlvError(e)),
            Ok(None) => Ok(None),
            Ok(Some((tag, value))) => {
                self.pos += r.pos();
                match tag {
                    0x01 => Ok(Some(Message::Boot(value))),
                    0x02 => Ok(Some(Message::Run(value))),
                    0x03 => {
                        if value.len() == 1 {
                            assert(seq![value@[0]] =~= value@);
                            Ok(Some(Message::Exit(value[0])))
                        } else {
                            Err(Error::InvalidExit)
                        }
                    },
                    0x04 => Ok(Some(Message::Exception(value))),
                    0x05 => Ok(Some(Message::Panic(value))),
                    0x10 => Ok(Some(Message::Stdin(value))),
                    0x11 => Ok(Some(Message::Stdout(value))),
                    0x12 => Ok(Some(Message::Stderr(value))),
                    0x20 => Ok(Some(Message::Error(value))),
                    0x21 => Ok(Some(Message::Warn(value))),
                    0x22 => Ok(Some(Message::Info(value))),
                    0x23 => Ok(Some(Message::Debug(value))),
                    0x24 => Ok(Some(Message::Trace(value))),
                    0x30 => Ok(Some(Message::Val(value))),
                    0x31 => Ok(Some(Message::Get(value))),
                    0x32 => Ok(Some(Message::SetValue(value))),
                    _ => Err(Error::UnknownTag(tag)),
                }
            },
        }
    }

    pub fn pos(&self) -> (r: usize)
        ensures
            r == self.offset(),
    {
        self.pos
    }

    pub fn len(&self) -> (r: usize)
        requires
            self.wf(),
        ensures
            r == self.data().len(),
    {
        self.len
    }

    pub fn remaining(&self) -> (r: usize)
        requires
            self.wf(),
        ensures
            r == self.rest().len(),
    {
        self.len - self.pos
    }
}

/// A writer that gathers control messages as records and frames them.
pub struct Writer<'a> {
    tw: tlv::Writer<'a>,
}

impl<'a> Writer<'a> {
    pub closed spec fn wf(&self) -> bool {
        self.tw.wf()
    }

    /// The records gathered since the last frame.
    pub closed spec fn written(&self) -> Seq<u8> {
        self.tw.written()
    }

    pub closed spec fn capacity(&self) -> nat {
        self.tw.capacity()
    }

    /// `r` is the outcome of adding the record with tag `tag` and value
    /// `value` to `old`, giving `self`.
    pub open spec fn recorded(&self, old: Self, tag: u32, value: Seq<u8>, r: Result<usize, Error>) -> bool {
        let bytes = tlv_bytes(tag, value, 1);
        &&& self.wf()
        &&& self.capacity() == old.capacity()
        &&& if value.len() > 255 {
            r == Err::<usize, Error>(Error::TlvError(tlv::Error::OutOfRange)) && self.written()
                == old.written()
        } else if old.written().len() + bytes.len() > old.capacity() {
            r == Err::<usize, Error>(Error::TlvError(tlv::Error::BufferTooShort))
                && self.written() == old.written()
        } else {
            r == Ok::<usize, Error>(bytes.len() as usize) && self.written() == old.written()
                + bytes
        }
    }

    pub fn new(buf: &'a mut [u8]) -> (r: Self)
        ensures
            r.wf(),
            r.written() == Seq::<u8>::empty(),
            r.capacity() == old(buf)@.len(),
    {
        Writer { tw: tlv::Writer::new(buf) }
    }

    /// The records gathered since the last frame.
    pub fn as_ref(&self) -> (r: &[u8])
        requires
            self.wf(),
        ensures
            r@ == self.written(),
    {
        self.tw.as_ref()
    }

    /// Frames the gathered records into `dst`, with its terminating zero,
    /// and starts gathering anew. Fails, keeping the records, when `dst`
    /// cannot hold the frame.
    pub fn encode<'b>(&mut self, dst: &'b mut [u8]) -> (r: Result<&'b [u8], Error>)
        requires
            old(self).wf(),
        ensures
            final(self).wf(),
            final(self).capacity() == old(self).capacity(),
            cobs_encode(old(self).written()).len() + 1 > old(dst)@.len() ==> r == Err::<
                &'b [u8],
                Error,
            >(Error::CobsError(cobs::Error::DestTooShort)) && final(self).written() == old(self).written(),
            cobs_encode(old(self).written()).len() + 1 <= old(dst)@.len() ==> r is Ok
                && r->Ok_0@ == cobs_encode(old(self).written()).push(0) && final(self).written()
                == Seq::<u8>::empty(),
    {
        let n = match cobs::encode(self.tw.as_ref(), dst) {
            Ok(n) => n,
            Err(e) => return Err(Error::CobsError(e)),
        };
        if n >= dst.len() {
            return Err(Error::CobsError(cobs::Error::DestTooShort));
        }
        dst[n] = 0;
        self.tw.reset();
        let (head, _tail) = dst.split_at_mut(n + 1);
        proof {
            assert(head@ =~= cobs_encode(old(self).written()).push(0));
        }
        Ok(head)
    }

    fn write_tlv(&mut self, tag: Tag, value: &[u8]) -> (r: Result<usize, Error>)
        requires
            old(self).wf(),
        ensures
            final(self).recorded(*old(self), tag_value(tag), value@, r),
    {
        match self.tw.write_tlv8(tag.value(), value) {
            Ok(n) => Ok(n),
            Err(e) => Err(Error::TlvError(e)),
        }
    }

    /// Adds a `Boot` record.
    pub fn boot(&mut self, value: &[u8]) -> (r: Result<usize, Error>)
        requires
            old(self).wf(),
        ensures
            final(self).recorded(*old(self), tag_value(Tag::Boot), value@, r),
    {
        self.write_tlv(Tag::Boot, value)
    }

    /// Adds a `Run` record.
    pub fn run(&mut self, value: &[u8]) -> (r: Result<usize, Error>)
        requires
            old(self).wf(),
        ensures
            final(self).recorded(*old(self), tag_value(Tag::Run), value@, r),
    {
        self.write_tlv(Tag::Run, value)
    }

    /// Adds a `Exception` record.
    pub fn exception(&mut self, value: &[u8]) -> (r: Result<usize, Error>)
        requires
            old(self).wf(),
        ensures
            final(self).recorded(*old(self), tag_value(Tag::Exception), value@, r),
    {
        self.write_tlv(Tag::Exception, value)
    }

    /// Adds a `Panic` record.
    pub fn panic(&mut self, value: &[u8]) -> (r: Result<usize, Error>)
        requires
            old(self).wf(),
        ensures
            final(self).recorded(*old(self), tag_value(Tag::Panic), value@, r),
    {
        self.write_tlv(Tag::Panic, value)
    }

    /// Adds an `Exit` record carrying the status byte `value`.
    pub fn exit(&mut self, value: u8) -> (r: Result<usize, Error>)
        requires
            old(self).wf(),
        ensures
            final(self).recorded(*old(self), tag_value(Tag::Exit), seq![value], r),
    {
        let buf = [value];
        assert(buf@ =~= seq![value]);
        self.write_tlv(Tag::Exit, &buf)
    }

    /// Adds a `Stdin` record.
    pub fn stdin(&mut self, value: &[u8]) -> (r: Result<usize, Error>)
        requires
            old(self).wf(),
        ensures
            final(self).recorded(*old(self), tag_value(Tag::Stdin), value@, r),
    {
        self.write_tlv(Tag::Stdin, value)
    }

    /// Adds a `Stdout` record.
    pub fn stdout(&mut self, value: &[u8]) -> (r: Result<usize, Error>)
        requires
            old(self).wf(),
        ensures
            final(self).recorded(*old(self), tag_value(Tag::Stdout), value@, r),
    {
        self.write_tlv(Tag::Stdout, value)
    }

    /// Adds a `Stderr` record.
    pub fn stderr(&mut self, value: &[u8]) -> (r: Result<usize, Error>)
        requires
            old(self).wf(),
        ensures
            final(self).recorded(*old(self), tag_value(Tag::Stderr), value@, r),
    {
        self.write_tlv(Tag::Stderr, value)
    }

    /// Adds a `Error` record.
    pub fn error(&mut self, value: &[u8]) -> (r: Result<usize, Error>)
        requires
            old(self).wf(),
        ensures
            final(self).recorded(*old(self), tag_value(Tag::Error), value@, r),
    {
        self.write_tlv(Tag::Error, value)
    }

    /// Adds a `Warn` record.
    pub fn warn(&mut self, value: &[u8]) -> (r: Result<usize, Error>)
        requires
            old(self).wf(),
        ensures
            final(self).recorded(*old(self), tag_value(Tag::Warn), value@, r),
    {
        self.write_tlv(Tag::Warn, value)
    }

    /// Adds a `Info` record.
    pub fn info(&mut self, value: &[u8]) -> (r: Result<usize, Error>)
        requires
            old(self).wf(),
        ensures
            final(self).recorded(*old(self), tag_value(Tag::Info), value@, r),
    {
        self.write_tlv(Tag::Info, value)
    }

    /// Adds a `Debug` record.
    pub fn debug(&mut self, value: &[u8]) -> (r: Result<usize, Error>)
        requires
            old(self).wf(),
        ensures
            final(self).recorded(*old(self), tag_value(Tag::Debug), value@, r),
    {
        self.write_tlv(Tag::Debug, value)
    }

    /// Adds a `Trace` record.
    pub fn trace(&mut self, value: &[u8]) -> (r: Result<usize, Error>)
        requires
            old(self).wf(),
        ensures
            final(self).recorded(*old(self), tag_value(Tag::Trace), value@, r),
    {
        self.write_tlv(Tag::Trace, value)
    }

    /// Adds a `Val` record.
    pub fn val(&mut self, value: &[u8]) -> (r: Result<usize, Error>)
        requires
            old(self).wf(),
        ensures
            final(self).recorded(*old(self), tag_value(Tag::Val), value@, r),
    {
        self.write_tlv(Tag::Val, value)
    }

    /// Adds a `Get` record.
    pub fn get(&mut self, value: &[u8]) -> (r: Result<usize, Error>)
        requires
            old(self).wf(),
        ensures
            final(self).recorded(*old(self), tag_value(Tag::Get), value@, r),
    {
        self.write_tlv(Tag::Get, value)
    }

    /// Adds a `SetValue` record.
    pub fn set(&mut self, value: &[u8]) -> (r: Result<usize, Error>)
        requires
            old(self).wf(),
        ensures
            final(self).recorded(*old(self), tag_value(Tag::SetValue), value@, r),
    {
        self.write_tlv(Tag::SetValue, value)
    }
}

} // verus!
