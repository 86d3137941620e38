//! Tag-length-value records: a LEB128 tag, a big-endian length of one, two
//! or four bytes, then the value bytes. The address variants put a
//! length-prefixed address in front of the record.
use vstd::prelude::*;
use byteorder::{BigEndian, ByteOrder};
use crate::leb128;
use crate::leb128::{u32_result, uleb_encode};

verus! {

#[derive(Debug, PartialEq, Eq, Clone, Copy)]
pub enum Error {
    BufferTooShort,
    OutOfRange,
}

impl From<leb128::Error> for Error {
    fn from(other: leb128::Error) -> (r: Error) {
        match other {
            leb128::Error::BufferTooShort => Error::BufferTooShort,
            leb128::Error::OutOfRange => Error::OutOfRange,
        }
    }
}

impl vstd::std_specs::convert::FromSpecImpl<leb128::Error> for Error {
    open spec fn obeys_from_spec() -> bool {
        true
    }

    open spec fn from_spec(other: leb128::Error) -> Error {
        match other {
            leb128::Error::BufferTooShort => Error::BufferTooShort,
            leb128::Error::OutOfRange => Error::OutOfRange,
        }
    }
}

/// The unsigned value of `s` read most significant byte first.
pub open spec fn be_value(s: Seq<u8>) -> nat
    decreases s.len(),
{
    if s.len() == 0 {
        0
    } else {
        be_value(s.drop_last()) * 256 + s.last() as nat
    }
}

/// `n` as `w` bytes, most significant first.
pub open spec fn be_bytes(n: nat, w: nat) -> Seq<u8>
    decreases w,
{
    if w == 0 {
        seq![]
    } else {
        be_bytes(n / 256, (w - 1) as nat).push((n % 256) as u8)
    }
}

/// A length field of `w` bytes holds at most this.
pub open spec fn max_len(w: nat) -> nat {
    if w == 1 {
        0xFF
    } else if w == 2 {
        0xFFFF
    } else {
        0xFFFF_FFFF
    }
}

pub open spec fn valid_width(w: nat) -> bool {
    w == 1 || w == 2 || w == 4
}

/// A length-prefixed value.
pub open spec fn lv_bytes(v: Seq<u8>, w: nat) -> Seq<u8> {
    be_bytes(v.len(), w) + v
}

/// A record: the tag, then the length-prefixed value.
pub open spec fn tlv_bytes(tag: u32, v: Seq<u8>, w: nat) -> Seq<u8> {
    uleb_encode(tag as nat) + lv_bytes(v, w)
}

/// An addressed record: the length-prefixed address, then the record.
pub open spec fn atlv_bytes(addr: Seq<u8>, tag: u32, v: Seq<u8>, w: nat) -> Seq<u8> {
    lv_bytes(addr, w) + tlv_bytes(tag, v, w)
}

pub open spec fn leb_error(e: leb128::Error) -> Error {
    match e {
        leb128::Error::BufferTooShort => Error::BufferTooShort,
        leb128::Error::OutOfRange => Error::OutOfRange,
    }
}

/// Reading a tag from the front of `s`: nothing yet, the tag and its
/// length, or an error.
pub open spec fn tag_result(s: Seq<u8>) -> Result<Option<(u32, nat)>, Error> {
    match u32_result(s) {
        Ok(o) => Ok(o),
        Err(e) => Err(leb_error(e)),
    }
}

/// Reading a `w`-byte length from the front of `s`.
pub open spec fn len_field(s: Seq<u8>, w: nat) -> Option<nat> {
    if s.len() < w {
        None
    } else {
        Some(be_value(s.subrange(0, w as int)))
    }
}

/// Reading a length-prefixed value from the front of `s` into a destination
/// of `cap` bytes: nothing yet, the value and the bytes taken, or
/// `BufferTooShort` when the value does not fit the destination.
pub open spec fn lv_result(s: Seq<u8>, w: nat, cap: nat) -> Result<Option<(Seq<u8>, nat)>, Error> {
    match len_field(s, w) {
        None => Ok(None),
        Some(l) => if l > cap {
            Err(Error::BufferTooShort)
        } else if s.len() < w + l {
            Ok(None)
        } else {
            Ok(Some((s.subrange(w as int, (w + l) as int), w + l)))
        },
    }
}

/// Reading a record from the front of `s`.
pub open spec fn tlv_result(s: Seq<u8>, w: nat, cap: nat) -> Result<
    Option<(u32, Seq<u8>, nat)>,
    Error,
> {
    match tag_result(s) {
        Err(e) => Err(e),
        Ok(None) => Ok(None),
        Ok(Some((t, k))) => match lv_result(s.subrange(k as int, s.len() as int), w, cap) {
            Err(e) => Err(e),
            Ok(None) => Ok(None),
            Ok(Some((v, m))) => Ok(Some((t, v, k + m))),
        },
    }
}

/// Reading an addressed record from the front of `s`.
pub open spec fn atlv_result(s: Seq<u8>, w: nat, acap: nat, cap: nat) -> Result<
    Option<(Seq<u8>, u32, Seq<u8>, nat)>,
    Error,
> {
    match lv_result(s, w, acap) {
        Err(e) => Err(e),
        Ok(None) => Ok(None),
        Ok(Some((a, k))) => match tlv_result(s.subrange(k as int, s.len() as int), w, cap) {
            Err(e) => Err(e),
            Ok(None) => Ok(None),
            Ok(Some((t, v, m))) => Ok(Some((a, t, v, k + m))),
        },
    }
}

proof fn lemma_be_round_trip(n: nat, w: nat, t: Seq<u8>)
    ensures
        be_bytes(n, w).len() == w,
        n < pow256(w) ==> be_value((be_bytes(n, w) + t).subrange(0, w as int)) == n,
    decreases w,
{
    if w > 0 {
        lemma_be_round_trip(n / 256, (w - 1) as nat, t);
        let b = be_bytes(n, w);
        let p = be_bytes(n / 256, (w - 1) as nat);
        assert((b + t).subrange(0, w as int) =~= b);
        assert(b.drop_last() =~= p);
        assert((p + t).subrange(0, w - 1) =~= p);
        if n < pow256(w) {
            assert(n / 256 < pow256((w - 1) as nat));
        }
    }
}

proof fn lemma_be_value_bound(s: Seq<u8>)
    ensures
        be_value(s) < pow256(s.len()),
    decreases s.len(),
{
    if s.len() > 0 {
        lemma_be_value_bound(s.drop_last());
        let a = be_value(s.drop_last());
        let p = pow256((s.len() - 1) as nat);
        let b = s.last() as nat;
        assert(a * 256 + b < 256 * p) by (nonlinear_arith)
            requires
                a < p,
                b < 256,
        ;
    }
}

pub open spec fn pow256(w: nat) -> nat
    decreases w,
{
    if w == 0 {
        1
    } else {
        256 * pow256((w - 1) as nat)
    }
}

proof fn lemma_max_len(w: nat)
    requires
        valid_width(w),
    ensures
        max_len(w) + 1 == pow256(w),
{
    reveal_with_fuel(pow256, 5);
}

/// Length-value round trip: a value written with a `w`-byte length reads
/// back into any destination large enough, whatever follows it.
pub proof fn lemma_lv_round_trip(v: Seq<u8>, w: nat, cap: nat, t: Seq<u8>)
    requires
        valid_width(w),
        v.len() <= max_len(w),
        v.len() <= cap,
    ensures
        lv_result(lv_bytes(v, w) + t, w, cap) == Ok::<Option<(Seq<u8>, nat)>, Error>(
            Some((v, w + v.len())),
        ),
{
    lemma_max_len(w);
    lemma_be_round_trip(v.len(), w, v + t);
    let s = lv_bytes(v, w) + t;
    assert(s =~= be_bytes(v.len(), w) + (v + t));
    assert(s.subrange(w as int, (w + v.len()) as int) =~= v);
}

/// Record round trip: a record written with a `w`-byte length reads back as
/// its tag and value, whatever follows it.
pub proof fn lemma_tlv_round_trip(tag: u32, v: Seq<u8>, w: nat, cap: nat, t: Seq<u8>)
    requires
        valid_width(w),
        v.len() <= max_len(w),
        v.len() <= cap,
    ensures
        tlv_result(tlv_bytes(tag, v, w) + t, w, cap) == Ok::<
            Option<(u32, Seq<u8>, nat)>,
            Error,
        >(Some((tag, v, tlv_bytes(tag, v, w).len()))),
{
    let s = tlv_bytes(tag, v, w) + t;
    let e = uleb_encode(tag as nat);
    assert(s =~= e + (lv_bytes(v, w) + t));
    leb128::lemma_u32_round_trip(tag, lv_bytes(v, w) + t);
    assert(s.subrange(e.len() as int, s.len() as int) =~= lv_bytes(v, w) + t);
    lemma_lv_round_trip(v, w, cap, t);
    lemma_be_round_trip(v.len(), w, v);
}

/// Two records written one after the other read back in the same order:
/// the first, then the second from where the first ended.
pub proof fn lemma_tlv_sequence(
    t1: u32,
    v1: Seq<u8>,
    t2: u32,
    v2: Seq<u8>,
    w: nat,
    cap: nat,
    rest: Seq<u8>,
)
    requires
        valid_width(w),
        v1.len() <= max_len(w),
        v1.len() <= cap,
        v2.len() <= max_len(w),
        v2.len() <= cap,
    ensures
        ({
            let s = tlv_bytes(t1, v1, w) + tlv_bytes(t2, v2, w) + rest;
            let n1 = tlv_bytes(t1, v1, w).len();
            &&& tlv_result(s, w, cap) == Ok::<Option<(u32, Seq<u8>, nat)>, Error>(
                Some((t1, v1, n1)),
            )
            &&& tlv_result(s.subrange(n1 as int, s.len() as int), w, cap) == Ok::<
                Option<(u32, Seq<u8>, nat)>,
                Error,
            >(Some((t2, v2, tlv_bytes(t2, v2, w).len())))
        }),
{
    let b1 = tlv_bytes(t1, v1, w);
    let s = b1 + tlv_bytes(t2, v2, w) + rest;
    assert(s =~= b1 + (tlv_bytes(t2, v2, w) + rest));
    lemma_tlv_round_trip(t1, v1, w, cap, tlv_bytes(t2, v2, w) + rest);
    assert(s.subrange(b1.len() as int, s.len() as int) =~= tlv_bytes(t2, v2, w) + rest);
    lemma_tlv_round_trip(t2, v2, w, cap, rest);
}

/// A record read takes no more bytes than there are.
pub proof fn lemma_tlv_taken_bound(s: Seq<u8>, w: nat, cap: nat)
    ensures
        tlv_taken(tlv_result(s, w, cap)) <= s.len(),
{
    leb128::lemma_uleb_decode_len(s);
}

/// Relies on byteorder's `BigEndian::read_u16`: the first two bytes, most
/// significant first.
#[verifier::external_body]
fn be_read_u16(buf: &[u8]) -> (r: u16)
    requires
        buf@.len() >= 2,
    ensures
        r as int == buf@[0] as int * 256 + buf@[1] as int,
{
    BigEndian::read_u16(buf)
}

/// Relies on byteorder's `BigEndian::read_u32`: the first four bytes, most
/// significant first.
#[verifier::external_body]
fn be_read_u32(buf: &[u8]) -> (r: u32)
    requires
        buf@.len() >= 4,
    ensures
        r as int == ((buf@[0] as int * 256 + buf@[1] as int) * 256 + buf@[2] as int) * 256
            + buf@[3] as int,
{
    BigEndian::read_u32(buf)
}

/// Relies on byteorder's `BigEndian::write_u16`: `n` into the first two
/// bytes, most significant first; the rest untouched.
#[verifier::external_body]
fn be_write_u16(buf: &mut [u8], n: u16)
    requires
        old(buf)@.len() >= 2,
    ensures
        final(buf)@ == old(buf)@.update(0, (n / 256) as u8).update(1, (n % 256) as u8),
{
    BigEndian::write_u16(buf, n)
}

/// Relies on byteorder's `BigEndian::write_u32`: `n` into the first four
/// bytes, most significant first; the rest untouched.
#[verifier::external_body]
fn be_write_u32(buf: &mut [u8], n: u32)
    requires
        old(buf)@.len() >= 4,
    ensures
        final(buf)@ == old(buf)@.update(0, (n / 0x100_0000) as u8).update(
            1,
            (n / 0x1_0000 % 256) as u8,
        ).update(2, (n / 256 % 256) as u8).update(3, (n % 256) as u8),
{
    BigEndian::write_u32(buf, n)
}

proof fn lemma_be_small(n: nat)
    ensures
        n < 256 ==> be_bytes(n, 1) == seq![n as u8],
        n < 0x1_0000 ==> be_bytes(n, 2) == seq![(n / 256) as u8, (n % 256) as u8],
        n < 0x1_0000_0000 ==> be_bytes(n, 4) == seq![
            (n / 0x100_0000) as u8,
            (n / 0x1_0000 % 256) as u8,
            (n / 256 % 256) as u8,
            (n % 256) as u8,
        ],
{
    reveal_with_fuel(be_bytes, 5);
    assert(n < 256 ==> be_bytes(n, 1) =~= seq![n as u8]);
    assert(n < 0x1_0000 ==> be_bytes(n, 2) =~= seq![(n / 256) as u8, (n % 256) as u8]);
    assert(n < 0x1_0000_0000 ==> be_bytes(n, 4) =~= seq![
        (n / 0x100_0000) as u8,
        (n / 0x1_0000 % 256) as u8,
        (n / 256 % 256) as u8,
        (n % 256) as u8,
    ]);
}

/// `r` is what a read described by `o` returns.
pub open spec fn lv_matches<'b>(
    r: Result<Option<&'b [u8]>, Error>,
    o: Result<Option<(Seq<u8>, nat)>, Error>,
) -> bool {
    match o {
        Err(e) => r == Err::<Option<&'b [u8]>, Error>(e),
        Ok(None) => r == Ok::<Option<&'b [u8]>, Error>(None),
        Ok(Some((v, _))) => r is Ok && r->Ok_0 is Some && r->Ok_0->Some_0@ == v,
    }
}

pub open spec fn tlv_matches<'b>(
    r: Result<Option<(u32, &'b [u8])>, Error>,
    o: Result<Option<(u32, Seq<u8>, nat)>, Error>,
) -> bool {
    match o {
        Err(e) => r == Err::<Option<(u32, &'b [u8])>, Error>(e),
        Ok(None) => r == Ok::<Option<(u32, &'b [u8])>, Error>(None),
        Ok(Some((t, v, _))) => r is Ok && r->Ok_0 is Some && r->Ok_0->Some_0.0 == t
            && r->Ok_0->Some_0.1@ == v,
    }
}

pub open spec fn atlv_matches<'c, 'b>(
    r: Result<Option<(&'c [u8], u32, &'b [u8])>, Error>,
    o: Result<Option<(Seq<u8>, u32, Seq<u8>, nat)>, Error>,
) -> bool {
    match o {
        Err(e) => r == Err::<Option<(&'c [u8], u32, &'b [u8])>, Error>(e),
        Ok(None) => r == Ok::<Option<(&'c [u8], u32, &'b [u8])>, Error>(None),
        Ok(Some((a, t, v, _))) => r is Ok && r->Ok_0 is Some && r->Ok_0->Some_0.0@ == a
            && r->Ok_0->Some_0.1 == t && r->Ok_0->Some_0.2@ == v,
    }
}

/// How many bytes a read described by `o` takes.
pub open spec fn lv_taken(o: Result<Option<(Seq<u8>, nat)>, Error>) -> nat {
    match o {
        Ok(Some((_, n))) => n,
        _ => 0,
    }
}

pub open spec fn tlv_taken(o: Result<Option<(u32, Seq<u8>, nat)>, Error>) -> nat {
    match o {
        Ok(Some((_, _, n))) => n,
        _ => 0,
    }
}

pub open spec fn atlv_taken(o: Result<Option<(Seq<u8>, u32, Seq<u8>, nat)>, Error>) -> nat {
    match o {
        Ok(Some((_, _, _, n))) => n,
        _ => 0,
    }
}

/// A reader of records from a byte slice. A read that finds too few bytes
/// returns `None`, and one that fails returns the error; neither moves the
/// read offset, so the read can be tried again on a longer input.
pub struct Reader<'a> {
    buf: &'a [u8],
    pos: usize,
}

impl<'a> Reader<'a> {
    pub closed spec fn wf(&self) -> bool {
        self.pos <= self.buf@.len() <= usize::MAX
    }

    pub closed spec fn data(&self) -> Seq<u8> {
        self.buf@
    }

    pub closed spec fn offset(&self) -> nat {
        self.pos as nat
    }

    /// The bytes not yet read.
    pub open spec fn rest(&self) -> Seq<u8> {
        self.data().subrange(self.offset() as int, self.data().len() as int)
    }

    /// `self` is `old` having taken `n` more bytes.
    pub open spec fn took(&self, old: Self, n: nat) -> bool {
        &&& self.wf()
        &&& self.data() == old.data()
        &&& self.offset() == old.offset() + n
    }

    pub fn new(buf: &'a [u8]) -> (r: Self)
        ensures
            r.wf(),
            r.data() == buf@,
            r.offset() == 0,
    {
        proof {
            assert(buf@.len() == buf.len());
        }
        Reader { buf, pos: 0 }
    }

    pub fn pos(&self) -> (r: usize)
        ensures
            r == self.offset(),
    {
        self.pos
    }

    pub fn remaining(&self) -> (r: usize)
        requires
            self.wf(),
        ensures
            r == self.rest().len(),
    {
        self.buf.len() - self.pos
    }

    fn as_ref(&self) -> (r: &[u8])
        requires
            self.wf(),
        ensures
            r@ == self.rest(),
    {
        &self.buf[self.pos..self.buf.len()]
    }

    /// Reads a LEB128 tag of at most 32 bits.
    pub fn read_tag(&mut self) -> (r: Result<Option<u32>, Error>)
        requires
            old(self).wf(),
        ensures
            match tag_result(old(self).rest()) {
                Err(e) => r == Err::<Option<u32>, Error>(e) && final(self).took(*old(self), 0),
                Ok(None) => r == Ok::<Option<u32>, Error>(None) && final(self).took(*old(self), 0),
                Ok(Some((t, k))) => r == Ok::<Option<u32>, Error>(Some(t)) && final(self).took(
                    *old(self),
                    k,
                ),
            },
    {
        let mut r = leb128::Reader::new(self.as_ref());
        assert(r.rest() =~= self.rest());
        match r.read_u32() {
            Err(e) => Err(Error::from(e)),
            Ok(None) => Ok(None),
            Ok(Some(v)) => {
                proof {
                    leb128::lemma_uleb_decode_len(old(self).rest());
                }
                self.pos += r.pos();
                Ok(Some(v))
            },
        }
    }

    pub fn read_u8(&mut self) -> (r: Result<Option<u8>, Error>)
        requires
            old(self).wf(),
        ensures
            old(self).rest().len() < 1 ==> r == Ok::<Option<u8>, Error>(None) && final(self).took(
                *old(self),
                0,
            ),
            old(self).rest().len() >= 1 ==> r == Ok::<Option<u8>, Error>(Some(old(self).rest()[0]))
                && final(self).took(*old(self), 1),
    {
        if self.remaining() < 1 {
            return Ok(None);
        }
        let value = self.buf[self.pos];
        self.pos += 1;
        Ok(Some(value))
    }

    /// Reads a big-endian `u16`.
    pub fn read_u16(&mut self) -> (r: Result<Option<u16>, Error>)
        requires
            old(self).wf(),
        ensures
            old(self).rest().len() < 2 ==> r == Ok::<Option<u16>, Error>(None) && final(self).took(
                *old(self),
                0,
            ),
            old(self).rest().len() >= 2 ==> r is Ok && r->Ok_0 is Some && r->Ok_0->Some_0
                == be_value(old(self).rest().subrange(0, 2)) && final(self).took(*old(self), 2),
    {
        if self.remaining() < 2 {
            return Ok(None);
        }
        let value = be_read_u16(self.as_ref());
        proof {
            reveal_with_fuel(be_value, 3);
            let s = self.rest().subrange(0, 2);
            assert(s.drop_last().drop_last() =~= Seq::<u8>::empty());
        }
        self.pos += 2;
        Ok(Some(value))
    }

    /// Reads a big-endian `u32`.
    pub fn read_u32(&mut self) -> (r: Result<Option<u32>, Error>)
        requires
            old(self).wf(),
        ensures
            old(self).rest().len() < 4 ==> r == Ok::<Option<u32>, Error>(None) && final(self).took(
                *old(self),
                0,
            ),
            old(self).rest().len() >= 4 ==> r is Ok && r->Ok_0 is Some && r->Ok_0->Some_0
                == be_value(old(self).rest().subrange(0, 4)) && final(self).took(*old(self), 4),
    {
        if self.remaining() < 4 {
            return Ok(None);
        }
        let value = be_read_u32(self.as_ref());
        proof {
            reveal_with_fuel(be_value, 5);
            let s = self.rest().subrange(0, 4);
            assert(s.drop_last().drop_last().drop_last().drop_last() =~= Seq::<u8>::empty());
        }
        self.pos += 4;
        Ok(Some(value))
    }

    /// Fills `buf` from the input, or returns `None` when fewer bytes than
    /// its length remain.
    pub fn read(&mut self, buf: &mut [u8]) -> (r: Result<Option<usize>, Error>)
        requires
            old(self).wf(),
        ensures
            final(buf)@.len() == old(buf)@.len(),
            old(buf)@.len() > old(self).rest().len() ==> r == Ok::<Option<usize>, Error>(None)
                && final(self).took(*old(self), 0) && final(buf)@ == old(buf)@,
            old(buf)@.len() <= old(self).rest().len() ==> r == Ok::<Option<usize>, Error>(
                Some(old(buf)@.len() as usize),
            ) && final(self).took(*old(self), old(buf)@.len()) && final(buf)@ == old(
                self,
            ).rest().subrange(0, old(buf)@.len() as int),
    {
        let len = buf.len();
        if len > self.remaining() {
            return Ok(None);
        }
        let pos = self.pos;
        let mut i: usize = 0;
        while i < len
            invariant
                *self == *old(self),
                self.wf(),
                pos == self.pos,
                len == buf@.len(),
                len <= self.buf@.len() - pos,
                i <= len,
                forall|j: int| 0 <= j < i ==> buf@[j] == self.buf@[pos + j],
            decreases len - i,
        {
            buf[i] = self.buf[pos + i];
            i += 1;
        }
        self.pos = pos + len;
        assert(buf@ =~= old(self).rest().subrange(0, len as int));
        Ok(Some(len))
    }

    /// Reads a length field of `w` bytes.
    fn read_len(&mut self, w: usize) -> (r: Option<usize>)
        requires
            old(self).wf(),
            valid_width(w as nat),
        ensures
            match len_field(old(self).rest(), w as nat) {
                None => r is None && final(self).took(*old(self), 0),
                Some(l) => r is Some && r->Some_0 == l && final(self).took(*old(self), w as nat),
            },
    {
        proof {
            if old(self).rest().len() >= w {
                lemma_be_value_bound(old(self).rest().subrange(0, w as int));
                lemma_max_len(w as nat);
            }
        }
        if w == 1 {
            proof {
                reveal_with_fuel(be_value, 2);
                if old(self).rest().len() >= 1 {
                    assert(old(self).rest().subrange(0, 1).drop_last() =~= Seq::<u8>::empty());
                }
            }
            match self.read_u8() {
                Ok(Some(v)) => Some(v as usize),
                _ => None,
            }
        } else if w == 2 {
            match self.read_u16() {
                Ok(Some(v)) => Some(v as usize),
                _ => None,
            }
        } else {
            match self.read_u32() {
                Ok(Some(v)) => Some(v as usize),
                _ => None,
            }
        }
    }

    fn read_lv<'b>(&mut self, w: usize, buf: &'b mut [u8]) -> (r: Result<Option<&'b [u8]>, Error>)
        requires
            old(self).wf(),
            valid_width(w as nat),
        ensures
            lv_matches(r, lv_result(old(self).rest(), w as nat, old(buf)@.len())),
            final(self).took(
                *old(self),
                lv_taken(lv_result(old(self).rest(), w as nat, old(buf)@.len())),
            ),
    {
        let start = self.pos;
        let len = match self.read_len(w) {
            Some(l) => l,
            None => return Ok(None),
        };
        proof {
            assert(self.rest() =~= old(self).rest().subrange(w as int, old(self).rest().len() as int));
        }
        if len > buf.len() {
            self.pos = start;
            return Err(Error::BufferTooShort);
        }
        let (head, _tail) = buf.split_at_mut(len);
        match self.read(head) {
            Ok(Some(_)) => {
                proof {
                    assert(head@ =~= old(self).rest().subrange(w as int, w + len));
                    assert(self.offset() == old(self).offset() + w + len);
                }
                Ok(Some(head))
            },
            _ => {
                self.pos = start;
                Ok(None)
            },
        }
    }

    fn read_tlv<'b>(&mut self, w: usize, buf: &'b mut [u8]) -> (r: Result<
        Option<(u32, &'b [u8])>,
        Error,
    >)
        requires
            old(self).wf(),
            valid_width(w as nat),
        ensures
            tlv_matches(r, tlv_result(old(self).rest(), w as nat, old(buf)@.len())),
            final(self).took(
                *old(self),
                tlv_taken(tlv_result(old(self).rest(), w as nat, old(buf)@.len())),
            ),
    {
        let start = self.pos;
        let tag = match self.read_tag() {
            Err(e) => return Err(e),
            Ok(None) => return Ok(None),
            Ok(Some(t)) => t,
        };
        proof {
            let k = self.offset() - old(self).offset();
            assert(self.rest() =~= old(self).rest().subrange(k, old(self).rest().len() as int));
        }
        match self.read_lv(w, buf) {
            Err(e) => {
                self.pos = start;
                Err(e)
            },
            Ok(None) => {
                self.pos = start;
                Ok(None)
            },
            Ok(Some(v)) => Ok(Some((tag, v))),
        }
    }

    fn read_atlv<'c, 'b>(&mut self, w: usize, abuf: &'c mut [u8], buf: &'b mut [u8]) -> (r: Result<
        Option<(&'c [u8], u32, &'b [u8])>,
        Error,
    >)
        requires
            old(self).wf(),
            valid_width(w as nat),
        ensures
            atlv_matches(
                r,
                atlv_result(old(self).rest(), w as nat, old(abuf)@.len(), old(buf)@.len()),
            ),
            final(self).took(
                *old(self),
                atlv_taken(atlv_result(old(self).rest(), w as nat, old(abuf)@.len(), old(buf)@.len())),
            ),
    {
        let start = self.pos;
        let addr = match self.read_lv(w, abuf) {
            Err(e) => return Err(e),
            Ok(None) => return Ok(None),
            Ok(Some(a)) => a,
        };
        proof {
            let k = self.offset() - old(self).offset();
            assert(self.rest() =~= old(self).rest().subrange(k, old(self).rest().len() as int));
        }
        match self.read_tlv(w, buf) {
            Err(e) => {
                self.pos = start;
                Err(e)
            },
            Ok(None) => {
                self.pos = start;
                Ok(None)
            },
            Ok(Some((tag, v))) => Ok(Some((addr, tag, v))),
        }
    }

    /// Reads a value with a 1-byte length into the front of `buf`.
    pub fn read_lv8<'b>(&mut self, buf: &'b mut [u8]) -> (r: Result<Option<&'b [u8]>, Error>)
        requires
            old(self).wf(),
        ensures
            lv_matches(r, lv_result(old(self).rest(), 1, old(buf)@.len())),
            final(self).took(*old(self), lv_taken(lv_result(old(self).rest(), 1, old(buf)@.len()))),
    {
        self.read_lv(1, buf)
    }

    /// Reads a value with a 2-byte length into the front of `buf`.
    pub fn read_lv16<'b>(&mut self, buf: &'b mut [u8]) -> (r: Result<Option<&'b [u8]>, Error>)
        requires
            old(self).wf(),
        ensures
            lv_matches(r, lv_result(old(self).rest(), 2, old(buf)@.len())),
            final(self).took(*old(self), lv_taken(lv_result(old(self).rest(), 2, old(buf)@.len()))),
    {
        self.read_lv(2, buf)
    }

    /// Reads a value with a 4-byte length into the front of `buf`.
    pub fn read_lv32<'b>(&mut self, buf: &'b mut [u8]) -> (r: Result<Option<&'b [u8]>, Error>)
        requires
            old(self).wf(),
        ensures
            lv_matches(r, lv_result(old(self).rest(), 4, old(buf)@.len())),
            final(self).took(*old(self), lv_taken(lv_result(old(self).rest(), 4, old(buf)@.len()))),
    {
        self.read_lv(4, buf)
    }

    /// Reads a record with a 1-byte length, its value into the front of
    /// `buf`.
    pub fn read_tlv8<'b>(&mut self, buf: &'b mut [u8]) -> (r: Result<
        Option<(u32, &'b [u8])>,
        Error,
    >)
        requires
            old(self).wf(),
        ensures
            tlv_matches(r, tlv_result(old(self).rest(), 1, old(buf)@.len())),
            final(self).took(
                *old(self),
                tlv_taken(tlv_result(old(self).rest(), 1, old(buf)@.len())),
            ),
    {
        self.read_tlv(1, buf)
    }

    /// Reads a record with a 2-byte length, its value into the front of
    /// `buf`.
    pub fn read_tlv16<'b>(&mut self, buf: &'b mut [u8]) -> (r: Result<
        Option<(u32, &'b [u8])>,
        Error,
    >)
        requires
            old(self).wf(),
        ensures
            tlv_matches(r, tlv_result(old(self).rest(), 2, old(buf)@.len())),
            final(self).took(
                *old(self),
                tlv_taken(tlv_result(old(self).rest(), 2, old(buf)@.len())),
            ),
    {
        self.read_tlv(2, buf)
    }

    /// Reads a record with a 4-byte length, its value into the front of
    /// `buf`.
    pub fn read_tlv32<'b>(&mut self, buf: &'b mut [u8]) -> (r: Result<
        Option<(u32, &'b [u8])>,
        Error,
    >)
        requires
            old(self).wf(),
        ensures
            tlv_matches(r, tlv_result(old(self).rest(), 4, old(buf)@.len())),
            final(self).took(
                *old(self),
                tlv_taken(tlv_result(old(self).rest(), 4, old(buf)@.len())),
            ),
    {
        self.read_tlv(4, buf)
    }

    /// Reads an addressed record with 1-byte lengths, the address into
    /// `abuf` and the value into `buf`.
    pub fn read_atlv8<'c, 'b>(&mut self, abuf: &'c mut [u8], buf: &'b mut [u8]) -> (r: Result<
        Option<(&'c [u8], u32, &'b [u8])>,
        Error,
    >)
        requires
            old(self).wf(),
        ensures
            atlv_matches(r, atlv_result(old(self).rest(), 1, old(abuf)@.len(), old(buf)@.len())),
            final(self).took(
                *old(self),
                atlv_taken(atlv_result(old(self).rest(), 1, old(abuf)@.len(), old(buf)@.len())),
            ),
    {
        self.read_atlv(1, abuf, buf)
    }

    /// Reads an addressed record with 2-byte lengths, the address into
    /// `abuf` and the value into `buf`.
    pub fn read_atlv16<'c, 'b>(&mut self, abuf: &'c mut [u8], buf: &'b mut [u8]) -> (r: Result<
        Option<(&'c [u8], u32, &'b [u8])>,
        Error,
    >)
        requires
            old(self).wf(),
        ensures
            atlv_matches(r, atlv_result(old(self).rest(), 2, old(abuf)@.len(), old(buf)@.len())),
            final(self).took(
                *old(self),
                atlv_taken(atlv_result(old(self).rest(), 2, old(abuf)@.len(), old(buf)@.len())),
            ),
    {
        self.read_atlv(2, abuf, buf)
    }

    /// Reads an addressed record with 4-byte lengths, the address into
    /// `abuf` and the value into `buf`.
    pub fn read_atlv32<'c, 'b>(&mut self, abuf: &'c mut [u8], buf: &'b mut [u8]) -> (r: Result<
        Option<(&'c [u8], u32, &'b [u8])>,
        Error,
    >)
        requires
            old(self).wf(),
        ensures
            atlv_matches(r, atlv_result(old(self).rest(), 4, old(abuf)@.len(), old(buf)@.len())),
            final(self).took(
                *old(self),
                atlv_taken(atlv_result(old(self).rest(), 4, old(abuf)@.len(), old(buf)@.len())),
            ),
    {
        self.read_atlv(4, abuf, buf)
    }
}

/// A writer of records into a caller-owned buffer. A write that does not
/// fit fails with `BufferTooShort`, and one whose length does not fit its
/// field fails with `OutOfRange`; neither writes anything.
pub struct Writer<'a> {
    buf: &'a mut [u8],
    pos: usize,
}

impl<'a> Writer<'a> {
    pub closed spec fn wf(&self) -> bool {
        self.pos <= self.buf@.len() <= usize::MAX
    }

    /// The bytes written so far.
    pub closed spec fn written(&self) -> Seq<u8> {
        self.buf@.subrange(0, self.pos as int)
    }

    pub closed spec fn capacity(&self) -> nat {
        self.buf@.len()
    }

    /// `self` is `old` with `bytes` appended.
    pub open spec fn appended(&self, old: Self, bytes: Seq<u8>) -> bool {
        &&& self.wf()
        &&& self.capacity() == old.capacity()
        &&& self.written() == old.written() + bytes
    }

    /// The outcome `r` of a write of `bytes` whose lengths fit their fields
    /// when `in_range` holds.
    pub open spec fn put(&self, old: Self, bytes: Seq<u8>, in_range: bool, r: Result<usize, Error>) -> bool {
        if !in_range {
            r == Err::<usize, Error>(Error::OutOfRange) && self.appended(old, Seq::empty())
        } else if old.written().len() + bytes.len() > old.capacity() {
            r == Err::<usize, Error>(Error::BufferTooShort) && self.appended(old, Seq::empty())
        } else {
            r == Ok::<usize, Error>(bytes.len() as usize) && self.appended(old, bytes)
        }
    }

    pub fn new(buf: &'a mut [u8]) -> (r: Self)
        ensures
            r.wf(),
            r.written() == Seq::<u8>::empty(),
            r.capacity() == old(buf)@.len(),
    {
        proof {
            assert(buf@.len() == buf.len());
        }
        let r = Writer { buf, pos: 0 };
        assert(r.written() =~= Seq::<u8>::empty());
        r
    }

    pub fn pos(&self) -> (r: usize)
        requires
            self.wf(),
        ensures
            r == self.written().len(),
    {
        self.pos
    }

    pub fn cap(&self) -> (r: usize)
        ensures
            r == self.capacity(),
    {
        self.buf.len()
    }

    pub fn remaining(&self) -> (r: usize)
        requires
            self.wf(),
        ensures
            r == self.capacity() - self.written().len(),
    {
        self.buf.len() - self.pos
    }

    pub fn as_ref(&self) -> (r: &[u8])
        requires
            self.wf(),
        ensures
            r@ == self.written(),
    {
        &self.buf[0..self.pos]
    }

    /// Forgets everything written, so that the buffer can be reused.
    pub fn reset(&mut self)
        requires
            old(self).wf(),
        ensures
            final(self).wf(),
            final(self).capacity() == old(self).capacity(),
            final(self).written() == Seq::<u8>::empty(),
    {
        self.pos = 0;
        assert(self.written() =~= Seq::<u8>::empty());
    }

    /// The free space after what has been written.
    fn as_mut(&mut self) -> (r: &mut [u8])
        requires
            old(self).wf(),
        ensures
            r@ == old(self).buf@.subrange(old(self).pos as int, old(self).buf@.len() as int),
            final(self).pos == old(self).pos,
            final(self).buf@ == old(self).buf@.subrange(0, old(self).pos as int) + final(r)@,
    {
        let (_head, rest) = self.buf.split_at_mut(self.pos);
        rest
    }

    /// Writes a LEB128 tag.
    pub fn write_tag(&mut self, tag: u32) -> (r: Result<usize, Error>)
        requires
            old(self).wf(),
        ensures
            final(self).put(*old(self), uleb_encode(tag as nat), true, r),
    {
        let ghost w = self.written();
        let pos = self.pos;
        let res = leb128::encode_u32(tag, self.as_mut());
        proof {
            assert(self.buf@.subrange(0, pos as int) =~= w);
        }
        match res {
            Ok(n) => {
                self.pos = pos + n;
                assert(self.written() =~= w + uleb_encode(tag as nat));
                Ok(n)
            },
            Err(e) => {
                assert(self.written() =~= w + Seq::<u8>::empty());
                Err(Error::from(e))
            },
        }
    }

    pub fn write_u8(&mut self, value: u8) -> (r: Result<usize, Error>)
        requires
            old(self).wf(),
        ensures
            final(self).put(*old(self), seq![value], true, r),
    {
        let ghost w = self.written();
        if self.remaining() < 1 {
            assert(w + Seq::<u8>::empty() =~= w);
            return Err(Error::BufferTooShort);
        }
        self.buf[self.pos] = value;
        self.pos += 1;
        assert(self.written() =~= w + seq![value]);
        Ok(1)
    }

    /// Writes a big-endian `u16`.
    pub fn write_u16(&mut self, value: u16) -> (r: Result<usize, Error>)
        requires
            old(self).wf(),
        ensures
            final(self).put(*old(self), be_bytes(value as nat, 2), true, r),
    {
        let ghost w = self.written();
        proof {
            lemma_be_small(value as nat);
        }
        if self.remaining() < 2 {
            assert(w + Seq::<u8>::empty() =~= w);
            return Err(Error::BufferTooShort);
        }
        let pos = self.pos;
        be_write_u16(self.as_mut(), value);
        self.pos = pos + 2;
        assert(self.written() =~= w + be_bytes(value as nat, 2));
        Ok(2)
    }

    /// Writes a big-endian `u32`.
    pub fn write_u32(&mut self, value: u32) -> (r: Result<usize, Error>)
        requires
            old(self).wf(),
        ensures
            final(self).put(*old(self), be_bytes(value as nat, 4), true, r),
    {
        let ghost w = self.written();
        proof {
            lemma_be_small(value as nat);
        }
        if self.remaining() < 4 {
            assert(w + Seq::<u8>::empty() =~= w);
            return Err(Error::BufferTooShort);
        }
        let pos = self.pos;
        be_write_u32(self.as_mut(), value);
        self.pos = pos + 4;
        assert(self.written() =~= w + be_bytes(value as nat, 4));
        Ok(4)
    }

    /// Writes raw bytes.
    pub fn write(&mut self, value: &[u8]) -> (r: Result<usize, Error>)
        requires
            old(self).wf(),
        ensures
            final(self).put(*old(self), value@, true, r),
    {
        let ghost w = self.written();
        let len = value.len();
        if self.remaining() < len {
            assert(w + Seq::<u8>::empty() =~= w);
            return Err(Error::BufferTooShort);
        }
        let pos = self.pos;
        let mut i: usize = 0;
        while i < len
            invariant
                self.wf(),
                self.capacity() == old(self).capacity(),
                pos == self.pos,
                w == old(self).written(),
                len == value@.len(),
                pos + len <= self.buf@.len(),
                i <= len,
                forall|j: int| 0 <= j < pos ==> self.buf@[j] == w[j],
                forall|j: int| 0 <= j < i ==> self.buf@[pos + j] == value@[j],
            decreases len - i,
        {
            self.buf[pos + i] = value[i];
            i += 1;
        }
        self.pos = pos + len;
        assert(self.written() =~= w + value@);
        Ok(len)
    }

    /// Writes a length field of `w` bytes, which `len` fits.
    fn write_len(&mut self, w: usize, len: usize) -> (r: Result<usize, Error>)
        requires
            old(self).wf(),
            valid_width(w as nat),
            len <= max_len(w as nat),
        ensures
            final(self).put(*old(self), be_bytes(len as nat, w as nat), true, r),
    {
        proof {
            lemma_be_small(len as nat);
        }
        if w == 1 {
            self.write_u8(len as u8)
        } else if w == 2 {
            self.write_u16(len as u16)
        } else {
            self.write_u32(len as u32)
        }
    }

    fn write_lv(&mut self, w: usize, value: &[u8]) -> (r: Result<usize, Error>)
        requires
            old(self).wf(),
            valid_width(w as nat),
        ensures
            final(self).put(*old(self), lv_bytes(value@, w as nat), value@.len() <= max_len(w as nat), r),
    {
        let ghost w0 = self.written();
        proof {
            lemma_be_round_trip(value@.len(), w as nat, Seq::empty());
        }
        let len = value.len();
        let max: usize = if w == 1 {
            0xFF
        } else if w == 2 {
            0xFFFF
        } else {
            0xFFFF_FFFF
        };
        assert(w0 + Seq::<u8>::empty() =~= w0);
        if len > max {
            return Err(Error::OutOfRange);
        }
        if self.remaining() < w || self.remaining() - w < len {
            return Err(Error::BufferTooShort);
        }
        let a = match self.write_len(w, len) {
            Ok(n) => n,
            Err(e) => return Err(e),
        };
        let b = match self.write(value) {
            Ok(n) => n,
            Err(e) => return Err(e),
        };
        assert(w0 + be_bytes(len as nat, w as nat) + value@ =~= w0 + lv_bytes(value@, w as nat));
        Ok(a + b)
    }

    fn write_tlv(&mut self, w: usize, tag: u32, value: &[u8]) -> (r: Result<usize, Error>)
        requires
            old(self).wf(),
            valid_width(w as nat),
        ensures
            final(self).put(
                *old(self),
                tlv_bytes(tag, value@, w as nat),
                value@.len() <= max_len(w as nat),
                r,
            ),
    {
        let ghost w0 = self.written();
        proof {
            lemma_be_round_trip(value@.len(), w as nat, Seq::empty());
        }
        let len = value.len();
        let max: usize = if w == 1 {
            0xFF
        } else if w == 2 {
            0xFFFF
        } else {
            0xFFFF_FFFF
        };
        assert(w0 + Seq::<u8>::empty() =~= w0);
        if len > max {
            return Err(Error::OutOfRange);
        }
        let tl = leb128::u32_len(tag);
        let room = self.remaining();
        if room < tl || room - tl < w || room - tl - w < len {
            return Err(Error::BufferTooShort);
        }
        let a = match self.write_tag(tag) {
            Ok(n) => n,
            Err(e) => return Err(e),
        };
        let b = match self.write_lv(w, value) {
            Ok(n) => n,
            Err(e) => return Err(e),
        };
        assert(w0 + uleb_encode(tag as nat) + lv_bytes(value@, w as nat) =~= w0 + tlv_bytes(
            tag,
            value@,
            w as nat,
        ));
        Ok(a + b)
    }

    fn write_atlv(&mut self, w: usize, addr: &[u8], tag: u32, value: &[u8]) -> (r: Result<
        usize,
        Error,
    >)
        requires
            old(self).wf(),
            valid_width(w as nat),
        ensures
            final(self).put(
                *old(self),
                atlv_bytes(addr@, tag, value@, w as nat),
                addr@.len() <= max_len(w as nat) && value@.len() <= max_len(w as nat),
                r,
            ),
    {
        let ghost w0 = self.written();
        proof {
            lemma_be_round_trip(value@.len(), w as nat, Seq::empty());
            lemma_be_round_trip(addr@.len(), w as nat, Seq::empty());
        }
        let alen = addr.len();
        let len = value.len();
        let max: usize = if w == 1 {
            0xFF
        } else if w == 2 {
            0xFFFF
        } else {
            0xFFFF_FFFF
        };
        assert(w0 + Seq::<u8>::empty() =~= w0);
        if alen > max || len > max {
            return Err(Error::OutOfRange);
        }
        let tl = leb128::u32_len(tag);
        let room = self.remaining();
        if room < w || room - w < alen || room - w - alen < tl || room - w - alen - tl < w || room
            - w - alen - tl - w < len {
            return Err(Error::BufferTooShort);
        }
        let a = match self.write_lv(w, addr) {
            Ok(n) => n,
            Err(e) => return Err(e),
        };
        let b = match self.write_tag(tag) {
            Ok(n) => n,
            Err(e) => return Err(e),
        };
        let c = match self.write_lv(w, value) {
            Ok(n) => n,
            Err(e) => return Err(e),
        };
        assert(w0 + lv_bytes(addr@, w as nat) + uleb_encode(tag as nat) + lv_bytes(value@, w as nat)
            =~= w0 + atlv_bytes(addr@, tag, value@, w as nat));
        Ok(a + b + c)
    }

    /// Writes `value` with a 1-byte length.
    pub fn write_lv8(&mut self, value: &[u8]) -> (r: Result<usize, Error>)
        requires
            old(self).wf(),
        ensures
            final(self).put(*old(self), lv_bytes(value@, 1), value@.len() <= max_len(1), r),
    {
        self.write_lv(1, value)
    }

    /// Writes `value` with a 2-byte length.
    pub fn write_lv16(&mut self, value: &[u8]) -> (r: Result<usize, Error>)
        requires
            old(self).wf(),
        ensures
            final(self).put(*old(self), lv_bytes(value@, 2), value@.len() <= max_len(2), r),
    {
        self.write_lv(2, value)
    }

    /// Writes `value` with a 4-byte length.
    pub fn write_lv32(&mut self, value: &[u8]) -> (r: Result<usize, Error>)
        requires
            old(self).wf(),
        ensures
            final(self).put(*old(self), lv_bytes(value@, 4), value@.len() <= max_len(4), r),
    {
        self.write_lv(4, value)
    }

    /// Writes a record with a 1-byte length.
    pub fn write_tlv8(&mut self, tag: u32, value: &[u8]) -> (r: Result<usize, Error>)
        requires
            old(self).wf(),
        ensures
            final(self).put(*old(self), tlv_bytes(tag, value@, 1), value@.len() <= max_len(1), r),
    {
        self.write_tlv(1, tag, value)
    }

    /// Writes a record with a 2-byte length.
    pub fn write_tlv16(&mut self, tag: u32, value: &[u8]) -> (r: Result<usize, Error>)
        requires
            old(self).wf(),
        ensures
            final(self).put(*old(self), tlv_bytes(tag, value@, 2), value@.len() <= max_len(2), r),
    {
        self.write_tlv(2, tag, value)
    }

    /// Writes a record with a 4-byte length.
    pub fn write_tlv32(&mut self, tag: u32, value: &[u8]) -> (r: Result<usize, Error>)
        requires
            old(self).wf(),
        ensures
            final(self).put(*old(self), tlv_bytes(tag, value@, 4), value@.len() <= max_len(4), r),
    {
        self.write_tlv(4, tag, value)
    }

    /// Writes an addressed record with 1-byte lengths.
    pub fn write_atlv8(&mut self, addr: &[u8], tag: u32, value: &[u8]) -> (r: Result<usize, Error>)
        requires
            old(self).wf(),
        ensures
            final(self).put(
                *old(self),
                atlv_bytes(addr@, tag, value@, 1),
                addr@.len() <= max_len(1) && value@.len() <= max_len(1),
                r,
            ),
    {
        self.write_atlv(1, addr, tag, value)
    }

    /// Writes an addressed record with 2-byte lengths.
    pub fn write_atlv16(&mut self, addr: &[u8], tag: u32, value: &[u8]) -> (r: Result<usize, Error>)
        requires
            old(self).wf(),
        ensures
            final(self).put(
                *old(self),
                atlv_bytes(addr@, tag, value@, 2),
                addr@.len() <= max_len(2) && value@.len() <= max_len(2),
                r,
            ),
    {
        self.write_atlv(2, addr, tag, value)
    }

    /// Writes an addressed record with 4-byte lengths.
    pub fn write_atlv32(&mut self, addr: &[u8], tag: u32, value: &[u8]) -> (r: Result<usize, Error>)
        requires
            old(self).wf(),
        ensures
            final(self).put(
                *old(self),
                atlv_bytes(addr@, tag, value@, 4),
                addr@.len() <= max_len(4) && value@.len() <= max_len(4),
                r,
            ),
    {
        self.write_atlv(4, addr, tag, value)
    }
}

} // verus!
