//! LEB128 variable-length integers: seven data bits per byte, least
//! significant group first, high bit set on every byte but the last.
use vstd::prelude::*;
use vstd::arithmetic::div_mod::lemma_fundamental_div_mod_converse;

verus! {

#[derive(Debug, PartialEq, Eq, Clone, Copy)]
pub enum Error {
    BufferTooShort,
    OutOfRange,
}

pub open spec fn pow128(k: nat) -> nat
    decreases k,
{
    if k == 0 {
        1
    } else {
        128 * pow128((k - 1) as nat)
    }
}

/// The canonical unsigned encoding of `v`.
pub open spec fn uleb_encode(v: nat) -> Seq<u8>
    decreases v,
{
    if v < 128 {
        seq![v as u8]
    } else {
        seq![(v % 128 + 128) as u8] + uleb_encode(v / 128)
    }
}

/// Whether the signed encoding of `v` ends with its low seven bits: what is
/// left above them is only the sign, and bit 6 agrees with it.
pub open spec fn sleb_stops(v: int) -> bool {
    (v / 128 == 0 && v % 128 < 64) || (v / 128 == -1 && v % 128 >= 64)
}

/// The canonical signed (two's complement) encoding of `v`.
pub open spec fn sleb_encode(v: int) -> Seq<u8>
    decreases (if v >= 0 {
        v
    } else {
        -v - 1
    }),
{
    if sleb_stops(v) {
        seq![(v % 128) as u8]
    } else {
        seq![(v % 128 + 128) as u8] + sleb_encode(v / 128)
    }
}

/// Reads an unsigned value from the front of `s`: its value and the number
/// of bytes it takes, or `None` when `s` ends before a final byte.
pub open spec fn uleb_decode(s: Seq<u8>) -> Option<(nat, nat)>
    decreases s.len(),
{
    if s.len() == 0 {
        None
    } else if s[0] < 128 {
        Some((s[0] as nat, 1nat))
    } else {
        match uleb_decode(s.drop_first()) {
            Some((v, k)) => Some(((s[0] - 128) as nat + 128 * v, k + 1)),
            None => None,
        }
    }
}

/// Reads a signed value from the front of `s`; the final byte's bit 6 is
/// its sign.
pub open spec fn sleb_decode(s: Seq<u8>) -> Option<(int, nat)>
    decreases s.len(),
{
    if s.len() == 0 {
        None
    } else if s[0] < 128 {
        Some(
            (
                if s[0] >= 64 {
                    s[0] - 128
                } else {
                    s[0] as int
                },
                1nat,
            ),
        )
    } else {
        match sleb_decode(s.drop_first()) {
            Some((v, k)) => Some(((s[0] - 128) + 128 * v, k + 1)),
            None => None,
        }
    }
}

/// What reading a `u32` from the front of `s` gives: nothing yet, the value
/// and its length, or `OutOfRange` for more than five bytes or a value of
/// more than 32 bits.
pub open spec fn u32_result(s: Seq<u8>) -> Result<Option<(u32, nat)>, Error> {
    match uleb_decode(s) {
        None => Ok(None),
        Some((v, k)) => if k <= 5 && v <= u32::MAX {
            Ok(Some((v as u32, k)))
        } else {
            Err(Error::OutOfRange)
        },
    }
}

/// What reading an `i32` from the front of `s` gives.
pub open spec fn i32_result(s: Seq<u8>) -> Result<Option<(i32, nat)>, Error> {
    match sleb_decode(s) {
        None => Ok(None),
        Some((v, k)) => if k <= 5 && i32::MIN <= v <= i32::MAX {
            Ok(Some((v as i32, k)))
        } else {
            Err(Error::OutOfRange)
        },
    }
}

/// A value read takes at least one byte and no more than there are.
pub proof fn lemma_uleb_decode_len(s: Seq<u8>)
    ensures
        uleb_decode(s) is Some ==> 1 <= uleb_decode(s)->Some_0.1 <= s.len(),
    decreases s.len(),
{
    if s.len() > 0 && s[0] >= 128 {
        lemma_uleb_decode_len(s.drop_first());
    }
}

/// Unsigned round trip: an encoded value reads back, whatever follows it.
pub proof fn lemma_uleb_round_trip(v: nat, t: Seq<u8>)
    ensures
        uleb_decode(uleb_encode(v) + t) == Some((v, uleb_encode(v).len())),
    decreases v,
{
    let e = uleb_encode(v);
    if v < 128 {
        assert((e + t)[0] == v as u8);
    } else {
        lemma_uleb_round_trip(v / 128, t);
        assert((e + t).drop_first() =~= uleb_encode(v / 128) + t);
        assert((e + t)[0] == (v % 128 + 128) as u8);
    }
}

/// Signed round trip: an encoded value reads back, whatever follows it.
pub proof fn lemma_sleb_round_trip(v: int, t: Seq<u8>)
    ensures
        sleb_decode(sleb_encode(v) + t) == Some((v, sleb_encode(v).len())),
    decreases (if v >= 0 {
        v
    } else {
        -v - 1
    }),
{
    let e = sleb_encode(v);
    if sleb_stops(v) {
        assert((e + t)[0] == (v % 128) as u8);
    } else {
        lemma_sleb_round_trip(v / 128, t);
        assert((e + t).drop_first() =~= sleb_encode(v / 128) + t);
        assert((e + t)[0] == (v % 128 + 128) as u8);
    }
}

/// Every 32-bit value encodes in at most five bytes, and its encoding reads
/// back as a `u32`.
pub proof fn lemma_u32_round_trip(v: u32, t: Seq<u8>)
    ensures
        uleb_encode(v as nat).len() <= 5,
        u32_result(uleb_encode(v as nat) + t) == Ok::<Option<(u32, nat)>, Error>(
            Some((v, uleb_encode(v as nat).len())),
        ),
{
    lemma_uleb_len(v);
    lemma_uleb_round_trip(v as nat, t);
}

/// Every signed 32-bit value encodes in at most five bytes, and its encoding
/// reads back as an `i32`.
pub proof fn lemma_i32_round_trip(v: i32, t: Seq<u8>)
    ensures
        sleb_encode(v as int).len() <= 5,
        i32_result(sleb_encode(v as int) + t) == Ok::<Option<(i32, nat)>, Error>(
            Some((v, sleb_encode(v as int).len())),
        ),
{
    lemma_sleb_len(v);
    lemma_sleb_round_trip(v as int, t);
}

/// The unsigned encoding is minimal: `v` takes `k` bytes or fewer exactly
/// when it is below `128^k`.
pub proof fn lemma_uleb_minimal(v: nat, k: nat)
    requires
        k >= 1,
    ensures
        uleb_encode(v).len() <= k <==> v < pow128(k),
    decreases v, k,
{
    if v < 128 {
        lemma_pow128_pos((k - 1) as nat);
        assert(pow128(k) == 128 * pow128((k - 1) as nat));
    } else {
        if k == 1 {
            reveal_with_fuel(uleb_encode, 2);
            assert(pow128(1) == 128 * pow128(0));
        } else {
            lemma_uleb_minimal(v / 128, (k - 1) as nat);
            let p = pow128((k - 1) as nat);
            assert(pow128(k) == 128 * p);
            assert(uleb_encode(v).len() == 1 + uleb_encode(v / 128).len());
            assert(v / 128 < p <==> v < 128 * p) by {
                assert(v == 128 * (v / 128) + v % 128);
            }
        }
    }
}

/// The signed encoding is minimal: `v` takes `k` bytes or fewer exactly
/// when it lies in `-64 * 128^(k-1) .. 64 * 128^(k-1)`.
pub proof fn lemma_sleb_minimal(v: int, k: nat)
    requires
        k >= 1,
    ensures
        sleb_encode(v).len() <= k <==> -64 * pow128((k - 1) as nat) <= v < 64 * pow128(
            (k - 1) as nat,
        ),
    decreases (if v >= 0 {
        v
    } else {
        -v - 1
    }),
{
    let p = pow128((k - 1) as nat);
    lemma_pow128_pos((k - 1) as nat);
    assert(v == 128 * (v / 128) + v % 128);
    if sleb_stops(v) {
        assert(-64 <= v < 64);
    } else {
        assert(!(-64 <= v < 64));
        assert(sleb_encode(v).len() == 1 + sleb_encode(v / 128).len());
        if k == 1 {
            assert(pow128(0) == 1);
        } else {
            lemma_sleb_minimal(v / 128, (k - 1) as nat);
            let q = pow128((k - 2) as nat);
            assert(p == 128 * q);
        }
    }
}

proof fn lemma_pow128_pos(k: nat)
    ensures
        pow128(k) >= 1,
    decreases k,
{
    if k > 0 {
        lemma_pow128_pos((k - 1) as nat);
    }
}

proof fn lemma_uleb_len(v: u32)
    ensures
        uleb_encode(v as nat).len() == if v < 0x80 {
            1int
        } else if v < 0x4000 {
            2
        } else if v < 0x20_0000 {
            3
        } else if v < 0x1000_0000 {
            4
        } else {
            5
        },
{
    reveal_with_fuel(uleb_encode, 6);
}

proof fn lemma_sleb_len(v: i32)
    ensures
        sleb_encode(v as int).len() == if -0x40 <= v < 0x40 {
            1int
        } else if -0x2000 <= v < 0x2000 {
            2
        } else if -0x10_0000 <= v < 0x10_0000 {
            3
        } else if -0x800_0000 <= v < 0x800_0000 {
            4
        } else {
            5
        },
{
    reveal_with_fuel(sleb_encode, 6);
}

/// The number of bytes that `write_u32` takes for `v`.
pub fn u32_len(v: u32) -> (r: usize)
    ensures
        r == uleb_encode(v as nat).len(),
        1 <= r <= 5,
{
    proof {
        lemma_uleb_len(v);
    }
    if v < 0x80 {
        1
    } else if v < 0x4000 {
        2
    } else if v < 0x20_0000 {
        3
    } else if v < 0x1000_0000 {
        4
    } else {
        5
    }
}

/// The number of bytes that `write_i32` takes for `v`.
pub fn i32_len(v: i32) -> (r: usize)
    ensures
        r == sleb_encode(v as int).len(),
        1 <= r <= 5,
{
    proof {
        lemma_sleb_len(v);
    }
    if -0x40 <= v && v < 0x40 {
        1
    } else if -0x2000 <= v && v < 0x2000 {
        2
    } else if -0x10_0000 <= v && v < 0x10_0000 {
        3
    } else if -0x800_0000 <= v && v < 0x800_0000 {
        4
    } else {
        5
    }
}

spec fn lift_u(acc: nat, mult: nat, i: nat, o: Option<(nat, nat)>) -> Option<(nat, nat)> {
    match o {
        None => None,
        Some((v, k)) => Some((acc + mult * v, k + i)),
    }
}

spec fn lift_s(acc: int, mult: int, i: nat, o: Option<(int, nat)>) -> Option<(int, nat)> {
    match o {
        None => None,
        Some((v, k)) => Some((acc + mult * v, k + i)),
    }
}

proof fn lemma_lift_u_step(acc: nat, mult: nat, i: nat, t: Seq<u8>)
    requires
        t.len() > 0,
        t[0] >= 128,
    ensures
        lift_u(acc, mult, i, uleb_decode(t)) == lift_u(
            acc + mult * (t[0] - 128) as nat,
            mult * 128,
            i + 1,
            uleb_decode(t.drop_first()),
        ),
{
    match uleb_decode(t.drop_first()) {
        Some((v, k)) => {
            let b = (t[0] - 128) as nat;
            assert(acc + mult * (b + 128 * v) == acc + mult * b + (mult * 128) * v)
                by (nonlinear_arith);
        },
        None => {},
    }
}

proof fn lemma_lift_s_step(acc: int, mult: int, i: nat, t: Seq<u8>)
    requires
        t.len() > 0,
        t[0] >= 128,
    ensures
        lift_s(acc, mult, i, sleb_decode(t)) == lift_s(
            acc + mult * (t[0] - 128),
            mult * 128,
            i + 1,
            sleb_decode(t.drop_first()),
        ),
{
    match sleb_decode(t.drop_first()) {
        Some((v, k)) => {
            let b = t[0] - 128;
            assert(acc + mult * (b + 128 * v) == acc + mult * b + (mult * 128) * v)
                by (nonlinear_arith);
        },
        None => {},
    }
}

/// Past five continuation bytes a value can no longer be read: it is either
/// incomplete or too long.
proof fn lemma_scan_step(t: Seq<u8>)
    requires
        t.len() > 0,
        t[0] >= 128,
    ensures
        uleb_decode(t) is None <==> uleb_decode(t.drop_first()) is None,
        sleb_decode(t) is None <==> sleb_decode(t.drop_first()) is None,
{
}

/// Writes the canonical encoding of `value` at the front of `dst`,
/// returning its length; the rest of `dst` is left as it was. Fails with
/// `BufferTooShort`, writing nothing, when it does not fit.
pub fn encode_u32(value: u32, dst: &mut [u8]) -> (r: Result<usize, Error>)
    ensures
        final(dst)@.len() == old(dst)@.len(),
        uleb_encode(value as nat).len() > old(dst)@.len() ==> r == Err::<usize, Error>(
            Error::BufferTooShort,
        ) && final(dst)@ == old(dst)@,
        uleb_encode(value as nat).len() <= old(dst)@.len() ==> r == Ok::<usize, Error>(
            uleb_encode(value as nat).len() as usize,
        ) && final(dst)@ == uleb_encode(value as nat) + old(dst)@.subrange(
            uleb_encode(value as nat).len() as int,
            old(dst)@.len() as int,
        ),
{
    let n = u32_len(value);
    if dst.len() < n {
        return Err(Error::BufferTooShort);
    }
    let ghost all = uleb_encode(value as nat);
    let ghost done: Seq<u8> = Seq::empty();
    let mut v = value;
    let mut d: usize = 0;
    assert(Seq::<u8>::empty() + all =~= all);
    loop
        invariant
            all == uleb_encode(value as nat),
            all.len() <= old(dst)@.len(),
            dst@.len() == old(dst)@.len(),
            d == done.len(),
            done + uleb_encode(v as nat) == all,
            forall|j: int| 0 <= j < d ==> dst@[j] == done[j],
            forall|j: int| d <= j < dst@.len() ==> dst@[j] == old(dst)@[j],
        decreases v,
    {
        let low = (v % 128) as u8;
        let next = v / 128;
        let b = if next != 0 {
            low + 128
        } else {
            low
        };
        let ghost rest = if next != 0 {
            uleb_encode(next as nat)
        } else {
            Seq::<u8>::empty()
        };
        proof {
            assert(uleb_encode(v as nat) =~= seq![b] + rest);
            assert(done.push(b) + rest =~= done + uleb_encode(v as nat));
        }
        dst[d] = b;
        d += 1;
        proof {
            done = done.push(b);
        }
        if next == 0 {
            assert(done =~= all);
            assert(dst@ =~= all + old(dst)@.subrange(all.len() as int, old(dst)@.len() as int));
            return Ok(d);
        }
        v = next;
    }
}

/// A reader of LEB128 values from a byte slice.
pub struct Reader<'a> {
    buf: &'a [u8],
    pos: usize,
}

impl<'a> Reader<'a> {
    pub closed spec fn wf(&self) -> bool {
        self.pos <= self.buf@.len()
    }

    pub closed spec fn data(&self) -> Seq<u8> {
        self.buf@
    }

    pub closed spec fn offset(&self) -> nat {
        self.pos as nat
    }

    /// The bytes not yet read.
    pub open spec fn rest(&self) -> Seq<u8> {
        self.data().subrange(self.offset() as int, self.data().len() as int)
    }

    pub fn new(buf: &'a [u8]) -> (r: Self)
        ensures
            r.wf(),
            r.data() == buf@,
            r.offset() == 0,
    {
        Reader { buf, pos: 0 }
    }

    pub fn len(&self) -> (r: usize)
        ensures
            r == self.data().len(),
    {
        self.buf.len()
    }

    pub fn pos(&self) -> (r: usize)
        ensures
            r == self.offset(),
    {
        self.pos
    }

    pub fn remaining(&self) -> (r: usize)
        requires
            self.wf(),
        ensures
            r == self.rest().len(),
    {
        self.buf.len() - self.pos
    }

    /// Reads a one-bit value held in a whole byte.
    pub fn read_u1(&mut self) -> (r: Result<Option<bool>, Error>)
        requires
            old(self).wf(),
        ensures
            final(self).wf(),
            final(self).data() == old(self).data(),
            old(self).rest().len() == 0 ==> r == Ok::<Option<bool>, Error>(None) && final(self).offset() == old(self).offset(),
            old(self).rest().len() > 0 && old(self).rest()[0] > 1 ==> r == Err::<
                Option<bool>,
                Error,
            >(Error::OutOfRange) && final(self).offset() == old(self).offset(),
            old(self).rest().len() > 0 && old(self).rest()[0] <= 1 ==> r == Ok::<
                Option<bool>,
                Error,
            >(Some(old(self).rest()[0] == 1)) && final(self).offset() == old(self).offset() + 1,
    {
        if self.remaining() == 0 {
            return Ok(None);
        }
        let v = self.buf[self.pos];
        if v > 1 {
            return Err(Error::OutOfRange);
        }
        self.pos += 1;
        Ok(Some(v != 0))
    }

    /// Reads a seven-bit unsigned value held in one byte.
    pub fn read_u7(&mut self) -> (r: Result<Option<u8>, Error>)
        requires
            old(self).wf(),
        ensures
            final(self).wf(),
            final(self).data() == old(self).data(),
            old(self).rest().len() == 0 ==> r == Ok::<Option<u8>, Error>(None) && final(self).offset() == old(self).offset(),
            old(self).rest().len() > 0 && old(self).rest()[0] >= 128 ==> r == Err::<
                Option<u8>,
                Error,
            >(Error::OutOfRange) && final(self).offset() == old(self).offset(),
            old(self).rest().len() > 0 && old(self).rest()[0] < 128 ==> r == Ok::<
                Option<u8>,
                Error,
            >(Some(old(self).rest()[0])) && final(self).offset() == old(self).offset() + 1,
    {
        if self.remaining() == 0 {
            return Ok(None);
        }
        let v = self.buf[self.pos];
        if v >= 128 {
            return Err(Error::OutOfRange);
        }
        self.pos += 1;
        Ok(Some(v))
    }

    /// Reads a seven-bit two's complement value held in one byte.
    pub fn read_i7(&mut self) -> (r: Result<Option<i8>, Error>)
        requires
            old(self).wf(),
        ensures
            final(self).wf(),
            final(self).data() == old(self).data(),
            old(self).rest().len() == 0 ==> r == Ok::<Option<i8>, Error>(None) && final(self).offset() == old(self).offset(),
            old(self).rest().len() > 0 && old(self).rest()[0] >= 128 ==> r == Err::<
                Option<i8>,
                Error,
            >(Error::OutOfRange) && final(self).offset() == old(self).offset(),
            old(self).rest().len() > 0 && old(self).rest()[0] < 128 ==> r is Ok && r->Ok_0
                is Some && r->Ok_0->Some_0 as int == sleb_decode(old(self).rest())->Some_0.0
                && final(self).offset() == old(self).offset() + 1,
    {
        if self.remaining() == 0 {
            return Ok(None);
        }
        let v = self.buf[self.pos];
        if v >= 128 {
            return Err(Error::OutOfRange);
        }
        self.pos += 1;
        if v >= 64 {
            Ok(Some((v as i16 - 128) as i8))
        } else {
            Ok(Some(v as i8))
        }
    }

    /// Reads an unsigned value of at most 32 bits. Reads nothing and returns
    /// `None` while the value is incomplete, and `OutOfRange` for one that
    /// takes more than five bytes or 32 bits.
    pub fn read_u32(&mut self) -> (r: Result<Option<u32>, Error>)
        requires
            old(self).wf(),
        ensures
            final(self).wf(),
            final(self).data() == old(self).data(),
            match u32_result(old(self).rest()) {
                Ok(None) => r == Ok::<Option<u32>, Error>(None) && final(self).offset() == old(self).offset(),
                Ok(Some((v, k))) => r == Ok::<Option<u32>, Error>(Some(v)) && final(self).offset() == old(self).offset() + k,
                Err(e) => r == Err::<Option<u32>, Error>(e) && final(self).offset() == old(self).offset(),
            },
    {
        let ghost rest = self.rest();
        let len = self.buf.len();
        let pos = self.pos;
        let mut acc: u64 = 0;
        let mut mult: u64 = 1;
        let mut i: usize = 0;
        assert(rest.subrange(0, rest.len() as int) =~= rest);
        while i < 5
            invariant
                *self == *old(self),
                self.wf(),
                len == self.buf@.len(),
                pos == self.pos,
                rest == self.rest(),
                pos + i <= len,
                i <= 5,
                (i == 0 && mult == 1) || (i == 1 && mult == 128) || (i == 2 && mult == 16384) || (i
                    == 3 && mult == 2097152) || (i == 4 && mult == 268435456) || (i == 5 && mult
                    == 34359738368),
                acc < mult,
                uleb_decode(rest) == lift_u(
                    acc as nat,
                    mult as nat,
                    i as nat,
                    uleb_decode(rest.subrange(i as int, rest.len() as int)),
                ),
            decreases 5 - i,
        {
            let ghost t = rest.subrange(i as int, rest.len() as int);
            if pos + i >= len {
                return Ok(None);
            }
            let b = self.buf[pos + i];
            assert(t[0] == b);
            if b < 128 {
                let v = acc + mult * (b as u64);
                if v <= 0xFFFF_FFFF {
                    self.pos = pos + i + 1;
                    return Ok(Some(v as u32));
                }
                return Err(Error::OutOfRange);
            }
            proof {
                lemma_lift_u_step(acc as nat, mult as nat, i as nat, t);
                assert(t.drop_first() =~= rest.subrange(i + 1, rest.len() as int));
            }
            acc = acc + mult * ((b - 128) as u64);
            mult = mult * 128;
            i += 1;
        }
        let mut j: usize = pos + 5;
        while j < len
            invariant
                *self == *old(self),
                self.wf(),
                len == self.buf@.len(),
                pos == self.pos,
                rest == self.rest(),
                pos + 5 <= j <= len,
                uleb_decode(rest) is None <==> uleb_decode(
                    rest.subrange(j - pos, rest.len() as int),
                ) is None,
                uleb_decode(rest) is Some ==> uleb_decode(rest)->Some_0.1 > 5,
            decreases len - j,
        {
            let ghost t = rest.subrange(j - pos, rest.len() as int);
            assert(t[0] == self.buf@[j as int]);
            if self.buf[j] < 128 {
                return Err(Error::OutOfRange);
            }
            proof {
                lemma_scan_step(t);
                assert(t.drop_first() =~= rest.subrange(j + 1 - pos, rest.len() as int));
            }
            j += 1;
        }
        Ok(None)
    }

    /// Reads a signed value of at most 32 bits, as `read_u32` does.
    pub fn read_i32(&mut self) -> (r: Result<Option<i32>, Error>)
        requires
            old(self).wf(),
        ensures
            final(self).wf(),
            final(self).data() == old(self).data(),
            match i32_result(old(self).rest()) {
                Ok(None) => r == Ok::<Option<i32>, Error>(None) && final(self).offset() == old(self).offset(),
                Ok(Some((v, k))) => r == Ok::<Option<i32>, Error>(Some(v)) && final(self).offset() == old(self).offset() + k,
                Err(e) => r == Err::<Option<i32>, Error>(e) && final(self).offset() == old(self).offset(),
            },
    {
        let ghost rest = self.rest();
        let len = self.buf.len();
        let pos = self.pos;
        let mut acc: i64 = 0;
        let mut mult: i64 = 1;
        let mut i: usize = 0;
        assert(rest.subrange(0, rest.len() as int) =~= rest);
        while i < 5
            invariant
                *self == *old(self),
                self.wf(),
                len == self.buf@.len(),
                pos == self.pos,
                rest == self.rest(),
                pos + i <= len,
                i <= 5,
                (i == 0 && mult == 1) || (i == 1 && mult == 128) || (i == 2 && mult == 16384) || (i
                    == 3 && mult == 2097152) || (i == 4 && mult == 268435456) || (i == 5 && mult
                    == 34359738368),
                0 <= acc < mult,
                sleb_decode(rest) == lift_s(
                    acc as int,
                    mult as int,
                    i as nat,
                    sleb_decode(rest.subrange(i as int, rest.len() as int)),
                ),
            decreases 5 - i,
        {
            let ghost t = rest.subrange(i as int, rest.len() as int);
            if pos + i >= len {
                return Ok(None);
            }
            let b = self.buf[pos + i];
            assert(t[0] == b);
            if b < 128 {
                let low: i64 = if b >= 64 {
                    b as i64 - 128
                } else {
                    b as i64
                };
                let v = acc + mult * low;
                if -0x8000_0000 <= v && v <= 0x7FFF_FFFF {
                    self.pos = pos + i + 1;
                    return Ok(Some(v as i32));
                }
                return Err(Error::OutOfRange);
            }
            proof {
                lemma_lift_s_step(acc as int, mult as int, i as nat, t);
                assert(t.drop_first() =~= rest.subrange(i + 1, rest.len() as int));
            }
            acc = acc + mult * ((b - 128) as i64);
            mult = mult * 128;
            i += 1;
        }
        let mut j: usize = pos + 5;
        while j < len
            invariant
                *self == *old(self),
                self.wf(),
                len == self.buf@.len(),
                pos == self.pos,
                rest == self.rest(),
                pos + 5 <= j <= len,
                sleb_decode(rest) is None <==> sleb_decode(
                    rest.subrange(j - pos, rest.len() as int),
                ) is None,
                sleb_decode(rest) is Some ==> sleb_decode(rest)->Some_0.1 > 5,
            decreases len - j,
        {
            let ghost t = rest.subrange(j - pos, rest.len() as int);
            assert(t[0] == self.buf@[j as int]);
            if self.buf[j] < 128 {
                return Err(Error::OutOfRange);
            }
            proof {
                lemma_scan_step(t);
                assert(t.drop_first() =~= rest.subrange(j + 1 - pos, rest.len() as int));
            }
            j += 1;
        }
        Ok(None)
    }
}

/// A writer of LEB128 values into a caller-owned buffer. A write that does
/// not fit fails with `BufferTooShort` and writes nothing.
pub struct Writer<'a> {
    buf: &'a mut [u8],
    pos: usize,
}

impl<'a> Writer<'a> {
    pub closed spec fn wf(&self) -> bool {
        self.pos <= self.buf@.len()
    }

    /// The bytes written so far.
    pub closed spec fn written(&self) -> Seq<u8> {
        self.buf@.subrange(0, self.pos as int)
    }

    pub closed spec fn capacity(&self) -> nat {
        self.buf@.len()
    }

    /// `self` is `old` with `bytes` appended.
    pub open spec fn appended(&self, old: Self, bytes: Seq<u8>) -> bool {
        &&& self.wf()
        &&& self.capacity() == old.capacity()
        &&& self.written() == old.written() + bytes
    }

    /// The outcome of a write of `bytes` that needs them to fit, reading
    /// `r` as the result.
    pub open spec fn wrote(&self, old: Self, bytes: Seq<u8>, r: Result<(), Error>) -> bool {
        if old.written().len() + bytes.len() > old.capacity() {
            r == Err::<(), Error>(Error::BufferTooShort) && self.appended(old, Seq::empty())
        } else {
            r == Ok::<(), Error>(()) && self.appended(old, bytes)
        }
    }

    pub fn new(buf: &'a mut [u8]) -> (r: Self)
        ensures
            r.wf(),
            r.written() == Seq::<u8>::empty(),
            r.capacity() == old(buf)@.len(),
    {
        let r = Writer { buf, pos: 0 };
        assert(r.written() =~= Seq::<u8>::empty());
        r
    }

    pub fn cap(&self) -> (r: usize)
        ensures
            r == self.capacity(),
    {
        self.buf.len()
    }

    pub fn pos(&self) -> (r: usize)
        requires
            self.wf(),
        ensures
            r == self.written().len(),
    {
        self.pos
    }

    pub fn remaining(&self) -> (r: usize)
        requires
            self.wf(),
        ensures
            r == self.capacity() - self.written().len(),
    {
        self.cap() - self.pos
    }

    pub fn as_ref(&self) -> (r: &[u8])
        requires
            self.wf(),
        ensures
            r@ == self.written(),
    {
        &self.buf[0..self.pos]
    }

    fn put(&mut self, b: u8)
        requires
            old(self).wf(),
            old(self).written().len() < old(self).capacity(),
        ensures
            final(self).appended(*old(self), seq![b]),
    {
        let ghost w = self.written();
        self.buf[self.pos] = b;
        self.pos += 1;
        assert(self.written() =~= w + seq![b]);
    }

    /// Writes a one-bit value as a whole byte, 0 or 1.
    pub fn write_u1(&mut self, value: bool) -> (r: Result<(), Error>)
        requires
            old(self).wf(),
        ensures
            final(self).wrote(
                *old(self),
                seq![
                    if value {
                        1u8
                    } else {
                        0u8
                    },
                ],
                r,
            ),
    {
        if self.remaining() < 1 {
            assert(self.written() + Seq::<u8>::empty() =~= self.written());
            return Err(Error::BufferTooShort);
        }
        self.put(
            if value {
                1
            } else {
                0
            },
        );
        Ok(())
    }

    /// Writes a value below 128 as one byte.
    pub fn write_u7(&mut self, value: u8) -> (r: Result<(), Error>)
        requires
            old(self).wf(),
        ensures
            old(self).written().len() >= old(self).capacity() ==> r == Err::<(), Error>(
                Error::BufferTooShort,
            ) && final(self).appended(*old(self), Seq::empty()),
            old(self).written().len() < old(self).capacity() && value >= 128 ==> r == Err::<
                (),
                Error,
            >(Error::OutOfRange) && final(self).appended(*old(self), Seq::empty()),
            old(self).written().len() < old(self).capacity() && value < 128 ==> r == Ok::<
                (),
                Error,
            >(()) && final(self).appended(*old(self), seq![value]),
    {
        assert(self.written() + Seq::<u8>::empty() =~= self.written());
        if self.remaining() < 1 {
            return Err(Error::BufferTooShort);
        }
        if value >= 128 {
            return Err(Error::OutOfRange);
        }
        self.put(value);
        Ok(())
    }

    /// Writes a value in -64..=63 as one byte of seven-bit two's complement.
    pub fn write_i7(&mut self, value: i8) -> (r: Result<(), Error>)
        requires
            old(self).wf(),
        ensures
            old(self).written().len() >= old(self).capacity() ==> r == Err::<(), Error>(
                Error::BufferTooShort,
            ) && final(self).appended(*old(self), Seq::empty()),
            old(self).written().len() < old(self).capacity() && !(-64 <= value < 64) ==> r
                == Err::<(), Error>(Error::OutOfRange) && final(self).appended(
                *old(self),
                Seq::empty(),
            ),
            old(self).written().len() < old(self).capacity() && -64 <= value < 64 ==> r == Ok::<
                (),
                Error,
            >(()) && final(self).appended(*old(self), sleb_encode(value as int)),
    {
        assert(self.written() + Seq::<u8>::empty() =~= self.written());
        if self.remaining() < 1 {
            return Err(Error::BufferTooShort);
        }
        if !(-64 <= value && value < 64) {
            return Err(Error::OutOfRange);
        }
        let b: u8 = if value >= 0 {
            value as u8
        } else {
            (value as i16 + 128) as u8
        };
        proof {
            if value < 0 {
                lemma_fundamental_div_mod_converse(value as int, 128, -1, b as int);
            } else {
                lemma_fundamental_div_mod_converse(value as int, 128, 0, b as int);
            }
            assert(sleb_encode(value as int) == seq![b]);
        }
        self.put(b);
        Ok(())
    }

    /// Writes the canonical encoding of an unsigned value, one to five
    /// bytes.
    pub fn write_u32(&mut self, value: u32) -> (r: Result<(), Error>)
        requires
            old(self).wf(),
        ensures
            final(self).wrote(*old(self), uleb_encode(value as nat), r),
    {
        let ghost w = self.written();
        let ghost old_buf = self.buf@;
        let pos = self.pos;
        proof {
            assert(self.buf@.len() == self.buf.len());
        }
        let (_head, rest) = self.buf.split_at_mut(pos);
        let res = encode_u32(value, rest);
        proof {
            assert(self.buf@.subrange(0, pos as int) =~= old_buf.subrange(0, pos as int));
        }
        match res {
            Ok(n) => {
                self.pos = pos + n;
                assert(self.written() =~= w + uleb_encode(value as nat));
                Ok(())
            },
            Err(e) => {
                assert(self.written() =~= w + Seq::<u8>::empty());
                Err(e)
            },
        }
    }

    /// Writes the canonical encoding of a signed value, one to five bytes.
    pub fn write_i32(&mut self, value: i32) -> (r: Result<(), Error>)
        requires
            old(self).wf(),
        ensures
            final(self).wrote(*old(self), sleb_encode(value as int), r),
    {
        let n = i32_len(value);
        if self.remaining() < n {
            assert(self.written() + Seq::<u8>::empty() =~= self.written());
            return Err(Error::BufferTooShort);
        }
        let ghost all = sleb_encode(value as int);
        let ghost done: Seq<u8> = Seq::empty();
        let mut v: i64 = value as i64;
        assert(old(self).written() + Seq::<u8>::empty() =~= old(self).written());
        assert(Seq::<u8>::empty() + all =~= all);
        loop
            invariant
                self.appended(*old(self), done),
                done + sleb_encode(v as int) == all,
                old(self).written().len() + all.len() <= old(self).capacity(),
                all == sleb_encode(value as int),
                self.written().len() + sleb_encode(v as int).len() <= self.capacity(),
                i32::MIN <= v <= i32::MAX,
            decreases (if v >= 0 {
                v as int
            } else {
                -v - 1
            }),
        {
            let low: i64;
            let next: i64;
            if v >= 0 {
                low = v % 128;
                next = v / 128;
            } else {
                let y: i64 = -1 - v;
                low = 127 - y % 128;
                next = -1 - y / 128;
            }
            proof {
                lemma_fundamental_div_mod_converse(v as int, 128, next as int, low as int);
            }
            let stop = (next == 0 && low < 64) || (next == -1 && low >= 64);
            let b: u8 = if stop {
                low as u8
            } else {
                (low + 128) as u8
            };
            let ghost rest = if stop {
                Seq::<u8>::empty()
            } else {
                sleb_encode(next as int)
            };
            proof {
                assert(sleb_encode(v as int) =~= seq![b] + rest);
                assert(done.push(b) + rest =~= done + sleb_encode(v as int));
            }
            let ghost prev = done;
            self.put(b);
            proof {
                done = prev.push(b);
                assert(old(self).written() + done =~= (old(self).written() + prev) + seq![b]);
            }
            if stop {
                assert(done =~= all);
                return Ok(());
            }
            v = next;
        }
    }
}

} // verus!
