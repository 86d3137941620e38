//! A variant of the byte-stuffing codec whose decoder trusts its input: it
//! does not look for zero bytes among the literals, and a zero header counts
//! as an empty group.
use vstd::prelude::*;
use crate::cobs;
use crate::cobs::{cobs_encode, group_bytes, prepend};

verus! {

#[derive(Debug, PartialEq, Eq, Clone, Copy)]
pub enum Error {
    InvalidEncoding,
    BufferTooShort,
    SourceTooShort,
    DestTooShort,
    MissingTerminator,
}

/// Unstuffing of `e` without checks for zero bytes: the bytes, or
/// `SourceTooShort` when a header claims more literals than remain.
pub open spec fn lenient_decode(e: Seq<u8>) -> Result<Seq<u8>, cobs::Error>
    decreases e.len(),
{
    if e.len() == 0 {
        Ok(seq![])
    } else {
        let code = if e[0] == 0 {
            1
        } else {
            e[0] as int
        };
        if code > e.len() {
            Err(cobs::Error::SourceTooShort)
        } else {
            let rest = e.subrange(code, e.len() as int);
            prepend(group_bytes(code, e.subrange(1, code), rest), lenient_decode(rest))
        }
    }
}

/// What `decode` returns for the stuffed bytes `src` and a destination of
/// `cap` bytes.
pub open spec fn lenient_result(src: Seq<u8>, cap: nat) -> Result<Seq<u8>, Error> {
    if cap + 1 < src.len() {
        Err(Error::DestTooShort)
    } else {
        match lenient_decode(src) {
            Ok(v) => Ok(v),
            Err(_) => Err(Error::SourceTooShort),
        }
    }
}

/// Encodes `src` into the front of `dst`, returning the number of bytes
/// used. Fails with `BufferTooShort` exactly when the stuffed form does not
/// fit.
pub fn encode(src: &[u8], dst: &mut [u8]) -> (r: Result<usize, Error>)
    ensures
        final(dst)@.len() == old(dst)@.len(),
        r is Err <==> cobs_encode(src@).len() > old(dst)@.len(),
        match r {
            Ok(n) => n == cobs_encode(src@).len() && final(dst)@ == cobs_encode(src@)
                + old(dst)@.subrange(n as int, old(dst)@.len() as int),
            Err(e) => e == Error::BufferTooShort,
        },
{
    match cobs::encode(src, dst) {
        Ok(n) => Ok(n),
        Err(_) => Err(Error::BufferTooShort),
    }
}

/// Decodes the stuffed bytes `src` into the front of `dst`, returning the
/// number of bytes produced.
pub fn decode(src: &[u8], dst: &mut [u8]) -> (r: Result<usize, Error>)
    ensures
        final(dst)@.len() == old(dst)@.len(),
        match lenient_result(src@, old(dst)@.len()) {
            Ok(v) => r == Ok::<usize, Error>(v.len() as usize) && final(dst)@.subrange(
                0,
                v.len() as int,
            ) == v,
            Err(e) => r == Err::<usize, Error>(e),
        },
{
    let len = src.len();
    let dlen = dst.len();
    if len > 0 && dlen < len - 1 {
        return Err(Error::DestTooShort);
    }
    let mut s: usize = 0;
    let mut d: usize = 0;
    assert(src@.subrange(0, len as int) =~= src@);
    assert(prepend(dst@.subrange(0, 0), lenient_decode(src@)) =~= lenient_decode(src@)) by {
        assert(dst@.subrange(0, 0) =~= Seq::<u8>::empty());
        match lenient_decode(src@) {
            Ok(v) => assert(Seq::<u8>::empty() + v =~= v),
            Err(_) => {},
        }
    }
    while s < len
        invariant
            len == src@.len(),
            dlen == dst@.len(),
            dlen == old(dst)@.len(),
            dlen + 1 >= len,
            s <= len,
            d <= s,
            d <= dlen,
            lenient_decode(src@) == prepend(
                dst@.subrange(0, d as int),
                lenient_decode(src@.subrange(s as int, len as int)),
            ),
        decreases len - s,
    {
        let ghost e = src@.subrange(s as int, len as int);
        let ghost d0 = d;
        let ghost before = dst@;
        let mut code = src[s] as usize;
        assert(e[0] == src@[s as int]);
        if code == 0 {
            code = 1;
        }
        if code > len - s {
            assert(lenient_decode(e) == Err::<Seq<u8>, cobs::Error>(cobs::Error::SourceTooShort));
            return Err(Error::SourceTooShort);
        }
        let mut i: usize = 1;
        while i < code
            invariant
                len == src@.len(),
                dlen == dst@.len(),
                dlen == old(dst)@.len(),
                before.len() == dlen,
                dlen + 1 >= len,
                e == src@.subrange(s as int, len as int),
                1 <= code <= len - s,
                d0 <= s,
                1 <= i <= code,
                d == d0 + i - 1,
                forall|j: int| 0 <= j < d0 ==> dst@[j] == before[j],
                forall|j: int| 1 <= j < i ==> #[trigger] dst@[d0 + j - 1] == e[j],
            decreases code - i,
        {
            dst[d] = src[s + i];
            d += 1;
            i += 1;
        }
        let ghost lit = e.subrange(1, code as int);
        let ghost rest = e.subrange(code as int, e.len() as int);
        s += code;
        if code != 0xFF && s != len {
            dst[d] = 0;
            d += 1;
        }
        proof {
            assert(rest =~= src@.subrange(s as int, len as int));
            assert forall|j: int| 0 <= j < code - 1 implies dst@[d0 + j] == lit[j] by {
                assert(dst@[d0 + (j + 1) - 1] == e[j + 1]);
            }
            assert(lenient_decode(e) == prepend(
                group_bytes(code as int, lit, rest),
                lenient_decode(rest),
            ));
            assert(dst@.subrange(0, d as int) =~= before.subrange(0, d0 as int) + group_bytes(
                code as int,
                lit,
                rest,
            ));
            match lenient_decode(rest) {
                Ok(v) => {
                    assert(before.subrange(0, d0 as int) + (group_bytes(code as int, lit, rest) + v)
                        =~= dst@.subrange(0, d as int) + v);
                },
                Err(_) => {},
            }
        }
    }
    proof {
        assert(src@.subrange(s as int, len as int) =~= Seq::<u8>::empty());
        assert(dst@.subrange(0, d as int) + Seq::<u8>::empty() =~= dst@.subrange(0, d as int));
        assert(lenient_decode(Seq::<u8>::empty()) == Ok::<Seq<u8>, cobs::Error>(Seq::<u8>::empty()));
        assert(lenient_decode(src@) == Ok::<Seq<u8>, cobs::Error>(dst@.subrange(0, d as int)));
    }
    Ok(d)
}

} // verus!
