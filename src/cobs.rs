//! Consistent Overhead Byte Stuffing: single-buffer encode/decode and the
//! streaming frame `Writer` / `Reader`.
use vstd::prelude::*;

verus! {

#[derive(Debug, PartialEq, Eq, Clone, Copy)]
pub enum Error {
    InvalidEncoding,
    SourceTooShort,
    DestTooShort,
    UnexpectedNull,
}

/// No byte of `s` is zero.
pub open spec fn no_zero(s: Seq<u8>) -> bool {
    forall|i: int| 0 <= i < s.len() ==> s[i] != 0
}

/// Number of leading non-zero bytes of `s`, counting at most `cap` of them.
pub open spec fn lead(s: Seq<u8>, cap: nat) -> nat
    decreases s.len(),
{
    if cap == 0 || s.len() == 0 || s[0] == 0 {
        0
    } else {
        1 + lead(s.drop_first(), (cap - 1) as nat)
    }
}

/// Literal bytes in the first group of the encoding of `s`.
pub open spec fn run(s: Seq<u8>) -> nat {
    lead(s, 254)
}

/// The stuffed form of `s`: a sequence of groups, each a header byte `h`
/// followed by `h - 1` non-zero literal bytes. A header below 0xFF stands for
/// its literals and one elided zero (none after the last group); 0xFF stands
/// for 254 literals and no zero.
pub open spec fn cobs_encode(s: Seq<u8>) -> Seq<u8>
    decreases s.len(),
{
    let n = run(s) as int;
    if n == 254 && 254 <= s.len() {
        seq![255u8] + s.subrange(0, 254) + cobs_encode(s.subrange(254, s.len() as int))
    } else if n < s.len() {
        seq![(n + 1) as u8] + s.subrange(0, n as int) + cobs_encode(
            s.subrange(n + 1, s.len() as int),
        )
    } else {
        seq![(n + 1) as u8] + s
    }
}

/// Prefix `p` to a successful result.
pub open spec fn prepend(p: Seq<u8>, r: Result<Seq<u8>, Error>) -> Result<Seq<u8>, Error> {
    match r {
        Ok(v) => Ok(p + v),
        Err(e) => Err(e),
    }
}

/// The bytes that one group with header `code` and literals `lit` stands
/// for, given what follows it.
pub open spec fn group_bytes(code: int, lit: Seq<u8>, rest: Seq<u8>) -> Seq<u8> {
    if code != 255 && rest.len() != 0 {
        lit.push(0)
    } else {
        lit
    }
}

/// Unstuffing of `e`, or the first fault met reading it group by group.
pub open spec fn cobs_decode(e: Seq<u8>) -> Result<Seq<u8>, Error>
    decreases e.len(),
{
    if e.len() == 0 {
        Ok(seq![])
    } else {
        let code = e[0] as int;
        if code == 0 {
            Err(Error::UnexpectedNull)
        } else if code > e.len() {
            Err(Error::SourceTooShort)
        } else if !no_zero(e.subrange(1, code)) {
            Err(Error::UnexpectedNull)
        } else {
            let rest = e.subrange(code, e.len() as int);
            prepend(group_bytes(code, e.subrange(1, code), rest), cobs_decode(rest))
        }
    }
}

proof fn lemma_lead(s: Seq<u8>, cap: nat)
    ensures
        lead(s, cap) <= cap,
        lead(s, cap) <= s.len(),
        no_zero(s.subrange(0, lead(s, cap) as int)),
        lead(s, cap) < cap && lead(s, cap) < s.len() ==> s[lead(s, cap) as int] == 0,
    decreases s.len(),
{
    if cap == 0 || s.len() == 0 || s[0] == 0 {
    } else {
        let t = s.drop_first();
        lemma_lead(t, (cap - 1) as nat);
        let m = lead(t, (cap - 1) as nat) as int;
        assert forall|i: int| 0 <= i < m + 1 implies #[trigger] s.subrange(0, m + 1)[i] != 0 by {
            if i > 0 {
                assert(s.subrange(0, m + 1)[i] == t.subrange(0, m as int)[i - 1]);
            }
        }
    }
}

proof fn lemma_lead_unique(s: Seq<u8>, cap: nat, n: nat)
    requires
        n <= cap,
        n <= s.len(),
        no_zero(s.subrange(0, n as int)),
        n == cap || n == s.len() || s[n as int] == 0,
    ensures
        lead(s, cap) == n,
    decreases s.len(),
{
    if cap == 0 || s.len() == 0 {
    } else if s[0] == 0 {
        if n > 0 {
            assert(s.subrange(0, n as int)[0] == s[0]);
        }
    } else {
        if n == 0 {
        } else {
            let t = s.drop_first();
            assert forall|i: int| 0 <= i < n - 1 implies #[trigger] t.subrange(0, n - 1)[i] != 0 by {
                assert(t.subrange(0, n - 1)[i] == s.subrange(0, n as int)[i + 1]);
            }
            if n < s.len() {
                assert(t[n - 1] == s[n as int]);
            }
            lemma_lead_unique(t, (cap - 1) as nat, (n - 1) as nat);
        }
    }
}

/// The encoding of `s` is at least one byte longer than the first group's
/// literals.
proof fn lemma_encode_len_min(s: Seq<u8>)
    ensures
        cobs_encode(s).len() >= run(s) + 1,
        run(s) <= 254,
        run(s) <= s.len(),
    decreases s.len(),
{
    lemma_lead(s, 254);
}

/// Encoding never produces a zero byte.
pub proof fn lemma_encode_no_zero(s: Seq<u8>)
    ensures
        no_zero(cobs_encode(s)),
    decreases s.len(),
{
    lemma_lead(s, 254);
    let n = run(s) as int;
    let e = cobs_encode(s);
    if n == 254 && 254 <= s.len() {
        let rest = s.subrange(254, s.len() as int);
        lemma_encode_no_zero(rest);
        let lit = s.subrange(0, 254);
        assert forall|i: int| 0 <= i < e.len() implies e[i] != 0 by {
            if 1 <= i < 255 {
                assert(e[i] == lit[i - 1]);
            } else if i >= 255 {
                assert(e[i] == cobs_encode(rest)[i - 255]);
            }
        }
    } else if n < s.len() {
        let rest = s.subrange(n + 1, s.len() as int);
        lemma_encode_no_zero(rest);
        let lit = s.subrange(0, n as int);
        assert forall|i: int| 0 <= i < e.len() implies e[i] != 0 by {
            if 1 <= i < n + 1 {
                assert(e[i] == lit[i - 1]);
            } else if i >= n + 1 {
                assert(e[i] == cobs_encode(rest)[i - n - 1]);
            }
        }
    } else {
        assert(s.subrange(0, n as int) =~= s);
        assert forall|i: int| 0 <= i < e.len() implies e[i] != 0 by {
            if i >= 1 {
                assert(e[i] == s[i - 1]);
            }
        }
    }
}

/// Unstuffing the stuffed form of any byte sequence gives it back.
pub proof fn lemma_round_trip(s: Seq<u8>)
    ensures
        cobs_decode(cobs_encode(s)) == Ok::<Seq<u8>, Error>(s),
    decreases s.len(),
{
    lemma_lead(s, 254);
    let n = run(s) as int;
    let e = cobs_encode(s);
    if n == 254 && 254 <= s.len() {
        let rest = s.subrange(254, s.len() as int);
        let lit = s.subrange(0, 254);
        lemma_round_trip(rest);
        lemma_encode_len_min(rest);
        assert(e.subrange(1, 255) =~= lit);
        assert(e.subrange(255, e.len() as int) =~= cobs_encode(rest));
        assert(lit + rest =~= s);
        assert(cobs_decode(e) == prepend(lit, cobs_decode(cobs_encode(rest))));
    } else if n < s.len() {
        let rest = s.subrange(n + 1, s.len() as int);
        let lit = s.subrange(0, n as int);
        lemma_round_trip(rest);
        lemma_encode_len_min(rest);
        assert(e[0] as int == n + 1);
        assert(e.subrange(1, n + 1) =~= lit);
        assert(e.subrange(n + 1, e.len() as int) =~= cobs_encode(rest));
        assert(lit.push(0) + rest =~= s);
        assert(cobs_decode(e) == prepend(lit.push(0), cobs_decode(cobs_encode(rest))));
    } else {
        assert(s.subrange(0, n as int) =~= s);
        assert(e.subrange(1, n + 1) =~= s);
        assert(e[0] as int == n + 1);
        assert(e.subrange(n + 1, e.len() as int) =~= Seq::<u8>::empty());
        assert(s + Seq::<u8>::empty() =~= s);
        assert(cobs_decode(e) == prepend(s, cobs_decode(Seq::<u8>::empty())));
    }
}

/// The stuffed form of `s` is never empty and is at most
/// `s.len() + ceil((s.len() + 1) / 254)` bytes long.
pub proof fn lemma_encode_overhead(s: Seq<u8>)
    ensures
        1 <= cobs_encode(s).len() <= s.len() + (s.len() + 254) / 254,
    decreases s.len(),
{
    lemma_lead(s, 254);
    let n = run(s) as int;
    let len = s.len() as int;
    if n == 254 && 254 <= s.len() {
        let rest = s.subrange(254, s.len() as int);
        lemma_encode_overhead(rest);
        let r = rest.len() as int;
        assert(r == len - 254);
        assert((r + 254) / 254 + 1 == (len + 254) / 254) by {
            assert(len + 254 == (r + 254) + 254);
        }
    } else if n < s.len() {
        let rest = s.subrange(n + 1, s.len() as int);
        lemma_encode_overhead(rest);
        let r = rest.len() as int;
        assert(r + 254 <= len + 254);
        assert((r + 254) / 254 <= (len + 254) / 254) by (nonlinear_arith)
            requires
                r + 254 <= len + 254,
                0 <= r,
        ;
    } else {
        assert((len + 254) / 254 >= 1);
    }
}

/// Encodes `src` into the front of `dst`, returning the number of bytes
/// used; the rest of `dst` is left as it was. Fails with `DestTooShort`
/// exactly when the stuffed form does not fit.
pub fn encode(src: &[u8], dst: &mut [u8]) -> (r: Result<usize, Error>)
    ensures
        final(dst)@.len() == old(dst)@.len(),
        r is Err <==> cobs_encode(src@).len() > old(dst)@.len(),
        match r {
            Ok(n) => n == cobs_encode(src@).len() && final(dst)@ == cobs_encode(src@)
                + old(dst)@.subrange(n as int, old(dst)@.len() as int),
            Err(e) => e == Error::DestTooShort,
        },
{
    let slen = src.len();
    let dlen = dst.len();
    let mut p: usize = 0;
    let mut d: usize = 0;
    assert(src@.subrange(0, slen as int) =~= src@);
    assert(dst@.subrange(0, 0) + cobs_encode(src@) =~= cobs_encode(src@));
    loop
        invariant
            slen == src@.len(),
            dlen == old(dst)@.len(),
            dst@.len() == dlen,
            p <= slen,
            d <= dlen,
            dst@.subrange(0, d as int) + cobs_encode(src@.subrange(p as int, slen as int))
                == cobs_encode(src@),
            forall|j: int| d <= j < dlen ==> dst@[j] == old(dst)@[j],
        decreases slen - p,
    {
        let ghost rest = src@.subrange(p as int, slen as int);
        let mut n: usize = 0;
        while n < 254 && p + n < slen && src[p + n] != 0
            invariant
                slen == src@.len(),
                p <= slen,
                rest == src@.subrange(p as int, slen as int),
                n <= 254,
                p + n <= slen,
                no_zero(rest.subrange(0, n as int)),
            decreases 254 - n,
        {
            assert(rest.subrange(0, n + 1) =~= rest.subrange(0, n as int).push(src@[p + n]));
            n += 1;
        }
        proof {
            if n < 254 && p + n < slen {
                assert(rest[n as int] == src@[p + n]);
            }
            lemma_lead_unique(rest, 254, n as nat);
            lemma_encode_len_min(rest);
            assert(cobs_encode(src@).len() == d + cobs_encode(rest).len());
        }
        if n + 1 > dlen - d {
            return Err(Error::DestTooShort);
        }
        let ghost before = dst@;
        dst[d] = (n + 1) as u8;
        let mut i: usize = 0;
        while i < n
            invariant
                slen == src@.len(),
                dst@.len() == dlen,
                before.len() == dlen,
                d + n + 1 <= dlen,
                p + n <= slen,
                i <= n,
                forall|j: int| 0 <= j < d ==> dst@[j] == before[j],
                dst@[d as int] == (n + 1) as u8,
                forall|j: int| 0 <= j < i ==> #[trigger] dst@[d + 1 + j] == src@[p + j],
                forall|j: int| d + 1 + i <= j < dlen ==> dst@[j] == before[j],
            decreases n - i,
        {
            dst[d + 1 + i] = src[p + i];
            i += 1;
        }
        let ghost d0 = d;
        let ghost written = dst@.subrange(0, d0 + n + 1);
        proof {
            assert(dst@.subrange(0, d0 as int) =~= before.subrange(0, d0 as int));
            assert forall|k: int| 0 <= k < n implies dst@[d0 + 1 + k] == rest[k] by {
                assert(dst@[d0 + 1 + k] == src@[p + k]);
            }
            assert(written =~= dst@.subrange(0, d0 as int) + seq![(n + 1) as u8]
                + rest.subrange(0, n as int));
        }
        d = d + n + 1;
        if n == 254 {
            proof {
                let tail = rest.subrange(254, rest.len() as int);
                assert(tail =~= src@.subrange(p + 254, slen as int));
                assert(written + cobs_encode(tail) =~= dst@.subrange(0, d0 as int) + cobs_encode(
                    rest,
                ));
            }
            p = p + 254;
        } else if p + n < slen {
            proof {
                let tail = rest.subrange(n + 1, rest.len() as int);
                assert(tail =~= src@.subrange(p + n + 1, slen as int));
                assert(written + cobs_encode(tail) =~= dst@.subrange(0, d0 as int) + cobs_encode(
                    rest,
                ));
            }
            p = p + n + 1;
        } else {
            proof {
                assert(rest.subrange(0, n as int) =~= rest);
                assert(written =~= dst@.subrange(0, d0 as int) + cobs_encode(rest));
                assert(dst@ =~= cobs_encode(src@) + old(dst)@.subrange(d as int, dlen as int));
            }
            return Ok(d);
        }
    }
}

/// Decodes the stuffed bytes `src` into the front of `dst`, returning the
/// number of bytes produced. `dst` must hold at least `src.len() - 1` bytes,
/// else `DestTooShort`; otherwise the result is that of `cobs_decode`.
pub fn decode(src: &[u8], dst: &mut [u8]) -> (r: Result<usize, Error>)
    ensures
        final(dst)@.len() == old(dst)@.len(),
        old(dst)@.len() + 1 < src@.len() ==> r == Err::<usize, Error>(Error::DestTooShort),
        old(dst)@.len() + 1 >= src@.len() ==> match cobs_decode(src@) {
            Ok(v) => r == Ok::<usize, Error>(v.len() as usize) && final(dst)@.subrange(
                0,
                v.len() as int,
            ) == v,
            Err(e) => r == Err::<usize, Error>(e),
        },
{
    let len = src.len();
    let dlen = dst.len();
    if len > 0 && dlen < len - 1 {
        return Err(Error::DestTooShort);
    }
    let mut s: usize = 0;
    let mut d: usize = 0;
    assert(src@.subrange(0, len as int) =~= src@);
    assert(prepend(dst@.subrange(0, 0), cobs_decode(src@)) =~= cobs_decode(src@)) by {
        assert(dst@.subrange(0, 0) =~= Seq::<u8>::empty());
        match cobs_decode(src@) {
            Ok(v) => assert(Seq::<u8>::empty() + v =~= v),
            Err(_) => {},
        }
    }
    while s < len
        invariant
            len == src@.len(),
            dlen == dst@.len(),
            dlen == old(dst)@.len(),
            dlen + 1 >= len,
            s <= len,
            d <= s,
            d <= dlen,
            cobs_decode(src@) == prepend(
                dst@.subrange(0, d as int),
                cobs_decode(src@.subrange(s as int, len as int)),
            ),
        decreases len - s,
    {
        let ghost e = src@.subrange(s as int, len as int);
        let ghost d0 = d;
        let ghost before = dst@;
        let code = src[s] as usize;
        assert(e[0] == src@[s as int]);
        if code == 0 {
            assert(cobs_decode(e) == Err::<Seq<u8>, Error>(Error::UnexpectedNull));
            return Err(Error::UnexpectedNull);
        }
        if code > len - s {
            assert(cobs_decode(e) == Err::<Seq<u8>, Error>(Error::SourceTooShort));
            return Err(Error::SourceTooShort);
        }
        let mut i: usize = 1;
        while i < code
            invariant
                len == src@.len(),
                dlen == dst@.len(),
                dlen == old(dst)@.len(),
                before.len() == dlen,
                dlen + 1 >= len,
                e[0] as int == code as int,
                e.len() > 0,
                cobs_decode(src@) == prepend(before.subrange(0, d0 as int), cobs_decode(e)),
                e == src@.subrange(s as int, len as int),
                1 <= code <= len - s,
                d0 <= s,
                1 <= i <= code,
                d == d0 + i - 1,
                no_zero(e.subrange(1, i as int)),
                forall|j: int| 0 <= j < d0 ==> dst@[j] == before[j],
                forall|j: int| 1 <= j < i ==> #[trigger] dst@[d0 + j - 1] == e[j],
            decreases code - i,
        {
            let b = src[s + i];
            assert(e[i as int] == b);
            if b == 0 {
                assert(e.subrange(1, code as int)[i - 1] == 0);
                assert(!no_zero(e.subrange(1, code as int)));
                assert(cobs_decode(e) == Err::<Seq<u8>, Error>(Error::UnexpectedNull));
                return Err(Error::UnexpectedNull);
            }
            dst[d] = b;
            assert(e.subrange(1, i + 1) =~= e.subrange(1, i as int).push(b));
            d += 1;
            i += 1;
        }
        let ghost lit = e.subrange(1, code as int);
        let ghost rest = e.subrange(code as int, e.len() as int);
        s += code;
        if code != 0xFF && s != len {
            dst[d] = 0;
            d += 1;
        }
        proof {
            assert(rest =~= src@.subrange(s as int, len as int));
            assert forall|j: int| 0 <= j < code - 1 implies dst@[d0 + j] == lit[j] by {
                assert(dst@[d0 + (j + 1) - 1] == e[j + 1]);
            }
            assert(cobs_decode(e) == prepend(group_bytes(code as int, lit, rest), cobs_decode(rest)));
            assert(dst@.subrange(0, d as int) =~= before.subrange(0, d0 as int) + group_bytes(
                code as int,
                lit,
                rest,
            ));
            match cobs_decode(rest) {
                Ok(v) => {
                    assert(before.subrange(0, d0 as int) + (group_bytes(code as int, lit, rest) + v)
                        =~= dst@.subrange(0, d as int) + v);
                },
                Err(_) => {},
            }
        }
    }
    proof {
        assert(src@.subrange(s as int, len as int) =~= Seq::<u8>::empty());
        assert(dst@.subrange(0, d as int) + Seq::<u8>::empty() =~= dst@.subrange(0, d as int));
        assert(cobs_decode(Seq::<u8>::empty()) == Ok::<Seq<u8>, Error>(Seq::<u8>::empty()));
        assert(cobs_decode(src@) == Ok::<Seq<u8>, Error>(dst@.subrange(0, d as int)));
    }
    Ok(d)
}

/// What the earlier decoder makes of `e`: every byte it would write, in
/// order, and whether it runs out of source inside a group. It reads a zero
/// header as an empty group and does not check literals for zero bytes.
pub open spec fn old_unstuff(e: Seq<u8>) -> (Seq<u8>, bool)
    decreases e.len(),
{
    if e.len() == 0 {
        (seq![], false)
    } else {
        let code = e[0] as int;
        if code > e.len() {
            (e.subrange(1, e.len() as int), true)
        } else {
            let c = if code == 0 {
                1
            } else {
                code
            };
            let lit = e.subrange(1, c);
            let rest = e.subrange(c, e.len() as int);
            if rest.len() == 0 {
                (lit, false)
            } else {
                let z: Seq<u8> = if code < 255 {
                    seq![0u8]
                } else {
                    seq![]
                };
                (lit + z + old_unstuff(rest).0, old_unstuff(rest).1)
            }
        }
    }
}

/// What `decode_old` returns for `src` and a destination of `cap` bytes:
/// `DestTooShort` as soon as a byte would not fit, else `SourceTooShort`
/// when a group is cut short, else the bytes.
pub open spec fn old_decode_result(src: Seq<u8>, cap: nat) -> Result<Seq<u8>, Error> {
    if old_unstuff(src).0.len() > cap {
        Err(Error::DestTooShort)
    } else if old_unstuff(src).1 {
        Err(Error::SourceTooShort)
    } else {
        Ok(old_unstuff(src).0)
    }
}

/// Decodes `src` as `old_unstuff` reads it, into the front of `dst`.
pub fn decode_old(src: &[u8], dst: &mut [u8]) -> (r: Result<usize, Error>)
    requires
        src@.len() > 0,
    ensures
        final(dst)@.len() == old(dst)@.len(),
        match old_decode_result(src@, old(dst)@.len()) {
            Ok(v) => r == Ok::<usize, Error>(v.len() as usize) && final(dst)@.subrange(
                0,
                v.len() as int,
            ) == v,
            Err(e) => r == Err::<usize, Error>(e),
        },
{
    let slen = src.len();
    let dlen = dst.len();
    let mut p: usize = 0;
    let mut d: usize = 0;
    let ghost total = old_unstuff(src@);
    assert(src@.subrange(0, slen as int) =~= src@);
    assert(dst@.subrange(0, 0) + total.0 =~= total.0);
    loop
        invariant
            slen == src@.len(),
            dlen == dst@.len(),
            dlen == old(dst)@.len(),
            total == old_unstuff(src@),
            p < slen,
            d <= dlen,
            total.0 == dst@.subrange(0, d as int) + old_unstuff(
                src@.subrange(p as int, slen as int),
            ).0,
            total.1 == old_unstuff(src@.subrange(p as int, slen as int)).1,
        decreases slen - p,
    {
        let ghost e = src@.subrange(p as int, slen as int);
        let ghost p0 = p;
        let ghost d0 = d;
        let ghost before = dst@;
        let code = src[p] as usize;
        assert(e[0] == src@[p as int]);
        p += 1;
        let mut i: usize = 1;
        while i < code
            invariant
                slen == src@.len(),
                dlen == dst@.len(),
                dlen == old(dst)@.len(),
                before.len() == dlen,
                total == old_unstuff(src@),
                e == src@.subrange(p0 as int, slen as int),
                e[0] as int == code,
                code <= 255,
                total.0 == before.subrange(0, d0 as int) + old_unstuff(e).0,
                total.1 == old_unstuff(e).1,
                d0 <= dlen,
                1 <= i,
                i <= code || (code == 0 && i == 1),
                p == p0 + i,
                p <= slen,
                d == d0 + i - 1,
                d <= dlen,
                forall|j: int| 0 <= j < d0 ==> dst@[j] == before[j],
                forall|j: int| 1 <= j < i ==> #[trigger] dst@[d0 + j - 1] == e[j],
            decreases code - i,
        {
            if p >= slen {
                proof {
                    assert(code > e.len());
                    assert(dst@.subrange(0, d as int) =~= before.subrange(0, d0 as int) + e.subrange(
                        1,
                        e.len() as int,
                    )) by {
                        assert forall|j: int| 0 <= j < e.len() - 1 implies dst@[d0 + j]
                            == e.subrange(1, e.len() as int)[j] by {
                            assert(dst@[d0 + (j + 1) - 1] == e[j + 1]);
                        }
                    }
                }
                return Err(Error::SourceTooShort);
            }
            if d >= dlen {
                proof {
                    if code > e.len() {
                        assert(old_unstuff(e).0.len() == e.len() - 1);
                    } else {
                        let rest = e.subrange(code as int, e.len() as int);
                        if rest.len() > 0 {
                            assert(old_unstuff(e).0.len() >= code - 1);
                        }
                    }
                }
                return Err(Error::DestTooShort);
            }
            dst[d] = src[p];
            assert(e[i as int] == src@[p as int]);
            d += 1;
            p += 1;
            i += 1;
        }
        let ghost c: int = if code == 0 {
            1
        } else {
            code as int
        };
        let ghost lit = e.subrange(1, c);
        let ghost rest = e.subrange(c, e.len() as int);
        proof {
            assert(p == p0 + c);
            assert(rest =~= src@.subrange(p as int, slen as int));
            assert forall|j: int| 0 <= j < c - 1 implies dst@[d0 + j] == lit[j] by {
                assert(dst@[d0 + (j + 1) - 1] == e[j + 1]);
            }
            assert(dst@.subrange(0, d as int) =~= before.subrange(0, d0 as int) + lit);
        }
        if p >= slen {
            proof {
                assert(rest.len() == 0);
            }
            return Ok(d);
        }
        if code < 0xff {
            if d >= dlen {
                return Err(Error::DestTooShort);
            }
            dst[d] = 0;
            d += 1;
            proof {
                assert(dst@.subrange(0, d as int) =~= before.subrange(0, d0 as int) + lit + seq![
                    0u8,
                ]);
                assert(total.0 =~= dst@.subrange(0, d as int) + old_unstuff(rest).0);
            }
        } else {
            proof {
                assert(lit + Seq::<u8>::empty() =~= lit);
                assert(total.0 =~= dst@.subrange(0, d as int) + old_unstuff(rest).0);
            }
        }
    }
}

/// What `decode` returns for the stuffed bytes `src` and a destination of
/// `cap` bytes.
pub open spec fn decode_result(src: Seq<u8>, cap: nat) -> Result<Seq<u8>, Error> {
    if cap + 1 < src.len() {
        Err(Error::DestTooShort)
    } else {
        cobs_decode(src)
    }
}

/// Splits a byte stream at its zero bytes: the complete frames, in order,
/// and the bytes after the last zero that still wait for their terminator.
pub open spec fn split_frames(s: Seq<u8>) -> (Seq<Seq<u8>>, Seq<u8>)
    decreases s.len(),
{
    if s.len() == 0 {
        (seq![], seq![])
    } else {
        let (fs, pending) = split_frames(s.drop_last());
        if s.last() == 0 {
            (fs.push(pending), seq![])
        } else {
            (fs, pending.push(s.last()))
        }
    }
}

/// The complete frames of a stream, in order, without their terminators.
pub open spec fn frames(s: Seq<u8>) -> Seq<Seq<u8>> {
    split_frames(s).0
}

/// The bytes of a stream after its last zero.
pub open spec fn pending(s: Seq<u8>) -> Seq<u8> {
    split_frames(s).1
}

/// Streaming reassembly: the frames of a stream delivered as `a` then `b`
/// are the frames of `a`, then those of what `a` left pending followed by
/// `b`. Hence the frames found do not depend on how the stream is chunked.
pub proof fn lemma_frames_append(a: Seq<u8>, b: Seq<u8>)
    ensures
        frames(a + b) == frames(a) + frames(pending(a) + b),
        pending(a + b) == pending(pending(a) + b),
    decreases b.len(),
{
    if b.len() == 0 {
        assert(a + b =~= a);
        assert(pending(a) + b =~= pending(a));
        lemma_pending_no_zero(a);
        lemma_no_zero_frames(pending(a));
        assert(frames(a) + seq![] =~= frames(a));
    } else {
        let b0 = b.drop_last();
        lemma_frames_append(a, b0);
        assert((a + b).drop_last() =~= a + b0);
        assert((pending(a) + b).drop_last() =~= pending(a) + b0);
        assert((a + b).last() == b.last());
        assert((pending(a) + b).last() == b.last());
        if b.last() == 0 {
            assert(frames(a + b) =~= frames(a + b0).push(pending(a + b0)));
            assert(frames(pending(a) + b) =~= frames(pending(a) + b0).push(
                pending(pending(a) + b0),
            ));
            assert(frames(a) + frames(pending(a) + b0).push(pending(pending(a) + b0)) =~= (
            frames(a) + frames(pending(a) + b0)).push(pending(pending(a) + b0)));
        }
    }
}

proof fn lemma_pending_no_zero(s: Seq<u8>)
    ensures
        no_zero(pending(s)),
    decreases s.len(),
{
    if s.len() > 0 {
        lemma_pending_no_zero(s.drop_last());
        let p0 = pending(s.drop_last());
        if s.last() != 0 {
            assert forall|i: int| 0 <= i < p0.len() + 1 implies #[trigger] p0.push(s.last())[i]
                != 0 by {
                if i < p0.len() {
                    assert(p0.push(s.last())[i] == p0[i]);
                }
            }
        }
    }
}

/// A stream with no zero byte holds no complete frame.
proof fn lemma_no_zero_frames(s: Seq<u8>)
    requires
        no_zero(s),
    ensures
        frames(s) == Seq::<Seq<u8>>::empty(),
        pending(s) == s,
    decreases s.len(),
{
    if s.len() > 0 {
        let t = s.drop_last();
        assert(no_zero(t)) by {
            assert forall|i: int| 0 <= i < t.len() implies t[i] != 0 by {
                assert(t[i] == s[i]);
            }
        }
        lemma_no_zero_frames(t);
        assert(s.last() == s[s.len() - 1]);
        assert(t.push(s.last()) =~= s);
    }
}

/// The first frame of `w` ends at its first zero byte `i`.
pub proof fn lemma_first_frame(w: Seq<u8>, i: int)
    requires
        0 <= i < w.len(),
        w[i] == 0,
        no_zero(w.subrange(0, i)),
    ensures
        frames(w) == seq![w.subrange(0, i)] + frames(w.subrange(i + 1, w.len() as int)),
{
    let x = w.subrange(0, i);
    let a = w.subrange(0, i + 1);
    let b = w.subrange(i + 1, w.len() as int);
    assert(a + b =~= w);
    lemma_frames_append(a, b);
    lemma_no_zero_frames(x);
    assert(a.drop_last() =~= x);
    assert(a.last() == 0);
    assert(frames(a) =~= seq![x]);
    assert(pending(a) =~= Seq::<u8>::empty());
    assert(pending(a) + b =~= b);
}

/// A streaming frame encoder over a caller-owned buffer: each frame is
/// stuffed and followed by a zero terminator.
pub struct Writer<'a> {
    buf: &'a mut [u8],
    pos: usize,
}

impl<'a> Writer<'a> {
    pub closed spec fn wf(&self) -> bool {
        self.pos <= self.buf@.len()
    }

    /// The bytes emitted so far.
    pub closed spec fn written(&self) -> Seq<u8> {
        self.buf@.subrange(0, self.pos as int)
    }

    pub closed spec fn capacity(&self) -> nat {
        self.buf@.len()
    }

    pub fn new(buf: &'a mut [u8]) -> (r: Self)
        ensures
            r.wf(),
            r.written() == Seq::<u8>::empty(),
            r.capacity() == old(buf)@.len(),
    {
        let r = Writer { buf, pos: 0 };
        assert(r.written() =~= Seq::<u8>::empty());
        r
    }

    pub fn pos(&self) -> (r: usize)
        requires
            self.wf(),
        ensures
            r == self.written().len(),
    {
        self.pos
    }

    pub fn cap(&self) -> (r: usize)
        ensures
            r == self.capacity(),
    {
        self.buf.len()
    }

    pub fn remaining(&self) -> (r: usize)
        requires
            self.wf(),
        ensures
            r == self.capacity() - self.written().len(),
    {
        self.cap() - self.pos()
    }

    pub fn as_ref(&self) -> (r: &[u8])
        requires
            self.wf(),
        ensures
            r@ == self.written(),
    {
        &self.buf[0..self.pos]
    }

    /// Appends the stuffed form of `src` and a zero terminator, returning the
    /// number of bytes used. Fails with `DestTooShort`, emitting nothing,
    /// when they do not fit.
    pub fn encode_packet(&mut self, src: &[u8]) -> (r: Result<usize, Error>)
        requires
            old(self).wf(),
        ensures
            final(self).wf(),
            final(self).capacity() == old(self).capacity(),
            old(self).written().len() + cobs_encode(src@).len() + 1 > old(self).capacity() ==> r
                == Err::<usize, Error>(Error::DestTooShort) && final(self).written() == old(self).written(),
            old(self).written().len() + cobs_encode(src@).len() + 1 <= old(self).capacity() ==> r
                == Ok::<usize, Error>((cobs_encode(src@).len() + 1) as usize) && final(self).written() == old(self).written() + cobs_encode(src@).push(0),
    {
        let ghost old_buf = self.buf@;
        let pos = self.pos;
        let (_head, rest) = self.buf.split_at_mut(pos);
        let res = encode(src, rest);
        proof {
            assert(self.buf@.subrange(0, pos as int) =~= old_buf.subrange(0, pos as int));
        }
        let n = match res {
            Ok(n) => n,
            Err(e) => {
                return Err(e);
            },
        };
        if n >= self.buf.len() - pos {
            return Err(Error::DestTooShort);
        }
        let ghost mid = self.buf@;
        self.buf[pos + n] = 0;
        self.pos = pos + n + 1;
        proof {
            assert(mid.subrange(pos as int, pos + n) =~= cobs_encode(src@));
            assert(self.buf@.subrange(0, self.pos as int) =~= old_buf.subrange(0, pos as int)
                + cobs_encode(src@).push(0));
        }
        Ok(n + 1)
    }
}

/// A streaming frame decoder. Bytes are copied into the free space after
/// the filled region (`as_mut`) and announced with `extend`; complete frames
/// are then taken one by one with `decode_packet`.
pub struct Reader<'a> {
    buf: &'a mut [u8],
    head: usize,
    tail: usize,
}

impl<'a> Reader<'a> {
    pub closed spec fn wf(&self) -> bool {
        self.head <= self.tail <= self.buf@.len()
    }

    /// The whole backing buffer.
    pub closed spec fn data(&self) -> Seq<u8> {
        self.buf@
    }

    /// Offset of the next unread byte.
    pub closed spec fn head(&self) -> nat {
        self.head as nat
    }

    /// Offset of the next free byte.
    pub closed spec fn tail(&self) -> nat {
        self.tail as nat
    }

    /// The bytes received and not yet consumed.
    pub open spec fn window(&self) -> Seq<u8> {
        self.data().subrange(self.head() as int, self.tail() as int)
    }

    pub fn new(buf: &'a mut [u8]) -> (r: Self)
        ensures
            r.wf(),
            r.data() == old(buf)@,
            r.head() == 0,
            r.tail() == 0,
    {
        Reader { buf, head: 0, tail: 0 }
    }

    pub fn pos(&self) -> (r: usize)
        ensures
            r == self.head(),
    {
        self.head
    }

    pub fn len(&self) -> (r: usize)
        requires
            self.wf(),
        ensures
            r == self.tail() - self.head(),
    {
        self.tail - self.head
    }

    pub fn remaining(&self) -> (r: usize)
        requires
            self.wf(),
        ensures
            r == self.data().len() - self.tail(),
    {
        self.buf.len() - self.tail
    }

    /// The free space after the filled region, for incoming bytes.
    pub fn as_mut(&mut self) -> (r: &mut [u8])
        requires
            old(self).wf(),
        ensures
            r@ == old(self).data().subrange(old(self).tail() as int, old(self).data().len() as int),
            final(self).wf(),
            final(self).head() == old(self).head(),
            final(self).tail() == old(self).tail(),
            final(self).data() == old(self).data().subrange(0, old(self).tail() as int) + final(r)@,
    {
        let (_filled, free) = self.buf.split_at_mut(self.tail);
        free
    }

    /// Marks `len` more bytes after the filled region as received.
    pub fn extend(&mut self, len: usize)
        requires
            old(self).wf(),
            old(self).tail() + len <= old(self).data().len(),
        ensures
            final(self).wf(),
            final(self).data() == old(self).data(),
            final(self).head() == old(self).head(),
            final(self).tail() == old(self).tail() + len,
    {
        proof {
            assert(self.buf@.len() == self.buf.len());
        }
        self.tail += len;
    }

    /// Once everything received has been consumed, starts over at the front
    /// of the buffer.
    pub fn compact(&mut self)
        requires
            old(self).wf(),
        ensures
            final(self).wf(),
            final(self).data() == old(self).data(),
            final(self).window() == old(self).window(),
            old(self).head() == old(self).tail() ==> final(self).head() == 0 && final(self).tail()
                == 0,
            old(self).head() != old(self).tail() ==> final(self).head() == old(self).head()
                && final(self).tail() == old(self).tail(),
    {
        if self.head == self.tail {
            self.head = 0;
            self.tail = 0;
        }
        proof {
            if old(self).head() == old(self).tail() {
                assert(self.window() =~= old(self).window());
            }
        }
    }

    /// The offset of the first zero byte at or after the read offset,
    /// anywhere in the backing buffer, filled or not.
    pub fn next_null(&mut self) -> (r: Option<usize>)
        requires
            old(self).wf(),
        ensures
            *final(self) == *old(self),
            match r {
                Some(i) => old(self).head() <= i < old(self).data().len() && old(self).data()[i as int]
                    == 0 && forall|j: int|
                    old(self).head() <= j < i ==> old(self).data()[j] != 0,
                None => forall|j: int|
                    old(self).head() <= j < old(self).data().len() ==> old(self).data()[j] != 0,
            },
    {
        let mut i = self.head;
        while i < self.buf.len()
            invariant
                self.wf(),
                self.head <= i <= self.buf@.len(),
                forall|j: int| self.head <= j < i ==> self.buf@[j] != 0,
            decreases self.buf@.len() - i,
        {
            if self.buf[i] == 0 {
                return Some(i);
            }
            i += 1;
        }
        None
    }

    /// Takes the next complete frame, if one has been received, and decodes
    /// it into `dst`, returning the number of bytes produced. The frame is
    /// consumed whether or not it decodes.
    pub fn decode_packet(&mut self, dst: &mut [u8]) -> (r: Result<Option<usize>, Error>)
        requires
            old(self).wf(),
        ensures
            final(self).wf(),
            final(self).data() == old(self).data(),
            final(self).tail() == old(self).tail(),
            final(dst)@.len() == old(dst)@.len(),
            frames(old(self).window()).len() == 0 ==> r == Ok::<Option<usize>, Error>(None)
                && final(self).head() == old(self).head(),
            frames(old(self).window()).len() > 0 ==> {
                let f = frames(old(self).window())[0];
                &&& final(self).window() == old(self).window().subrange(
                    f.len() as int + 1,
                    old(self).window().len() as int,
                )
                &&& frames(old(self).window()) == seq![f] + frames(final(self).window())
                &&& match decode_result(f, old(dst)@.len()) {
                    Ok(v) => r == Ok::<Option<usize>, Error>(Some(v.len() as usize))
                        && final(dst)@.subrange(0, v.len() as int) == v,
                    Err(e) => r == Err::<Option<usize>, Error>(e),
                }
            },
    {
        let ghost w = self.window();
        let head = self.head;
        let mut i = head;
        while i < self.tail && self.buf[i] != 0
            invariant
                self.wf(),
                head == self.head,
                w == self.window(),
                head <= i <= self.tail,
                forall|j: int| head <= j < i ==> self.buf@[j] != 0,
            decreases self.tail - i,
        {
            i += 1;
        }
        if i == self.tail {
            proof {
                assert(no_zero(w)) by {
                    assert forall|j: int| 0 <= j < w.len() implies w[j] != 0 by {
                        assert(w[j] == self.buf@[head + j]);
                    }
                }
                lemma_no_zero_frames(w);
            }
            return Ok(None);
        }
        proof {
            let k = i - head;
            assert(w[k] == 0);
            assert(no_zero(w.subrange(0, k))) by {
                assert forall|j: int| 0 <= j < k implies w.subrange(0, k)[j] != 0 by {
                    assert(w.subrange(0, k)[j] == self.buf@[head + j]);
                }
            }
            lemma_first_frame(w, k);
            assert(w.subrange(0, k) =~= self.buf@.subrange(head as int, i as int));
            assert(w.subrange(k + 1, w.len() as int) =~= self.buf@.subrange(i + 1, self.tail as int));
        }
        self.head = i + 1;
        let frame = &self.buf[head..i];
        match decode(frame, dst) {
            Ok(n) => Ok(Some(n)),
            Err(e) => Err(e),
        }
    }
}

} // verus!
