//! Variable-length unsigned integers: big-endian 7-bit groups, every byte
//! except the last carrying a set high bit.
//!
//! `vint` is the mathematical encoding of a value; `vdec_at` is the
//! mathematical decoder, used by the delta-stream model to define what any
//! byte stream means.  The executable reader and writer are proved to agree
//! with those two functions, and `lemma_vint_round_trip` ties them together.

use vstd::prelude::*;

use crate::error::Error;

verus! {

/// The decoder rejects a group that would shift the accumulator past 64 bits;
/// any accumulator at or above this bound has no room for 7 more bits.
pub const VINT_ACC_LIMIT: u64 = 0x0200_0000_0000_0000;

/// Continuation groups of `v`, i.e. everything before the final group: each
/// holds 7 bits of the value, high bit set, most significant group first.
pub open spec fn vint_hi(v: u64) -> Seq<u8>
    decreases v,
{
    if v == 0 {
        Seq::<u8>::empty()
    } else {
        vint_hi((v / 128) as u64) + seq![((v % 128) + 128) as u8]
    }
}

/// The encoding of `v`: continuation groups, then the terminating group with
/// its high bit clear.
pub open spec fn vint(v: u64) -> Seq<u8> {
    vint_hi((v / 128) as u64) + seq![(v % 128) as u8]
}

/// Decode one integer from `s` starting at `i`, with `acc` bits already
/// accumulated over `cnt` continuation bytes.  Fails when the stream ends
/// before a terminating byte, when the value would overflow 64 bits, or when
/// a tenth byte still carries a continuation bit.
pub open spec fn vdec_at(s: Seq<u8>, i: int, acc: u64, cnt: int) -> Result<(u64, int), Error>
    decreases s.len() - i,
{
    if i < 0 || i >= s.len() {
        Err(Error::MalformedVarInt)
    } else if acc >= VINT_ACC_LIMIT {
        Err(Error::MalformedVarInt)
    } else {
        let b = s[i];
        let acc2 = (acc * 128 + (b % 128) as u64) as u64;
        if b < 128 {
            Ok((acc2, i + 1))
        } else if cnt >= 9 {
            Err(Error::MalformedVarInt)
        } else {
            vdec_at(s, i + 1, acc2, cnt + 1)
        }
    }
}

/// Decode one integer from `s` at `i` with a fresh accumulator.
pub open spec fn vdec(s: Seq<u8>, i: int) -> Result<(u64, int), Error> {
    vdec_at(s, i, 0, 0)
}

/// 128 raised to `n`, the weight of `n` 7-bit groups.
pub open spec fn pow128(n: nat) -> int
    decreases n,
{
    if n == 0 {
        1
    } else {
        128 * pow128((n - 1) as nat)
    }
}

/// A value below `pow128(k)` needs at most `k` continuation groups.
proof fn lemma_vint_hi_len(u: u64, k: nat)
    requires
        u < pow128(k),
    ensures
        vint_hi(u).len() <= k,
    decreases u,
{
    if u != 0 {
        assert(k > 0) by {
            if k == 0 {
                assert(pow128(0) == 1);
            }
        }
        assert(((u / 128) as u64) < pow128((k - 1) as nat)) by {
            assert(pow128(k) == 128 * pow128((k - 1) as nat));
        }
        lemma_vint_hi_len((u / 128) as u64, (k - 1) as nat);
    }
}

/// A value below two to the thirty-fifth needs at most five bytes.
pub proof fn lemma_vint_len5(v: u64)
    requires
        v < 0x8_0000_0000,
    ensures
        vint(v).len() <= 5,
{
    assert(pow128(4) == 0x1000_0000) by {
        reveal_with_fuel(pow128, 5);
    }
    assert(((v / 128) as u64) < pow128(4));
    lemma_vint_hi_len((v / 128) as u64, 4);
}

/// Processing the continuation groups of `u` folds `u` into the accumulator:
/// the decoder moves from `(i, acc, cnt)` to just past those groups with
/// accumulator `acc * pow128(len) + u`.
proof fn lemma_vdec_hi(s: Seq<u8>, i: int, acc: u64, cnt: int, u: u64)
    requires
        0 <= i,
        i + vint_hi(u).len() <= s.len(),
        s.subrange(i, i + vint_hi(u).len() as int) == vint_hi(u),
        acc * pow128(vint_hi(u).len() as nat) + u < VINT_ACC_LIMIT,
        cnt >= 0,
        cnt + vint_hi(u).len() <= 9,
    ensures
        vdec_at(s, i, acc, cnt) == vdec_at(
            s,
            i + vint_hi(u).len(),
            (acc * pow128(vint_hi(u).len() as nat) + u) as u64,
            cnt + vint_hi(u).len(),
        ),
    decreases u,
{
    if u == 0 {
        assert(vint_hi(u).len() == 0);
        assert(acc * pow128(0) + 0 == acc);
    } else {
        let d = vint_hi(u).len() as int;
        let hi = vint_hi((u / 128) as u64);
        let p1 = pow128(hi.len() as nat);
        lemma_pow128_pos(hi.len() as nat);
        assert(vint_hi(u) == hi + seq![((u % 128) + 128) as u8]);
        assert(d == hi.len() + 1);
        assert(pow128(d as nat) == 128 * p1);
        assert(s.subrange(i, i + hi.len() as int) =~= hi) by {
            assert(forall|j: int|
                0 <= j < hi.len() ==> #[trigger] s.subrange(i, i + hi.len() as int)[j]
                    == s.subrange(i, i + d)[j]);
        }
        let q = (u / 128) as u64;
        assert(acc * p1 >= 0 && acc * p1 * 128 == acc * (128 * p1)) by (nonlinear_arith)
            requires
                acc >= 0,
                p1 >= 1,
        ;
        assert((acc * p1 + q) * 128 <= acc * (128 * p1) + u) by {
            assert(q * 128 <= u);
        }
        assert(acc * p1 + q < VINT_ACC_LIMIT);
        lemma_vdec_hi(s, i, acc, cnt, q);
        let acc1 = (acc * p1 + q) as u64;
        // One more step for the last continuation group of `u`.
        let j = i + hi.len() as int;
        assert(s[j] == ((u % 128) + 128) as u8) by {
            assert(s.subrange(i, i + d)[hi.len() as int] == s[j]);
        }
        assert(vdec_at(s, j, acc1, cnt + hi.len()) == vdec_at(
            s,
            j + 1,
            (acc1 * 128 + ((u % 128) + 128) as u8 % 128) as u64,
            cnt + hi.len() + 1,
        ));
        assert(acc1 * 128 + (u % 128) == acc * pow128(d as nat) + u) by {
            assert(acc1 * 128 == acc * p1 * 128 + q * 128) by (nonlinear_arith)
                requires
                    acc1 == acc * p1 + q,
            ;
            assert(q * 128 + u % 128 == u);
        }
    }
}

/// `pow128` is positive.
proof fn lemma_pow128_pos(n: nat)
    ensures
        pow128(n) >= 1,
    decreases n,
{
    if n > 0 {
        lemma_pow128_pos((n - 1) as nat);
    }
}

/// Round trip: decoding an encoded value, with anything at all appended,
/// yields that value and consumes exactly the encoding.
pub proof fn lemma_vint_round_trip(v: u64, rest: Seq<u8>)
    ensures
        vdec(vint(v) + rest, 0) == Ok::<(u64, int), Error>((v, vint(v).len() as int)),
        1 <= vint(v).len() <= 10,
{
    let s = vint(v) + rest;
    let u = (v / 128) as u64;
    let hi = vint_hi(u);
    assert(pow128(9) == 0x8000_0000_0000_0000) by {
        reveal_with_fuel(pow128, 10);
    }
    assert(u < pow128(9));
    lemma_vint_hi_len(u, 9);
    assert(s.subrange(0, hi.len() as int) =~= hi);
    lemma_pow128_pos(hi.len() as nat);
    assert(0 * pow128(hi.len() as nat) + u == u);
    lemma_vdec_hi(s, 0, 0, 0, u);
    let j = hi.len() as int;
    assert(s[j] == (v % 128) as u8);
    assert(u < VINT_ACC_LIMIT);
    assert(u * 128 + (v % 128) == v);
    assert(vdec_at(s, j, u, j) == Ok::<(u64, int), Error>((v, j + 1)));
}

/// A successful decode consumes at least one byte and stays in the stream.
pub proof fn lemma_vdec_consumes(s: Seq<u8>, i: int, acc: u64, cnt: int)
    ensures
        match vdec_at(s, i, acc, cnt) {
            Ok(p) => i < p.1 <= s.len(),
            Err(e) => true,
        },
    decreases s.len() - i,
{
    if 0 <= i < s.len() {
        let b = s[i];
        if !(acc >= VINT_ACC_LIMIT) && !(b < 128) && !(cnt >= 9) {
            lemma_vdec_consumes(s, i + 1, (acc * 128 + (b % 128) as u64) as u64, cnt + 1);
        }
    }
}

/// Decoding does not care where the stream sits inside a larger one:
/// dropping a prefix of `j` bytes shifts the returned index and nothing else.
pub proof fn lemma_vdec_skip(s: Seq<u8>, j: int, i: int, acc: u64, cnt: int)
    requires
        0 <= j <= i,
        j <= s.len(),
    ensures
        match (vdec_at(s, i, acc, cnt), vdec_at(s.skip(j), i - j, acc, cnt)) {
            (Ok(p1), Ok(p2)) => p1.0 == p2.0 && p1.1 == p2.1 + j,
            (Err(e1), Err(e2)) => e1 == e2,
            _ => false,
        },
    decreases s.len() - i,
{
    if i < s.len() {
        assert(s.skip(j)[i - j] == s[i]);
        let b = s[i];
        if !(acc >= VINT_ACC_LIMIT) && !(b < 128) && !(cnt >= 9) {
            lemma_vdec_skip(s, j, i + 1, (acc * 128 + (b % 128) as u64) as u64, cnt + 1);
        }
    }
}

/// Append the encoding of `v` to `out`.
pub fn vint_write(out: &mut Vec<u8>, v: u64)
    ensures
        final(out)@ == old(out)@ + vint(v),
{
    let mut tmp: Vec<u8> = Vec::new();
    tmp.push((v % 128) as u8);
    let mut t: u64 = v / 128;
    proof {
        assert(vint(v) == vint_hi(t) + tmp@.reverse()) by {
            assert(tmp@.reverse() =~= seq![(v % 128) as u8]);
        }
    }
    while t > 0
        invariant
            vint(v) == vint_hi(t) + tmp@.reverse(),
            tmp@.len() >= 1,
        decreases t,
    {
        let b: u8 = ((t % 128) + 128) as u8;
        let ghost pre = tmp@;
        tmp.push(b);
        proof {
            assert(tmp@.reverse() =~= seq![b] + pre.reverse());
            assert(vint_hi(t) == vint_hi((t / 128) as u64) + seq![b]);
            assert(vint_hi((t / 128) as u64) + tmp@.reverse() =~= vint_hi(t) + pre.reverse());
        }
        t = t / 128;
    }
    assert(vint(v) =~= tmp@.reverse());
    let n = tmp.len();
    let mut k: usize = n;
    while k > 0
        invariant
            k <= n,
            n == tmp@.len(),
            vint(v) == tmp@.reverse(),
            out@ == old(out)@ + tmp@.reverse().take(n - k),
        decreases k,
    {
        k = k - 1;
        let b = tmp[k];
        out.push(b);
        proof {
            assert(tmp@.reverse()[n - k - 1] == b);
            assert(out@ =~= old(out)@ + tmp@.reverse().take(n - k));
        }
    }
    assert(out@ =~= old(out)@ + vint(v));
}

/// Read one variable-length integer from `s` starting at `start`.
pub fn vint_read(s: &[u8], start: usize) -> (r: Result<(u64, usize), Error>)
    requires
        start <= s@.len(),
    ensures
        match r {
            Ok(p) => {
                &&& vdec(s@, start as int) == Ok::<(u64, int), Error>((p.0, p.1 as int))
                &&& start < p.1 <= s@.len()
            },
            Err(e) => vdec(s@, start as int) == Err::<(u64, int), Error>(e),
        },
{
    let mut i: usize = start;
    let mut acc: u64 = 0;
    let mut cnt: usize = 0;
    loop
        invariant
            start <= i <= s@.len(),
            vdec(s@, start as int) == vdec_at(s@, i as int, acc, cnt as int),
            cnt <= 9,
        decreases s@.len() - i,
    {
        if i >= s.len() {
            return Err(Error::MalformedVarInt);
        }
        if acc >= VINT_ACC_LIMIT {
            return Err(Error::MalformedVarInt);
        }
        let b = s[i];
        acc = acc * 128 + (b % 128) as u64;
        if b < 128 {
            return Ok((acc, i + 1));
        }
        if cnt >= 9 {
            return Err(Error::MalformedVarInt);
        }
        i = i + 1;
        cnt = cnt + 1;
    }
}

} // verus!
