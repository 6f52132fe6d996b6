//! Adler-32 checksums over reconstructed window contents, and the four-byte
//! big-endian form in which a window declares one.

use vstd::prelude::*;

verus! {

/// The Adler-32 modulus: the largest prime below 65536.
pub const ADLER_MOD: u64 = 65521;

/// Fold the bytes of `s` from index `i` into the running pair `(a, b)`.
pub open spec fn adler_from(s: Seq<u8>, i: int, a: u64, b: u64) -> (u64, u64)
    decreases s.len() - i,
{
    if i < 0 || i >= s.len() {
        (a, b)
    } else {
        let a2 = ((a + s[i]) % (ADLER_MOD as int)) as u64;
        let b2 = ((b + a2) % (ADLER_MOD as int)) as u64;
        adler_from(s, i + 1, a2, b2)
    }
}

/// The Adler-32 checksum of a byte sequence.
pub open spec fn adler32(s: Seq<u8>) -> u64 {
    let p = adler_from(s, 0, 1, 0);
    (p.1 * 65536 + p.0) as u64
}

/// The running pair stays below the modulus, so a checksum fits 32 bits.
pub proof fn lemma_adler_bounds(s: Seq<u8>, i: int, a: u64, b: u64)
    requires
        a < ADLER_MOD,
        b < ADLER_MOD,
    ensures
        adler_from(s, i, a, b).0 < ADLER_MOD,
        adler_from(s, i, a, b).1 < ADLER_MOD,
    decreases s.len() - i,
{
    if 0 <= i < s.len() {
        let a2 = ((a + s[i]) % (ADLER_MOD as int)) as u64;
        let b2 = ((b + a2) % (ADLER_MOD as int)) as u64;
        lemma_adler_bounds(s, i + 1, a2, b2);
    }
}

/// The four-byte big-endian form of a 32-bit value.
pub open spec fn be32(v: u64) -> Seq<u8> {
    seq![
        ((v / 0x100_0000) % 256) as u8,
        ((v / 0x1_0000) % 256) as u8,
        ((v / 0x100) % 256) as u8,
        (v % 256) as u8,
    ]
}

/// Compute the Adler-32 checksum of a byte slice.
pub fn adler32_exec(s: &[u8]) -> (r: u64)
    ensures
        r == adler32(s@),
        r < 0x1_0000_0000,
{
    let mut a: u64 = 1;
    let mut b: u64 = 0;
    let mut i: usize = 0;
    while i < s.len()
        invariant
            i <= s@.len(),
            a < ADLER_MOD,
            b < ADLER_MOD,
            adler_from(s@, 0, 1, 0) == adler_from(s@, i as int, a, b),
        decreases s@.len() - i,
    {
        let byte = s[i];
        a = (a + byte as u64) % ADLER_MOD;
        b = (b + a) % ADLER_MOD;
        i = i + 1;
    }
    b * 65536 + a
}

/// Append the four big-endian checksum bytes of `v` to `out`.
pub fn be32_write(out: &mut Vec<u8>, v: u64)
    requires
        v < 0x1_0000_0000,
    ensures
        final(out)@ == old(out)@ + be32(v),
{
    out.push(((v / 0x100_0000) % 256) as u8);
    out.push(((v / 0x1_0000) % 256) as u8);
    out.push(((v / 0x100) % 256) as u8);
    out.push((v % 256) as u8);
    assert(out@ =~= old(out)@ + be32(v));
}

} // verus!
