//! The executable encoder: finds matches between the target and the
//! combined source-and-output buffer, emits ADD / RUN / COPY instructions,
//! and serializes delta windows.
//!
//! Everything the encoder emits is proved against the mathematical decoder:
//! the central postcondition of `encode` is that `decode_spec` maps the
//! emitted bytes, against the same source, back to the input exactly.

use vstd::prelude::*;

use crate::cache::{addr_decode, cache_init, cache_update, AddrCache, CacheModel};
use crate::checksum::{adler32, adler32_exec, be32, be32_write};
use crate::error::Error;
use crate::model::{
    apply_slot, comb_at, copy_append, decode_spec, run_from, run_spec, slot_size, win_head_spec,
    window_spec, windows_spec, WinHead, XState, MAGIC0, MAGIC1, MAGIC2, SIZE_LIMIT, VERSION,
    WIN_CHECKSUM, WIN_SOURCE,
};
use crate::model::{lemma_run_fuel, lemma_windows_fuel};
use crate::table::{code_entry, CodeEntry, K_ADD, K_COPY, K_NOOP, K_RUN};
use crate::table::{lemma_add_op, lemma_copy_op};
use crate::varint::{lemma_vint_round_trip, vdec, vint, vint_write};

verus! {

/// A copy shorter than this is not worth its instruction overhead.
pub const MIN_MATCH: u64 = 4;

/// A run of identical bytes at least this long becomes a RUN instruction.
pub const RUN_MIN: u64 = 8;

/// Number of buckets in the match finder's hash table.
pub const HASH_SIZE: u64 = 65536;

/// Bucket sentinel: no position recorded.
pub const NO_POS: u64 = 0xFFFF_FFFF_FFFF_FFFF;

/// What the remaining instruction stream, replayed from a given state, would
/// reconstruct: `run_spec` with its canonical fuel.
pub open spec fn enc_ok(
    instr: Seq<u8>,
    datar: Seq<u8>,
    addrr: Seq<u8>,
    c: CacheModel,
    o: Seq<u8>,
    srcseg: Seq<u8>,
    tlen: u64,
) -> Result<Seq<u8>, Error> {
    run_spec(
        XState { inst: instr, data: datar, addr: addrr, cache: c, out: o },
        srcseg,
        tlen,
        instr.len() as nat,
    )
}

/// A copy that reads only bytes that already exist appends exactly those
/// bytes.
proof fn lemma_copy_append_frozen(srcseg: Seq<u8>, out: Seq<u8>, a: int, n: nat)
    requires
        0 <= a,
        a + n <= srcseg.len() + out.len(),
    ensures
        copy_append(srcseg, out, a, n) == out + Seq::new(n, |i: int| comb_at(srcseg, out, a + i)),
    decreases n,
{
    if n == 0 {
        assert(copy_append(srcseg, out, a, n) =~= out + Seq::new(0, |i: int| comb_at(
            srcseg,
            out,
            a + i,
        )));
    } else {
        let b = comb_at(srcseg, out, a);
        let out1 = out.push(b);
        lemma_copy_append_frozen(srcseg, out1, a + 1, (n - 1) as nat);
        assert(forall|i: int|
            0 <= i < n - 1 ==> #[trigger] comb_at(srcseg, out1, a + 1 + i) == comb_at(
                srcseg,
                out,
                a + 1 + i,
            ));
        assert(out1 + Seq::new((n - 1) as nat, |i: int| comb_at(srcseg, out1, a + 1 + i)) =~= out
            + Seq::new(n, |i: int| comb_at(srcseg, out, a + i)));
    }
}

/// One ADD instruction at the front of the streams appends its payload.
proof fn lemma_step_add(
    op: u8,
    size: u64,
    sb: Seq<u8>,
    payload: Seq<u8>,
    i2: Seq<u8>,
    d2: Seq<u8>,
    a2: Seq<u8>,
    c: CacheModel,
    o: Seq<u8>,
    srcseg: Seq<u8>,
    tlen: u64,
)
    requires
        code_entry(op).kind1 == K_ADD,
        code_entry(op).kind2 == K_NOOP,
        (code_entry(op).size1 == size && sb == Seq::<u8>::empty()) || (code_entry(op).size1 == 0
            && sb == vint(size)),
        size >= 1,
        payload.len() == size,
        o.len() + size <= tlen,
    ensures
        enc_ok(seq![op] + sb + i2, payload + d2, a2, c, o, srcseg, tlen) == enc_ok(
            i2,
            d2,
            a2,
            c,
            o + payload,
            srcseg,
            tlen,
        ),
{
    let full = seq![op] + sb + i2;
    let st = XState { inst: full, data: payload + d2, addr: a2, cache: c, out: o };
    assert(full[0] == op);
    assert(full.skip(1) =~= sb + i2);
    let st0 = XState { inst: sb + i2, data: payload + d2, addr: a2, cache: c, out: o };
    if code_entry(op).size1 == 0 {
        lemma_vint_round_trip(size, i2);
        assert(sb + i2 =~= vint(size) + i2);
        assert(vdec(sb + i2, 0) == Ok::<(u64, int), Error>((size, vint(size).len() as int)));
        assert((sb + i2).skip(vint(size).len() as int) =~= i2);
    } else {
        assert(sb + i2 =~= i2);
    }
    assert(slot_size(code_entry(op).size1, sb + i2) == Ok::<(u64, Seq<u8>), Error>((size, i2)));
    assert((payload + d2).take(size as int) =~= payload);
    assert((payload + d2).skip(size as int) =~= d2);
    let st1 = XState { inst: i2, data: d2, addr: a2, cache: c, out: o + payload };
    assert(apply_slot(code_entry(op).kind1, code_entry(op).size1, code_entry(op).mode1, st0,
        srcseg, tlen) == Ok::<XState, Error>(st1));
    assert(run_spec(st, srcseg, tlen, full.len() as nat) == run_spec(
        st1,
        srcseg,
        tlen,
        (full.len() - 1) as nat,
    ));
    lemma_run_fuel(st1, srcseg, tlen, (full.len() - 1) as nat, i2.len() as nat);
}

/// One RUN instruction at the front of the streams appends its repeated
/// byte.
proof fn lemma_step_run(
    size: u64,
    b: u8,
    i2: Seq<u8>,
    d2: Seq<u8>,
    a2: Seq<u8>,
    c: CacheModel,
    o: Seq<u8>,
    srcseg: Seq<u8>,
    tlen: u64,
)
    requires
        size >= 1,
        o.len() + size <= tlen,
    ensures
        enc_ok(seq![0u8] + vint(size) + i2, seq![b] + d2, a2, c, o, srcseg, tlen) == enc_ok(
            i2,
            d2,
            a2,
            c,
            o + Seq::new(size as nat, |i: int| b),
            srcseg,
            tlen,
        ),
{
    let full = seq![0u8] + vint(size) + i2;
    let st = XState { inst: full, data: seq![b] + d2, addr: a2, cache: c, out: o };
    assert(full[0] == 0u8);
    assert(code_entry(0).kind1 == K_RUN && code_entry(0).size1 == 0 && code_entry(0).kind2
        == K_NOOP);
    assert(full.skip(1) =~= vint(size) + i2);
    let st0 = XState { inst: vint(size) + i2, data: seq![b] + d2, addr: a2, cache: c, out: o };
    lemma_vint_round_trip(size, i2);
    assert((vint(size) + i2).skip(vint(size).len() as int) =~= i2);
    assert(slot_size(0, vint(size) + i2) == Ok::<(u64, Seq<u8>), Error>((size, i2)));
    assert((seq![b] + d2)[0] == b);
    assert((seq![b] + d2).skip(1) =~= d2);
    let st1 = XState {
        inst: i2,
        data: d2,
        addr: a2,
        cache: c,
        out: o + Seq::new(size as nat, |i: int| b),
    };
    assert(o + Seq::new(size as nat, |i: int| (seq![b] + d2)[0]) =~= o + Seq::new(
        size as nat,
        |i: int| b,
    ));
    assert(apply_slot(K_RUN, 0, 0, st0, srcseg, tlen) == Ok::<XState, Error>(st1));
    assert(run_spec(st, srcseg, tlen, full.len() as nat) == run_spec(
        st1,
        srcseg,
        tlen,
        (full.len() - 1) as nat,
    ));
    lemma_run_fuel(st1, srcseg, tlen, (full.len() - 1) as nat, i2.len() as nat);
}

/// One COPY instruction at the front of the streams appends the addressed
/// bytes and runs the cache update.
proof fn lemma_step_copy(
    op: u8,
    size: u64,
    sb: Seq<u8>,
    m: u8,
    ab: Seq<u8>,
    av: u64,
    i2: Seq<u8>,
    d: Seq<u8>,
    a2: Seq<u8>,
    c: CacheModel,
    o: Seq<u8>,
    srcseg: Seq<u8>,
    tlen: u64,
)
    requires
        code_entry(op).kind1 == K_COPY,
        code_entry(op).kind2 == K_NOOP,
        code_entry(op).mode1 == m,
        (code_entry(op).size1 == size && sb == Seq::<u8>::empty()) || (code_entry(op).size1 == 0
            && sb == vint(size)),
        size >= 1,
        o.len() + size <= tlen,
        tlen < SIZE_LIMIT,
        srcseg.len() < SIZE_LIMIT,
        addr_decode(c, m, ab + a2, ((srcseg.len() + o.len()) as u64)) == Ok::<(u64, int), Error>((
            av,
            ab.len() as int,
        )),
    ensures
        enc_ok(seq![op] + sb + i2, d, ab + a2, c, o, srcseg, tlen) == enc_ok(
            i2,
            d,
            a2,
            cache_update(c, av),
            copy_append(srcseg, o, av as int, size as nat),
            srcseg,
            tlen,
        ),
{
    let full = seq![op] + sb + i2;
    let st = XState { inst: full, data: d, addr: ab + a2, cache: c, out: o };
    assert(full[0] == op);
    assert(full.skip(1) =~= sb + i2);
    let st0 = XState { inst: sb + i2, data: d, addr: ab + a2, cache: c, out: o };
    if code_entry(op).size1 == 0 {
        lemma_vint_round_trip(size, i2);
        assert(sb + i2 =~= vint(size) + i2);
        assert(vdec(sb + i2, 0) == Ok::<(u64, int), Error>((size, vint(size).len() as int)));
        assert((sb + i2).skip(vint(size).len() as int) =~= i2);
    } else {
        assert(sb + i2 =~= i2);
    }
    assert(slot_size(code_entry(op).size1, sb + i2) == Ok::<(u64, Seq<u8>), Error>((size, i2)));
    assert((ab + a2).skip(ab.len() as int) =~= a2);
    let st1 = XState {
        inst: i2,
        data: d,
        addr: a2,
        cache: cache_update(c, av),
        out: copy_append(srcseg, o, av as int, size as nat),
    };
    assert(apply_slot(K_COPY, code_entry(op).size1, m, st0, srcseg, tlen) == Ok::<
        XState,
        Error,
    >(st1));
    assert(run_spec(st, srcseg, tlen, full.len() as nat) == run_spec(
        st1,
        srcseg,
        tlen,
        (full.len() - 1) as nat,
    ));
    lemma_run_fuel(st1, srcseg, tlen, (full.len() - 1) as nat, i2.len() as nat);
}

/// Emit one ADD covering `chunk[from..to]`.
#[verifier::rlimit(100)]
fn emit_add(
    instv: &mut Vec<u8>,
    datav: &mut Vec<u8>,
    Ghost(addrv_v): Ghost<Seq<u8>>,
    Ghost(cm): Ghost<CacheModel>,
    chunk: &[u8],
    src: &[u8],
    from: usize,
    to: usize,
)
    requires
        from < to <= chunk@.len(),
        chunk@.len() < SIZE_LIMIT,
        forall|i2: Seq<u8>, d2: Seq<u8>, a2: Seq<u8>| #[trigger] enc_ok(
            old(instv)@ + i2,
            old(datav)@ + d2,
            addrv_v + a2,
            cache_init(),
            Seq::empty(),
            src@,
            chunk@.len() as u64,
        ) == enc_ok(i2, d2, a2, cm, chunk@.take(from as int), src@, chunk@.len() as u64),
    ensures
        final(instv)@.len() <= old(instv)@.len() + 6,
        final(datav)@.len() == old(datav)@.len() + (to - from),
        forall|i2: Seq<u8>, d2: Seq<u8>, a2: Seq<u8>| #[trigger] enc_ok(
            final(instv)@ + i2,
            final(datav)@ + d2,
            addrv_v + a2,
            cache_init(),
            Seq::empty(),
            src@,
            chunk@.len() as u64,
        ) == enc_ok(i2, d2, a2, cm, chunk@.take(to as int), src@, chunk@.len() as u64),
{
    proof {
        crate::varint::lemma_vint_len5((to - from) as u64);
    }
    let len = to - from;
    let tlen = chunk.len() as u64;
    let op: u8;
    if len <= 17 {
        op = (len + 1) as u8;
        instv.push(op);
        proof {
            lemma_add_op(len as u64);
        }
    } else {
        op = 1;
        instv.push(op);
        vint_write(instv, len as u64);
    }
    let ghost sb: Seq<u8> = if len <= 17 {
        Seq::<u8>::empty()
    } else {
        vint(len as u64)
    };
    let ghost payload = chunk@.subrange(from as int, to as int);
    datav.extend_from_slice(&chunk[from..to]);
    proof {
        assert(instv@ =~= old(instv)@ + (seq![op] + sb));
        assert(datav@ == old(datav)@ + payload);
        assert forall|i2: Seq<u8>, d2: Seq<u8>, a2: Seq<u8>| #[trigger] enc_ok(
            instv@ + i2,
            datav@ + d2,
            addrv_v + a2,
            cache_init(),
            Seq::empty(),
            src@,
            tlen,
        ) == enc_ok(i2, d2, a2, cm, chunk@.take(to as int), src@, tlen) by {
            let ei = seq![op] + sb;
            assert(instv@ + i2 =~= old(instv)@ + (ei + i2));
            assert(datav@ + d2 =~= old(datav)@ + (payload + d2));
            assert(enc_ok(
                old(instv)@ + (ei + i2),
                old(datav)@ + (payload + d2),
                addrv_v + a2,
                cache_init(),
                Seq::empty(),
                src@,
                tlen,
            ) == enc_ok(
                ei + i2,
                payload + d2,
                a2,
                cm,
                chunk@.take(from as int),
                src@,
                tlen,
            ));
            lemma_step_add(
                op,
                len as u64,
                sb,
                payload,
                i2,
                d2,
                a2,
                cm,
                chunk@.take(from as int),
                src@,
                tlen,
            );
            assert(ei + i2 =~= seq![op] + sb + i2);
            assert(chunk@.take(from as int) + payload =~= chunk@.take(to as int));
        }
    }
}

/// Emit one RUN of `size` copies of `b`, which the target holds at
/// `chunk[at..at + size]`.
#[verifier::rlimit(100)]
fn emit_run(
    instv: &mut Vec<u8>,
    datav: &mut Vec<u8>,
    Ghost(addrv_v): Ghost<Seq<u8>>,
    Ghost(cm): Ghost<CacheModel>,
    chunk: &[u8],
    src: &[u8],
    at: usize,
    size: u64,
    b: u8,
)
    requires
        size >= 1,
        at + size <= chunk@.len(),
        chunk@.len() < SIZE_LIMIT,
        forall|j: int| at <= j < at + size ==> chunk@[j] == b,
        forall|i2: Seq<u8>, d2: Seq<u8>, a2: Seq<u8>| #[trigger] enc_ok(
            old(instv)@ + i2,
            old(datav)@ + d2,
            addrv_v + a2,
            cache_init(),
            Seq::empty(),
            src@,
            chunk@.len() as u64,
        ) == enc_ok(i2, d2, a2, cm, chunk@.take(at as int), src@, chunk@.len() as u64),
    ensures
        final(instv)@.len() <= old(instv)@.len() + 6,
        final(datav)@.len() == old(datav)@.len() + 1,
        forall|i2: Seq<u8>, d2: Seq<u8>, a2: Seq<u8>| #[trigger] enc_ok(
            final(instv)@ + i2,
            final(datav)@ + d2,
            addrv_v + a2,
            cache_init(),
            Seq::empty(),
            src@,
            chunk@.len() as u64,
        ) == enc_ok(i2, d2, a2, cm, chunk@.take(at + size as int), src@, chunk@.len() as u64),
{
    proof {
        crate::varint::lemma_vint_len5(size);
    }
    let tlen = chunk.len() as u64;
    instv.push(0u8);
    vint_write(instv, size);
    datav.push(b);
    proof {
        assert(instv@ =~= old(instv)@ + (seq![0u8] + vint(size)));
        assert(datav@ =~= old(datav)@ + seq![b]);
        assert forall|i2: Seq<u8>, d2: Seq<u8>, a2: Seq<u8>| #[trigger] enc_ok(
            instv@ + i2,
            datav@ + d2,
            addrv_v + a2,
            cache_init(),
            Seq::empty(),
            src@,
            tlen,
        ) == enc_ok(i2, d2, a2, cm, chunk@.take(at + size as int), src@, tlen) by {
            let ei = seq![0u8] + vint(size);
            assert(instv@ + i2 =~= old(instv)@ + (ei + i2));
            assert(datav@ + d2 =~= old(datav)@ + (seq![b] + d2));
            assert(enc_ok(
                old(instv)@ + (ei + i2),
                old(datav)@ + (seq![b] + d2),
                addrv_v + a2,
                cache_init(),
                Seq::empty(),
                src@,
                tlen,
            ) == enc_ok(
                ei + i2,
                seq![b] + d2,
                a2,
                cm,
                chunk@.take(at as int),
                src@,
                tlen,
            ));
            lemma_step_run(size, b, i2, d2, a2, cm, chunk@.take(at as int), src@, tlen);
            assert(ei + i2 =~= seq![0u8] + vint(size) + i2);
            assert(chunk@.take(at as int) + Seq::new(size as nat, |i: int| b) =~= chunk@.take(
                at + size as int,
            ));
        }
    }
}

/// Emit one COPY of `len` bytes from combined position `p`, which equal
/// `chunk[at..at + len]`.
#[verifier::rlimit(100)]
#[verifier::spinoff_prover]
fn emit_copy(
    instv: &mut Vec<u8>,
    addrv: &mut Vec<u8>,
    cache: &mut AddrCache,
    Ghost(datav_v): Ghost<Seq<u8>>,
    chunk: &[u8],
    src: &[u8],
    at: usize,
    len: u64,
    p: u64,
)
    requires
        old(cache).wf(),
        len >= 1,
        at + len <= chunk@.len(),
        chunk@.len() < SIZE_LIMIT,
        src@.len() < SIZE_LIMIT,
        p + len <= src@.len() + at,
        forall|j: int| 0 <= j < len ==> #[trigger] comb_at(src@, chunk@.take(at as int), p + j)
            == chunk@[at + j],
        forall|i2: Seq<u8>, d2: Seq<u8>, a2: Seq<u8>| #[trigger] enc_ok(
            old(instv)@ + i2,
            datav_v + d2,
            old(addrv)@ + a2,
            cache_init(),
            Seq::empty(),
            src@,
            chunk@.len() as u64,
        ) == enc_ok(
            i2,
            d2,
            a2,
            old(cache).model(),
            chunk@.take(at as int),
            src@,
            chunk@.len() as u64,
        ),
    ensures
        final(cache).wf(),
        final(instv)@.len() <= old(instv)@.len() + 6,
        final(addrv)@.len() <= old(addrv)@.len() + 5,
        forall|i2: Seq<u8>, d2: Seq<u8>, a2: Seq<u8>| #[trigger] enc_ok(
            final(instv)@ + i2,
            datav_v + d2,
            final(addrv)@ + a2,
            cache_init(),
            Seq::empty(),
            src@,
            chunk@.len() as u64,
        ) == enc_ok(
            i2,
            d2,
            a2,
            final(cache).model(),
            chunk@.take(at + len as int),
            src@,
            chunk@.len() as u64,
        ),
{
    proof {
        crate::varint::lemma_vint_len5(len);
    }
    let tlen = chunk.len() as u64;
    let here = src.len() as u64 + at as u64;
    let m = cache.encode_addr(p, here, addrv);
    let ghost ab = addrv@.skip(old(addrv)@.len() as int);
    let op: u8;
    if 4 <= len && len <= 18 {
        op = 19 + 16 * m + (len - 3) as u8;
        instv.push(op);
        proof {
            lemma_copy_op(m, (len - 3) as u8);
        }
    } else {
        op = 19 + 16 * m;
        instv.push(op);
        vint_write(instv, len);
        proof {
            lemma_copy_op(m, 0);
        }
    }
    let ghost sb: Seq<u8> = if 4 <= len && len <= 18 {
        Seq::<u8>::empty()
    } else {
        vint(len)
    };
    cache.update(p);
    proof {
        assert(instv@ =~= old(instv)@ + (seq![op] + sb));
        assert(addrv@ == old(addrv)@ + ab);
        let o = chunk@.take(at as int);
        assert forall|i2: Seq<u8>, d2: Seq<u8>, a2: Seq<u8>| #[trigger] enc_ok(
            instv@ + i2,
            datav_v + d2,
            addrv@ + a2,
            cache_init(),
            Seq::empty(),
            src@,
            tlen,
        ) == enc_ok(
            i2,
            d2,
            a2,
            cache.model(),
            chunk@.take(at + len as int),
            src@,
            tlen,
        ) by {
            let ei = seq![op] + sb;
            assert(instv@ + i2 =~= old(instv)@ + (ei + i2));
            assert(addrv@ + a2 =~= old(addrv)@ + (ab + a2));
            assert(enc_ok(
                old(instv)@ + (ei + i2),
                datav_v + d2,
                old(addrv)@ + (ab + a2),
                cache_init(),
                Seq::empty(),
                src@,
                tlen,
            ) == enc_ok(ei + i2, d2, ab + a2, old(cache).model(), o, src@, tlen));
            assert(addr_decode(old(cache).model(), m, ab + a2, (src@.len() + o.len()) as u64)
                == Ok::<(u64, int), Error>((p, ab.len() as int)));
            lemma_step_copy(
                op,
                len,
                sb,
                m,
                ab,
                p,
                i2,
                d2,
                a2,
                old(cache).model(),
                o,
                src@,
                tlen,
            );
            assert(ei + i2 =~= seq![op] + sb + i2);
            lemma_copy_append_frozen(src@, o, p as int, len as nat);
            assert(o + Seq::new(len as nat, |i: int| comb_at(src@, o, p + i)) =~= chunk@.take(
                at + len as int,
            ));
            assert(copy_append(src@, o, p as int, len as nat) == chunk@.take(at + len as int));
            assert(cache.model() == cache_update(old(cache).model(), p));
        }
    }
}

/// Hash of a four-byte window, used to find copy candidates.
fn hash4(b0: u8, b1: u8, b2: u8, b3: u8) -> (h: usize)
    ensures
        h < 65536,
{
    let v: u64 = (b0 as u64) * 0x100_0000 + (b1 as u64) * 0x1_0000 + (b2 as u64) * 0x100 + (
    b3 as u64);
    ((v * 2654435761) / 65536 % 65536) as usize
}

/// Scan the target chunk against the combined buffer and emit the three
/// instruction-window sections whose replay reconstructs the chunk exactly.
#[verifier::rlimit(100)]
fn build_sections(chunk: &[u8], src: &[u8]) -> (r: (Vec<u8>, Vec<u8>, Vec<u8>))
    requires
        chunk@.len() < SIZE_LIMIT,
        src@.len() < SIZE_LIMIT,
    ensures
        enc_ok(r.0@, r.1@, r.2@, cache_init(), Seq::empty(), src@, chunk@.len() as u64) == Ok::<
            Seq<u8>,
            Error,
        >(chunk@),
        r.0@.len() <= 6 * chunk@.len(),
        r.1@.len() <= chunk@.len(),
        r.2@.len() <= 2 * chunk@.len(),
{
    let clen = chunk.len();
    let csrc = src.len();
    let tlen = clen as u64;
    let mut instv: Vec<u8> = Vec::new();
    let mut datav: Vec<u8> = Vec::new();
    let mut addrv: Vec<u8> = Vec::new();
    let mut cache = AddrCache::new();
    // Hash heads over the source, most recent position per bucket.
    let mut head: Vec<u64> = Vec::new();
    let mut hi: usize = 0;
    while hi < 65536
        invariant
            head@.len() == hi <= 65536,
        decreases 65536 - hi,
    {
        head.push(NO_POS);
        hi = hi + 1;
    }
    if csrc >= 4 {
        let mut p: usize = 0;
        while p <= csrc - 4
            invariant
                csrc >= 4,
                p <= csrc - 3,
                csrc == src@.len(),
                head@.len() == 65536,
            decreases csrc - p,
        {
            let h = hash4(src[p], src[p + 1], src[p + 2], src[p + 3]);
            head[h] = p as u64;
            p = p + 1;
        }
    }
    let mut t: usize = 0;
    let mut lit: usize = 0;
    proof {
        assert(chunk@.take(0) =~= Seq::<u8>::empty());
    }
    while t < clen
        invariant
            lit <= t <= clen,
            clen == chunk@.len(),
            csrc == src@.len(),
            chunk@.len() < SIZE_LIMIT,
            src@.len() < SIZE_LIMIT,
            tlen == clen as u64,
            cache.wf(),
            head@.len() == 65536,
            instv@.len() <= 6 * lit,
            datav@.len() <= lit,
            addrv@.len() <= 2 * lit,
            forall|i2: Seq<u8>, d2: Seq<u8>, a2: Seq<u8>| #[trigger] enc_ok(
                instv@ + i2,
                datav@ + d2,
                addrv@ + a2,
                cache_init(),
                Seq::empty(),
                src@,
                tlen,
            ) == enc_ok(i2, d2, a2, cache.model(), chunk@.take(lit as int), src@, tlen),
        decreases clen - t,
    {
        // Run detection: how far does the byte at `t` repeat?
        let b = chunk[t];
        let mut j: usize = t + 1;
        while j < clen && chunk[j] == b
            invariant
                t < j <= clen,
                clen == chunk@.len(),
                forall|x: int| t <= x < j ==> chunk@[x] == b,
            decreases clen - j,
        {
            j = j + 1;
        }
        let runlen = j - t;
        if runlen as u64 >= RUN_MIN {
            if lit < t {
                emit_add(
                    &mut instv,
                    &mut datav,
                    Ghost(addrv@),
                    Ghost(cache.model()),
                    chunk,
                    src,
                    lit,
                    t,
                );
            }
            emit_run(
                &mut instv,
                &mut datav,
                Ghost(addrv@),
                Ghost(cache.model()),
                chunk,
                src,
                t,
                runlen as u64,
                b,
            );
            t = j;
            lit = t;
        } else {
            let mut mlen: u64 = 0;
            let mut mpos: u64 = 0;
            let here = csrc as u64 + t as u64;
            if clen - t >= 4 {
                let h = hash4(chunk[t], chunk[t + 1], chunk[t + 2], chunk[t + 3]);
                let cand = head[h];
                head[h] = here;
                if cand != NO_POS && cand < here {
                    let mut l: u64 = 0;
                    let mut go = true;
                    while go && (t as u64 + l) < clen as u64 && cand + l < here
                        invariant
                            l <= clen - t,
                            cand + l <= here,
                            cand < here,
                            here == csrc + t,
                            t < clen,
                            clen == chunk@.len(),
                            csrc == src@.len(),
                            chunk@.len() < SIZE_LIMIT,
                            src@.len() < SIZE_LIMIT,
                            forall|x: int|
                                0 <= x < l ==> #[trigger] comb_at(
                                    src@,
                                    chunk@.take(t as int),
                                    cand + x,
                                ) == chunk@[t + x],
                        decreases (clen - t - l) + (if go {
                            1int
                        } else {
                            0int
                        }),
                    {
                        let q = cand + l;
                        let cb: u8 = if q < csrc as u64 {
                            src[q as usize]
                        } else {
                            chunk[(q - csrc as u64) as usize]
                        };
                        proof {
                            assert(cb == comb_at(src@, chunk@.take(t as int), q as int));
                        }
                        if cb == chunk[t + l as usize] {
                            l = l + 1;
                        } else {
                            go = false;
                        }
                    }
                    if l >= MIN_MATCH {
                        mlen = l;
                        mpos = cand;
                    }
                }
            }
            if mlen >= MIN_MATCH {
                if lit < t {
                    emit_add(
                        &mut instv,
                        &mut datav,
                        Ghost(addrv@),
                        Ghost(cache.model()),
                        chunk,
                        src,
                        lit,
                        t,
                    );
                }
                emit_copy(
                    &mut instv,
                    &mut addrv,
                    &mut cache,
                    Ghost(datav@),
                    chunk,
                    src,
                    t,
                    mlen,
                    mpos,
                );
                t = t + mlen as usize;
                lit = t;
            } else {
                t = t + 1;
            }
        }
    }
    if lit < clen {
        emit_add(
            &mut instv,
            &mut datav,
            Ghost(addrv@),
            Ghost(cache.model()),
            chunk,
            src,
            lit,
            clen,
        );
    }
    proof {
        assert(enc_ok(
            instv@ + Seq::<u8>::empty(),
            datav@ + Seq::<u8>::empty(),
            addrv@ + Seq::<u8>::empty(),
            cache_init(),
            Seq::empty(),
            src@,
            tlen,
        ) == enc_ok(
            Seq::<u8>::empty(),
            Seq::<u8>::empty(),
            Seq::<u8>::empty(),
            cache.model(),
            chunk@.take(clen as int),
            src@,
            tlen,
        ));
        assert(instv@ + Seq::<u8>::empty() =~= instv@);
        assert(datav@ + Seq::<u8>::empty() =~= datav@);
        assert(addrv@ + Seq::<u8>::empty() =~= addrv@);
        assert(chunk@.take(clen as int) =~= chunk@);
        assert(enc_ok(
            Seq::<u8>::empty(),
            Seq::<u8>::empty(),
            Seq::<u8>::empty(),
            cache.model(),
            chunk@,
            src@,
            tlen,
        ) == Ok::<Seq<u8>, Error>(chunk@));
    }
    (instv, datav, addrv)
}

/// A varint field at position `q`: decoding yields the written value and
/// lands just past it.
proof fn lemma_field(d: Seq<u8>, q: int, v: u64, tail: Seq<u8>)
    requires
        0 <= q <= d.len(),
        d.skip(q) == vint(v) + tail,
    ensures
        vdec(d, q) == Ok::<(u64, int), Error>((v, q + vint(v).len())),
        d.skip(q + vint(v).len()) == tail,
        q + vint(v).len() <= d.len(),
{
    lemma_vint_round_trip(v, tail);
    crate::varint::lemma_vdec_skip(d, q, q, 0, 0);
    assert(d.skip(q + vint(v).len() as int) =~= tail) by {
        assert(d.skip(q).skip(vint(v).len() as int) =~= d.skip(q + vint(v).len() as int));
        assert((vint(v) + tail).skip(vint(v).len() as int) =~= tail);
    }
}

/// Every field of a serialized window head decodes to the value that was
/// written, wherever the window sits at the front of a larger stream.
#[verifier::rlimit(100)]
proof fn lemma_head_fields(
    wb: Seq<u8>,
    rest: Seq<u8>,
    instv: Seq<u8>,
    datav: Seq<u8>,
    addrv: Seq<u8>,
    src: Seq<u8>,
    tlen: u64,
    cksv: u64,
)
    requires
        src.len() < SIZE_LIMIT,
        tlen < SIZE_LIMIT,
        cksv < 0x1_0000_0000,
        datav.len() <= 0xFFFF_FFFF_FFFF_FFFF,
        instv.len() <= 0xFFFF_FFFF_FFFF_FFFF,
        addrv.len() <= 0xFFFF_FFFF_FFFF_FFFF,
        wb == seq![5u8] + (vint(src.len() as u64) + (vint(0) + (vint(tlen) + (seq![0u8] + (vint(
            datav.len() as u64,
        ) + (vint(instv.len() as u64) + (vint(addrv.len() as u64) + (be32(cksv) + (datav + (instv
            + addrv)))))))))),
    ensures
        ({
            let d = wb + rest;
            let q2 = 1 + vint(src.len() as u64).len() as int;
            let q3 = q2 + vint(0).len();
            let q4 = q3 + vint(tlen).len();
            let q5 = q4 + 1;
            let q6 = q5 + vint(datav.len() as u64).len();
            let q7 = q6 + vint(instv.len() as u64).len();
            let q8 = q7 + vint(addrv.len() as u64).len();
            let q9 = q8 + 4;
            &&& d[0] == 5u8
            &&& vdec(d, 1) == Ok::<(u64, int), Error>((src.len() as u64, q2))
            &&& vdec(d, q2) == Ok::<(u64, int), Error>((0, q3))
            &&& vdec(d, q3) == Ok::<(u64, int), Error>((tlen, q4))
            &&& d[q4] == 0u8
            &&& vdec(d, q5) == Ok::<(u64, int), Error>((datav.len() as u64, q6))
            &&& vdec(d, q6) == Ok::<(u64, int), Error>((instv.len() as u64, q7))
            &&& vdec(d, q7) == Ok::<(u64, int), Error>((addrv.len() as u64, q8))
            &&& d.subrange(q8, q8 + 4) == be32(cksv)
            &&& d.subrange(q9, q9 + datav.len()) == datav
            &&& d.subrange(q9 + datav.len(), q9 + datav.len() + instv.len()) == instv
            &&& d.subrange(
                q9 + datav.len() + instv.len(),
                q9 + datav.len() + instv.len() + addrv.len(),
            ) == addrv
            &&& wb.len() == q9 + datav.len() + instv.len() + addrv.len()
        }),
{
    let srclen = src.len() as u64;
    let dlen = datav.len() as u64;
    let ilen = instv.len() as u64;
    let alen = addrv.len() as u64;
    let s1 = vint(srclen);
    let s2 = vint(0);
    let s3 = vint(tlen);
    let s4 = vint(dlen);
    let s5 = vint(ilen);
    let s6 = vint(alen);
    let cksb = be32(cksv);
    let q2 = 1 + s1.len() as int;
    let q3 = q2 + s2.len();
    let q4 = q3 + s3.len();
    let q5 = q4 + 1;
    let q6 = q5 + s4.len();
    let q7 = q6 + s5.len();
    let q8 = q7 + s6.len();
    let q9 = q8 + 4;
    let d = wb + rest;
    let t6 = cksb + (datav + (instv + (addrv + rest)));
    let t5 = s6 + t6;
    let t4 = s5 + t5;
    let t3 = s4 + t4;
    let t2 = seq![0u8] + t3;
    let t1 = s3 + t2;
    let t0 = s2 + t1;
    assert(d[0] == 5u8);
    assert(d.skip(1) =~= s1 + t0);
    lemma_field(d, 1, srclen, t0);
    lemma_field(d, q2, 0, t1);
    lemma_field(d, q3, tlen, t2);
    assert(d[q4] == 0u8) by {
        assert(d.skip(q4)[0] == t2[0]);
    }
    assert(d.skip(q5) =~= t3) by {
        assert(d.skip(q4).skip(1) =~= d.skip(q5));
    }
    lemma_field(d, q5, dlen, t4);
    lemma_field(d, q6, ilen, t5);
    lemma_field(d, q7, alen, t6);
    assert(d.subrange(q8, q8 + 4) =~= cksb) by {
        assert(forall|x: int|
            0 <= x < 4 ==> #[trigger] d.subrange(q8, q8 + 4)[x] == d.skip(q8)[x]);
    }
    assert(d.subrange(q9, q9 + dlen) =~= datav) by {
        assert(forall|x: int|
            0 <= x < dlen ==> #[trigger] d.subrange(q9, q9 + dlen)[x] == d.skip(q8)[4 + x]);
    }
    assert(d.subrange(q9 + dlen, q9 + dlen + ilen) =~= instv) by {
        assert(forall|x: int|
            0 <= x < ilen ==> #[trigger] d.subrange(q9 + dlen, q9 + dlen + ilen)[x] == d.skip(
                q8,
            )[4 + dlen + x]);
    }
    assert(d.subrange(q9 + dlen + ilen, q9 + dlen + ilen + alen) =~= addrv) by {
        assert(forall|x: int|
            0 <= x < alen ==> #[trigger] d.subrange(q9 + dlen + ilen, q9 + dlen + ilen + alen)[x]
                == d.skip(q8)[4 + dlen + ilen + x]);
    }
}

/// Parsing the head of a serialized window from the front of any larger
/// stream yields exactly the fields that were written.
#[verifier::rlimit(100)]
proof fn lemma_head_parse(
    wb: Seq<u8>,
    rest: Seq<u8>,
    instv: Seq<u8>,
    datav: Seq<u8>,
    addrv: Seq<u8>,
    src: Seq<u8>,
    tlen: u64,
    cksv: u64,
)
    requires
        src.len() < SIZE_LIMIT,
        tlen < SIZE_LIMIT,
        cksv < 0x1_0000_0000,
        datav.len() <= 0xFFFF_FFFF_FFFF_FFFF,
        instv.len() <= 0xFFFF_FFFF_FFFF_FFFF,
        addrv.len() <= 0xFFFF_FFFF_FFFF_FFFF,
        wb == seq![5u8] + (vint(src.len() as u64) + (vint(0) + (vint(tlen) + (seq![0u8] + (vint(
            datav.len() as u64,
        ) + (vint(instv.len() as u64) + (vint(addrv.len() as u64) + (be32(cksv) + (datav + (instv
            + addrv)))))))))),
    ensures
        win_head_spec(wb + rest, src) == Ok::<WinHead, Error>(
            WinHead {
                srcseg: src,
                tlen: tlen,
                cks: Some(be32(cksv)),
                data: datav,
                inst: instv,
                addr: addrv,
                end: wb.len() as int,
            },
        ),
{
    lemma_head_fields(wb, rest, instv, datav, addrv, src, tlen, cksv);
    let d = wb + rest;
    let dlen = datav.len() as u64;
    let ilen = instv.len() as u64;
    let alen = addrv.len() as u64;
    let q2 = 1 + vint(src.len() as u64).len() as int;
    let q3 = q2 + vint(0).len();
    let q4 = q3 + vint(tlen).len();
    let q5 = q4 + 1;
    let q6 = q5 + vint(dlen).len();
    let q7 = q6 + vint(ilen).len();
    let q8 = q7 + vint(alen).len();
    let q9 = q8 + 4;
    let endp = q9 + dlen + ilen + alen;
    assert(src.subrange(0, src.len() as int) =~= src);
    assert(win_head_spec(d, src) == Ok::<WinHead, Error>(
        WinHead {
            srcseg: src,
            tlen: tlen,
            cks: Some(be32(cksv)),
            data: datav,
            inst: instv,
            addr: addrv,
            end: endp,
        },
    ));
}

/// Concatenation is associative; regrouping twelve pieces changes nothing.
#[verifier::rlimit(100)]
proof fn lemma_reassoc(
    a: Seq<u8>,
    b: Seq<u8>,
    c: Seq<u8>,
    d: Seq<u8>,
    e: Seq<u8>,
    f: Seq<u8>,
    g: Seq<u8>,
    h: Seq<u8>,
    i: Seq<u8>,
    j: Seq<u8>,
    k: Seq<u8>,
    l: Seq<u8>,
)
    ensures
        a + b + c + d + e + f + g + h + i + j + k + l == a + (b + (c + (d + (e + (f + (g + (h + (
        i + (j + (k + l)))))))))),
{
    assert(a + b + c + d + e + f + g + h + i + j + k + l =~= a + (b + (c + (d + (e + (f + (g + (h
        + (i + (j + (k + l)))))))))));
}

/// Parsing a serialized window from the front of any larger stream yields
/// the window's reconstruction and consumes exactly the window.
#[verifier::rlimit(100)]
proof fn lemma_window_parse(
    wb: Seq<u8>,
    rest: Seq<u8>,
    instv: Seq<u8>,
    datav: Seq<u8>,
    addrv: Seq<u8>,
    src: Seq<u8>,
    chunk: Seq<u8>,
)
    requires
        src.len() < SIZE_LIMIT,
        chunk.len() < SIZE_LIMIT,
        datav.len() <= 0xFFFF_FFFF_FFFF_FFFF,
        instv.len() <= 0xFFFF_FFFF_FFFF_FFFF,
        addrv.len() <= 0xFFFF_FFFF_FFFF_FFFF,
        wb == seq![5u8] + (vint(src.len() as u64) + (vint(0) + (vint(chunk.len() as u64) + (
        seq![0u8] + (vint(datav.len() as u64) + (vint(instv.len() as u64) + (vint(
            addrv.len() as u64,
        ) + (be32(adler32(chunk)) + (datav + (instv + addrv)))))))))),
        enc_ok(instv, datav, addrv, cache_init(), Seq::empty(), src, chunk.len() as u64)
            == Ok::<Seq<u8>, Error>(chunk),
    ensures
        window_spec(wb + rest, src) == Ok::<(Seq<u8>, int), Error>((chunk, wb.len() as int)),
{
    let tlen = chunk.len() as u64;
    assert(adler32(chunk) < 0x1_0000_0000) by {
        crate::checksum::lemma_adler_bounds(chunk, 0, 1, 0);
    }
    lemma_head_parse(wb, rest, instv, datav, addrv, src, tlen, adler32(chunk));
    let h = win_head_spec(wb + rest, src)->Ok_0;
    assert(run_from(
        XState { inst: h.inst, data: h.data, addr: h.addr, cache: cache_init(), out: Seq::empty() },
        h.srcseg,
        h.tlen,
    ) == Ok::<Seq<u8>, Error>(chunk));
    assert(h.cks->Some_0 == be32(adler32(chunk)));
}

/// Serialize one delta window reconstructing `chunk` against the whole of
/// `src`, with a declared checksum.  Whatever follows the window in a larger
/// stream, parsing gives back exactly `chunk` and consumes exactly the
/// window.
#[verifier::rlimit(100)]
fn build_window(chunk: &[u8], src: &[u8]) -> (wb: Vec<u8>)
    requires
        chunk@.len() < SIZE_LIMIT,
        src@.len() < SIZE_LIMIT,
    ensures
        wb@.len() >= 1,
        wb@.len() <= 32 + 9 * chunk@.len(),
        forall|rest: Seq<u8>| #[trigger] window_spec(wb@ + rest, src@) == Ok::<
            (Seq<u8>, int),
            Error,
        >((chunk@, wb@.len() as int)),
{
    let (instv, datav, addrv) = build_sections(chunk, src);
    let srclen = src.len() as u64;
    let tlen = chunk.len() as u64;
    let dlen = datav.len() as u64;
    let ilen = instv.len() as u64;
    let alen = addrv.len() as u64;
    let cks = adler32_exec(chunk);
    let mut wb: Vec<u8> = Vec::new();
    wb.push(5u8);
    vint_write(&mut wb, srclen);
    vint_write(&mut wb, 0);
    vint_write(&mut wb, tlen);
    wb.push(0u8);
    vint_write(&mut wb, dlen);
    vint_write(&mut wb, ilen);
    vint_write(&mut wb, alen);
    be32_write(&mut wb, cks);
    wb.extend_from_slice(datav.as_slice());
    wb.extend_from_slice(instv.as_slice());
    wb.extend_from_slice(addrv.as_slice());
    proof {
        lemma_reassoc(
            seq![5u8],
            vint(srclen),
            vint(0),
            vint(tlen),
            seq![0u8],
            vint(dlen),
            vint(ilen),
            vint(alen),
            be32(adler32(chunk@)),
            datav@,
            instv@,
            addrv@,
        );
        assert(wb@ == seq![5u8] + (vint(srclen) + (vint(0) + (vint(tlen) + (seq![0u8] + (vint(
            dlen,
        ) + (vint(ilen) + (vint(alen) + (be32(adler32(chunk@)) + (datav@ + (instv@
            + addrv@)))))))))));
        assert forall|rest: Seq<u8>| #[trigger] window_spec(wb@ + rest, src@) == Ok::<
            (Seq<u8>, int),
            Error,
        >((chunk@, wb@.len() as int)) by {
            lemma_window_parse(wb@, rest, instv@, datav@, addrv@, src@, chunk@);
        }
        assert(wb@.len() <= 32 + 9 * chunk@.len()) by {
            crate::varint::lemma_vint_len5(srclen);
            crate::varint::lemma_vint_len5(tlen);
            crate::varint::lemma_vint_len5(dlen);
            crate::varint::lemma_vint_len5(ilen);
            crate::varint::lemma_vint_len5(alen);
            assert(vint(0).len() == 1);
        }
    }
    wb
}

/// `windows_spec` with its canonical fuel.
pub open spec fn wspec(d: Seq<u8>, src: Seq<u8>, acc: Seq<u8>) -> Result<Seq<u8>, Error> {
    windows_spec(d, src, acc, d.len() as nat)
}

/// `window_sizes` with its canonical fuel: the lengths of the target
/// segments reconstructed by the successive windows of `d`.
pub open spec fn wsizes(d: Seq<u8>, src: Seq<u8>) -> Option<Seq<int>> {
    crate::model::window_sizes(d, src, d.len() as nat)
}

/// Generate the delta encoding of `input` against `src` as a single window.
///
/// Round trip: on success, the mathematical decoder maps the returned bytes,
/// against the same source, to exactly `input` — so `decode` of the result
/// returns `input`.  Encoding fails only when an input exceeds the
/// per-window address space.
pub fn encode(input: &[u8], src: &[u8]) -> (r: Result<Vec<u8>, Error>)
    ensures
        r is Ok <==> (input@.len() < SIZE_LIMIT && src@.len() < SIZE_LIMIT),
        match r {
            Ok(d) => decode_spec(d@, src@) == Ok::<Seq<u8>, Error>(input@) && d@.len() <= 36 + 9
                * input@.len(),
            Err(e) => e == (if input@.len() >= SIZE_LIMIT {
                Error::TargetTooLarge
            } else {
                Error::SourceTooLarge
            }),
        },
{
    if input.len() as u64 >= SIZE_LIMIT {
        return Err(Error::TargetTooLarge);
    }
    if src.len() as u64 >= SIZE_LIMIT {
        return Err(Error::SourceTooLarge);
    }
    let wb = build_window(input, src);
    let mut delta: Vec<u8> = Vec::new();
    delta.push(MAGIC0);
    delta.push(MAGIC1);
    delta.push(MAGIC2);
    delta.push(VERSION);
    delta.extend_from_slice(wb.as_slice());
    proof {
        assert(delta@.skip(4) =~= wb@);
        assert(wb@ + Seq::<u8>::empty() =~= wb@);
        assert(window_spec(wb@ + Seq::<u8>::empty(), src@) == Ok::<(Seq<u8>, int), Error>((
            input@,
            wb@.len() as int,
        )));
        assert(wb@.skip(wb@.len() as int) =~= Seq::<u8>::empty());
        assert(Seq::<u8>::empty() + input@ =~= input@);
        assert(windows_spec(Seq::<u8>::empty(), src@, input@, (delta@.len() - 1) as nat) == Ok::<
            Seq<u8>,
            Error,
        >(input@));
        assert(windows_spec(wb@, src@, Seq::<u8>::empty(), delta@.len() as nat) == Ok::<
            Seq<u8>,
            Error,
        >(input@));
    }
    Ok(delta)
}

/// Appending one serialized window to a stream extends what the stream's
/// windows reconstruct by that window's chunk.
#[verifier::rlimit(100)]
#[verifier::spinoff_prover]
proof fn lemma_windows_step(
    built: Seq<u8>,
    wb: Seq<u8>,
    src: Seq<u8>,
    input: Seq<u8>,
    lo: int,
    hi: int,
)
    requires
        0 <= lo <= hi <= input.len(),
        wb.len() >= 1,
        forall|rest: Seq<u8>| #[trigger] wspec(built + rest, src, Seq::empty()) == wspec(
            rest,
            src,
            input.take(lo),
        ),
        forall|rest: Seq<u8>| #[trigger] window_spec(wb + rest, src) == Ok::<
            (Seq<u8>, int),
            Error,
        >((input.subrange(lo, hi), wb.len() as int)),
    ensures
        forall|rest: Seq<u8>| #[trigger] wspec((built + wb) + rest, src, Seq::empty()) == wspec(
            rest,
            src,
            input.take(hi),
        ),
{
    assert forall|rest: Seq<u8>| #[trigger] wspec((built + wb) + rest, src, Seq::empty())
        == wspec(rest, src, input.take(hi)) by {
        assert((built + wb) + rest =~= built + (wb + rest));
        assert(wspec(built + (wb + rest), src, Seq::empty()) == wspec(
            wb + rest,
            src,
            input.take(lo),
        ));
        assert(window_spec(wb + rest, src) == Ok::<(Seq<u8>, int), Error>((
            input.subrange(lo, hi),
            wb.len() as int,
        )));
        assert((wb + rest).skip(wb.len() as int) =~= rest);
        assert(input.take(lo) + input.subrange(lo, hi) =~= input.take(hi));
        lemma_windows_fuel(
            rest,
            src,
            input.take(hi),
            ((wb + rest).len() - 1) as nat,
            rest.len() as nat,
        );
    }
}

/// Appending one serialized window to a stream appends one entry, the
/// chunk's length, to the stream's window-size list.
#[verifier::rlimit(100)]
#[verifier::spinoff_prover]
proof fn lemma_windows_sizes_step(
    built: Seq<u8>,
    wb: Seq<u8>,
    src: Seq<u8>,
    input: Seq<u8>,
    lo: int,
    hi: int,
    pre: Seq<int>,
)
    requires
        0 <= lo <= hi <= input.len(),
        wb.len() >= 1,
        forall|rest: Seq<u8>| #[trigger] wsizes(built + rest, src) == (match wsizes(rest, src) {
            None => None::<Seq<int>>,
            Some(s) => Some(pre + s),
        }),
        forall|rest: Seq<u8>| #[trigger] window_spec(wb + rest, src) == Ok::<
            (Seq<u8>, int),
            Error,
        >((input.subrange(lo, hi), wb.len() as int)),
    ensures
        forall|rest: Seq<u8>| #[trigger] wsizes((built + wb) + rest, src) == (match wsizes(
            rest,
            src,
        ) {
            None => None::<Seq<int>>,
            Some(s) => Some((pre + seq![hi - lo]) + s),
        }),
{
    assert forall|rest: Seq<u8>| #[trigger] wsizes((built + wb) + rest, src) == (match wsizes(
        rest,
        src,
    ) {
        None => None::<Seq<int>>,
        Some(s) => Some((pre + seq![hi - lo]) + s),
    }) by {
        assert((built + wb) + rest =~= built + (wb + rest));
        assert(wsizes(built + (wb + rest), src) == (match wsizes(wb + rest, src) {
            None => None::<Seq<int>>,
            Some(s) => Some(pre + s),
        }));
        assert(window_spec(wb + rest, src) == Ok::<(Seq<u8>, int), Error>((
            input.subrange(lo, hi),
            wb.len() as int,
        )));
        assert((wb + rest).skip(wb.len() as int) =~= rest);
        crate::model::lemma_window_sizes_fuel(
            rest,
            src,
            ((wb + rest).len() - 1) as nat,
            rest.len() as nat,
        );
        assert(input.subrange(lo, hi).len() == hi - lo);
        match wsizes(rest, src) {
            None => {},
            Some(s) => {
                assert(pre + (seq![hi - lo] + s) =~= (pre + seq![hi - lo]) + s);
            },
        }
    }
}

/// Streaming variant: split `input` into windows of at most `window_size`
/// bytes, each encoded against the whole source.
///
/// Decoding the concatenated windows reproduces the same target as a single
/// non-windowed encode of the same input: both decode to exactly `input`.
/// The window boundaries are the caller's choice: every emitted window
/// reconstructs exactly `window_size` bytes (at least one when zero is
/// passed), except the last, which holds the remainder.
#[verifier::rlimit(100)]
pub fn encode_windowed(input: &[u8], src: &[u8], window_size: usize) -> (r: Result<
    Vec<u8>,
    Error,
>)
    ensures
        r is Ok <==> (input@.len() < SIZE_LIMIT && src@.len() < SIZE_LIMIT),
        match r {
            Ok(d) => decode_spec(d@, src@) == Ok::<Seq<u8>, Error>(input@),
            Err(e) => e == (if input@.len() >= SIZE_LIMIT {
                Error::TargetTooLarge
            } else {
                Error::SourceTooLarge
            }),
        },
        match r {
            Ok(d) => input@.len() > 0 ==> ({
                let wsz: int = if window_size == 0 {
                    1
                } else {
                    window_size as int
                };
                let szs = wsizes(d@.skip(4), src@);
                &&& szs is Some
                &&& szs->Some_0.len() >= 1
                &&& forall|k: int|
                    0 <= k < szs->Some_0.len() ==> 1 <= #[trigger] szs->Some_0[k] <= wsz
                &&& forall|k: int|
                    0 <= k < szs->Some_0.len() - 1 ==> #[trigger] szs->Some_0[k] == wsz
            }),
            Err(e) => true,
        },
{
    if input.len() as u64 >= SIZE_LIMIT {
        return Err(Error::TargetTooLarge);
    }
    if src.len() as u64 >= SIZE_LIMIT {
        return Err(Error::SourceTooLarge);
    }
    if input.len() == 0 {
        return encode(input, src);
    }
    let ws: usize = if window_size == 0 {
        1
    } else {
        window_size
    };
    let mut delta: Vec<u8> = Vec::new();
    delta.push(MAGIC0);
    delta.push(MAGIC1);
    delta.push(MAGIC2);
    delta.push(VERSION);
    let mut lo: usize = 0;
    let ghost mut pre: Seq<int> = Seq::<int>::empty();
    proof {
        assert(input@.take(0) =~= Seq::<u8>::empty());
        assert forall|rest: Seq<u8>| #[trigger] wsizes(delta@.skip(4) + rest, src@) == (match
            wsizes(rest, src@) {
            None => None::<Seq<int>>,
            Some(s) => Some(pre + s),
        }) by {
            assert(delta@.skip(4) =~= Seq::<u8>::empty());
            assert(Seq::<u8>::empty() + rest =~= rest);
            match wsizes(rest, src@) {
                None => {},
                Some(s) => {
                    assert(pre + s =~= s);
                },
            }
        }
    }
    while lo < input.len()
        invariant
            lo <= input@.len(),
            ws >= 1,
            ws == (if window_size == 0 {
                1int
            } else {
                window_size as int
            }),
            input@.len() < SIZE_LIMIT,
            src@.len() < SIZE_LIMIT,
            delta@.len() >= 4,
            delta@[0] == MAGIC0 && delta@[1] == MAGIC1 && delta@[2] == MAGIC2 && delta@[3]
                == VERSION,
            lo > 0 ==> delta@.len() > 4,
            lo > 0 ==> pre.len() >= 1,
            forall|k: int| 0 <= k < pre.len() ==> 1 <= #[trigger] pre[k] <= ws,
            forall|k: int|
                0 <= k < pre.len() ==> ((k == pre.len() - 1 && lo == input@.len())
                    || #[trigger] pre[k] == ws),
            forall|rest: Seq<u8>| #[trigger] wspec(delta@.skip(4) + rest, src@, Seq::empty())
                == wspec(rest, src@, input@.take(lo as int)),
            forall|rest: Seq<u8>| #[trigger] wsizes(delta@.skip(4) + rest, src@) == (match
                wsizes(rest, src@) {
                None => None::<Seq<int>>,
                Some(s) => Some(pre + s),
            }),
        decreases input@.len() - lo,
    {
        let hi: usize = if input.len() - lo > ws {
            lo + ws
        } else {
            input.len()
        };
        let chunk: &[u8] = &input[lo..hi];
        let wb = build_window(chunk, src);
        let ghost built = delta@.skip(4);
        delta.extend_from_slice(wb.as_slice());
        proof {
            assert(chunk@ == input@.subrange(lo as int, hi as int));
            lemma_windows_step(built, wb@, src@, input@, lo as int, hi as int);
            lemma_windows_sizes_step(built, wb@, src@, input@, lo as int, hi as int, pre);
            assert(delta@.skip(4) =~= built + wb@);
            pre = pre + seq![hi - lo as int];
        }
        lo = hi;
    }
    proof {
        assert(delta@.skip(4) + Seq::<u8>::empty() =~= delta@.skip(4));
        assert(wspec(delta@.skip(4) + Seq::<u8>::empty(), src@, Seq::empty()) == wspec(
            Seq::<u8>::empty(),
            src@,
            input@.take(lo as int),
        ));
        assert(input@.take(lo as int) =~= input@);
        lemma_windows_fuel(
            delta@.skip(4),
            src@,
            Seq::<u8>::empty(),
            delta@.skip(4).len() as nat,
            delta@.len() as nat,
        );
        assert(wsizes(delta@.skip(4) + Seq::<u8>::empty(), src@) == (match wsizes(
            Seq::<u8>::empty(),
            src@,
        ) {
            None => None::<Seq<int>>,
            Some(s) => Some(pre + s),
        }));
        assert(wsizes(Seq::<u8>::empty(), src@) == Some(Seq::<int>::empty()));
        assert(pre + Seq::<int>::empty() =~= pre);
        assert(wsizes(delta@.skip(4), src@) == Some(pre));
    }
    Ok(delta)
}

/// `encode` with a caller-imposed output capacity: fails with
/// `InsufficientOutputCapacity` when the delta would not fit.
///
/// Success is owed whenever the capacity covers the encoder's proved output
/// bound of `36 + 9 * input.len()` bytes; encoding itself cannot fail on
/// in-range inputs.
pub fn encode_with_output_len(input: &[u8], src: &[u8], output_buffer_len: u32) -> (r: Result<
    Vec<u8>,
    Error,
>)
    ensures
        match r {
            Ok(d) => {
                &&& decode_spec(d@, src@) == Ok::<Seq<u8>, Error>(input@)
                &&& d@.len() <= output_buffer_len
            },
            Err(e) => e == Error::InsufficientOutputCapacity || e == (if input@.len()
                >= SIZE_LIMIT {
                Error::TargetTooLarge
            } else {
                Error::SourceTooLarge
            }),
        },
        r is Err ==> (r->Err_0 == Error::InsufficientOutputCapacity) || input@.len() >= SIZE_LIMIT
            || src@.len() >= SIZE_LIMIT,
        (input@.len() < SIZE_LIMIT && src@.len() < SIZE_LIMIT && output_buffer_len as int >= 36
            + 9 * input@.len()) ==> r is Ok,
{
    let d = match encode(input, src) {
        Ok(d) => d,
        Err(e) => {
            return Err(e);
        },
    };
    if d.len() as u64 > output_buffer_len as u64 {
        return Err(Error::InsufficientOutputCapacity);
    }
    Ok(d)
}

} // verus!
