//! The executable decoder: parses delta windows and replays their
//! instructions against the source, returning exactly what the mathematical
//! decoder `decode_spec` assigns to the input bytes.

use vstd::prelude::*;

use crate::cache::{cache_init, AddrCache};
use crate::checksum::{adler32, adler32_exec, be32};
use crate::error::Error;
use crate::model::{
    apply_slot, comb_at, copy_append, decode_spec, run_from, run_spec, slot_size,
    win_head_spec, window_spec, windows_spec, XState, MAGIC0, MAGIC1, MAGIC2, SIZE_LIMIT, VERSION,
    WIN_CHECKSUM, WIN_SOURCE,
};
use crate::model::{lemma_run_fuel, lemma_window_consumes, lemma_windows_fuel};
use crate::table::{code_entry, code_entry_exec, K_ADD, K_COPY, K_NOOP, K_RUN};
use crate::varint::{lemma_vdec_skip, vdec, vint_read};

verus! {

/// Apply one slot of a code-table entry; cursors index the three sections.
#[allow(unused_variables)]
#[verifier::rlimit(100)]
fn exec_slot(
    kind: u8,
    size0: u64,
    mode: u8,
    inst: &[u8],
    ii: usize,
    data: &[u8],
    di: usize,
    addr: &[u8],
    ai: usize,
    cache: &mut AddrCache,
    out: &mut Vec<u8>,
    src_seg: &[u8],
    tlen: u64,
) -> (r: Result<(usize, usize, usize), Error>)
    requires
        old(cache).wf(),
        ii <= inst@.len(),
        di <= data@.len(),
        ai <= addr@.len(),
        old(out)@.len() <= tlen,
        tlen < SIZE_LIMIT,
        src_seg@.len() < SIZE_LIMIT,
    ensures
        match r {
            Ok(c2) => {
                &&& apply_slot(
                    kind,
                    size0,
                    mode,
                    XState {
                        inst: inst@.skip(ii as int),
                        data: data@.skip(di as int),
                        addr: addr@.skip(ai as int),
                        cache: old(cache).model(),
                        out: old(out)@,
                    },
                    src_seg@,
                    tlen,
                ) == Ok::<XState, Error>(
                    XState {
                        inst: inst@.skip(c2.0 as int),
                        data: data@.skip(c2.1 as int),
                        addr: addr@.skip(c2.2 as int),
                        cache: final(cache).model(),
                        out: final(out)@,
                    },
                )
                &&& ii <= c2.0 <= inst@.len()
                &&& di <= c2.1 <= data@.len()
                &&& ai <= c2.2 <= addr@.len()
                &&& final(out)@.len() <= tlen
                &&& final(cache).wf()
            },
            Err(e) => apply_slot(
                kind,
                size0,
                mode,
                XState {
                    inst: inst@.skip(ii as int),
                    data: data@.skip(di as int),
                    addr: addr@.skip(ai as int),
                    cache: old(cache).model(),
                    out: old(out)@,
                },
                src_seg@,
                tlen,
            ) == Err::<XState, Error>(e),
        },
{
    if kind == K_NOOP {
        return Ok((ii, di, ai));
    }
    let ghost st = XState {
        inst: inst@.skip(ii as int),
        data: data@.skip(di as int),
        addr: addr@.skip(ai as int),
        cache: old(cache).model(),
        out: old(out)@,
    };
    let (size, ii1): (u64, usize) = if size0 != 0 {
        (size0, ii)
    } else {
        proof {
            lemma_vdec_skip(inst@, ii as int, ii as int, 0, 0);
        }
        match vint_read(inst, ii) {
            Ok(p) => {
                proof {
                    assert(inst@.skip(ii as int).skip(p.1 - ii as int) =~= inst@.skip(
                        p.1 as int,
                    ));
                }
                p
            },
            Err(e) => {
                return Err(e);
            },
        }
    };
    proof {
        assert(slot_size(size0, st.inst) == Ok::<(u64, Seq<u8>), Error>((
            size,
            inst@.skip(ii1 as int),
        )));
    }
    if size == 0 {
        return Err(Error::InvalidInstruction);
    }
    if size > tlen - out.len() as u64 {
        return Err(Error::MalformedWindow);
    }
    if kind == K_ADD {
        if ((data.len() - di) as u64) < size {
            return Err(Error::MalformedWindow);
        }
        let sz = size as usize;
        out.extend_from_slice(&data[di..di + sz]);
        proof {
            assert(data@.skip(di as int).take(size as int) =~= data@.subrange(
                di as int,
                di + sz,
            ));
            assert(data@.skip(di as int).skip(size as int) =~= data@.skip((di + sz) as int));
        }
        proof {
            let sres = apply_slot(kind, size0, mode, st, src_seg@, tlen);
            assert(sres is Ok);
            let st1 = sres->Ok_0;
            assert(st1.inst == inst@.skip(ii1 as int));
            assert(st1.data == data@.skip((di + sz) as int));
            assert(st1.addr == addr@.skip(ai as int));
            assert(st1.cache == cache.model());
            assert(st1.out == out@);
        }
        Ok((ii1, di + sz, ai))
    } else if kind == K_RUN {
        if data.len() - di < 1 {
            return Err(Error::MalformedWindow);
        }
        let b = data[di];
        let ghost out0 = out@;
        let mut k: u64 = 0;
        while k < size
            invariant
                k <= size,
                out@ == out0 + Seq::new(k as nat, |i: int| b),
            decreases size - k,
        {
            out.push(b);
            k = k + 1;
            proof {
                assert(out@ =~= out0 + Seq::new(k as nat, |i: int| b));
            }
        }
        proof {
            assert(st.data[0] == b);
            assert(Seq::new(size as nat, |i: int| st.data[0]) =~= Seq::new(
                size as nat,
                |i: int| b,
            ));
            assert(data@.skip(di as int).skip(1) =~= data@.skip(di + 1));
        }
        proof {
            let sres = apply_slot(kind, size0, mode, st, src_seg@, tlen);
            assert(sres is Ok);
            let st1 = sres->Ok_0;
            assert(st1.inst == inst@.skip(ii1 as int));
            assert(st1.data == data@.skip((di + 1) as int));
            assert(st1.addr == addr@.skip(ai as int));
            assert(st1.cache == cache.model());
            assert(st1.out == out@);
        }
        Ok((ii1, di + 1, ai))
    } else if kind == K_COPY {
        let here = src_seg.len() as u64 + out.len() as u64;
        let (a, ai2) = match cache.decode_addr(mode, addr, ai, here) {
            Ok(p) => p,
            Err(e) => {
                return Err(e);
            },
        };
        let ghost out0 = out@;
        let srclen = src_seg.len();
        let mut k: u64 = 0;
        while k < size
            invariant
                k <= size,
                size <= tlen,
                tlen < SIZE_LIMIT,
                a < here,
                here == srclen + out0.len(),
                out0.len() <= tlen,
                out@.len() == out0.len() + k,
                srclen == src_seg@.len(),
                srclen < SIZE_LIMIT,
                copy_append(src_seg@, out0, a as int, size as nat) == copy_append(
                    src_seg@,
                    out@,
                    a as int + k,
                    (size - k) as nat,
                ),
            decreases size - k,
        {
            let pos = a + k;
            let byte: u8 = if pos < srclen as u64 {
                src_seg[pos as usize]
            } else {
                (*out).as_slice()[(pos - srclen as u64) as usize]
            };
            proof {
                assert(byte == comb_at(src_seg@, out@, pos as int));
            }
            let ghost prev = out@;
            out.push(byte);
            k = k + 1;
            proof {
                assert(copy_append(src_seg@, prev, pos as int, (size - k + 1) as nat)
                    == copy_append(src_seg@, prev.push(byte), pos as int + 1, (size - k) as nat));
            }
        }
        proof {
            assert(copy_append(src_seg@, out@, a as int + size, 0nat) == out@);
            assert(copy_append(src_seg@, out0, a as int, size as nat) == out@);
        }
        cache.update(a);
        proof {
            assert(addr@.skip(ai as int).skip(ai2 - ai as int) =~= addr@.skip(ai2 as int));
        }
        proof {
            let sres = apply_slot(kind, size0, mode, st, src_seg@, tlen);
            assert(sres is Ok);
            let st1 = sres->Ok_0;
            assert(st1.inst == inst@.skip(ii1 as int));
            assert(st1.data == data@.skip(di as int));
            assert(st1.addr == addr@.skip(ai2 as int));
            assert(st1.cache == cache.model());
            assert(st1.out == out@);
        }
        Ok((ii1, di, ai2))
    } else {
        Err(Error::InvalidInstruction)
    }
}

/// Execute the single instruction at cursor `ii`: both slots of its code
/// entry, preserving what the remaining replay means.
#[verifier::rlimit(100)]
fn run_step(
    inst: &[u8],
    data: &[u8],
    addr: &[u8],
    ii: usize,
    di: usize,
    ai: usize,
    cache: &mut AddrCache,
    out: &mut Vec<u8>,
    src_seg: &[u8],
    tlen: u64,
) -> (r: Result<(usize, usize, usize), Error>)
    requires
        old(cache).wf(),
        ii < inst@.len(),
        di <= data@.len(),
        ai <= addr@.len(),
        old(out)@.len() <= tlen,
        tlen < SIZE_LIMIT,
        src_seg@.len() < SIZE_LIMIT,
    ensures
        match r {
            Ok(c2) => {
                &&& run_spec(
                    XState {
                        inst: inst@.skip(ii as int),
                        data: data@.skip(di as int),
                        addr: addr@.skip(ai as int),
                        cache: old(cache).model(),
                        out: old(out)@,
                    },
                    src_seg@,
                    tlen,
                    (inst@.len() - ii) as nat,
                ) == run_spec(
                    XState {
                        inst: inst@.skip(c2.0 as int),
                        data: data@.skip(c2.1 as int),
                        addr: addr@.skip(c2.2 as int),
                        cache: final(cache).model(),
                        out: final(out)@,
                    },
                    src_seg@,
                    tlen,
                    (inst@.len() - c2.0) as nat,
                )
                &&& ii < c2.0 <= inst@.len()
                &&& di <= c2.1 <= data@.len()
                &&& ai <= c2.2 <= addr@.len()
                &&& final(out)@.len() <= tlen
                &&& final(cache).wf()
            },
            Err(e) => run_spec(
                XState {
                    inst: inst@.skip(ii as int),
                    data: data@.skip(di as int),
                    addr: addr@.skip(ai as int),
                    cache: old(cache).model(),
                    out: old(out)@,
                },
                src_seg@,
                tlen,
                (inst@.len() - ii) as nat,
            ) == Err::<Seq<u8>, Error>(e),
        },
{
    let ghost cur = XState {
        inst: inst@.skip(ii as int),
        data: data@.skip(di as int),
        addr: addr@.skip(ai as int),
        cache: old(cache).model(),
        out: old(out)@,
    };
    let op = inst[ii];
    let e = code_entry_exec(op);
    proof {
        assert(cur.inst[0] == op);
        assert(inst@.skip(ii as int).skip(1) =~= inst@.skip(ii + 1));
    }
    let (ii1, di1, ai1) = match exec_slot(
        e.kind1,
        e.size1,
        e.mode1,
        inst,
        ii + 1,
        data,
        di,
        addr,
        ai,
        cache,
        out,
        src_seg,
        tlen,
    ) {
        Ok(c) => c,
        Err(err) => {
            return Err(err);
        },
    };
    let (ii2, di2, ai2) = match exec_slot(
        e.kind2,
        e.size2,
        e.mode2,
        inst,
        ii1,
        data,
        di1,
        addr,
        ai1,
        cache,
        out,
        src_seg,
        tlen,
    ) {
        Ok(c) => c,
        Err(err) => {
            return Err(err);
        },
    };
    proof {
        lemma_run_fuel(
            XState {
                inst: inst@.skip(ii2 as int),
                data: data@.skip(di2 as int),
                addr: addr@.skip(ai2 as int),
                cache: cache.model(),
                out: out@,
            },
            src_seg@,
            tlen,
            (inst@.len() - ii - 1) as nat,
            (inst@.len() - ii2) as nat,
        );
    }
    Ok((ii2, di2, ai2))
}

/// Replay a window's instruction section.
#[verifier::rlimit(100)]
#[verifier::loop_isolation(false)]
fn run_window(
    inst: &[u8],
    data: &[u8],
    addr: &[u8],
    src_seg: &[u8],
    tlen: u64,
) -> (r: Result<Vec<u8>, Error>)
    requires
        tlen < SIZE_LIMIT,
        src_seg@.len() < SIZE_LIMIT,
    ensures
        match r {
            Ok(out) => run_from(
                XState {
                    inst: inst@,
                    data: data@,
                    addr: addr@,
                    cache: cache_init(),
                    out: Seq::empty(),
                },
                src_seg@,
                tlen,
            ) == Ok::<Seq<u8>, Error>(out@),
            Err(e) => run_from(
                XState {
                    inst: inst@,
                    data: data@,
                    addr: addr@,
                    cache: cache_init(),
                    out: Seq::empty(),
                },
                src_seg@,
                tlen,
            ) == Err::<Seq<u8>, Error>(e),
        },
{
    let ghost st0 = XState {
        inst: inst@,
        data: data@,
        addr: addr@,
        cache: cache_init(),
        out: Seq::empty(),
    };
    let mut cache = AddrCache::new();
    let mut out: Vec<u8> = Vec::new();
    let mut ii: usize = 0;
    let mut di: usize = 0;
    let mut ai: usize = 0;
    proof {
        assert(inst@.skip(0) =~= inst@);
        assert(data@.skip(0) =~= data@);
        assert(addr@.skip(0) =~= addr@);
    }
    loop
        invariant
            ii <= inst@.len(),
            di <= data@.len(),
            ai <= addr@.len(),
            out@.len() <= tlen,
            cache.wf(),
            tlen < SIZE_LIMIT,
            src_seg@.len() < SIZE_LIMIT,
            run_from(st0, src_seg@, tlen) == run_spec(
                XState {
                    inst: inst@.skip(ii as int),
                    data: data@.skip(di as int),
                    addr: addr@.skip(ai as int),
                    cache: cache.model(),
                    out: out@,
                },
                src_seg@,
                tlen,
                (inst@.len() - ii) as nat,
            ),
        decreases inst@.len() - ii,
    {
        if ii >= inst.len() {
            if di == data.len() && ai == addr.len() && out.len() as u64 == tlen {
                return Ok(out);
            } else {
                return Err(Error::MalformedWindow);
            }
        }
        match run_step(inst, data, addr, ii, di, ai, &mut cache, &mut out, src_seg, tlen) {
            Ok(c) => {
                ii = c.0;
                di = c.1;
                ai = c.2;
            },
            Err(err) => {
                return Err(err);
            },
        }
    }
}

/// Parse and replay the window beginning at `pos`.
#[verifier::rlimit(100)]
fn decode_window(input: &[u8], pos: usize, src: &[u8]) -> (r: Result<(Vec<u8>, usize), Error>)
    requires
        pos < input@.len(),
        src@.len() < SIZE_LIMIT,
    ensures
        match r {
            Ok(p) => {
                &&& window_spec(input@.skip(pos as int), src@) == Ok::<(Seq<u8>, int), Error>((
                    p.0@,
                    p.1 - pos as int,
                ))
                &&& pos < p.1 <= input@.len()
            },
            Err(e) => window_spec(input@.skip(pos as int), src@) == Err::<(Seq<u8>, int), Error>(
                e,
            ),
        },
{
    let w: &[u8] = &input[pos..input.len()];
    proof {
        assert(w@ =~= input@.skip(pos as int));
    }
    let d_len = w.len();
    let ind = w[0];
    if !(ind == 0 || ind == WIN_SOURCE || ind == WIN_CHECKSUM || ind == WIN_SOURCE
        + WIN_CHECKSUM) {
        return Err(Error::InvalidInstruction);
    }
    let has_src = ind == WIN_SOURCE || ind == WIN_SOURCE + WIN_CHECKSUM;
    let has_cks = ind == WIN_CHECKSUM || ind == WIN_SOURCE + WIN_CHECKSUM;
    let (slen, soff, p): (u64, u64, usize) = if has_src {
        let (slen, p1) = match vint_read(w, 1) {
            Ok(x) => x,
            Err(e) => {
                return Err(e);
            },
        };
        let (soff, p2) = match vint_read(w, p1) {
            Ok(x) => x,
            Err(e) => {
                return Err(e);
            },
        };
        (slen, soff, p2)
    } else {
        (0u64, 0u64, 1usize)
    };
    if soff > src.len() as u64 || slen > src.len() as u64 - soff {
        return Err(Error::AddressOutOfBounds);
    }
    let (tlen, p2) = match vint_read(w, p) {
        Ok(x) => x,
        Err(e) => {
            return Err(e);
        },
    };
    if tlen >= SIZE_LIMIT {
        return Err(Error::TargetTooLarge);
    }
    if p2 >= d_len {
        return Err(Error::MalformedWindow);
    }
    if w[p2] != 0 {
        return Err(Error::InvalidInstruction);
    }
    let (dlen, p3) = match vint_read(w, p2 + 1) {
        Ok(x) => x,
        Err(e) => {
            return Err(e);
        },
    };
    let (ilen, p4) = match vint_read(w, p3) {
        Ok(x) => x,
        Err(e) => {
            return Err(e);
        },
    };
    let (alen, p5) = match vint_read(w, p4) {
        Ok(x) => x,
        Err(e) => {
            return Err(e);
        },
    };
    if has_cks && d_len - p5 < 4 {
        return Err(Error::MalformedWindow);
    }
    let p6: usize = if has_cks {
        p5 + 4
    } else {
        p5
    };
    let rem0 = d_len - p6;
    if dlen > rem0 as u64 {
        return Err(Error::MalformedWindow);
    }
    let rem1 = rem0 - dlen as usize;
    if ilen > rem1 as u64 {
        return Err(Error::MalformedWindow);
    }
    let rem2 = rem1 - ilen as usize;
    if alen > rem2 as u64 {
        return Err(Error::MalformedWindow);
    }
    let ds = p6;
    let de = p6 + dlen as usize;
    let ie = de + ilen as usize;
    let ae = ie + alen as usize;
    let ghost h = win_head_spec(w@, src@)->Ok_0;
    proof {
        assert(win_head_spec(w@, src@) is Ok);
        assert(h.tlen == tlen);
        assert(h.end == ae);
        assert(h.srcseg == src@.subrange(soff as int, soff + slen));
        assert(h.data =~= w@.subrange(ds as int, de as int));
        assert(h.inst =~= w@.subrange(de as int, ie as int));
        assert(h.addr =~= w@.subrange(ie as int, ae as int));
    }
    let src_seg: &[u8] = &src[soff as usize..(soff + slen) as usize];
    let data_sec: &[u8] = &w[ds..de];
    let inst_sec: &[u8] = &w[de..ie];
    let addr_sec: &[u8] = &w[ie..ae];
    let out = match run_window(inst_sec, data_sec, addr_sec, src_seg, tlen) {
        Ok(o) => o,
        Err(e) => {
            return Err(e);
        },
    };
    if has_cks {
        let a = adler32_exec(out.as_slice());
        let c0 = ((a / 0x100_0000) % 256) as u8;
        let c1 = ((a / 0x1_0000) % 256) as u8;
        let c2 = ((a / 0x100) % 256) as u8;
        let c3 = (a % 256) as u8;
        let ghost cb = h.cks->Some_0;
        proof {
            assert(cb =~= w@.subrange(p5 as int, p5 + 4));
            assert(cb.len() == 4);
            assert(cb[0] == w@[p5 as int]);
            assert(cb[1] == w@[p5 + 1]);
            assert(cb[2] == w@[p5 + 2]);
            assert(cb[3] == w@[p5 + 3]);
        }
        if w[p5] != c0 || w[p5 + 1] != c1 || w[p5 + 2] != c2 || w[p5 + 3] != c3 {
            proof {
                assert(cb != be32(adler32(out@)));
            }
            return Err(Error::ChecksumMismatch);
        }
        proof {
            assert(cb =~= be32(adler32(out@)));
        }
    }
    Ok((out, pos + ae))
}

/// Apply a delta stream to a source, reconstructing the target it encodes.
///
/// Returns exactly what the mathematical decoder assigns to the bytes: the
/// reconstruction, or the error that rejects a malformed stream.  Partial
/// output is never returned.
pub fn decode(input: &[u8], src: &[u8]) -> (r: Result<Vec<u8>, Error>)
    ensures
        match r {
            Ok(t) => decode_spec(input@, src@) == Ok::<Seq<u8>, Error>(t@),
            Err(e) => decode_spec(input@, src@) == Err::<Seq<u8>, Error>(e),
        },
{
    if src.len() as u64 >= SIZE_LIMIT {
        return Err(Error::SourceTooLarge);
    }
    if input.len() < 4 {
        return Err(Error::MalformedWindow);
    }
    if input[0] != MAGIC0 || input[1] != MAGIC1 || input[2] != MAGIC2 || input[3] != VERSION {
        return Err(Error::MalformedWindow);
    }
    if input.len() == 4 {
        return Err(Error::MalformedWindow);
    }
    let mut out: Vec<u8> = Vec::new();
    let mut pos: usize = 4;
    proof {
        lemma_windows_fuel(
            input@.skip(4),
            src@,
            Seq::empty(),
            input@.len() as nat,
            (input@.len() - 4) as nat,
        );
    }
    loop
        invariant
            4 <= pos <= input@.len(),
            src@.len() < SIZE_LIMIT,
            decode_spec(input@, src@) == windows_spec(
                input@.skip(pos as int),
                src@,
                out@,
                (input@.len() - pos) as nat,
            ),
        decreases input@.len() - pos,
    {
        if pos >= input.len() {
            proof {
                assert(input@.skip(pos as int).len() == 0);
            }
            return Ok(out);
        }
        let (mut w, end) = match decode_window(input, pos, src) {
            Ok(x) => x,
            Err(e) => {
                return Err(e);
            },
        };
        proof {
            let d = input@.skip(pos as int);
            lemma_window_consumes(d, src@);
            assert(d.skip(end - pos as int) =~= input@.skip(end as int));
            lemma_windows_fuel(
                input@.skip(end as int),
                src@,
                out@ + w@,
                (input@.len() - pos - 1) as nat,
                (input@.len() - end) as nat,
            );
        }
        out.append(&mut w);
        pos = end;
    }
}

/// `decode` with a caller-imposed output capacity: fails with
/// `InsufficientOutputCapacity` when the reconstruction would not fit.
pub fn decode_with_output_len(input: &[u8], src: &[u8], output_buffer_len: u32) -> (r: Result<
    Vec<u8>,
    Error,
>)
    ensures
        match r {
            Ok(t) => {
                &&& decode_spec(input@, src@) == Ok::<Seq<u8>, Error>(t@)
                &&& t@.len() <= output_buffer_len
            },
            Err(e) => (decode_spec(input@, src@) == Err::<Seq<u8>, Error>(e)) || (e
                == Error::InsufficientOutputCapacity && decode_spec(input@, src@) is Ok
                && decode_spec(input@, src@)->Ok_0.len() > output_buffer_len),
        },
{
    let t = match decode(input, src) {
        Ok(t) => t,
        Err(e) => {
            return Err(e);
        },
    };
    if t.len() as u64 > output_buffer_len as u64 {
        return Err(Error::InsufficientOutputCapacity);
    }
    Ok(t)
}

} // verus!
