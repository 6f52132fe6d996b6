//! The mathematical meaning of a delta stream.
//!
//! `decode_spec` defines, for every delta byte sequence and every source,
//! either the exact reconstructed target or the exact error.  The executable
//! decoder is proved to return precisely this value, and the encoder is
//! proved to emit bytes whose `decode_spec` is its input — which together
//! give the round trip.

use vstd::prelude::*;

use crate::cache::{addr_decode, cache_init, cache_update, CacheModel};
use crate::checksum::{adler32, be32};
use crate::error::Error;
use crate::table::{code_entry, CodeEntry, K_ADD, K_COPY, K_NOOP, K_RUN};
use crate::varint::{vdec, vint};

verus! {

/// First magic byte of a delta stream.
pub const MAGIC0: u8 = 0xD6;

/// Second magic byte.
pub const MAGIC1: u8 = 0xC3;

/// Third magic byte.
pub const MAGIC2: u8 = 0xC4;

/// Format version byte.
pub const VERSION: u8 = 0x00;

/// Window indicator bit: the window copies against a source segment.
pub const WIN_SOURCE: u8 = 0x01;

/// Window indicator bit: the window declares an Adler-32 checksum.
pub const WIN_CHECKSUM: u8 = 0x04;

/// Per-window limit on source segment and target sizes: one 32-bit offset
/// space.
pub const SIZE_LIMIT: u64 = 0x1_0000_0000;

/// Interpreter state while replaying one window: the unread remainder of the
/// three sections, the address cache, and the output produced so far.
pub ghost struct XState {
    pub inst: Seq<u8>,
    pub data: Seq<u8>,
    pub addr: Seq<u8>,
    pub cache: CacheModel,
    pub out: Seq<u8>,
}

/// The combined buffer: the source segment followed by the output produced
/// so far.
pub open spec fn comb_at(srcseg: Seq<u8>, out: Seq<u8>, p: int) -> u8 {
    if p < srcseg.len() {
        srcseg[p]
    } else {
        out[p - srcseg.len()]
    }
}

/// Append `n` bytes copied from combined position `a`, one byte at a time,
/// so that a copy may legally overlap the bytes it is producing.
pub open spec fn copy_append(srcseg: Seq<u8>, out: Seq<u8>, a: int, n: nat) -> Seq<u8>
    decreases n,
{
    if n == 0 {
        out
    } else {
        copy_append(srcseg, out.push(comb_at(srcseg, out, a)), a + 1, (n - 1) as nat)
    }
}

/// Resolve a slot's size: packed in the opcode, or an explicit varint read
/// from the instruction section.
pub open spec fn slot_size(size0: u64, inst: Seq<u8>) -> Result<(u64, Seq<u8>), Error> {
    if size0 != 0 {
        Ok((size0, inst))
    } else {
        match vdec(inst, 0) {
            Ok(p) => Ok((p.0, inst.skip(p.1))),
            Err(e) => Err(e),
        }
    }
}

/// Apply one slot of a code-table entry to the interpreter state.
pub open spec fn apply_slot(
    kind: u8,
    size0: u64,
    mode: u8,
    st: XState,
    srcseg: Seq<u8>,
    tlen: u64,
) -> Result<XState, Error> {
    if kind == K_NOOP {
        Ok(st)
    } else {
        match slot_size(size0, st.inst) {
            Err(e) => Err(e),
            Ok((size, inst1)) => {
                if size == 0 {
                    Err(Error::InvalidInstruction)
                } else if st.out.len() + size > tlen {
                    Err(Error::MalformedWindow)
                } else if kind == K_ADD {
                    if st.data.len() < size {
                        Err(Error::MalformedWindow)
                    } else {
                        Ok(
                            XState {
                                inst: inst1,
                                data: st.data.skip(size as int),
                                addr: st.addr,
                                cache: st.cache,
                                out: st.out + st.data.take(size as int),
                            },
                        )
                    }
                } else if kind == K_RUN {
                    if st.data.len() < 1 {
                        Err(Error::MalformedWindow)
                    } else {
                        Ok(
                            XState {
                                inst: inst1,
                                data: st.data.skip(1),
                                addr: st.addr,
                                cache: st.cache,
                                out: st.out + Seq::new(size as nat, |i: int| st.data[0]),
                            },
                        )
                    }
                } else if kind == K_COPY {
                    let here = (srcseg.len() + st.out.len()) as u64;
                    match addr_decode(st.cache, mode, st.addr, here) {
                        Err(e) => Err(e),
                        Ok((a, n)) => Ok(
                            XState {
                                inst: inst1,
                                data: st.data,
                                addr: st.addr.skip(n),
                                cache: cache_update(st.cache, a),
                                out: copy_append(srcseg, st.out, a as int, size as nat),
                            },
                        ),
                    }
                } else {
                    Err(Error::InvalidInstruction)
                }
            },
        }
    }
}

/// Replay the remaining instruction section.  The window is well formed only
/// if the three sections are consumed exactly and the output has exactly the
/// declared length.  `fuel` bounds the recursion; one instruction byte is
/// consumed per step, so any fuel of at least `st.inst.len()` gives the same
/// answer.
pub open spec fn run_spec(st: XState, srcseg: Seq<u8>, tlen: u64, fuel: nat) -> Result<
    Seq<u8>,
    Error,
>
    decreases fuel,
{
    if st.inst.len() == 0 {
        if st.data.len() == 0 && st.addr.len() == 0 && st.out.len() == tlen {
            Ok(st.out)
        } else {
            Err(Error::MalformedWindow)
        }
    } else if fuel == 0 {
        Err(Error::MalformedWindow)
    } else {
        let op = st.inst[0];
        let e = code_entry(op);
        let st0 = XState {
            inst: st.inst.skip(1),
            data: st.data,
            addr: st.addr,
            cache: st.cache,
            out: st.out,
        };
        match apply_slot(e.kind1, e.size1, e.mode1, st0, srcseg, tlen) {
            Err(err) => Err(err),
            Ok(st1) => match apply_slot(e.kind2, e.size2, e.mode2, st1, srcseg, tlen) {
                Err(err) => Err(err),
                Ok(st2) => run_spec(st2, srcseg, tlen, (fuel - 1) as nat),
            },
        }
    }
}

/// `run_spec` with just enough fuel: the canonical form.
pub open spec fn run_from(st: XState, srcseg: Seq<u8>, tlen: u64) -> Result<Seq<u8>, Error> {
    run_spec(st, srcseg, tlen, st.inst.len() as nat)
}

/// A slot application never grows any of the three section remainders.
pub proof fn lemma_slot_shrink(
    kind: u8,
    size0: u64,
    mode: u8,
    st: XState,
    srcseg: Seq<u8>,
    tlen: u64,
)
    ensures
        match apply_slot(kind, size0, mode, st, srcseg, tlen) {
            Ok(st1) => st1.inst.len() <= st.inst.len() && st1.data.len() <= st.data.len()
                && st1.addr.len() <= st.addr.len(),
            Err(e) => true,
        },
{
    if kind != K_NOOP {
        crate::varint::lemma_vdec_consumes(st.inst, 0, 0, 0);
        match slot_size(size0, st.inst) {
            Ok((size, inst1)) => {
                assert(inst1.len() <= st.inst.len());
                if kind == K_COPY {
                    let here = (srcseg.len() + st.out.len()) as u64;
                    match addr_decode(st.cache, mode, st.addr, here) {
                        Ok((a, n)) => {
                            crate::varint::lemma_vdec_consumes(st.addr, 0, 0, 0);
                        },
                        Err(e) => {},
                    }
                }
            },
            Err(e) => {},
        }
    }
}

/// Any fuel of at least the instruction count gives the same answer.
pub proof fn lemma_run_fuel(st: XState, srcseg: Seq<u8>, tlen: u64, f1: nat, f2: nat)
    requires
        f1 >= st.inst.len(),
        f2 >= st.inst.len(),
    ensures
        run_spec(st, srcseg, tlen, f1) == run_spec(st, srcseg, tlen, f2),
    decreases f1 + f2,
{
    if st.inst.len() != 0 {
        let op = st.inst[0];
        let e = code_entry(op);
        let st0 = XState {
            inst: st.inst.skip(1),
            data: st.data,
            addr: st.addr,
            cache: st.cache,
            out: st.out,
        };
        lemma_slot_shrink(e.kind1, e.size1, e.mode1, st0, srcseg, tlen);
        match apply_slot(e.kind1, e.size1, e.mode1, st0, srcseg, tlen) {
            Err(err) => {},
            Ok(st1) => {
                lemma_slot_shrink(e.kind2, e.size2, e.mode2, st1, srcseg, tlen);
                match apply_slot(e.kind2, e.size2, e.mode2, st1, srcseg, tlen) {
                    Err(err) => {},
                    Ok(st2) => {
                        lemma_run_fuel(st2, srcseg, tlen, (f1 - 1) as nat, (f2 - 1) as nat);
                    },
                }
            },
        }
    }
}

/// The parsed fixed-position fields of one window, before its instructions
/// run: the source segment, declared target length, optional declared
/// checksum bytes, the three sections, and the total bytes the window spans.
pub ghost struct WinHead {
    pub srcseg: Seq<u8>,
    pub tlen: u64,
    pub cks: Option<Seq<u8>>,
    pub data: Seq<u8>,
    pub inst: Seq<u8>,
    pub addr: Seq<u8>,
    pub end: int,
}

/// Parse the head of the window at the front of `d`.
pub open spec fn win_head_spec(d: Seq<u8>, src: Seq<u8>) -> Result<WinHead, Error> {
    if d.len() == 0 {
        Err(Error::MalformedWindow)
    } else {
        let ind = d[0];
        if ind != 0 && ind != WIN_SOURCE && ind != WIN_CHECKSUM && ind != (WIN_SOURCE
            + WIN_CHECKSUM) {
            Err(Error::InvalidInstruction)
        } else {
            let has_src = ind == WIN_SOURCE || ind == WIN_SOURCE + WIN_CHECKSUM;
            let has_cks = ind == WIN_CHECKSUM || ind == WIN_SOURCE + WIN_CHECKSUM;
            let seg = if has_src {
                match vdec(d, 1) {
                    Ok(p1) => match vdec(d, p1.1) {
                        Ok(p2) => Ok((p1.0, p2.0, p2.1)),
                        Err(e) => Err(e),
                    },
                    Err(e) => Err(e),
                }
            } else {
                Ok((0u64, 0u64, 1int))
            };
            match seg {
                Err(e) => Err(e),
                Ok((slen, soff, p)) => {
                    if soff + slen > src.len() {
                        Err(Error::AddressOutOfBounds)
                    } else {
                        match vdec(d, p) {
                            Err(e) => Err(e),
                            Ok((tlen, p2)) => {
                                if tlen >= SIZE_LIMIT {
                                    Err(Error::TargetTooLarge)
                                } else if p2 >= d.len() {
                                    Err(Error::MalformedWindow)
                                } else if d[p2] != 0 {
                                    Err(Error::InvalidInstruction)
                                } else {
                                    match vdec(d, p2 + 1) {
                                        Err(e) => Err(e),
                                        Ok((dlen, p3)) => match vdec(d, p3) {
                                            Err(e) => Err(e),
                                            Ok((ilen, p4)) => match vdec(d, p4) {
                                                Err(e) => Err(e),
                                                Ok((alen, p5)) => {
                                                    let p6 = if has_cks {
                                                        p5 + 4
                                                    } else {
                                                        p5
                                                    };
                                                    if p6 + dlen + ilen + alen > d.len() {
                                                        Err(Error::MalformedWindow)
                                                    } else {
                                                        Ok(
                                                            WinHead {
                                                                srcseg: src.subrange(
                                                                    soff as int,
                                                                    soff + slen,
                                                                ),
                                                                tlen,
                                                                cks: if has_cks {
                                                                    Some(d.subrange(p5, p5 + 4))
                                                                } else {
                                                                    None
                                                                },
                                                                data: d.subrange(p6, p6 + dlen),
                                                                inst: d.subrange(
                                                                    p6 + dlen,
                                                                    p6 + dlen + ilen,
                                                                ),
                                                                addr: d.subrange(
                                                                    p6 + dlen + ilen,
                                                                    p6 + dlen + ilen + alen,
                                                                ),
                                                                end: p6 + dlen + ilen + alen,
                                                            },
                                                        )
                                                    }
                                                },
                                            },
                                        },
                                    }
                                }
                            },
                        }
                    }
                },
            }
        }
    }
}

/// Parse and replay the window at the front of `d`: its reconstructed bytes
/// and the bytes it spans.
pub open spec fn window_spec(d: Seq<u8>, src: Seq<u8>) -> Result<(Seq<u8>, int), Error> {
    match win_head_spec(d, src) {
        Err(e) => Err(e),
        Ok(h) => {
            let st = XState {
                inst: h.inst,
                data: h.data,
                addr: h.addr,
                cache: cache_init(),
                out: Seq::empty(),
            };
            match run_from(st, h.srcseg, h.tlen) {
                Err(e) => Err(e),
                Ok(out) => match h.cks {
                    Some(cb) => if cb == be32(adler32(out)) {
                        Ok((out, h.end))
                    } else {
                        Err(Error::ChecksumMismatch)
                    },
                    None => Ok((out, h.end)),
                },
            }
        },
    }
}

/// A parsed window spans at least one byte and never more than the stream.
pub proof fn lemma_window_consumes(d: Seq<u8>, src: Seq<u8>)
    ensures
        match window_spec(d, src) {
            Ok(p) => 1 <= p.1 <= d.len(),
            Err(e) => true,
        },
{
    if d.len() != 0 {
        let ind = d[0];
        let has_src = ind == WIN_SOURCE || ind == WIN_SOURCE + WIN_CHECKSUM;
        if has_src {
            crate::varint::lemma_vdec_consumes(d, 1, 0, 0);
            if let Ok(p1) = vdec(d, 1) {
                crate::varint::lemma_vdec_consumes(d, p1.1, 0, 0);
            }
        }
        let seg_end: int = if has_src {
            match vdec(d, 1) {
                Ok(p1) => match vdec(d, p1.1) {
                    Ok(p2) => p2.1,
                    Err(e) => 1,
                },
                Err(e) => 1,
            }
        } else {
            1
        };
        assert(seg_end >= 1);
        crate::varint::lemma_vdec_consumes(d, seg_end, 0, 0);
        if let Ok((tlen, p2)) = vdec(d, seg_end) {
            crate::varint::lemma_vdec_consumes(d, p2 + 1, 0, 0);
            if let Ok((dlen, p3)) = vdec(d, p2 + 1) {
                crate::varint::lemma_vdec_consumes(d, p3, 0, 0);
                if let Ok((ilen, p4)) = vdec(d, p3) {
                    crate::varint::lemma_vdec_consumes(d, p4, 0, 0);
                }
            }
        }
    }
}

/// Replay every window in `d`, appending to `acc`.
pub open spec fn windows_spec(d: Seq<u8>, src: Seq<u8>, acc: Seq<u8>, fuel: nat) -> Result<
    Seq<u8>,
    Error,
>
    decreases fuel,
{
    if d.len() == 0 {
        Ok(acc)
    } else if fuel == 0 {
        Err(Error::MalformedWindow)
    } else {
        match window_spec(d, src) {
            Err(e) => Err(e),
            Ok((t, n)) => windows_spec(d.skip(n), src, acc + t, (fuel - 1) as nat),
        }
    }
}

/// Any fuel of at least the remaining length gives the same answer.
pub proof fn lemma_windows_fuel(d: Seq<u8>, src: Seq<u8>, acc: Seq<u8>, f1: nat, f2: nat)
    requires
        f1 >= d.len(),
        f2 >= d.len(),
    ensures
        windows_spec(d, src, acc, f1) == windows_spec(d, src, acc, f2),
    decreases f1 + f2,
{
    if d.len() != 0 {
        lemma_window_consumes(d, src);
        match window_spec(d, src) {
            Err(e) => {},
            Ok((t, n)) => {
                lemma_windows_fuel(d.skip(n), src, acc + t, (f1 - 1) as nat, (f2 - 1) as nat);
            },
        }
    }
}

/// The lengths of the target segments that the successive windows of `d`
/// reconstruct, in order; `None` when `d` does not parse into windows.
pub open spec fn window_sizes(d: Seq<u8>, src: Seq<u8>, fuel: nat) -> Option<Seq<int>>
    decreases fuel,
{
    if d.len() == 0 {
        Some(Seq::<int>::empty())
    } else if fuel == 0 {
        None
    } else {
        match window_spec(d, src) {
            Err(e) => None,
            Ok((t, n)) => match window_sizes(d.skip(n), src, (fuel - 1) as nat) {
                None => None,
                Some(s) => Some(seq![t.len() as int] + s),
            },
        }
    }
}

/// Any fuel of at least the remaining length gives the same answer.
pub proof fn lemma_window_sizes_fuel(d: Seq<u8>, src: Seq<u8>, f1: nat, f2: nat)
    requires
        f1 >= d.len(),
        f2 >= d.len(),
    ensures
        window_sizes(d, src, f1) == window_sizes(d, src, f2),
    decreases f1 + f2,
{
    if d.len() != 0 {
        lemma_window_consumes(d, src);
        match window_spec(d, src) {
            Err(e) => {},
            Ok((t, n)) => {
                lemma_window_sizes_fuel(d.skip(n), src, (f1 - 1) as nat, (f2 - 1) as nat);
            },
        }
    }
}

/// What any delta stream means against any source: the reconstructed target,
/// or the error that rejects the stream.
pub open spec fn decode_spec(delta: Seq<u8>, src: Seq<u8>) -> Result<Seq<u8>, Error> {
    if src.len() >= SIZE_LIMIT {
        Err(Error::SourceTooLarge)
    } else if delta.len() < 4 {
        Err(Error::MalformedWindow)
    } else if delta[0] != MAGIC0 || delta[1] != MAGIC1 || delta[2] != MAGIC2 || delta[3]
        != VERSION {
        Err(Error::MalformedWindow)
    } else if delta.len() == 4 {
        // A delta stream holds one or more windows.
        Err(Error::MalformedWindow)
    } else {
        windows_spec(delta.skip(4), src, Seq::empty(), delta.len() as nat)
    }
}

} // verus!
