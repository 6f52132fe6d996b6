//! The VCDIFF address cache: a small ring of recently used copy addresses and
//! a same-table of addresses keyed by their low bits.
//!
//! Encoder and decoder run the identical update rule after every COPY, which
//! keeps the two caches synchronized; that rule, `cache_update`, is part of
//! the wire format.  `addr_decode` is the mathematical meaning of an encoded
//! address; `encode_addr` proves that what it emits decodes back to the
//! address it was given.

use vstd::prelude::*;

use crate::error::Error;
use crate::varint::{lemma_vdec_skip, lemma_vint_round_trip, vdec, vint_read, vint_write};

verus! {

/// Number of slots in the near ring.
pub const NEAR_SLOTS: u64 = 4;

/// Number of 256-entry groups in the same table.
pub const SAME_GROUPS: u64 = 3;

/// Total size of the same table.
pub const SAME_SIZE: u64 = 768;

/// The mathematical cache state.
pub ghost struct CacheModel {
    pub near: Seq<u64>,
    pub next: int,
    pub same: Seq<u64>,
}

/// Both sides start every window with this state.
pub open spec fn cache_init() -> CacheModel {
    CacheModel { near: Seq::new(4, |i: int| 0u64), next: 0, same: Seq::new(768, |i: int| 0u64) }
}

pub open spec fn cache_wf(c: CacheModel) -> bool {
    &&& c.near.len() == 4
    &&& 0 <= c.next < 4
    &&& c.same.len() == 768
}

/// The shared update rule: after every COPY of address `addr`, push it into
/// the near ring (evicting the oldest) and into its same-table slot.
pub open spec fn cache_update(c: CacheModel, addr: u64) -> CacheModel {
    CacheModel {
        near: c.near.update(c.next, addr),
        next: (c.next + 1) % 4,
        same: c.same.update((addr % 768) as int, addr),
    }
}

/// What an encoded address means: given the mode, the remaining address
/// section and the current position `here` in the combined buffer, the
/// resolved address and the bytes consumed.  Modes 0 and 1 are SELF and HERE,
/// 2 to 5 the near ring, 6 to 8 the same table.
pub open spec fn addr_decode(c: CacheModel, mode: u8, a: Seq<u8>, here: u64) -> Result<
    (u64, int),
    Error,
> {
    if mode == 0 {
        match vdec(a, 0) {
            Ok(p) => if p.0 < here {
                Ok(p)
            } else {
                Err(Error::AddressOutOfBounds)
            },
            Err(e) => Err(e),
        }
    } else if mode == 1 {
        match vdec(a, 0) {
            Ok(p) => if 1 <= p.0 && p.0 <= here {
                Ok(((here - p.0) as u64, p.1))
            } else {
                Err(Error::AddressOutOfBounds)
            },
            Err(e) => Err(e),
        }
    } else if mode < 6 {
        match vdec(a, 0) {
            Ok(p) => if c.near[mode as int - 2] + p.0 < here {
                Ok(((c.near[mode as int - 2] + p.0) as u64, p.1))
            } else {
                Err(Error::AddressOutOfBounds)
            },
            Err(e) => Err(e),
        }
    } else if mode < 9 {
        if a.len() < 1 {
            Err(Error::MalformedWindow)
        } else {
            let v = c.same[(mode as int - 6) * 256 + a[0]];
            if v < here {
                Ok((v, 1))
            } else {
                Err(Error::AddressOutOfBounds)
            }
        }
    } else {
        Err(Error::InvalidInstruction)
    }
}

/// The executable cache.
pub struct AddrCache {
    pub near: Vec<u64>,
    pub next: usize,
    pub same: Vec<u64>,
}

impl AddrCache {
    pub open spec fn model(&self) -> CacheModel {
        CacheModel { near: self.near@, next: self.next as int, same: self.same@ }
    }

    pub open spec fn wf(&self) -> bool {
        cache_wf(self.model())
    }

    pub fn new() -> (r: AddrCache)
        ensures
            r.wf(),
            r.model() == cache_init(),
    {
        let mut near: Vec<u64> = Vec::new();
        let mut k: usize = 0;
        while k < 4
            invariant
                k <= 4,
                near@ =~= Seq::new(k as nat, |i: int| 0u64),
            decreases 4 - k,
        {
            near.push(0);
            k = k + 1;
        }
        let mut same: Vec<u64> = Vec::new();
        let mut j: usize = 0;
        while j < 768
            invariant
                j <= 768,
                same@ =~= Seq::new(j as nat, |i: int| 0u64),
            decreases 768 - j,
        {
            same.push(0);
            j = j + 1;
        }
        let r = AddrCache { near, next: 0, same };
        proof {
            assert(r.model().near =~= cache_init().near);
            assert(r.model().same =~= cache_init().same);
        }
        r
    }

    /// Run the shared update rule after a COPY of `addr`.
    pub fn update(&mut self, addr: u64)
        requires
            old(self).wf(),
        ensures
            final(self).wf(),
            final(self).model() == cache_update(old(self).model(), addr),
    {
        let n = self.next;
        self.near[n] = addr;
        self.next = (self.next + 1) % 4;
        let e = (addr % 768) as usize;
        self.same[e] = addr;
    }

    /// Resolve an address read from the address section at `pos`.
    pub fn decode_addr(&self, mode: u8, a: &[u8], pos: usize, here: u64) -> (r: Result<
        (u64, usize),
        Error,
    >)
        requires
            self.wf(),
            pos <= a@.len(),
        ensures
            match r {
                Ok(p) => {
                    &&& addr_decode(self.model(), mode, a@.skip(pos as int), here) == Ok::<
                        (u64, int),
                        Error,
                    >((p.0, p.1 - pos as int))
                    &&& pos < p.1 <= a@.len()
                    &&& p.0 < here
                },
                Err(e) => addr_decode(self.model(), mode, a@.skip(pos as int), here) == Err::<
                    (u64, int),
                    Error,
                >(e),
            },
    {
        if mode < 6 {
            let p = match vint_read(a, pos) {
                Ok(p) => p,
                Err(e) => {
                    proof {
                        lemma_vdec_skip(a@, pos as int, pos as int, 0, 0);
                    }
                    return Err(e);
                },
            };
            let (v, end) = p;
            proof {
                lemma_vdec_skip(a@, pos as int, pos as int, 0, 0);
            }
            if mode == 0 {
                if v < here {
                    Ok((v, end))
                } else {
                    Err(Error::AddressOutOfBounds)
                }
            } else if mode == 1 {
                if 1 <= v && v <= here {
                    Ok((here - v, end))
                } else {
                    Err(Error::AddressOutOfBounds)
                }
            } else {
                let nv = self.near[(mode - 2) as usize];
                if v < here && nv < here - v {
                    Ok((nv + v, end))
                } else {
                    Err(Error::AddressOutOfBounds)
                }
            }
        } else if mode < 9 {
            if pos >= a.len() {
                return Err(Error::MalformedWindow);
            }
            let b = a[pos];
            let idx = (mode - 6) as usize * 256 + b as usize;
            let v = self.same[idx];
            proof {
                assert(a@.skip(pos as int)[0] == a@[pos as int]);
            }
            if v < here {
                Ok((v, pos + 1))
            } else {
                Err(Error::AddressOutOfBounds)
            }
        } else {
            Err(Error::InvalidInstruction)
        }
    }

    /// Choose the cheapest mode for `addr`, append its payload to `out`, and
    /// return the mode.  Whatever follows the payload in the address section,
    /// decoding gives back exactly `addr`.
    pub fn encode_addr(&self, addr: u64, here: u64, out: &mut Vec<u8>) -> (mode: u8)
        requires
            self.wf(),
            addr < here,
            here <= 0x8_0000_0000,
        ensures
            old(out)@.len() < final(out)@.len(),
            final(out)@.len() <= old(out)@.len() + 5,
            final(out)@.take(old(out)@.len() as int) == old(out)@,
            mode <= 8,
            forall|rest: Seq<u8>| #[trigger] addr_decode(
                self.model(),
                mode,
                final(out)@.skip(old(out)@.len() as int) + rest,
                here,
            ) == Ok::<(u64, int), Error>((addr, final(out)@.len() - old(out)@.len())),
    {
        let e_idx = (addr % 768) as usize;
        if self.same[e_idx] == addr {
            let b = (e_idx % 256) as u8;
            let mode: u8 = 6 + (e_idx / 256) as u8;
            out.push(b);
            proof {
                let emitted = out@.skip(old(out)@.len() as int);
                assert(emitted =~= seq![b]);
                assert(out@.take(old(out)@.len() as int) =~= old(out)@);
                assert forall|rest: Seq<u8>| #[trigger] addr_decode(
                    self.model(),
                    mode,
                    emitted + rest,
                    here,
                ) == Ok::<(u64, int), Error>((addr, 1)) by {
                    let a = emitted + rest;
                    assert(a[0] == b);
                    assert((mode as int - 6) * 256 + b == e_idx);
                    assert(self.model().same[e_idx as int] == addr);
                }
            }
            mode
        } else {
            let mut best_v: u64 = addr;
            let mut best_m: u8 = 0;
            if here - addr < best_v {
                best_v = here - addr;
                best_m = 1;
            }
            let n0 = self.near[0];
            if addr >= n0 && addr - n0 < best_v {
                best_v = addr - n0;
                best_m = 2;
            }
            let n1 = self.near[1];
            if addr >= n1 && addr - n1 < best_v {
                best_v = addr - n1;
                best_m = 3;
            }
            let n2 = self.near[2];
            if addr >= n2 && addr - n2 < best_v {
                best_v = addr - n2;
                best_m = 4;
            }
            let n3 = self.near[3];
            if addr >= n3 && addr - n3 < best_v {
                best_v = addr - n3;
                best_m = 5;
            }
            vint_write(out, best_v);
            proof {
                crate::varint::lemma_vint_len5(best_v);
                let emitted = out@.skip(old(out)@.len() as int);
                assert(emitted =~= crate::varint::vint(best_v));
                assert(out@.take(old(out)@.len() as int) =~= old(out)@);
                assert forall|rest: Seq<u8>| #[trigger] addr_decode(
                    self.model(),
                    best_m,
                    emitted + rest,
                    here,
                ) == Ok::<(u64, int), Error>((addr, emitted.len() as int)) by {
                    lemma_vint_round_trip(best_v, rest);
                    assert((crate::varint::vint(best_v) + rest) =~= emitted + rest);
                }
            }
            best_m
        }
    }
}

} // verus!
