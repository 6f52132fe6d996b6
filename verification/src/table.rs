//! The fixed instruction code table: every opcode byte maps to one or two
//! (kind, size, mode) slots.  The layout is the conventional VCDIFF default
//! table, reproduced as a closed constant; a size of zero in a slot means the
//! length follows as an explicit varint in the instruction section.

use vstd::prelude::*;

verus! {

/// Slot kinds.
pub const K_NOOP: u8 = 0;

pub const K_ADD: u8 = 1;

pub const K_RUN: u8 = 2;

pub const K_COPY: u8 = 3;

/// One code-table entry: up to two packed instructions.
#[derive(Clone, Copy, Debug, PartialEq, Eq, Structural)]
pub struct CodeEntry {
    pub kind1: u8,
    pub size1: u64,
    pub mode1: u8,
    pub kind2: u8,
    pub size2: u64,
    pub mode2: u8,
}

/// The table itself, as a function of the opcode byte.
pub open spec fn code_entry(op: u8) -> CodeEntry {
    if op == 0 {
        CodeEntry { kind1: K_RUN, size1: 0, mode1: 0, kind2: K_NOOP, size2: 0, mode2: 0 }
    } else if op <= 18 {
        CodeEntry {
            kind1: K_ADD,
            size1: (op - 1) as u64,
            mode1: 0,
            kind2: K_NOOP,
            size2: 0,
            mode2: 0,
        }
    } else if op <= 162 {
        let m = ((op - 19) / 16) as u8;
        let k = ((op - 19) % 16) as u8;
        CodeEntry {
            kind1: K_COPY,
            size1: if k == 0 {
                0
            } else {
                (k + 3) as u64
            },
            mode1: m,
            kind2: K_NOOP,
            size2: 0,
            mode2: 0,
        }
    } else if op <= 234 {
        let x = (op - 163) as u8;
        CodeEntry {
            kind1: K_ADD,
            size1: (1 + (x % 12) / 3) as u64,
            mode1: 0,
            kind2: K_COPY,
            size2: (4 + x % 3) as u64,
            mode2: (x / 12) as u8,
        }
    } else if op <= 246 {
        let x = (op - 235) as u8;
        CodeEntry {
            kind1: K_ADD,
            size1: (1 + x % 4) as u64,
            mode1: 0,
            kind2: K_COPY,
            size2: 4,
            mode2: (6 + x / 4) as u8,
        }
    } else {
        CodeEntry {
            kind1: K_COPY,
            size1: 4,
            mode1: (op - 247) as u8,
            kind2: K_ADD,
            size2: 1,
            mode2: 0,
        }
    }
}

/// Look an opcode up in the table.
pub fn code_entry_exec(op: u8) -> (r: CodeEntry)
    ensures
        r == code_entry(op),
{
    if op == 0 {
        CodeEntry { kind1: K_RUN, size1: 0, mode1: 0, kind2: K_NOOP, size2: 0, mode2: 0 }
    } else if op <= 18 {
        CodeEntry { kind1: K_ADD, size1: (op - 1) as u64, mode1: 0, kind2: K_NOOP, size2: 0, mode2: 0 }
    } else if op <= 162 {
        let m = (op - 19) / 16;
        let k = (op - 19) % 16;
        CodeEntry {
            kind1: K_COPY,
            size1: if k == 0 {
                0
            } else {
                (k + 3) as u64
            },
            mode1: m,
            kind2: K_NOOP,
            size2: 0,
            mode2: 0,
        }
    } else if op <= 234 {
        let x = op - 163;
        CodeEntry {
            kind1: K_ADD,
            size1: (1 + (x % 12) / 3) as u64,
            mode1: 0,
            kind2: K_COPY,
            size2: (4 + x % 3) as u64,
            mode2: x / 12,
        }
    } else if op <= 246 {
        let x = op - 235;
        CodeEntry {
            kind1: K_ADD,
            size1: (1 + x % 4) as u64,
            mode1: 0,
            kind2: K_COPY,
            size2: 4,
            mode2: 6 + x / 4,
        }
    } else {
        CodeEntry { kind1: K_COPY, size1: 4, mode1: op - 247, kind2: K_ADD, size2: 1, mode2: 0 }
    }
}

/// The opcode the encoder uses for an ADD of `size` bytes, when the size is
/// packed into the opcode.
pub proof fn lemma_add_op(size: u64)
    requires
        1 <= size <= 17,
    ensures
        code_entry((size + 1) as u8) == (CodeEntry {
            kind1: K_ADD,
            size1: size,
            mode1: 0,
            kind2: K_NOOP,
            size2: 0,
            mode2: 0,
        }),
{
}

/// The opcode the encoder uses for a COPY in mode `m`: packed size `k + 3`
/// when `1 <= k <= 15`, explicit size when `k == 0`.
pub proof fn lemma_copy_op(m: u8, k: u8)
    requires
        m <= 8,
        k <= 15,
    ensures
        code_entry((19 + 16 * m + k) as u8) == (CodeEntry {
            kind1: K_COPY,
            size1: if k == 0 {
                0
            } else {
                (k + 3) as u64
            },
            mode1: m,
            kind2: K_NOOP,
            size2: 0,
            mode2: 0,
        }),
{
    let op = (19 + 16 * m + k) as u8;
    assert(19 <= op <= 162);
    assert((op - 19) as int == 16 * (m as int) + k);
    vstd::arithmetic::div_mod::lemma_fundamental_div_mod_converse(
        16 * (m as int) + k,
        16,
        m as int,
        k as int,
    );
}

} // verus!
