//! Targets of position-independent instructions.

use crate::analysis::read::{i32_va, ldi32, lemma_signed};
use crate::memory::Memory;
use crate::memory::stored::{lemma_loads, stands32};
use vstd::prelude::*;

verus! {

/// Where the instruction at `base` points whose signed 32-bit displacement
/// stands `offset` bytes in and ends it; `None` where the displacement field,
/// the end of the instruction or the target leaves the address space.
pub open spec fn rel32(mem: Map<int, u8>, base: int, offset: int) -> Option<u64> {
    let field = base + offset;
    let target = field + 4 + ldi32(mem, field);
    if field + 4 <= u64::MAX && 0 <= target <= u64::MAX {
        Some(target as u64)
    } else {
        None
    }
}

/// The address that a `call`, `jmp` or memory operand with a 32-bit
/// displacement refers to.
pub fn rel32_target(mem: &Memory, base: u64, offset: u64) -> (target: Option<u64>)
    requires
        mem.wf(),
    ensures
        target == rel32(mem@, base as int, offset as int),
{
    match base.checked_add(offset) {
        None => None,
        Some(field) => {
            let disp: i32 = i32_va(mem, field);
            match field.checked_add(4) {
                None => None,
                Some(end) => {
                    let sum: i128 = end as i128 + disp as i128;
                    if 0 <= sum && sum <= 0xFFFF_FFFF_FFFF_FFFF {
                        Some(sum as u64)
                    } else {
                        None
                    }
                },
            }
        },
    }
}

/// The address that a RIP-relative instruction with a three-byte opcode refers
/// to.
pub fn resolve_rip(mem: &Memory, base: u64) -> (target: Option<u64>)
    requires
        mem.wf(),
    ensures
        target == rel32(mem@, base as int, 3),
{
    rel32_target(mem, base, 3)
}

/// A displacement that was written for a target leads to it: the target is as far behind
/// the end of the instruction as the displacement says, or before it.
pub proof fn lemma_target_read_back(mem: Map<int, u8>, base: int, offset: int, target: u64)
    requires
        0 <= base + offset,
        base + offset + 4 <= u64::MAX,
        -0x8000_0000 <= target - (base + offset + 4) < 0x8000_0000,
        stands32(mem, base + offset, (target - (base + offset + 4)) % 0x1_0000_0000),
    ensures
        rel32(mem, base, offset) == Some(target),
{
    let distance = target - (base + offset + 4);
    lemma_loads(mem, base + offset, distance % 0x1_0000_0000);
    lemma_signed(distance % 0x1_0000_0000);
}

/// A displacement that leads out of the address space has no target.
pub proof fn lemma_target_outside(mem: Map<int, u8>, base: int, offset: int, distance: int)
    requires
        -0x8000_0000 <= distance < 0x8000_0000,
        stands32(mem, base + offset, distance % 0x1_0000_0000),
        base + offset + 4 + distance < 0 || base + offset + 4 + distance > u64::MAX,
    ensures
        rel32(mem, base, offset) is None,
{
    lemma_loads(mem, base + offset, distance % 0x1_0000_0000);
    lemma_signed(distance % 0x1_0000_0000);
}

} // verus!
