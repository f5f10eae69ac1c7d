//! Little-endian integer loads and C-string reads.
//!
//! A load from a slice gives `None` where the slice is short. A load from
//! memory gives zeros for what is not mapped, so an unmapped pointer reads as a
//! null one.

use crate::memory::{raw, Memory};
use crate::text::{from_utf8_lossy, lemma_until_nul, lossy_text, until_nul};
use vstd::prelude::*;
use vstd::slice::*;

verus! {

/// The longest C string that is read.
pub const CSTR_MAX: usize = 256;

/// The two-byte little-endian number at `at`.
pub open spec fn le2(s: Seq<u8>, at: int) -> int {
    s[at] + 0x100 * s[at + 1]
}

/// The four-byte little-endian number at `at`.
pub open spec fn le4(s: Seq<u8>, at: int) -> int {
    s[at] + 0x100 * s[at + 1] + 0x1_0000 * s[at + 2] + 0x100_0000 * s[at + 3]
}

/// Byte `k` of a number in little-endian order.
pub open spec fn le_byte(n: u32, k: int) -> u8 {
    if k == 0 {
        (n % 0x100) as u8
    } else if k == 1 {
        (n / 0x100 % 0x100) as u8
    } else if k == 2 {
        (n / 0x1_0000 % 0x100) as u8
    } else {
        (n / 0x100_0000) as u8
    }
}

/// The eight-byte little-endian number at `at`.
pub open spec fn le8(s: Seq<u8>, at: int) -> int {
    le4(s, at) + 0x1_0000_0000 * le4(s, at + 4)
}

/// A 16-bit number read as two's complement.
pub open spec fn signed16(x: int) -> int {
    if x < 0x8000 {
        x
    } else {
        x - 0x1_0000
    }
}

/// A 32-bit number read as two's complement.
pub open spec fn signed32(x: int) -> int {
    if x < 0x8000_0000 {
        x
    } else {
        x - 0x1_0000_0000
    }
}

/// `base + offset` in 64-bit address arithmetic.
pub open spec fn plus(base: u64, offset: int) -> u64 {
    if base + offset > u64::MAX {
        (base + offset - 0x1_0000_0000_0000_0000) as u64
    } else {
        (base + offset) as u64
    }
}

/// Two's complement of a 16-bit number.
pub fn to_i16(x: u16) -> (value: i16)
    ensures
        value == signed16(x as int),
{
    if x < 0x8000 {
        x as i16
    } else {
        (x as i32 - 0x1_0000) as i16
    }
}

/// Two's complement of a 32-bit number.
pub fn to_i32(x: u32) -> (value: i32)
    ensures
        value == signed32(x as int),
{
    if x < 0x8000_0000 {
        x as i32
    } else {
        (x as i64 - 0x1_0000_0000) as i32
    }
}

pub fn u16_le_at(bytes: &[u8], offset: usize) -> (value: Option<u16>)
    ensures
        value == (if offset + 2 <= bytes@.len() {
            Some(le2(bytes@, offset as int) as u16)
        } else {
            None
        }),
{
    if bytes.len() < 2 || offset > bytes.len() - 2 {
        return None;
    }
    Some(bytes[offset] as u16 + 0x100 * bytes[offset + 1] as u16)
}

pub fn u32_le_at(bytes: &[u8], offset: usize) -> (value: Option<u32>)
    ensures
        value == (if offset + 4 <= bytes@.len() {
            Some(le4(bytes@, offset as int) as u32)
        } else {
            None
        }),
{
    if bytes.len() < 4 || offset > bytes.len() - 4 {
        return None;
    }
    Some(
        bytes[offset] as u32 + 0x100 * bytes[offset + 1] as u32 + 0x1_0000 * bytes[offset
            + 2] as u32 + 0x100_0000 * bytes[offset + 3] as u32,
    )
}

pub fn i32_le_at(bytes: &[u8], offset: usize) -> (value: Option<i32>)
    ensures
        value == (if offset + 4 <= bytes@.len() {
            Some(signed32(le4(bytes@, offset as int)) as i32)
        } else {
            None
        }),
{
    match u32_le_at(bytes, offset) {
        Some(x) => Some(to_i32(x)),
        None => None,
    }
}

pub fn u64_le_at(bytes: &[u8], offset: usize) -> (value: Option<u64>)
    ensures
        value == (if offset + 8 <= bytes@.len() {
            Some(le8(bytes@, offset as int) as u64)
        } else {
            None
        }),
{
    if bytes.len() < 8 || offset > bytes.len() - 8 {
        return None;
    }
    let low: u64 = bytes[offset] as u64 + 0x100 * bytes[offset + 1] as u64 + 0x1_0000 * bytes[offset
        + 2] as u64 + 0x100_0000 * bytes[offset + 3] as u64;
    let high: u64 = bytes[offset + 4] as u64 + 0x100 * bytes[offset + 5] as u64 + 0x1_0000
        * bytes[offset + 6] as u64 + 0x100_0000 * bytes[offset + 7] as u64;
    Some(low + 0x1_0000_0000 * high)
}

pub fn u16_le(bytes: &[u8]) -> (value: Option<u16>)
    ensures
        value == (if 2 <= bytes@.len() {
            Some(le2(bytes@, 0) as u16)
        } else {
            None
        }),
{
    u16_le_at(bytes, 0)
}

pub fn u32_le(bytes: &[u8]) -> (value: Option<u32>)
    ensures
        value == (if 4 <= bytes@.len() {
            Some(le4(bytes@, 0) as u32)
        } else {
            None
        }),
{
    u32_le_at(bytes, 0)
}

pub fn i32_le(bytes: &[u8]) -> (value: Option<i32>)
    ensures
        value == (if 4 <= bytes@.len() {
            Some(signed32(le4(bytes@, 0)) as i32)
        } else {
            None
        }),
{
    i32_le_at(bytes, 0)
}

pub fn u64_le(bytes: &[u8]) -> (value: Option<u64>)
    ensures
        value == (if 8 <= bytes@.len() {
            Some(le8(bytes@, 0) as u64)
        } else {
            None
        }),
{
    u64_le_at(bytes, 0)
}

/// The byte that a load at `va` gives.
pub open spec fn ld8(mem: Map<int, u8>, va: int) -> u8 {
    raw(mem, va, 1)[0]
}

/// The 16-bit number that a load at `va` gives.
pub open spec fn ld16(mem: Map<int, u8>, va: int) -> u16 {
    le2(raw(mem, va, 2), 0) as u16
}

/// The 32-bit number that a load at `va` gives.
pub open spec fn ld32(mem: Map<int, u8>, va: int) -> u32 {
    le4(raw(mem, va, 4), 0) as u32
}

/// The signed 32-bit number that a load at `va` gives.
pub open spec fn ldi32(mem: Map<int, u8>, va: int) -> i32 {
    signed32(le4(raw(mem, va, 4), 0)) as i32
}

/// The 64-bit number that a load at `va` gives.
pub open spec fn ld64(mem: Map<int, u8>, va: int) -> u64 {
    le8(raw(mem, va, 8), 0) as u64
}

pub fn u8_va(mem: &Memory, va: u64) -> (value: u8)
    requires
        mem.wf(),
    ensures
        value == ld8(mem@, va as int),
{
    let bytes = mem.read_raw(va, 1);
    bytes[0]
}

pub fn u16_va(mem: &Memory, va: u64) -> (value: u16)
    requires
        mem.wf(),
    ensures
        value == ld16(mem@, va as int),
{
    let bytes = mem.read_raw(va, 2);
    u16_le_at(bytes.as_slice(), 0).unwrap()
}

pub fn i16_va(mem: &Memory, va: u64) -> (value: i16)
    requires
        mem.wf(),
    ensures
        value == signed16(ld16(mem@, va as int) as int),
{
    to_i16(u16_va(mem, va))
}

pub fn u32_va(mem: &Memory, va: u64) -> (value: u32)
    requires
        mem.wf(),
    ensures
        value == ld32(mem@, va as int),
{
    let bytes = mem.read_raw(va, 4);
    u32_le_at(bytes.as_slice(), 0).unwrap()
}

pub fn i32_va(mem: &Memory, va: u64) -> (value: i32)
    requires
        mem.wf(),
    ensures
        value == ldi32(mem@, va as int),
{
    to_i32(u32_va(mem, va))
}

pub fn u64_va(mem: &Memory, va: u64) -> (value: u64)
    requires
        mem.wf(),
    ensures
        value == ld64(mem@, va as int),
{
    let bytes = mem.read_raw(va, 8);
    u64_le_at(bytes.as_slice(), 0).unwrap()
}

/// The single-precision number at `va`, as the bits of its IEEE 754 form.
pub fn f32_va(mem: &Memory, va: u64) -> (bits: u32)
    requires
        mem.wf(),
    ensures
        bits == ld32(mem@, va as int),
{
    u32_va(mem, va)
}

/// The text of at most `max` bytes at `ptr`, up to its terminator.
pub open spec fn text_in(mem: Map<int, u8>, ptr: int, max: nat) -> Seq<char> {
    lossy_text(until_nul(raw(mem, ptr, max)))
}

/// Reads the text of at most `max` bytes at `ptr`, up to its terminator.
pub fn text_at(mem: &Memory, ptr: u64, max: usize) -> (text: String)
    requires
        mem.wf(),
    ensures
        text@ == text_in(mem@, ptr as int, max as nat),
{
    let bytes = mem.read_raw(ptr, max);
    let mut n: usize = 0;
    while n < bytes.len() && bytes[n] != 0
        invariant
            n <= bytes@.len(),
            forall|i: int| 0 <= i < n ==> bytes@[i] != 0,
        decreases bytes@.len() - n,
    {
        n = n + 1;
    }
    proof {
        lemma_until_nul(bytes@, n as int);
    }
    from_utf8_lossy(slice_subrange(bytes.as_slice(), 0, n))
}

/// The C string at `ptr`; a null pointer gives the empty one.
pub open spec fn cstr_in(mem: Map<int, u8>, ptr: u64) -> Seq<char> {
    if ptr == 0 {
        Seq::empty()
    } else {
        text_in(mem, ptr as int, CSTR_MAX as nat)
    }
}

pub fn cstr(mem: &Memory, ptr: u64) -> (text: String)
    requires
        mem.wf(),
    ensures
        text@ == cstr_in(mem@, ptr),
{
    if ptr == 0 {
        return String::new();
    }
    text_at(mem, ptr, CSTR_MAX)
}

/// The C string whose pointer stands at `ptr_field_va`.
pub fn cstr_at(mem: &Memory, ptr_field_va: u64) -> (text: String)
    requires
        mem.wf(),
    ensures
        text@ == cstr_in(mem@, ld64(mem@, ptr_field_va as int)),
{
    let ptr: u64 = u64_va(mem, ptr_field_va);
    cstr(mem, ptr)
}

/// A number read as two's complement is the same number, or less by all that its bits
/// hold, and lies in the range of its width.
pub proof fn lemma_signed(x: int)
    ensures
        0 <= x < 0x1_0000 ==> -0x8000 <= signed16(x) < 0x8000 && signed16(x) % 0x1_0000 == x,
        0 <= x < 0x1_0000_0000 ==> -0x8000_0000 <= signed32(x) < 0x8000_0000 && signed32(x)
            % 0x1_0000_0000 == x,
{
}

/// An address behind another is their sum, less the size of the address space where it
/// leaves that.
pub proof fn lemma_plus(base: u64, offset: int)
    requires
        0 <= offset <= u64::MAX,
    ensures
        plus(base, offset) == (base + offset) % 0x1_0000_0000_0000_0000,
{
}

/// A number in little-endian order: its bytes give it back, and no other number has
/// them.
pub proof fn lemma_le_bytes(n: u32)
    ensures
        le_byte(n, 0) + 0x100 * le_byte(n, 1) + 0x1_0000 * le_byte(n, 2) + 0x100_0000 * le_byte(
            n,
            3,
        ) == n,
{
    let n = n as int;
    assert(n / 0x100 == n / 0x1_0000 * 0x100 + n / 0x100 % 0x100);
    assert(n / 0x1_0000 == n / 0x100_0000 * 0x100 + n / 0x1_0000 % 0x100);
}

} // verus!
