//! A memory image that is built piece by piece.
//!
//! Memory is sparse: only bytes that were written are mapped, so a walker that
//! follows a bogus pointer sees an unmapped address. A read that runs off the
//! end of what is mapped keeps the bytes that were there.

use crate::analysis::read::{ld16, ld32, ld64, ldi32, le2, le4, le8, signed32};
use crate::memory::{holds_at, overlay, raw, readable, Memory, Region};
use crate::memory::address::rel32;
use vstd::prelude::*;
use vstd::string::*;
use vstd::utf8::*;

verus! {

/// Where [`FakeMemory::allocate`] starts handing out addresses: high enough to
/// pass for a user-space pointer.
pub const ALLOC_BASE: u64 = 0x0000_7FF6_0000_0000;

/// Allocations are aligned like those of a real allocator.
pub const ALLOC_ALIGN: u64 = 0x10;

/// The little-endian bytes of a 16-bit number.
pub open spec fn bytes2(x: int) -> Seq<u8> {
    seq![(x % 0x100) as u8, (x / 0x100 % 0x100) as u8]
}

/// The little-endian bytes of a 32-bit number.
pub open spec fn bytes4(x: int) -> Seq<u8> {
    bytes2(x % 0x1_0000) + bytes2(x / 0x1_0000 % 0x1_0000)
}

/// The little-endian bytes of a 64-bit number.
pub open spec fn bytes8(x: int) -> Seq<u8> {
    bytes4(x % 0x1_0000_0000) + bytes4(x / 0x1_0000_0000 % 0x1_0000_0000)
}

/// Reading the bytes of a number back gives the number.
pub proof fn lemma_bytes_round_trip(x: int)
    ensures
        0 <= x < 0x1_0000 ==> le2(bytes2(x), 0) == x,
        0 <= x < 0x1_0000_0000 ==> le4(bytes4(x), 0) == x,
        0 <= x < 0x1_0000_0000_0000_0000 ==> le8(bytes8(x), 0) == x,
{
    lemma_bytes4(x % 0x1_0000_0000);
    lemma_bytes4(x / 0x1_0000_0000 % 0x1_0000_0000);
    let b = bytes8(x);
    let lo = bytes4(x % 0x1_0000_0000);
    let hi = bytes4(x / 0x1_0000_0000 % 0x1_0000_0000);
    assert(forall|i: int| 0 <= i < 4 ==> b[i] == lo[i]);
    assert(forall|i: int| 0 <= i < 4 ==> b[4 + i] == hi[i]);
    assert(le4(b, 0) == le4(lo, 0));
    assert(le4(b, 4) == le4(hi, 0));
}

proof fn lemma_bytes4(x: int)
    requires
        0 <= x < 0x1_0000_0000,
    ensures
        le4(bytes4(x), 0) == x,
{
    let b = bytes4(x);
    let lo = bytes2(x % 0x1_0000);
    let hi = bytes2(x / 0x1_0000 % 0x1_0000);
    assert(b[0] == lo[0] && b[1] == lo[1] && b[2] == hi[0] && b[3] == hi[1]);
    assert(le2(lo, 0) == x % 0x1_0000);
    assert(le2(hi, 0) == x / 0x1_0000);
}

/// What was written last at an address is what a read there gives back.
pub proof fn lemma_read_back(mem: Map<int, u8>, addr: int, data: Seq<u8>)
    ensures
        raw(overlay(mem, addr, data), addr, data.len()) == data,
{
    let now = overlay(mem, addr, data);
    assert forall|i: int| 0 <= i < data.len() implies raw(now, addr, data.len())[i] == data[i] by {
        assert(readable(now, addr, i + 1));
    }
    assert(raw(now, addr, data.len()) =~= data);
}

/// A number that was written is the number that a load of its width gives.
pub proof fn lemma_load_stored(mem: Map<int, u8>, addr: int, x: int)
    ensures
        0 <= x < 0x1_0000 ==> ld16(overlay(mem, addr, bytes2(x)), addr) == x,
        0 <= x < 0x1_0000_0000 ==> ld32(overlay(mem, addr, bytes4(x)), addr) == x,
        0 <= x < 0x1_0000_0000_0000_0000 ==> ld64(overlay(mem, addr, bytes8(x)), addr) == x,
{
    lemma_read_back(mem, addr, bytes2(x));
    lemma_read_back(mem, addr, bytes4(x));
    lemma_read_back(mem, addr, bytes8(x));
    lemma_bytes_round_trip(x);
}

/// The displacement field that makes an instruction which ends behind it
/// refer to `target`.
pub open spec fn rel32_field(field: int, target: int) -> int {
    (target - (field + 4)) % 0x1_0000_0000
}

proof fn lemma_rel32_field(field: int, target: int)
    requires
        -0x8000_0000 <= target - (field + 4) < 0x8000_0000,
    ensures
        0 <= rel32_field(field, target) < 0x1_0000_0000,
        signed32(rel32_field(field, target)) == target - (field + 4),
{
    let distance = target - (field + 4);
    if distance < 0 {
        assert(distance % 0x1_0000_0000 == distance + 0x1_0000_0000);
    }
}

/// An instruction whose displacement was computed for a target within reach
/// refers to that target.
pub proof fn lemma_rel32_round_trip(mem: Map<int, u8>, base: int, offset: int, target: int)
    requires
        0 <= base,
        0 <= offset,
        base + offset + 4 <= u64::MAX,
        0 <= target <= u64::MAX,
        -0x8000_0000 <= target - (base + offset + 4) < 0x8000_0000,
    ensures
        rel32(
            overlay(mem, base + offset, bytes4(rel32_field(base + offset, target))),
            base,
            offset,
        ) == Some(target as u64),
{
    let field = base + offset;
    let disp = rel32_field(field, target);
    let now = overlay(mem, field, bytes4(disp));
    lemma_rel32_field(field, target);
    lemma_read_back(mem, field, bytes4(disp));
    lemma_bytes_round_trip(disp);
    assert(raw(now, field, 4) == bytes4(disp));
    assert(ldi32(now, field) == signed32(disp));
}

/// A memory image under construction, with an allocator.
#[derive(Debug)]
pub struct FakeMemory {
    pub memory: Memory,
    pub next: u64,
}

impl FakeMemory {
    /// The image is well-formed and the next allocation is aligned.
    pub open spec fn wf(&self) -> bool {
        self.memory.wf() && self.next % ALLOC_ALIGN == 0
    }

    pub fn new() -> (fake: Self)
        ensures
            fake.wf(),
            fake.memory@ == Map::<int, u8>::empty(),
            fake.next == ALLOC_BASE,
    {
        FakeMemory { memory: Memory::new(), next: ALLOC_BASE }
    }

    /// The image built so far.
    pub fn memory(&self) -> (memory: &Memory)
        ensures
            *memory == self.memory,
    {
        &self.memory
    }

    #[verifier::spinoff_prover]
    #[verifier::rlimit(40)]
    fn put_byte(&mut self, addr: u64, byte: u8)
        requires
            old(self).wf(),
        ensures
            final(self).wf(),
            final(self).next == old(self).next,
            final(self).memory@ == overlay(old(self).memory@, addr as int, seq![byte]),
    {
        let ghost was = self.memory;
        let ghost rs = was.regions@;
        let ghost a = addr as int;
        let at: usize = self.memory.region_index(addr);
        if at < self.memory.regions.len() && self.memory.regions[at].base <= addr {
            let base: u64 = self.memory.regions[at].base;
            let size: usize = self.memory.regions[at].bytes.len();
            assert(addr - base < size);
            let k: usize = (addr - base) as usize;
            self.memory.regions[at].bytes[k] = byte;
            proof {
                let now = self.memory.regions@;
                assert(now[at as int].bytes@ == rs[at as int].bytes@.update(k as int, byte));
                assert(forall|i: int| 0 <= i < rs.len() && i != at ==> now[i] == rs[i]);
                assert forall|i: int| 0 <= i < now.len() implies 0 < (#[trigger] now[i]).bytes@.len()
                    && now[i].end() <= 0x1_0000_0000_0000_0000 by {
                    assert(0 < rs[i].bytes@.len() && rs[i].end() <= 0x1_0000_0000_0000_0000);
                }
                assert forall|i: int, j: int| 0 <= i < j < now.len() implies (
                #[trigger] now[i]).end() <= (#[trigger] now[j]).base by {
                    assert(rs[i].end() <= rs[j].base);
                }
                lemma_put(was, self.memory, a, byte, at as int, at as int, at as int);
            }
        } else if at > 0 && addr - self.memory.regions[at - 1].base == self.memory.regions[at
            - 1].bytes.len() as u64 {
            self.memory.regions[at - 1].bytes.push(byte);
            proof {
                let now = self.memory.regions@;
                let p = at - 1;
                assert(now[p].bytes@ == rs[p].bytes@.push(byte));
                assert(forall|i: int| 0 <= i < rs.len() && i != p ==> now[i] == rs[i]);
                assert forall|i: int| 0 <= i < now.len() implies 0 < (#[trigger] now[i]).bytes@.len()
                    && now[i].end() <= 0x1_0000_0000_0000_0000 by {
                    assert(0 < rs[i].bytes@.len() && rs[i].end() <= 0x1_0000_0000_0000_0000);
                }
                assert forall|i: int, j: int| 0 <= i < j < now.len() implies (
                #[trigger] now[i]).end() <= (#[trigger] now[j]).base by {
                    assert(rs[i].end() <= rs[j].base);
                    if i == p && j > at {
                        assert(rs[at as int].end() <= rs[j].base);
                    }
                }
                lemma_put(was, self.memory, a, byte, p, at as int, at as int);
            }
        } else {
            let mut bytes: Vec<u8> = Vec::new();
            bytes.push(byte);
            self.memory.regions.insert(at, Region { base: addr, bytes });
            proof {
                let now = self.memory.regions@;
                assert(now =~= rs.insert(at as int, now[at as int]));
                assert(now[at as int].bytes@ =~= seq![byte]);
                assert forall|i: int| 0 <= i < now.len() implies 0 < (#[trigger] now[i]).bytes@.len()
                    && now[i].end() <= 0x1_0000_0000_0000_0000 by {
                    if i < at {
                        assert(now[i] == rs[i]);
                    } else if i > at {
                        assert(now[i] == rs[i - 1]);
                    }
                }
                assert forall|i: int, j: int| 0 <= i < j < now.len() implies (
                #[trigger] now[i]).end() <= (#[trigger] now[j]).base by {
                    let oi = if i <= at { i } else { i - 1 };
                    let oj = if j <= at { j } else { j - 1 };
                    if i != at && j != at {
                        assert(now[i] == rs[oi] && now[j] == rs[oj]);
                        assert(rs[oi].end() <= rs[oj].base);
                    } else if j == at {
                        assert(now[i] == rs[i]);
                    } else {
                        assert(now[j] == rs[j - 1]);
                        if j - 1 > at {
                            assert(rs[at as int].end() <= rs[j - 1].base);
                        }
                    }
                }
                lemma_put(was, self.memory, a, byte, at as int, at as int, at + 1);
            }
        }
    }

    /// Maps `data` at `addr`, over whatever was there.
    pub fn put(&mut self, addr: u64, data: &[u8])
        requires
            old(self).wf(),
            addr + data@.len() <= 0x1_0000_0000_0000_0000,
        ensures
            final(self).wf(),
            final(self).next == old(self).next,
            final(self).memory@ == overlay(old(self).memory@, addr as int, data@),
    {
        let ghost was = self.memory@;
        let mut i: usize = 0;
        assert(self.memory@ =~= overlay(was, addr as int, data@.subrange(0, 0)));
        while i < data.len()
            invariant
                i <= data@.len(),
                addr + data@.len() <= 0x1_0000_0000_0000_0000,
                self.wf(),
                self.next == old(self).next,
                self.memory@ == overlay(was, addr as int, data@.subrange(0, i as int)),
            decreases data@.len() - i,
        {
            let ghost before = self.memory@;
            self.put_byte(addr + i as u64, data[i]);
            i = i + 1;
            assert(self.memory@ =~= overlay(was, addr as int, data@.subrange(0, i as int)));
        }
        assert(data@.subrange(0, i as int) =~= data@);
    }

    pub fn put_u8(&mut self, addr: u64, value: u8)
        requires
            old(self).wf(),
        ensures
            final(self).wf(),
            final(self).next == old(self).next,
            final(self).memory@ == overlay(old(self).memory@, addr as int, seq![value]),
    {
        self.put_byte(addr, value);
    }

    pub fn put_u16(&mut self, addr: u64, value: u16)
        requires
            old(self).wf(),
            addr + 2 <= 0x1_0000_0000_0000_0000,
        ensures
            final(self).wf(),
            final(self).next == old(self).next,
            final(self).memory@ == overlay(old(self).memory@, addr as int, bytes2(value as int)),
    {
        let data = le_bytes2(value);
        self.put(addr, data.as_slice());
    }

    pub fn put_u32(&mut self, addr: u64, value: u32)
        requires
            old(self).wf(),
            addr + 4 <= 0x1_0000_0000_0000_0000,
        ensures
            final(self).wf(),
            final(self).next == old(self).next,
            final(self).memory@ == overlay(old(self).memory@, addr as int, bytes4(value as int)),
    {
        let data = le_bytes4(value);
        self.put(addr, data.as_slice());
    }

    pub fn put_i32(&mut self, addr: u64, value: i32)
        requires
            old(self).wf(),
            addr + 4 <= 0x1_0000_0000_0000_0000,
        ensures
            final(self).wf(),
            final(self).next == old(self).next,
            final(self).memory@ == overlay(
                old(self).memory@,
                addr as int,
                bytes4(value as int % 0x1_0000_0000),
            ),
    {
        let low: u32 = twos_complement(value);
        self.put_u32(addr, low);
    }

    pub fn put_u64(&mut self, addr: u64, value: u64)
        requires
            old(self).wf(),
            addr + 8 <= 0x1_0000_0000_0000_0000,
        ensures
            final(self).wf(),
            final(self).next == old(self).next,
            final(self).memory@ == overlay(old(self).memory@, addr as int, bytes8(value as int)),
    {
        let data = le_bytes8(value);
        self.put(addr, data.as_slice());
    }

    /// Writes a pointer.
    pub fn put_ptr(&mut self, addr: u64, target: u64)
        requires
            old(self).wf(),
            addr + 8 <= 0x1_0000_0000_0000_0000,
        ensures
            final(self).wf(),
            final(self).next == old(self).next,
            final(self).memory@ == overlay(old(self).memory@, addr as int, bytes8(target as int)),
    {
        self.put_u64(addr, target);
    }

    /// Writes a NUL-terminated string.
    pub fn put_cstr(&mut self, addr: u64, value: &str)
        requires
            old(self).wf(),
            addr + encode_utf8(value@).len() + 1 <= 0x1_0000_0000_0000_0000,
        ensures
            final(self).wf(),
            final(self).next == old(self).next,
            final(self).memory@ == overlay(
                old(self).memory@,
                addr as int,
                encode_utf8(value@).push(0),
            ),
    {
        let mut data: Vec<u8> = value.as_bytes_vec();
        data.push(0);
        self.put(addr, data.as_slice());
    }

    /// Writes the displacement at `field` that makes an instruction which ends
    /// behind it refer to `target`.
    pub fn put_rel32(&mut self, field: u64, target: u64)
        requires
            old(self).wf(),
            field + 4 <= u64::MAX,
        ensures
            final(self).wf(),
            final(self).next == old(self).next,
            final(self).memory@ == overlay(
                old(self).memory@,
                field as int,
                bytes4(rel32_field(field as int, target as int)),
            ),
    {
        let low: u32 = rel32_low(field, target);
        self.put_u32(field, low);
    }

    /// Writes a seven-byte RIP-relative instruction that refers to `target`.
    pub fn put_rip(&mut self, at: u64, opcode: &[u8; 3], target: u64)
        requires
            old(self).wf(),
            at + 7 <= u64::MAX,
        ensures
            final(self).wf(),
            final(self).next == old(self).next,
            final(self).memory@ == overlay(
                overlay(old(self).memory@, at as int, opcode@),
                at + 3,
                bytes4(rel32_field(at + 3, target as int)),
            ),
    {
        self.put(at, opcode.as_slice());
        self.put_rel32(at + 3, target);
    }

    /// Maps `len` zeroed bytes at an aligned address behind every earlier
    /// allocation, and returns the address.
    pub fn allocate(&mut self, len: usize) -> (addr: u64)
        requires
            old(self).wf(),
            old(self).next + len + ALLOC_ALIGN <= u64::MAX,
        ensures
            final(self).wf(),
            addr == old(self).next,
            addr % ALLOC_ALIGN == 0,
            addr + len <= final(self).next < addr + len + ALLOC_ALIGN,
            final(self).memory@ == overlay(
                old(self).memory@,
                addr as int,
                Seq::new(len as nat, |i: int| 0u8),
            ),
    {
        let addr: u64 = self.next;
        let mut zeros: Vec<u8> = Vec::new();
        while zeros.len() < len
            invariant
                zeros@.len() <= len,
                forall|i: int| 0 <= i < zeros@.len() ==> zeros@[i] == 0,
            decreases len - zeros@.len(),
        {
            zeros.push(0);
        }
        assert(zeros@ =~= Seq::new(len as nat, |i: int| 0u8));
        self.put(addr, zeros.as_slice());
        let end: u64 = addr + len as u64;
        let rest: u64 = end % ALLOC_ALIGN;
        self.next = if rest == 0 {
            end
        } else {
            end + (ALLOC_ALIGN - rest)
        };
        addr
    }

    pub fn alloc_bytes(&mut self, data: &[u8]) -> (addr: u64)
        requires
            old(self).wf(),
            old(self).next + data@.len() + ALLOC_ALIGN <= u64::MAX,
        ensures
            final(self).wf(),
            addr == old(self).next,
            addr + data@.len() <= final(self).next < addr + data@.len() + ALLOC_ALIGN,
            final(self).memory@ == overlay(old(self).memory@, addr as int, data@),
    {
        let addr: u64 = self.allocate(data.len());
        self.put(addr, data);
        assert(self.memory@ =~= overlay(old(self).memory@, addr as int, data@));
        addr
    }

    pub fn alloc_cstr(&mut self, value: &str) -> (addr: u64)
        requires
            old(self).wf(),
            old(self).next + encode_utf8(value@).len() + 1 + ALLOC_ALIGN <= u64::MAX,
        ensures
            final(self).wf(),
            addr == old(self).next,
            addr + encode_utf8(value@).len() + 1 <= final(self).next,
            final(self).next < addr + encode_utf8(value@).len() + 1 + ALLOC_ALIGN,
            final(self).memory@ == overlay(
                old(self).memory@,
                addr as int,
                encode_utf8(value@).push(0),
            ),
    {
        let mut data: Vec<u8> = value.as_bytes_vec();
        data.push(0);
        self.alloc_bytes(data.as_slice())
    }

    /// Maps an array of `count` null pointers.
    pub fn alloc_ptrs(&mut self, count: usize) -> (addr: u64)
        requires
            old(self).wf(),
            8 * count <= usize::MAX,
            old(self).next + 8 * count + ALLOC_ALIGN <= u64::MAX,
        ensures
            final(self).wf(),
            addr == old(self).next,
            addr + 8 * count <= final(self).next < addr + 8 * count + ALLOC_ALIGN,
            final(self).memory@ == overlay(
                old(self).memory@,
                addr as int,
                Seq::new((8 * count) as nat, |i: int| 0u8),
            ),
    {
        self.allocate(8 * count)
    }

    pub fn is_mapped(&self, addr: u64) -> (mapped: bool)
        requires
            self.wf(),
        ensures
            mapped == self.memory@.contains_key(addr as int),
    {
        self.memory.is_mapped(addr)
    }
}

fn le_bytes2(x: u16) -> (bytes: Vec<u8>)
    ensures
        bytes@ == bytes2(x as int),
{
    let bytes: Vec<u8> = vec![(x % 0x100) as u8, (x / 0x100) as u8];
    assert(bytes@ =~= bytes2(x as int));
    bytes
}

fn le_bytes4(x: u32) -> (bytes: Vec<u8>)
    ensures
        bytes@ == bytes4(x as int),
{
    let mut bytes: Vec<u8> = le_bytes2((x % 0x1_0000) as u16);
    let mut high: Vec<u8> = le_bytes2((x / 0x1_0000) as u16);
    bytes.append(&mut high);
    assert(bytes@ =~= bytes4(x as int));
    bytes
}

fn le_bytes8(x: u64) -> (bytes: Vec<u8>)
    ensures
        bytes@ == bytes8(x as int),
{
    let low: u32 = (x % 0x1_0000_0000) as u32;
    let high: u32 = (x / 0x1_0000_0000) as u32;
    let mut bytes: Vec<u8> = le_bytes4(low);
    let mut rest: Vec<u8> = le_bytes4(high);
    let ghost a = bytes@;
    let ghost b = rest@;
    bytes.append(&mut rest);
    assert(bytes@ == a + b);
    assert(low as int == x as int % 0x1_0000_0000);
    assert(high as int == x as int / 0x1_0000_0000 % 0x1_0000_0000);
    bytes
}

fn twos_complement(value: i32) -> (low: u32)
    ensures
        low == value as int % 0x1_0000_0000,
{
    if value >= 0 {
        value as u32
    } else {
        (value as i64 + 0x1_0000_0000) as u32
    }
}

fn rel32_low(field: u64, target: u64) -> (low: u32)
    requires
        field + 4 <= u64::MAX,
    ensures
        low == rel32_field(field as int, target as int),
{
    let end: u64 = field + 4;
    if target >= end {
        ((target - end) % 0x1_0000_0000) as u32
    } else {
        let back: u64 = (end - target) % 0x1_0000_0000;
        let ghost d = target as int - end as int;
        let ghost k = (end - target) as int / 0x1_0000_0000;
        if back == 0 {
            assert(d % 0x1_0000_0000 == 0);
            0
        } else {
            assert(d == -(k + 1) * 0x1_0000_0000 + (0x1_0000_0000 - back));
            assert(d % 0x1_0000_0000 == 0x1_0000_0000 - back) by {
                vstd::arithmetic::div_mod::lemma_fundamental_div_mod_converse(
                    d,
                    0x1_0000_0000,
                    -(k + 1),
                    0x1_0000_0000 - back,
                );
            }
            (0x1_0000_0000 - back) as u32
        }
    }
}

/// After one byte at `a` went into region `p`, with the regions before `lo`
/// kept and those from `lo` on kept but moved to `hi`, the image is the old one
/// with that byte over it.
proof fn lemma_put(was: Memory, now: Memory, a: int, byte: u8, p: int, lo: int, hi: int)
    requires
        was.wf(),
        now.wf(),
        holds_at(now.regions@, a, p),
        now.regions@[p].bytes@[a - now.regions@[p].base] == byte,
        0 <= lo <= was.regions@.len(),
        now.regions@.len() - hi == was.regions@.len() - lo,
        lo <= hi,
        forall|i: int|
            #![trigger was.regions@[i]]
            0 <= i < lo ==> now.regions@[i].base == was.regions@[i].base
                && was.regions@[i].bytes@.len() <= now.regions@[i].bytes@.len(),
        forall|i: int|
            #![trigger was.regions@[i]]
            lo <= i < was.regions@.len() ==> now.regions@[i + (hi - lo)].base
                == was.regions@[i].base && was.regions@[i].bytes@.len() <= now.regions@[i + (hi
                - lo)].bytes@.len(),
        forall|x: int, i: int|
            #![trigger holds_at(now.regions@, x, i)]
            holds_at(now.regions@, x, i) && x != a ==> {
                let o = if i < hi {
                    i
                } else {
                    i - (hi - lo)
                };
                &&& holds_at(was.regions@, x, o)
                &&& now.regions@[i].bytes@[x - now.regions@[i].base]
                    == was.regions@[o].bytes@[x - was.regions@[o].base]
            },
    ensures
        now@ == overlay(was@, a, seq![byte]),
{
    let want = overlay(was@, a, seq![byte]);
    now.lemma_byte(a, p);
    assert forall|x: int| #[trigger] now@.contains_key(x) == want.contains_key(x) by {
        if now@.contains_key(x) && x != a {
            let i = choose|i: int| holds_at(now.regions@, x, i);
            let o = if i < hi {
                i
            } else {
                i - (hi - lo)
            };
            assert(holds_at(was.regions@, x, o));
        }
        if was@.contains_key(x) && x != a {
            let o = choose|o: int| holds_at(was.regions@, x, o);
            assert(was.regions@[o].holds(x));
            if o < lo {
                assert(holds_at(now.regions@, x, o));
            } else {
                assert(holds_at(now.regions@, x, o + (hi - lo)));
            }
        }
    }
    assert forall|x: int| #[trigger] now@.contains_key(x) implies now@[x] == want[x] by {
        if x != a {
            let i = choose|i: int| holds_at(now.regions@, x, i);
            let o = if i < hi {
                i
            } else {
                i - (hi - lo)
            };
            assert(holds_at(was.regions@, x, o));
            now.lemma_byte(x, i);
            was.lemma_byte(x, o);
        }
    }
    assert(now@ =~= want);
}

} // verus!
