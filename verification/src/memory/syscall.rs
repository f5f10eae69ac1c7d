//! Reads the number of a system service out of the code that calls it.

use crate::analysis::read::{le4, le_byte, u32_le_at};
use crate::memory::win::{find_pid, pid_from, ProcessEntry};
use crate::text::{eq_ignore_case, lower_text};
use vstd::prelude::*;
use vstd::slice::*;

verus! {

/// Whether the name of a connector is that of this backend.
pub fn is_syscall_connector(name: Option<&str>) -> (yes: bool)
    ensures
        yes == (name is Some && lower_text(name->0@) == lower_text("syscall"@)),
{
    match name {
        Some(value) => eq_ignore_case(value, "syscall"),
        None => false,
    }
}

/// The operand of the first `mov eax, imm32` at or after `i` that comes before a
/// `syscall`.
pub open spec fn moved_from(stub: Seq<u8>, i: int) -> Option<u32>
    decreases stub.len() - i,
{
    if i + 5 > stub.len() {
        None
    } else if stub[i] == 0xB8 {
        Some(le4(stub, i + 1) as u32)
    } else if stub[i] == 0x0F && stub[i + 1] == 0x05 {
        None
    } else {
        moved_from(stub, i + 1)
    }
}

/// The service number of a stub: that of `mov r10, rcx; mov eax, imm32` at its
/// start, else of the first `mov eax, imm32` before a `syscall`.
pub open spec fn service_number(stub: Seq<u8>) -> Option<u32> {
    if stub.len() >= 8 && stub[0] == 0x4C && stub[1] == 0x8B && stub[2] == 0xD1 && stub[3] == 0xB8 {
        Some(le4(stub, 4) as u32)
    } else {
        moved_from(stub, 0)
    }
}

pub fn extract_ssn(stub: &[u8]) -> (number: Option<u32>)
    ensures
        number == service_number(stub@),
{
    let size: usize = stub.len();
    if size >= 8 && stub[0] == 0x4C && stub[1] == 0x8B && stub[2] == 0xD1 && stub[3] == 0xB8 {
        return u32_le_at(stub, 4);
    }
    if size < 5 {
        return None;
    }
    let mut i: usize = 0;
    while i <= size - 5
        invariant
            size == stub@.len(),
            5 <= size,
            i <= size - 4,
            service_number(stub@) == moved_from(stub@, i as int),
        decreases size - i,
    {
        if stub[i] == 0xB8 {
            return u32_le_at(stub, i + 1);
        }
        if stub[i] == 0x0F && stub[i + 1] == 0x05 {
            return None;
        }
        i = i + 1;
    }
    None
}

/// The code of a stub: `mov r10, rcx; mov eax, ssn; syscall; ret`.
pub open spec fn stub_of(ssn: u32) -> Seq<u8> {
    seq![
        0x4C,
        0x8B,
        0xD1,
        0xB8,
        le_byte(ssn, 0),
        le_byte(ssn, 1),
        le_byte(ssn, 2),
        le_byte(ssn, 3),
        0x0F,
        0x05,
        0xC3,
    ]
}

/// The code of the stub of a service.
pub fn stub_bytes(ssn: u32) -> (stub: Vec<u8>)
    ensures
        stub@ == stub_of(ssn),
{
    let stub: Vec<u8> = vec![
        0x4C,
        0x8B,
        0xD1,
        0xB8,
        (ssn % 0x100) as u8,
        (ssn / 0x100 % 0x100) as u8,
        (ssn / 0x1_0000 % 0x100) as u8,
        (ssn / 0x100_0000) as u8,
        0x0F,
        0x05,
        0xC3,
    ];
    assert(stub@ =~= stub_of(ssn));
    stub
}

/// The number is read back from the stub that holds it.
pub proof fn lemma_stub_read_back(ssn: u32)
    ensures
        service_number(stub_of(ssn)) == Some(ssn),
{
    let stub = stub_of(ssn);
    assert(stub[4] == ssn % 0x100);
    assert(stub[5] == ssn / 0x100 % 0x100);
    assert(stub[6] == ssn / 0x1_0000 % 0x100);
    assert(stub[7] == ssn / 0x100_0000);
}

/// How far the neighbour of step `k` is away: one behind, one before, two
/// behind, and so on.
pub open spec fn neighbour(k: int) -> int {
    if k % 2 == 0 {
        k / 2 + 1
    } else {
        -(k / 2 + 1)
    }
}

/// The end of a stub that begins at `off`.
pub open spec fn stub_end(off: int, stride: int, len: int) -> int {
    if off + stride < len {
        off + stride
    } else {
        len
    }
}

/// The service number that the neighbours from step `k` on give. Services are
/// numbered in the order of their stubs.
pub open spec fn from_neighbours(window: Seq<u8>, center: int, stride: int, k: int) -> Option<u32>
    decreases 32 - k,
{
    let index = center + neighbour(k);
    let off = index * stride;
    if k >= 32 || index > isize::MAX {
        None
    } else if index < 0 {
        from_neighbours(window, center, stride, k + 1)
    } else if off > usize::MAX {
        None
    } else if off + 8 > window.len() {
        from_neighbours(window, center, stride, k + 1)
    } else if off + stride > usize::MAX {
        None
    } else {
        match service_number(window.subrange(off, stub_end(off, stride, window.len() as int))) {
            Some(n) => if 0 <= n - neighbour(k) <= u32::MAX {
                Some((n - neighbour(k)) as u32)
            } else {
                from_neighbours(window, center, stride, k + 1)
            },
            None => from_neighbours(window, center, stride, k + 1),
        }
    }
}

/// The service number of the stub at `center` of a window of stubs: its own, or
/// what its neighbours give.
pub open spec fn window_number(window: Seq<u8>, center: int, stride: int) -> Option<u32> {
    let at = center * stride;
    let own = if at < window.len() {
        service_number(window.subrange(at, stub_end(at, stride, window.len() as int)))
    } else {
        None
    };
    if stride < 8 || center > isize::MAX || at > usize::MAX || (at < window.len() && at + stride
        > usize::MAX) {
        None
    } else if own is Some {
        own
    } else {
        from_neighbours(window, center, stride, 0)
    }
}

fn product(a: usize, b: usize) -> (value: Option<usize>)
    ensures
        value == (if a * b <= usize::MAX {
            Some((a * b) as usize)
        } else {
            None
        }),
{
    a.checked_mul(b)
}

fn number_at(window: &[u8], off: usize, stride: usize) -> (number: Option<u32>)
    requires
        off <= window@.len(),
        off + stride <= usize::MAX,
    ensures
        number == service_number(
            window@.subrange(
                off as int,
                stub_end(off as int, stride as int, window@.len() as int),
            ),
        ),
{
    let end: usize = if off + stride < window.len() {
        off + stride
    } else {
        window.len()
    };
    extract_ssn(slice_subrange(window, off, end))
}

/// Recovers a service number from a window of stubs of `stride` bytes each,
/// where the stub at `center_index` may be altered.
pub fn ssn_from_ntdll_window(window: &[u8], center_index: usize, stride: usize) -> (number: Option<
    u32,
>)
    ensures
        number == window_number(window@, center_index as int, stride as int),
{
    if stride < 8 || center_index > isize::MAX as usize {
        return None;
    }
    let center: usize = match product(center_index, stride) {
        Some(c) => c,
        None => {
            return None;
        },
    };
    if center < window.len() {
        if stride > usize::MAX - center {
            return None;
        }
        let own = number_at(window, center, stride);
        if own.is_some() {
            return own;
        }
    }
    let mut k: usize = 0;
    while k < 32
        invariant
            k <= 32,
            stride >= 8,
            center_index <= isize::MAX,
            window_number(window@, center_index as int, stride as int) == from_neighbours(
                window@,
                center_index as int,
                stride as int,
                k as int,
            ),
        decreases 32 - k,
    {
        let distance: usize = k / 2 + 1;
        let behind = k % 2 == 0;
        let ghost index = center_index + neighbour(k as int);
        if behind && distance > isize::MAX as usize - center_index {
            return None;
        }
        if behind || center_index >= distance {
            let idx: usize = if behind {
                center_index + distance
            } else {
                center_index - distance
            };
            assert(idx == index);
            let off: usize = match product(idx, stride) {
                Some(o) => o,
                None => {
                    return None;
                },
            };
            if window.len() >= 8 && off <= window.len() - 8 {
                if stride > usize::MAX - off {
                    return None;
                }
                match number_at(window, off, stride) {
                    Some(n) => {
                        let value: i64 = if behind {
                            n as i64 - distance as i64
                        } else {
                            n as i64 + distance as i64
                        };
                        if 0 <= value && value <= 0xFFFF_FFFF {
                            return Some(value as u32);
                        }
                    },
                    None => {},
                }
            }
        }
        k = k + 1;
    }
    None
}

/// A page can be read: it is not a guard page, and its protection allows it.
pub open spec fn readable_protection(protect: u32) -> bool {
    let kind = protect & 0xff;
    &&& protect & 0x100 == 0
    &&& kind == 0x02 || kind == 0x04 || kind == 0x08 || kind == 0x20 || kind == 0x40 || kind == 0x80
}

pub fn is_readable_protection(protect: u32) -> (yes: bool)
    ensures
        yes == readable_protection(protect),
{
    if protect & 0x100 != 0 {
        return false;
    }
    let kind: u32 = protect & 0xff;
    kind == 0x02 || kind == 0x04 || kind == 0x08 || kind == 0x20 || kind == 0x40 || kind == 0x80
}

/// Stubs on either side of one that are looked at.
pub const NEIGHBOR_RADIUS: u64 = 16;

/// The distance of two stubs.
pub const STUB_STRIDE: u64 = 32;

/// The state of memory that is backed.
pub const MEM_COMMIT: u32 = 0x1000;

/// What the system says of the region that holds an address.
#[derive(Clone, Copy, Debug, PartialEq, Eq, Structural)]
pub struct RegionInfo {
    pub base: u64,
    pub size: u64,
    /// The allocation that the region belongs to.
    pub allocation: u64,
    pub state: u32,
    pub protect: u32,
}

/// Why the stubs around one cannot be read.
#[derive(Clone, Copy, Debug, PartialEq, Eq, Structural)]
pub enum WindowError {
    /// They would begin before the address space.
    TooLow,
    /// They would end behind the address space.
    Overflow,
    /// The region ends behind the address space.
    RegionOverflow,
    /// They are not all in a readable region of the library.
    Outside,
}

/// Where the stubs around the one at `stub` begin and end.
pub open spec fn window_around(stub: u64) -> Result<(u64, u64), WindowError> {
    let start = stub - NEIGHBOR_RADIUS * STUB_STRIDE;
    let end = start + (2 * NEIGHBOR_RADIUS + 1) * STUB_STRIDE;
    if start < 0 {
        Err(WindowError::TooLow)
    } else if end > u64::MAX {
        Err(WindowError::Overflow)
    } else {
        Ok((start as u64, end as u64))
    }
}

/// Where the stubs around the one at `stub` begin and end.
pub fn stub_window(stub: u64) -> (window: Result<(u64, u64), WindowError>)
    ensures
        window == window_around(stub),
{
    if stub < NEIGHBOR_RADIUS * STUB_STRIDE {
        return Err(WindowError::TooLow);
    }
    let start: u64 = stub - NEIGHBOR_RADIUS * STUB_STRIDE;
    match start.checked_add((2 * NEIGHBOR_RADIUS + 1) * STUB_STRIDE) {
        Some(end) => Ok((start, end)),
        None => Err(WindowError::Overflow),
    }
}

/// Whether the stubs from `start` to `end` can be read: all of them lie in one
/// backed and readable region of the library.
pub open spec fn window_checked(start: u64, end: u64, library: u64, region: RegionInfo) -> Result<
    (),
    WindowError,
> {
    if region.base + region.size > u64::MAX {
        Err(WindowError::RegionOverflow)
    } else if region.state == MEM_COMMIT && region.allocation == library && readable_protection(
        region.protect,
    ) && region.base <= start && end <= region.base + region.size {
        Ok(())
    } else {
        Err(WindowError::Outside)
    }
}

/// Whether the stubs from `start` to `end` can be read: all of them lie in one
/// backed and readable region of the library.
pub fn check_window(start: u64, end: u64, library: u64, region: &RegionInfo) -> (readable: Result<
    (),
    WindowError,
>)
    ensures
        readable == window_checked(start, end, library, *region),
{
    match region.base.checked_add(region.size) {
        None => Err(WindowError::RegionOverflow),
        Some(region_end) => if region.state == MEM_COMMIT && region.allocation == library
            && is_readable_protection(region.protect) && region.base <= start && end <= region_end {
            Ok(())
        } else {
            Err(WindowError::Outside)
        },
    }
}

/// The number of the first process with this name; none where it is not running.
pub fn find_process(entries: &Vec<ProcessEntry>, process_name: &str) -> (pid: Option<u32>)
    ensures
        pid == pid_from(entries@, process_name@, 0),
{
    find_pid(entries, process_name)
}

/// The stub at an index of a window, as far as the window has at least eight bytes
/// of it.
pub open spec fn stub_at(window: Seq<u8>, stride: int, index: int) -> Option<Seq<u8>> {
    let off = index * stride;
    let end = if off + stride < window.len() {
        off + stride
    } else {
        window.len() as int
    };
    if index >= 0 && off + 8 <= window.len() {
        Some(window.subrange(off, end))
    } else {
        None
    }
}

/// The stubs of a window are numbered one after the other, as far as they can be
/// read: the one at `index` has the number of the center and as much more as it
/// is behind it.
pub open spec fn numbered(window: Seq<u8>, center: int, stride: int, number: u32) -> bool {
    forall|index: int|
        (#[trigger] stub_at(window, stride, index)) matches Some(stub) ==> (match service_number(
            stub,
        ) {
            Some(n) => n - number == index - center,
            None => true,
        })
}

proof fn lemma_from_neighbours(
    window: Seq<u8>,
    center: int,
    stride: int,
    number: u32,
    near: int,
    k: int,
)
    requires
        0 <= center,
        8 <= stride,
        center + 16 <= isize::MAX,
        (center + 17) * stride <= usize::MAX,
        numbered(window, center, stride, number),
        0 <= k <= near < 32,
        stub_at(window, stride, center + neighbour(near)) matches Some(stub) && service_number(
            stub,
        ) is Some,
    ensures
        from_neighbours(window, center, stride, k) == Some(number),
    decreases near - k,
{
    let index = center + neighbour(k);
    let off = index * stride;
    assert(-16 <= neighbour(k) <= 16);
    if index >= 0 {
        assert(0 <= off && off + stride <= (center + 17) * stride) by (nonlinear_arith)
            requires
                0 <= index <= center + 16,
                8 <= stride,
                off == index * stride,
        ;
    }
    let this = stub_at(window, stride, index);
    if this is Some && service_number(this->0) is Some {
        assert(service_number(this->0)->0 - number == index - center);
    } else {
        assert(k < near);
        lemma_from_neighbours(window, center, stride, number, near, k + 1);
    }
}

/// A stub that cannot be read gets its number from the nearest of the sixteen on
/// either side that can, whichever that is: services are numbered in the order of
/// their stubs.
pub proof fn lemma_number_recovered(
    window: Seq<u8>,
    center: int,
    stride: int,
    number: u32,
    near: int,
)
    requires
        0 <= center,
        8 <= stride,
        center + 16 <= isize::MAX,
        (center + 17) * stride <= usize::MAX,
        numbered(window, center, stride, number),
        -16 <= near <= 16,
        stub_at(window, stride, center + near) matches Some(stub) && service_number(stub) is Some,
    ensures
        center * stride + 8 <= window.len() || near != 0 ==> window_number(window, center, stride)
            == Some(number) || (center * stride < window.len() && center * stride + 8
            > window.len()),
{
    let at = center * stride;
    assert(0 <= at && at + stride <= (center + 17) * stride) by (nonlinear_arith)
        requires
            0 <= center,
            8 <= stride,
            at == center * stride,
    ;
    let own = stub_at(window, stride, center);
    if own is Some && service_number(own->0) is Some {
        assert(service_number(own->0)->0 - number == 0);
    } else if near != 0 {
        let k = if near > 0 {
            2 * (near - 1)
        } else {
            2 * (-near - 1) + 1
        };
        assert(neighbour(k) == near);
        lemma_from_neighbours(window, center, stride, number, k, 0);
    }
}

/// The stubs that are read around one reach from sixteen before it to sixteen
/// behind it, of 32 bytes each.
pub proof fn lemma_window_around(stub: u64)
    ensures
        window_around(stub) matches Ok((start, end)) ==> stub - start == 512 && end - stub == 544,
        window_around(stub) is Ok <==> 512 <= stub && stub + 544 <= u64::MAX,
        window_around(stub) == Err::<(u64, u64), WindowError>(WindowError::TooLow) <==> stub < 512,
{
}

/// What counts of a page's protection is its lowest byte, which is one of six, and the
/// guard bit above that; all the rest does not.
pub proof fn lemma_protection(protect: u32)
    ensures
        readable_protection(protect) <==> protect / 0x100 % 2 == 0 && seq![
            2u32,
            4u32,
            8u32,
            0x20u32,
            0x40u32,
            0x80u32,
        ].contains(protect % 0x100),
        readable_protection(protect) == readable_protection(protect % 0x200),
{
    let low: u32 = protect % 0x200;
    assert(protect & 0xff == protect % 0x100) by (bit_vector);
    assert(protect & 0x100 == 0 <==> protect / 0x100 % 2 == 0) by (bit_vector);
    assert(low & 0xff == protect & 0xff && low & 0x100 == protect & 0x100) by (bit_vector)
        requires
            low == protect % 0x200,
    ;
    let kinds = seq![2u32, 4u32, 8u32, 0x20u32, 0x40u32, 0x80u32];
    assert(kinds[0] == 2 && kinds[1] == 4 && kinds[2] == 8 && kinds[3] == 0x20 && kinds[4] == 0x40
        && kinds[5] == 0x80);
}

/// Stubs can be read where each of their bytes lies in a region that is backed, readable
/// and the library's.
pub proof fn lemma_window_checked(start: u64, end: u64, library: u64, region: RegionInfo)
    requires
        start < end,
        region.base + region.size <= u64::MAX,
    ensures
        window_checked(start, end, library, region) is Ok <==> {
            &&& region.state == 0x1000
            &&& region.allocation == library
            &&& readable_protection(region.protect)
            &&& forall|a: u64|
                start <= a < end ==> region.base <= a && #[trigger] (a - region.base) < region.size
        },
{
    if forall|a: u64|
        start <= a < end ==> region.base <= a && #[trigger] (a - region.base) < region.size {
        let last = (end - 1) as u64;
        assert(start - region.base < region.size);
        assert(last - region.base < region.size);
    }
}

} // verus!
