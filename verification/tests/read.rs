use cs2_dumper::analysis::read::{
    cstr, cstr_at, i32_le, i32_le_at, u16_le, u16_le_at, u32_le, u32_le_at, u32_va, u64_le, u64_le_at,
    u64_va,
};
use cs2_dumper::memory::fake::FakeMemory;

#[test]
fn empty_on_null_pointer() {
    let mem = FakeMemory::new();
    assert!(cstr(mem.memory(), 0).is_empty());
}

#[test]
fn reads_nul_terminated_string() {
    let mut mem = FakeMemory::new();
    let addr = mem.allocate(16);
    mem.put_cstr(addr, "hello");
    assert_eq!(cstr(mem.memory(), addr), "hello");
}

#[test]
fn remote_integer_loads_use_fallback_on_unmapped_memory() {
    let mut mem = FakeMemory::new();
    let addr = mem.allocate(8);
    mem.put_u64(addr, 0x1122_3344_5566_7788);
    assert_eq!(u64_va(mem.memory(), addr), 0x1122_3344_5566_7788);
    assert_eq!(u32_va(mem.memory(), addr), 0x5566_7788);
    // What cannot be read is zero.
    assert_eq!(u64_va(mem.memory(), 0x1000), 0);
    let ptr = mem.alloc_cstr("pawn");
    let field = mem.allocate(8);
    mem.put_u64(field, ptr);
    assert_eq!(cstr_at(mem.memory(), field), "pawn");
    assert!(cstr_at(mem.memory(), 0x1000).is_empty());
}

#[test]
fn little_endian_loads_reject_short_slices() {
    assert_eq!(u16_le(&[1]), None);
    assert_eq!(u32_le(&[1, 2, 3]), None);
    assert_eq!(u64_le(&[1, 2, 3, 4, 5, 6, 7]), None);
    assert_eq!(u32_le_at(&[1, 2, 3, 4, 5], 2), None);
    assert_eq!(i32_le_at(&[1, 2, 3, 4], 2), None);
    assert_eq!(u16_le(&[0x34, 0x12]), Some(0x1234));
    assert_eq!(u32_le(&[0x78, 0x56, 0x34, 0x12]), Some(0x1234_5678));
    assert_eq!(i32_le(&[0xff, 0xff, 0xff, 0xff]), Some(-1));
    assert_eq!(
        u64_le_at(&[0, 0, 0x11, 0x22, 0x33, 0x44, 0x55, 0x66, 0x77, 0x88], 2),
        Some(0x8877_6655_4433_2211)
    );
    assert_eq!(u16_le_at(&[0x34, 0x12, 0x00], 0), Some(0x1234));
    assert_eq!(i32_le_at(&[0xff, 0xff, 0xff, 0xff], 0), Some(-1));
    // An offset near the largest number does not wrap.
    assert_eq!(u32_le_at(&[0; 8], usize::MAX), None);
    assert_eq!(i32_le_at(&[0; 4], usize::MAX - 1), None);
    assert_eq!(u64_le_at(&[], usize::MAX), None);
}
