use cs2_dumper::analysis::read::{text_at, u32_va, u64_va};
use cs2_dumper::memory::address;
use cs2_dumper::memory::fake::FakeMemory;

#[test]
fn reads_back_what_was_written() {
    let mut mem = FakeMemory::new();
    let target = mem.alloc_cstr("weapon_ak47");
    let node = mem.allocate(0x20);
    mem.put_ptr(node + 0x8, target);
    mem.put_u32(node + 0x10, 0xDEAD_BEEF);

    assert_eq!(
        u64_va(mem.memory(), node + 0x8),
        target
    );
    assert_eq!(
        u32_va(mem.memory(), node + 0x10),
        0xDEAD_BEEF
    );
    assert_eq!(
        text_at(mem.memory(), target, 128),
        "weapon_ak47"
    );
}

#[test]
fn unmapped_reads_report_a_partial_failure() {
    let mem = FakeMemory::new();
    assert!(
        !mem.is_mapped(0x1000),
        "a read here touches no mapped byte"
    );
    assert_eq!(mem.memory().read_raw(0x1000, 8), [0u8; 8]);

    // What cannot be read is left zeroed, so an unmapped pointer surfaces as a
    // null one. The walkers range-check for that reason.
    assert_eq!(
        u64_va(mem.memory(), 0x1000),
        0,
        "what could not be read is zero"
    );
}

#[test]
fn a_string_at_the_end_of_a_region_reads_short() {
    let mut mem = FakeMemory::new();
    // Exactly the string plus its terminator is mapped; the 128-byte
    // read must keep the prefix rather than failing outright.
    let text = mem.alloc_cstr("CCSPlayerController");
    assert!(!mem.is_mapped(text + 19 + 1));
    assert_eq!(
        text_at(mem.memory(), text, 128),
        "CCSPlayerController"
    );
}

#[test]
fn rip_relative_instructions_resolve_to_their_target() {
    let mut mem = FakeMemory::new();
    let global = mem.allocate(0x8);
    let code = mem.allocate(0x10);
    mem.put_rip(code, &[0x48, 0x8B, 0x0D], global);

    let resolved = address::resolve_rip(mem.memory(), code).expect("resolve");
    assert_eq!(resolved, global);
}

#[test]
fn allocations_do_not_overlap_and_stay_aligned() {
    let mut mem = FakeMemory::new();
    let first = mem.alloc_cstr("a");
    let second = mem.allocate(1);
    assert!(second >= first + 2);
    assert_eq!(second % 0x10, 0);
    assert!(mem.is_mapped(first));
    assert!(mem.is_mapped(second));
}
