use cs2_dumper::analysis::interfaces::{
    interfaces_at, read_interfaces, InterfaceError, MAX_INTERFACE_REGISTRATIONS,
};
use cs2_dumper::memory::fake::FakeMemory;

const MODULE_BASE: u64 = 0x0000_7FF6_1000_0000;

/// Lay down one `InterfaceReg` whose `create_fn` is a `lea rax, [rip+x]`
/// style stub returning the singleton at `MODULE_BASE + instance_rva`.
fn push_reg(mem: &mut FakeMemory, name: &str, instance_rva: u64, next: u64) -> u64 {
    let name_ptr = mem.alloc_cstr(name);
    let create_fn = mem.allocate(0x10);
    mem.put_rip(create_fn, &[0x48, 0x8D, 0x05], MODULE_BASE + instance_rva);
    let reg = mem.allocate(0x18);
    mem.put_ptr(reg, create_fn);
    mem.put_ptr(reg + 0x8, name_ptr);
    mem.put_ptr(reg + 0x10, next);
    reg
}

#[test]
fn walks_the_registry_and_reports_module_relative_rvas() {
    let mut mem = FakeMemory::new();
    let third = push_reg(&mut mem, "Source2Client002", 0x12_3450, 0);
    let second = push_reg(&mut mem, "GameResourceServiceClientV001", 0x22_2220, third);
    let head = push_reg(&mut mem, "Source2ClientPrediction001", 0x33_3330, second);

    let found = read_interfaces(mem.memory(), MODULE_BASE, head).expect("walk");

    assert_eq!(found.len(), 3);
    assert_eq!(found.get("Source2Client002"), Some(&(0x12_3450)));
    assert_eq!(
        found.get("GameResourceServiceClientV001"),
        Some(&(0x22_2220))
    );
    assert_eq!(
        found.get("Source2ClientPrediction001"),
        Some(&(0x33_3330))
    );
}

#[test]
fn a_cyclic_next_chain_is_rejected_instead_of_looping_forever() {
    let mut mem = FakeMemory::new();
    let first = push_reg(&mut mem, "Source2Client002", 0x1000, 0);
    let second = push_reg(&mut mem, "Source2Server001", 0x2000, first);
    // Close the loop: first -> second -> first.
    mem.put_ptr(first + 0x10, second);

    let error = read_interfaces(mem.memory(), MODULE_BASE, first)
        .expect_err("a cycle must not be walked forever");
    assert_eq!(error, InterfaceError::Cycle(first));
}

#[test]
fn an_instance_outside_the_module_is_skipped_not_wrapped() {
    let mut mem = FakeMemory::new();
    // A stub resolving below the module base would underflow the RVA.
    let name_ptr = mem.alloc_cstr("StrayInterface001");
    let create_fn = mem.allocate(0x10);
    mem.put_rip(create_fn, &[0x48, 0x8D, 0x05], MODULE_BASE - 0x1000);
    let good = push_reg(&mut mem, "Source2Client002", 0x4000, 0);
    let head = mem.allocate(0x18);
    mem.put_ptr(head, create_fn);
    mem.put_ptr(head + 0x8, name_ptr);
    mem.put_ptr(head + 0x10, good);

    let found = read_interfaces(mem.memory(), MODULE_BASE, head).expect("walk");
    assert_eq!(found.len(), 1);
    assert!(found.contains_key("Source2Client002"));
}

#[test]
fn an_overlong_acyclic_chain_is_capped() {
    let mut mem = FakeMemory::new();
    let name_ptr = mem.alloc_cstr("Padding001");
    let create_fn = mem.allocate(0x10);
    mem.put_rip(create_fn, &[0x48, 0x8D, 0x05], MODULE_BASE + 0x1000);

    // Distinct nodes, so the cycle guard never fires; only the hard cap
    // stops the walk.
    let mut head = 0u64;
    for _ in 0..=MAX_INTERFACE_REGISTRATIONS {
        let reg = mem.allocate(0x18);
        mem.put_ptr(reg, create_fn);
        mem.put_ptr(reg + 0x8, name_ptr);
        mem.put_ptr(reg + 0x10, head);
        head = reg;
    }

    let error = read_interfaces(mem.memory(), MODULE_BASE, head)
        .expect_err("the walk must be bounded");
    assert_eq!(error, InterfaceError::TooMany);
}

#[test]
fn a_factory_that_leaves_the_address_space_is_an_error() {
    let mut mem = FakeMemory::new();
    let name_ptr = mem.alloc_cstr("Lost001");
    let reg = mem.allocate(0x18);
    mem.put_ptr(reg, u64::MAX - 2);
    mem.put_ptr(reg + 0x8, name_ptr);
    assert_eq!(
        read_interfaces(mem.memory(), MODULE_BASE, reg).unwrap_err(),
        InterfaceError::BadFactory(u64::MAX - 2)
    );
}

#[test]
fn a_module_without_registrations_has_no_interfaces() {
    let mut mem = FakeMemory::new();
    let head = push_reg(&mut mem, "Source2Client002", 0x12_3450, 0);
    assert!(interfaces_at(mem.memory(), None, MODULE_BASE).is_none());
    let found = interfaces_at(mem.memory(), Some(head), MODULE_BASE).expect("interfaces");
    assert_eq!(found.get("Source2Client002"), Some(&0x12_3450));
}
