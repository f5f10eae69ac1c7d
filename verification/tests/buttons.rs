use cs2_dumper::analysis::buttons::{
    chain_len, find_button_list_in, is_button_name, read_buttons, ButtonError, KB_NAME, KB_NEXT,
    MAX_BUTTONS, MIN_BUTTON_CHAIN,
};
use cs2_dumper::memory::fake::FakeMemory;

const MODULE_BASE: u64 = 0x0000_7FF6_2000_0000;
const MODULE_SIZE: u64 = 0x0100_0000;

/// Place a `KeyButton` at a fixed module RVA, the way the real list lives
/// inside `client.dll`'s data section, and chain it to `next`.
fn push_button(mem: &mut FakeMemory, rva: u64, name: &str, next: u64) -> u64 {
    let node = MODULE_BASE + rva;
    mem.put(node, &[0u8; 0x90]);
    let name_ptr = mem.alloc_cstr(name);
    mem.put_ptr(node + 0x8, name_ptr);
    mem.put_u32(node + 0x30, 0);
    mem.put_ptr(node + 0x88, next);
    node
}

#[test]
fn accepts_only_client_input_button_names() {
    assert!(is_button_name("in_attack"));
    assert!(is_button_name("in_attack2"));
    assert!(is_button_name("in_toggle_duck"));
    assert!(!is_button_name("in_"));
    assert!(!is_button_name("attack"));
    assert!(!is_button_name("in-attack"));
    assert!(!is_button_name("in_Attack"));
}

#[test]
fn reports_the_state_field_rva_of_each_button() {
    let mut mem = FakeMemory::new();
    let second = push_button(&mut mem, 0x20_0000, "in_jump", 0);
    let head = push_button(&mut mem, 0x10_0000, "in_attack", second);

    let found = read_buttons(mem.memory(), MODULE_BASE, MODULE_SIZE, head).expect("walk");

    assert_eq!(found.len(), 2);
    // `state` sits at +0x30 inside the node, and that is what consumers aim at.
    assert_eq!(found.get("in_attack"), Some(&0x10_0030));
    assert_eq!(found.get("in_jump"), Some(&0x20_0030));
}

#[test]
fn a_node_outside_client_dll_is_skipped() {
    let mut mem = FakeMemory::new();
    let inside = push_button(&mut mem, 0x30_0000, "in_use", 0);
    // A node living in some other module must not produce a bogus RVA.
    let stray = mem.allocate(0x90);
    let stray_name = mem.alloc_cstr("in_reload");
    mem.put_ptr(stray + 0x8, stray_name);
    mem.put_ptr(stray + 0x88, inside);

    let found = read_buttons(mem.memory(), MODULE_BASE, MODULE_SIZE, stray).expect("walk");
    assert_eq!(found.len(), 1);
    assert_eq!(found.get("in_use"), Some(&0x30_0030));
}

#[test]
fn a_cyclic_button_list_is_rejected() {
    let mut mem = FakeMemory::new();
    let first = push_button(&mut mem, 0x40_0000, "in_attack", 0);
    let second = push_button(&mut mem, 0x41_0000, "in_jump", first);
    mem.put_ptr(first + 0x88, second);

    let error = read_buttons(mem.memory(), MODULE_BASE, MODULE_SIZE, first)
        .expect_err("a cycle must not be walked forever");
    assert_eq!(error, ButtonError::Cycle(first));
}

#[test]
fn an_overlong_button_list_is_capped() {
    let mut mem = FakeMemory::new();
    let mut head = 0u64;
    for index in 0..=MAX_BUTTONS as u64 {
        head = push_button(&mut mem, 0x50_0000 + index * 0x100, "in_attack", head);
    }

    let error = read_buttons(mem.memory(), MODULE_BASE, MODULE_SIZE, head)
        .expect_err("the walk must be bounded");
    assert_eq!(error, ButtonError::TooMany);
}

// --- the signature-free scan, driven entirely off a module image --------

/// A synthetic `client.dll`: names in a read-only region, nodes and globals
/// in the writable one, matching how the real list is laid out.
const NAMES_RVA: u64 = 0x1000;
const NODES_RVA: u64 = 0x10000;
const GLOBALS_RVA: u64 = 0x18000;
const IMAGE_SIZE: u64 = 0x20000;

struct FakeImage {
    bytes: Vec<u8>,
    next_name: u64,
    next_node: u64,
}

impl FakeImage {
    fn new() -> Self {
        Self {
            bytes: vec![0u8; IMAGE_SIZE as usize],
            next_name: NAMES_RVA,
            next_node: NODES_RVA,
        }
    }

    fn put_u64(&mut self, rva: u64, value: u64) {
        self.bytes[rva as usize..][..8].copy_from_slice(&value.to_le_bytes());
    }

    fn name(&mut self, text: &str) -> u64 {
        let rva = self.next_name;
        self.bytes[rva as usize..][..text.len()].copy_from_slice(text.as_bytes());
        self.next_name += text.len() as u64 + 1;
        MODULE_BASE + rva
    }

    /// Append a `KeyButton` node named `name` and chain it to `next`.
    fn node(&mut self, name: &str, next: u64) -> u64 {
        let rva = self.next_node;
        self.next_node += 0x90;
        let name_va = self.name(name);
        self.put_u64(rva + KB_NAME, name_va);
        self.put_u64(rva + KB_NEXT, next);
        MODULE_BASE + rva
    }

    /// Build a list of `count` nodes and return the head, tail-first so the
    /// head is the node reaching every other one.
    fn list(&mut self, count: usize, prefix: &str) -> u64 {
        let mut head = 0u64;
        for index in 0..count {
            head = self.node(&format!("in_{prefix}{index}"), head);
        }
        head
    }

    /// Publish `target` through a global at `rva`, the way client.dll does.
    fn global(&mut self, rva: u64, target: u64) {
        self.put_u64(GLOBALS_RVA + rva, target);
    }

    fn find(&self) -> Option<u64> {
        // The node region is writable too: the real `next` fields live
        // there, and the scan must cope with them being candidates.
        let ranges = [(NODES_RVA, IMAGE_SIZE - NODES_RVA)];
        find_button_list_in(&self.bytes, MODULE_BASE, &ranges)
    }
}

/// The point of the scan: the global is found by describing the list, with
/// no signature over the code that touches it.
#[test]
fn finds_the_button_list_global_without_a_signature() {
    let mut image = FakeImage::new();
    let head = image.list(12, "key");
    image.global(0x40, head);

    assert_eq!(image.find(), Some(MODULE_BASE + GLOBALS_RVA + 0x40));
}

/// Every node's `next` field is a pointer in writable data, so the list's
/// own tail competes with the head. The head reaches strictly more nodes,
/// and that is what must decide it.
#[test]
fn the_head_wins_over_its_own_tail() {
    let mut image = FakeImage::new();
    let head = image.list(40, "key");
    image.global(0x40, head);

    let found = image.find().expect("the head must be resolved");
    assert_eq!(found, MODULE_BASE + GLOBALS_RVA + 0x40);
    // Sanity: the tail really was a candidate the scan had to reject.
    assert_eq!(chain_len(&image.bytes, MODULE_BASE, head), 40);
}

#[test]
fn a_module_without_a_button_list_yields_nothing() {
    assert_eq!(FakeImage::new().find(), None);
}

/// A lone plausible node is what a stray pointer into `.data` looks like,
/// so it is not enough to publish an anchor on.
#[test]
fn a_short_chain_is_not_enough_evidence() {
    let mut image = FakeImage::new();
    let head = image.list(MIN_BUTTON_CHAIN - 1, "key");
    image.global(0x40, head);

    assert_eq!(image.find(), None);
}

/// Two globals on one list are aliases and resolve to the first; two
/// *different* lists of equal length mean the scan cannot tell which one the
/// input system walks, so it declines.
#[test]
fn aliases_resolve_while_rival_lists_decline() {
    let mut aliased = FakeImage::new();
    let head = aliased.list(12, "key");
    aliased.global(0x40, head);
    aliased.global(0x400, head);
    assert_eq!(aliased.find(), Some(MODULE_BASE + GLOBALS_RVA + 0x40));

    let mut rivals = FakeImage::new();
    let first = rivals.list(12, "a");
    let second = rivals.list(12, "b");
    rivals.global(0x40, first);
    rivals.global(0x400, second);
    assert_eq!(rivals.find(), None);
}

/// A node whose name is not an `in_*` command ends the chain, so a region
/// of pointer-shaped junk cannot accumulate evidence.
#[test]
fn a_non_button_name_ends_the_chain() {
    let mut image = FakeImage::new();
    let tail = image.list(MIN_BUTTON_CHAIN, "key");
    let bogus = image.node("CBaseEntity", tail);
    let head = image.node("in_attack", bogus);
    image.global(0x40, head);

    // The head reaches one node before the junk name stops it, and the
    // surviving good chain is published instead — through the `next` field
    // of the node whose name broke the walk.
    assert_eq!(chain_len(&image.bytes, MODULE_BASE, head), 1);
    assert_eq!(chain_len(&image.bytes, MODULE_BASE, tail), MIN_BUTTON_CHAIN);
    assert_eq!(
        image.find(),
        Some(MODULE_BASE + NODES_RVA + 0x90 * MIN_BUTTON_CHAIN as u64 + KB_NEXT)
    );
}

/// A `next` pointer that closes a loop must not be counted forever.
#[test]
fn a_cyclic_chain_terminates() {
    let mut image = FakeImage::new();
    let head = image.list(12, "key");
    // The first node allocated is the list's last, so pointing it back at
    // the head closes the loop.
    image.put_u64(NODES_RVA + KB_NEXT, head);

    assert_eq!(chain_len(&image.bytes, MODULE_BASE, head), 12);
}

/// A chain longer than the walker's own limit is still counted in full.
#[test]
fn a_long_chain_is_counted_in_full() {
    let mut image = FakeImage::new();
    image.bytes = vec![0u8; 0x40000];
    let head = image.list(300, "key");
    assert_eq!(chain_len(&image.bytes, MODULE_BASE, head), 300);
}
