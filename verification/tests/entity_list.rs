use cs2_dumper::analysis::entity_list::{
    candidate_layout, detect_layout, live_entities, plausible_name, EntityListLayout,
};
use cs2_dumper::memory::fake::FakeMemory;

/// Build a `CGameEntitySystem`-shaped object using `layout`, with
/// `per_chunk` live identities in each of `chunks` chunks.
fn build_list(
    mem: &mut FakeMemory,
    layout: EntityListLayout,
    chunks: usize,
    per_chunk: usize,
) -> u64 {
    let list = mem.allocate(0x100);
    for chunk_index in 0..chunks as u64 {
        let chunk = mem.allocate(layout.chunk_entry_stride as usize * 64);
        mem.put_ptr(
            list + layout.chunk_array_base + layout.chunk_ptr_stride * chunk_index,
            chunk,
        );
        for slot in 0..per_chunk as u64 {
            let ident = chunk + layout.chunk_entry_stride * slot;
            let instance = mem.allocate(0x10);
            let name = mem.alloc_cstr("weapon_ak47");
            mem.put_ptr(ident + layout.identity_instance, instance);
            mem.put_ptr(ident + layout.identity_designer_name, name);
        }
    }
    list
}

fn same_layout(a: EntityListLayout, b: EntityListLayout) -> bool {
    a.chunk_array_base == b.chunk_array_base
        && a.chunk_ptr_stride == b.chunk_ptr_stride
        && a.chunk_entry_stride == b.chunk_entry_stride
        && a.identity_instance == b.identity_instance
        && a.identity_designer_name == b.identity_designer_name
}

#[test]
fn rejects_pointer_like_entity_names() {
    assert!(plausible_name("weapon_ak47"));
    assert!(plausible_name("worldent"));
    assert!(!plausible_name(""));
    assert!(!plausible_name("bad\0name"));
}

/// The point of the probe: a build that moved the chunk array or widened
/// the identity stride is detected from live data, not from a constant.
#[test]
fn detects_every_shipped_candidate_layout_from_live_data() {
    for (index, candidate) in (0..7).map(candidate_layout).enumerate() {
        let mut mem = FakeMemory::new();
        let list = build_list(&mut mem, candidate, 2, 8);
        let detected = detect_layout(mem.memory(), list);
        assert!(
            same_layout(detected, candidate),
            "candidate {index} ({candidate:?}) was not recovered, got {detected:?}"
        );
    }
}

#[test]
fn falls_back_to_the_compatible_layout_without_enough_evidence() {
    let mut mem = FakeMemory::new();
    // A single live identity is below the two-hit confidence floor.
    let moved = candidate_layout(1);
    let list = build_list(&mut mem, moved, 1, 1);
    assert!(same_layout(
        detect_layout(mem.memory(), list),
        EntityListLayout::default()
    ));
}

#[test]
fn an_unreadable_list_pointer_does_not_panic_or_invent_a_layout() {
    let mem = FakeMemory::new();
    assert!(same_layout(
        detect_layout(mem.memory(), 0),
        EntityListLayout::default()
    ));
    assert!(same_layout(
        detect_layout(mem.memory(), 0x7FF6_DEAD_0000),
        EntityListLayout::default()
    ));
}

#[test]
fn entities_come_in_index_order_with_their_chunks() {
    let mut mem = FakeMemory::new();
    let layout = EntityListLayout::default();
    let list = build_list(&mut mem, layout, 2, 3);
    let entities = live_entities(mem.memory(), list, layout);
    let indices: Vec<u32> = entities.iter().map(|entity| entity.index).collect();
    assert_eq!(indices, [0, 1, 2, 512, 513, 514]);
    assert!(entities.iter().all(|entity| entity.classname == "weapon_ak47"));
}

/// A chunk whose slot leaves the address space holds nothing.
#[test]
fn a_list_at_the_end_of_the_address_space_has_no_entities() {
    let mem = FakeMemory::new();
    assert!(live_entities(mem.memory(), u64::MAX - 0x20, EntityListLayout::default()).is_empty());
}
