use cs2_dumper::analysis::entity_anchor::find_entity_system;
use cs2_dumper::analysis::entity_list::{self, EntityListLayout};
use cs2_dumper::memory::fake::FakeMemory;

/// Live identities that the scan demands.
const MIN_EVIDENCE: usize = 8;

/// Base VA of the synthetic module image, well away from where
/// [`FakeMemory`] hands out object addresses.
const BASE: u64 = 0x0000_7FFA_1000_0000;
/// RVA and size of its writable data section.
const DATA_RVA: u64 = 0x1000;
const DATA_SIZE: u64 = 0x2000;

fn image() -> Vec<u8> {
    vec![0u8; (DATA_RVA + DATA_SIZE) as usize]
}

fn ranges() -> Vec<(u64, u64)> {
    vec![(DATA_RVA, DATA_SIZE)]
}

/// Publish `target` through a global at `rva`, the way the game does.
fn place(image: &mut [u8], rva: u64, target: u64) {
    image[rva as usize..][..8].copy_from_slice(&target.to_le_bytes());
}

/// A `CGameEntitySystem`-shaped object using `layout`, with `live` live
/// identities in chunk 0.
fn list(mem: &mut FakeMemory, layout: EntityListLayout, live: usize) -> u64 {
    let list = mem.allocate(0x100);
    let chunk = mem.allocate(layout.chunk_entry_stride as usize * 64);
    mem.put_ptr(list + layout.chunk_array_base, chunk);
    for slot in 0..live as u64 {
        let identity = chunk + layout.chunk_entry_stride * slot;
        let instance = mem.allocate(0x10);
        let name = mem.alloc_cstr("weapon_ak47");
        mem.put_ptr(identity + layout.identity_instance, instance);
        mem.put_ptr(identity + layout.identity_designer_name, name);
    }
    list
}

/// The point of the scan: the global is located by describing the object it
/// points at, with no signature over the code that touches it.
#[test]
fn finds_the_entity_system_global_without_a_signature() {
    let mut mem = FakeMemory::new();
    let list = list(&mut mem, EntityListLayout::default(), MIN_EVIDENCE);
    let mut image = image();
    place(&mut image, DATA_RVA + 0x400, list);

    assert_eq!(
        find_entity_system(mem.memory(), &image, BASE, &ranges()),
        Some(BASE + DATA_RVA + 0x400)
    );
}

/// The geometry is not assumed either: a build that moved the chunk array
/// or widened the identity stride is still recognised.
#[test]
fn entity_anchor_every_shipped_layout_is_recognised_by_the_scan() {
    for (index, layout) in (0..7).map(entity_list::candidate_layout).enumerate() {
        let mut mem = FakeMemory::new();
        let list = list(&mut mem, layout, MIN_EVIDENCE);
        let mut image = image();
        place(&mut image, DATA_RVA + 0x400, list);

        assert_eq!(
            find_entity_system(mem.memory(), &image, BASE, &ranges()),
            Some(BASE + DATA_RVA + 0x400),
            "layout {index} ({layout:?}) was not recognised"
        );
    }
}

#[test]
fn a_module_without_an_entity_system_yields_nothing() {
    let mem = FakeMemory::new();
    assert_eq!(
        find_entity_system(mem.memory(), &image(), BASE, &ranges()),
        None
    );
}

/// A handful of live identities is what a torn-down or not-yet-populated
/// object looks like too, so it is not enough to publish an anchor on.
#[test]
fn a_nearly_empty_list_is_not_enough_evidence() {
    let mut mem = FakeMemory::new();
    let list = list(&mut mem, EntityListLayout::default(), MIN_EVIDENCE - 1);
    let mut image = image();
    place(&mut image, DATA_RVA + 0x400, list);

    assert_eq!(find_entity_system(mem.memory(), &image, BASE, &ranges()), None);
}

/// The game publishes the entity system through more than one pointer.
/// Those are aliases of one object, not a contradiction, so the scan still
/// resolves it — and reports the first global, which is stable across runs.
#[test]
fn aliases_of_one_entity_system_still_resolve() {
    let mut mem = FakeMemory::new();
    let list = list(&mut mem, EntityListLayout::default(), MIN_EVIDENCE);
    let mut image = image();
    place(&mut image, DATA_RVA + 0x400, list);
    place(&mut image, DATA_RVA + 0x1200, list);

    assert_eq!(
        find_entity_system(mem.memory(), &image, BASE, &ranges()),
        Some(BASE + DATA_RVA + 0x400)
    );
}

/// Two globals reaching *different* objects mean the scan does not actually
/// know which one the game walks, and a wrong entity list dumps confident
/// nonsense, so it must decline.
#[test]
fn two_unrelated_entity_systems_are_declined_rather_than_guessed() {
    let mut mem = FakeMemory::new();
    let first = list(&mut mem, EntityListLayout::default(), MIN_EVIDENCE);
    let second = list(&mut mem, EntityListLayout::default(), MIN_EVIDENCE);
    let mut image = image();
    place(&mut image, DATA_RVA + 0x400, first);
    place(&mut image, DATA_RVA + 0x1200, second);

    assert_eq!(find_entity_system(mem.memory(), &image, BASE, &ranges()), None);
}

/// Stronger evidence wins outright, and settles an earlier tie rather than
/// inheriting it: the object accounting for more live entities is the one
/// the game walks.
#[test]
fn the_global_reaching_the_most_entities_wins() {
    let mut mem = FakeMemory::new();
    let weak_a = list(&mut mem, EntityListLayout::default(), MIN_EVIDENCE);
    let weak_b = list(&mut mem, EntityListLayout::default(), MIN_EVIDENCE);
    let strong = list(&mut mem, EntityListLayout::default(), MIN_EVIDENCE + 4);
    let mut image = image();
    place(&mut image, DATA_RVA + 0x400, weak_a);
    place(&mut image, DATA_RVA + 0x800, weak_b);
    place(&mut image, DATA_RVA + 0xC00, strong);

    assert_eq!(
        find_entity_system(mem.memory(), &image, BASE, &ranges()),
        Some(BASE + DATA_RVA + 0xC00)
    );
}

/// A pointer back into the scanned module is some other global; the entity
/// system is heap-allocated, so following those would only cost reads.
#[test]
fn pointers_into_the_module_itself_are_not_followed() {
    let mut mem = FakeMemory::new();
    let list = list(&mut mem, EntityListLayout::default(), MIN_EVIDENCE);
    let mut image = image();
    // A self-referential slot, then the real global. The first must not
    // consume the probe budget or the result.
    place(&mut image, DATA_RVA + 0x400, BASE + DATA_RVA);
    place(&mut image, DATA_RVA + 0x800, list);

    assert_eq!(
        find_entity_system(mem.memory(), &image, BASE, &ranges()),
        Some(BASE + DATA_RVA + 0x800)
    );
}

/// Sections are described by the caller; a range past the end of the image
/// is clipped instead of panicking.
#[test]
fn entity_anchor_a_range_beyond_the_image_is_clipped() {
    let mut mem = FakeMemory::new();
    let list = list(&mut mem, EntityListLayout::default(), MIN_EVIDENCE);
    let mut image = image();
    place(&mut image, DATA_RVA + 0x400, list);

    let oversized = vec![(DATA_RVA, DATA_SIZE * 16)];
    assert_eq!(
        find_entity_system(mem.memory(), &image, BASE, &oversized),
        Some(BASE + DATA_RVA + 0x400)
    );
}
