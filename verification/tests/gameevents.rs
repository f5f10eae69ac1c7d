use cs2_dumper::analysis::gameevents::{
    candidate_layout, detect_layout, find_manager_in, indexed_addr, plausible_name, walk,
    EventLayout, GameEventError,
};
use cs2_dumper::memory::fake::FakeMemory;

/// One event built into the fake manager: name, id, local flag, and its
/// `(field name, type id)` schema.
type SampleEvent = (&'static str, u32, bool, &'static [(&'static str, u32)]);

const SAMPLE: &[SampleEvent] = &[
    (
        "player_death",
        5,
        false,
        &[("userid", 9), ("attacker", 9), ("headshot", 6)],
    ),
    ("round_start", 6, false, &[("timelimit", 3)]),
    ("local_only", 7, true, &[]),
];

/// Build a `CGameEventManager` laid out per `layout`, including the
/// name info-vector the descriptors index into.
fn build_manager(mem: &mut FakeMemory, layout: EventLayout) -> u64 {
    build_manager_from(mem, layout, SAMPLE)
}

/// The same, over an arbitrary event list, so the anchor scan can be given
/// a manager carrying more than the walk tests need.
fn build_manager_from(
    mem: &mut FakeMemory,
    layout: EventLayout,
    events: &[SampleEvent],
) -> u64 {
    let manager = mem.allocate(0x200);
    let desc_base = mem.allocate(layout.desc_stride as usize * events.len());
    let info_base = mem.allocate(layout.info_stride as usize * events.len());

    for (index, (name, id, local, fields)) in events.iter().enumerate() {
        let name_ptr = mem.alloc_cstr(name);
        mem.put_ptr(
            info_base + layout.info_stride * index as u64 + layout.info_name,
            name_ptr,
        );

        let desc = desc_base + layout.desc_stride * index as u64;
        mem.put_u32(desc + layout.desc_id, *id);
        mem.put_u32(desc + layout.desc_name_idx, index as u32);
        mem.put_u8(desc + layout.desc_local, u8::from(*local));
        mem.put_u32(desc + layout.desc_key_count, fields.len() as u32);
        if fields.is_empty() {
            continue;
        }
        let keys_base = mem.allocate(layout.key_stride as usize * fields.len());
        mem.put_ptr(desc + layout.desc_keys_base, keys_base);
        for (slot, (field, type_id)) in fields.iter().enumerate() {
            let key = keys_base + layout.key_stride * slot as u64;
            let field_ptr = mem.alloc_cstr(field);
            let desc_ptr = mem.alloc_cstr("field help");
            mem.put_ptr(key + layout.key_name, field_ptr);
            mem.put_ptr(key + layout.key_desc, desc_ptr);
            mem.put_u32(key + layout.key_type, *type_id);
        }
    }

    mem.put_u32(manager + layout.manager_count, events.len() as u32);
    mem.put_ptr(manager + layout.manager_desc_base, desc_base);
    mem.put_u32(manager + layout.manager_info_flags, events.len() as u32);
    mem.put_ptr(manager + layout.manager_info_base, info_base);
    manager
}

#[test]
fn default_layout_preserves_event_offsets() {
    let layout = EventLayout::default();
    assert_eq!(layout.manager_count, 0x08);
    assert_eq!(layout.desc_stride, 88);
    assert_eq!(layout.key_stride, 72);
}

#[test]
fn event_names_are_sanity_checked() {
    assert!(plausible_name("player_spawn"));
    assert!(!plausible_name(""));
    assert!(!plausible_name("bad name"));
}

#[test]
fn detects_every_shipped_candidate_layout() {
    for (index, candidate) in (0..3).map(candidate_layout).enumerate() {
        let mut mem = FakeMemory::new();
        let manager = build_manager(&mut mem, candidate);
        let detected = detect_layout(mem.memory(), manager);
        assert_eq!(
            (
                detected.manager_count,
                detected.manager_desc_base,
                detected.desc_stride,
                detected.desc_local
            ),
            (
                candidate.manager_count,
                candidate.manager_desc_base,
                candidate.desc_stride,
                candidate.desc_local
            ),
            "candidate {index} was not recovered"
        );
    }
}

#[test]
fn walks_events_with_their_typed_fields() {
    let mut mem = FakeMemory::new();
    let layout = EventLayout::default();
    let manager = build_manager(&mut mem, layout);
    let global = mem.allocate(0x8);
    mem.put_ptr(global, manager);

    let events = walk(mem.memory(), global).expect("walk");

    // Sorted by name.
    let names: Vec<_> = events.iter().map(|event| event.name.as_str()).collect();
    assert_eq!(names, vec!["local_only", "player_death", "round_start"]);

    let death = &events[1];
    assert_eq!(death.id, 5);
    assert!(!death.local);
    let fields: Vec<_> = death
        .fields
        .iter()
        .map(|field| (field.name.as_str(), field.type_label))
        .collect();
    assert_eq!(
        fields,
        vec![
            ("userid", "player_controller"),
            ("attacker", "player_controller"),
            ("headshot", "bool"),
        ]
    );
    assert_eq!(death.fields[0].description, "field help");
    assert!(events[0].local);
    assert!(events[0].fields.is_empty());
}

#[test]
fn a_null_manager_global_is_an_error_not_an_empty_dump() {
    let mut mem = FakeMemory::new();
    let global = mem.allocate(0x8);
    assert_eq!(walk(mem.memory(), global).unwrap_err(), GameEventError::NullManager);
}

/// Base VA of the synthetic client image, away from where [`FakeMemory`]
/// hands out object addresses.
const BASE: u64 = 0x0000_7FFA_3000_0000;
const DATA_RVA: u64 = 0x1000;
const DATA_SIZE: u64 = 0x2000;

/// Enough registered events to clear the evidence floor, which a
/// half-initialised manager would not.
const REGISTERED: &[SampleEvent] = &[
    ("player_death", 5, false, &[("userid", 9)]),
    ("player_spawn", 6, false, &[]),
    ("round_start", 7, false, &[("timelimit", 3)]),
    ("round_end", 8, false, &[]),
    ("bomb_planted", 9, false, &[("site", 3)]),
    ("bomb_defused", 10, false, &[]),
];

fn image() -> Vec<u8> {
    vec![0u8; (DATA_RVA + DATA_SIZE) as usize]
}

fn ranges() -> Vec<(u64, u64)> {
    vec![(DATA_RVA, DATA_SIZE)]
}

/// Publish `target` through a global at `rva`, the way client.dll does.
fn place(image: &mut [u8], rva: u64, target: u64) {
    image[rva as usize..][..8].copy_from_slice(&target.to_le_bytes());
}

/// The point of the scan: `g_pGameEventManager` is located by describing the
/// manager, with no signature over the code that touches it.
#[test]
fn finds_the_event_manager_global_without_a_signature() {
    let mut mem = FakeMemory::new();
    let manager = build_manager_from(&mut mem, EventLayout::default(), REGISTERED);
    let mut image = image();
    place(&mut image, DATA_RVA + 0x400, manager);

    assert_eq!(
        find_manager_in(mem.memory(), &image, BASE, &ranges()),
        Some(BASE + DATA_RVA + 0x400)
    );
}

/// The geometry is not assumed either: a build that moved the descriptor or
/// info vectors is still recognised, because the scan scores the same
/// candidates the walker decodes with.
#[test]
fn gameevents_every_shipped_layout_is_recognised_by_the_scan() {
    for (index, candidate) in (0..3).map(candidate_layout).enumerate() {
        let mut mem = FakeMemory::new();
        let manager = build_manager_from(&mut mem, candidate, REGISTERED);
        let mut image = image();
        place(&mut image, DATA_RVA + 0x400, manager);

        assert_eq!(
            find_manager_in(mem.memory(), &image, BASE, &ranges()),
            Some(BASE + DATA_RVA + 0x400),
            "candidate {index} was not recognised"
        );
    }
}

#[test]
fn a_module_without_an_event_manager_yields_nothing() {
    let mem = FakeMemory::new();
    assert_eq!(find_manager_in(mem.memory(), &image(), BASE, &ranges()), None);
}

/// A manager with a couple of named events is what one looks like before
/// the `.gameevents` files are parsed, so it is below the evidence floor.
#[test]
fn a_barely_populated_manager_is_not_enough_evidence() {
    let mut mem = FakeMemory::new();
    let manager = build_manager_from(&mut mem, EventLayout::default(), &REGISTERED[..3]);
    let mut image = image();
    place(&mut image, DATA_RVA + 0x400, manager);

    assert_eq!(find_manager_in(mem.memory(), &image, BASE, &ranges()), None);
}

/// Two globals reaching *different* managers mean the scan cannot tell which
/// one the game raises events through, so it declines. Aliases of one
/// manager are not a contradiction and resolve to the first global.
#[test]
fn rival_managers_decline_while_aliases_resolve() {
    let mut mem = FakeMemory::new();
    let layout = EventLayout::default();
    let first = build_manager_from(&mut mem, layout, REGISTERED);
    let second = build_manager_from(&mut mem, layout, REGISTERED);

    let mut rivals = image();
    place(&mut rivals, DATA_RVA + 0x400, first);
    place(&mut rivals, DATA_RVA + 0x1200, second);
    assert_eq!(find_manager_in(mem.memory(), &rivals, BASE, &ranges()), None);

    let mut aliases = image();
    place(&mut aliases, DATA_RVA + 0x400, first);
    place(&mut aliases, DATA_RVA + 0x1200, first);
    assert_eq!(
        find_manager_in(mem.memory(), &aliases, BASE, &ranges()),
        Some(BASE + DATA_RVA + 0x400)
    );
}

#[test]
fn an_implausible_event_count_is_an_error() {
    let mut mem = FakeMemory::new();
    let layout = EventLayout::default();
    let manager = build_manager(&mut mem, layout);
    mem.put_u32(manager + layout.manager_count, 4097);
    let global = mem.allocate(0x8);
    mem.put_ptr(global, manager);
    assert_eq!(walk(mem.memory(), global).unwrap_err(), GameEventError::Unpopulated(4097));
}

#[test]
fn an_element_address_does_not_wrap() {
    assert_eq!(indexed_addr(0x1000, 88, 2, 4), Some(0x1000 + 176 + 4));
    assert_eq!(indexed_addr(u64::MAX, 1, 1, 0), None);
    assert_eq!(indexed_addr(0, u64::MAX, 2, 0), None);
    assert_eq!(indexed_addr(u64::MAX - 1, 1, 1, 1), None);
}
