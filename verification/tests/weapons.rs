use std::collections::BTreeMap;

use cs2_dumper::analysis::entity_list::{EntityListLayout, HANDLE_INDEX_MASK, SLOT_INDEX_MASK};
use cs2_dumper::analysis::schemas::{Class, ClassField, SchemaMap};
use cs2_dumper::analysis::weapons::{
    read_weapon, select_vdata_offset, vdata_offset, walk, weapon_offsets, WeaponError,
};
use cs2_dumper::memory::fake::FakeMemory;

/// Builds a list incrementally so a test can place identities at arbitrary
/// entity indices, including indices that land in a later chunk.
struct ListBuilder {
    layout: EntityListLayout,
    list: u64,
    chunks: BTreeMap<u32, u64>,
}

impl ListBuilder {
    fn new(mem: &mut FakeMemory) -> Self {
        Self {
            layout: EntityListLayout::default(),
            list: mem.allocate(0x400),
            chunks: BTreeMap::new(),
        }
    }

    /// Reserve chunk `chunk_index`, publishing its pointer in the chunk
    /// array the way the game does.
    fn chunk(&mut self, mem: &mut FakeMemory, chunk_index: u32) -> u64 {
        if let Some(chunk) = self.chunks.get(&chunk_index) {
            return *chunk;
        }
        let slots = SLOT_INDEX_MASK as usize + 1;
        let chunk = mem.allocate(self.layout.chunk_entry_stride as usize * slots);
        mem.put_ptr(
            self.list
                + self.layout.chunk_array_base
                + self.layout.chunk_ptr_stride * chunk_index as u64,
            chunk,
        );
        self.chunks.insert(chunk_index, chunk);
        chunk
    }

    /// VA of the `CEntityIdentity` slot entity `index` lives in.
    fn identity(&mut self, mem: &mut FakeMemory, index: u32) -> u64 {
        let i = index & HANDLE_INDEX_MASK;
        let chunk = self.chunk(mem, i >> 9);
        chunk + self.layout.chunk_entry_stride * (i & SLOT_INDEX_MASK) as u64
    }

    /// Place a live identity at `index` and return its instance VA, which is
    /// where a walker decodes schema fields from.
    fn place(&mut self, mem: &mut FakeMemory, index: u32, classname: &str) -> u64 {
        let ident = self.identity(mem, index);
        let instance = mem.allocate(0x600);
        let name = mem.alloc_cstr(classname);
        mem.put_ptr(ident + self.layout.identity_instance, instance);
        mem.put_ptr(ident + self.layout.identity_designer_name, name);
        instance
    }

    /// VA of the list object itself, which is what a global points at.
    fn list(&self) -> u64 {
        self.list
    }

    /// Publish the list through a global pointer, the way a walk finds it.
    fn global(&self, mem: &mut FakeMemory) -> u64 {
        let global = mem.allocate(0x8);
        mem.put_ptr(global, self.list());
        global
    }
}

fn schema_map(classes: Vec<Class>) -> SchemaMap {
    let mut map = SchemaMap::new();
    map.insert("client.dll".to_string(), (classes, Vec::new()));
    map
}

/// A compact stand-in `CCSWeaponBaseVData` layout. Only the relative
/// positions matter — the walk reads whatever the schema says.
const FIELDS: &[(&str, u64)] = &[
    ("m_nPrice", 0x20),
    ("m_nNumBullets", 0x24),
    ("m_flCycleTime", 0x28),
    ("m_flMaxSpeed", 0x2C),
    ("m_flSpread", 0x30),
    ("m_flInaccuracyStand", 0x34),
    ("m_flInaccuracyMove", 0x38),
    ("m_flRecoilMagnitude", 0x3C),
    ("m_nDamage", 0x40),
    ("m_flHeadshotMultiplier", 0x44),
    ("m_flArmorRatio", 0x48),
    ("m_flPenetration", 0x4C),
    ("m_flRange", 0x50),
    ("m_flRangeModifier", 0x54),
];

fn offset_of(name: &str) -> u64 {
    FIELDS
        .iter()
        .find(|(field, _)| *field == name)
        .map(|(_, offset)| *offset)
        .expect("unknown test field")
}

fn schemas() -> SchemaMap {
    let fields = FIELDS
        .iter()
        .map(|(name, offset)| ClassField {
            name: name.to_string(),
            field_type: "float32".to_string(),
            offset: *offset as i32,
            metadata: Vec::new(),
        })
        .collect();
    schema_map(vec![Class {
                name: "CCSWeaponBaseVData".to_string(),
                module_name: "client.dll".to_string(),
                parent_name: None,
                size: 0x80,
                alignment: 8,
                metadata: Vec::new(),
                fields,
                static_fields: Vec::new(),
                flags: Vec::new(),
            }])
}

/// Lay down a `CCSWeaponBaseVData` with the values given and
/// recognisable stand-ins for everything else.
fn alloc_vdata(mem: &mut FakeMemory, damage: i32, price: i32, penetration: f32) -> u64 {
    let vdata = mem.allocate(0x80);
    mem.put_i32(vdata + offset_of("m_nPrice"), price);
    mem.put_i32(vdata + offset_of("m_nNumBullets"), 1);
    mem.put_u32(vdata + offset_of("m_flCycleTime"), (0.1 as f32).to_bits());
    mem.put_u32(vdata + offset_of("m_flMaxSpeed"), (215.0 as f32).to_bits());
    mem.put_u32(vdata + offset_of("m_flSpread"), (0.25 as f32).to_bits());
    mem.put_u32(vdata + offset_of("m_flInaccuracyStand"), (6.5 as f32).to_bits());
    mem.put_u32(vdata + offset_of("m_flInaccuracyMove"), (140.0 as f32).to_bits());
    mem.put_u32(vdata + offset_of("m_flRecoilMagnitude"), (30.0 as f32).to_bits());
    mem.put_i32(vdata + offset_of("m_nDamage"), damage);
    mem.put_u32(vdata + offset_of("m_flHeadshotMultiplier"), (4.0 as f32).to_bits());
    mem.put_u32(vdata + offset_of("m_flArmorRatio"), (1.55 as f32).to_bits());
    mem.put_u32(vdata + offset_of("m_flPenetration"), (penetration as f32).to_bits());
    mem.put_u32(vdata + offset_of("m_flRange"), (8192.0 as f32).to_bits());
    mem.put_u32(vdata + offset_of("m_flRangeModifier"), (0.98 as f32).to_bits());
    vdata
}

/// Spawn a weapon entity at `index` whose vdata pointer lives at
/// `vdata_ptr_offset`, and return the vdata VA.
fn spawn_weapon(
    mem: &mut FakeMemory,
    list: &mut ListBuilder,
    index: u32,
    name: &str,
    vdata_ptr_offset: u64,
    damage: i32,
) -> u64 {
    let entity = list.place(mem, index, name);
    let vdata = alloc_vdata(mem, damage, 2700, 1.75);
    mem.put_ptr(entity + vdata_ptr_offset, vdata);
    vdata
}

#[test]
fn the_test_layout_covers_every_field_the_walk_requires() {
    assert!(
        weapon_offsets(&schemas()).is_some(),
        "the fixture must describe all CCSWeaponBaseVData fields"
    );
    assert!(weapon_offsets(&SchemaMap::new()).is_none());
}

#[test]
fn reads_gameplay_values_for_every_spawned_weapon() {
    let mut mem = FakeMemory::new();
    let mut list = ListBuilder::new(&mut mem);
    let ak = spawn_weapon(&mut mem, &mut list, 12, "weapon_ak47", 0x340, 36);
    spawn_weapon(&mut mem, &mut list, 640, "weapon_deagle", 0x340, 63);
    // Non-weapon entities in the same list must be ignored.
    list.place(&mut mem, 13, "cs_player_controller");

    let global = list.global(&mut mem);
    let found = walk(mem.memory(), global, &schemas()).expect("walk");

    let names: Vec<_> = found.iter().map(|w| w.name.as_str()).collect();
    assert_eq!(names, vec!["weapon_ak47", "weapon_deagle"]);

    let entry = &found[0];
    assert_eq!(entry.damage, 36);
    assert_eq!(entry.price, 2700);
    assert_eq!(f32::from_bits(entry.penetration), 1.75);
    assert_eq!(f32::from_bits(entry.headshot_multiplier), 4.0);
    assert_eq!(f32::from_bits(entry.range), 8192.0);
    assert_eq!(f32::from_bits(entry.cycle_time), 0.1);
    assert_eq!(entry.num_bullets, 1);
    assert_eq!(entry.address, ak, "the vdata VA is reported as found");
    assert_eq!(entry.vdata_ptr_offset, 0x340);
}

#[test]
fn the_same_weapon_spawned_twice_is_reported_once() {
    let mut mem = FakeMemory::new();
    let mut list = ListBuilder::new(&mut mem);
    spawn_weapon(&mut mem, &mut list, 20, "weapon_ak47", 0x340, 36);
    spawn_weapon(&mut mem, &mut list, 21, "weapon_ak47", 0x340, 36);

    let global = list.global(&mut mem);
    let found = walk(mem.memory(), global, &schemas()).expect("walk");
    assert_eq!(found.len(), 1);
}

/// The whole point of the candidate list: a build that moved the vdata
/// pointer is followed from live evidence rather than a hardcoded offset.
#[test]
fn a_moved_vdata_pointer_is_recovered_from_every_candidate_offset() {
    for candidate in (0..6).map(vdata_offset) {
        let mut mem = FakeMemory::new();
        let mut list = ListBuilder::new(&mut mem);
        spawn_weapon(&mut mem, &mut list, 30, "weapon_ak47", candidate, 36);
        let global = list.global(&mut mem);

        let found = walk(mem.memory(), global, &schemas()).expect("walk");
        assert_eq!(found.len(), 1, "candidate {candidate:#X} was not followed");
        assert_eq!(found[0].vdata_ptr_offset, candidate);
        assert_eq!(found[0].damage, 36);
    }
}

#[test]
fn the_offset_that_validates_for_the_most_weapons_wins() {
    let mut mem = FakeMemory::new();
    let mut list = ListBuilder::new(&mut mem);
    // Three weapons agree on 0x388.
    for (slot, name) in ["weapon_ak47", "weapon_awp", "weapon_glock"]
        .into_iter()
        .enumerate()
    {
        spawn_weapon(&mut mem, &mut list, 40 + slot as u32, name, 0x388, 36);
    }
    // A fourth also has a plausible-looking pointer at the first candidate
    // offset, which a first-wins scan would have preferred.
    let decoy_entity = list.place(&mut mem, 50, "weapon_deagle");
    let decoy = alloc_vdata(&mut mem, 999, 100, 0.5);
    let real = alloc_vdata(&mut mem, 63, 700, 2.0);
    mem.put_ptr(decoy_entity + 0x340, decoy);
    mem.put_ptr(decoy_entity + 0x388, real);

    let global = list.global(&mut mem);
    let found = walk(mem.memory(), global, &schemas()).expect("walk");

    assert_eq!(found.len(), 4);
    assert!(
        found.iter().all(|w| w.vdata_ptr_offset == 0x388),
        "consensus must override the candidate ordering: {:?}",
        found.iter().map(|w| w.vdata_ptr_offset).collect::<Vec<_>>()
    );
    let deagle = found.iter().find(|w| w.name == "weapon_deagle").unwrap();
    assert_eq!(deagle.damage, 63, "the decoy vdata must not be reported");
    assert_eq!(deagle.address, real);
}

#[test]
fn an_entity_whose_vdata_fails_the_gates_is_dropped() {
    let mut mem = FakeMemory::new();
    let mut list = ListBuilder::new(&mut mem);
    let entity = list.place(&mut mem, 60, "weapon_knife");
    // Damage far outside any real weapon's range: this is pointer garbage,
    // not gameplay data, and must not be emitted.
    let junk = alloc_vdata(&mut mem, 50_000, 2700, 1.75);
    mem.put_ptr(entity + 0x340, junk);

    let global = list.global(&mut mem);
    assert!(walk(mem.memory(), global, &schemas()).expect("walk").is_empty());
}

#[test]
fn no_weapons_means_no_preferred_offset_rather_than_a_guess() {
    let mem = FakeMemory::new();
    let offsets = weapon_offsets(&schemas()).expect("offsets");
    assert_eq!(select_vdata_offset(mem.memory(), &Vec::new(), &offsets), None);
}

#[test]
fn a_null_entity_system_global_is_an_error_not_an_empty_table() {
    let mut mem = FakeMemory::new();
    let global = mem.allocate(0x8);
    assert_eq!(walk(mem.memory(), global, &schemas()).unwrap_err(), WeaponError::NullSystem);
}

#[test]
fn a_schema_without_the_vdata_class_is_an_error() {
    let mut mem = FakeMemory::new();
    let mut list = ListBuilder::new(&mut mem);
    spawn_weapon(&mut mem, &mut list, 70, "weapon_ak47", 0x340, 36);
    let global = list.global(&mut mem);

    let error = walk(mem.memory(), global, &SchemaMap::new())
        .expect_err("missing schema fields must not silently emit nothing");
    assert_eq!(error, WeaponError::FieldsMissing);
}

#[test]
fn a_weapon_is_read_through_the_preferred_offset_first() {
    let mut mem = FakeMemory::new();
    let mut list = ListBuilder::new(&mut mem);
    let entity = list.place(&mut mem, 80, "weapon_awp");
    let first = alloc_vdata(&mut mem, 36, 2700, 1.75);
    let second = alloc_vdata(&mut mem, 115, 4750, 2.5);
    mem.put_ptr(entity + 0x340, first);
    mem.put_ptr(entity + 0x388, second);
    let offsets = weapon_offsets(&schemas()).expect("offsets");
    let weapon = read_weapon(mem.memory(), "weapon_awp", entity, &offsets, Some(0x388)).unwrap();
    assert_eq!(weapon.damage, 115);
    assert_eq!(weapon.vdata_ptr_offset, 0x388);
    let weapon = read_weapon(mem.memory(), "weapon_awp", entity, &offsets, None).unwrap();
    assert_eq!(weapon.damage, 36);
    assert!(read_weapon(mem.memory(), "weapon_awp", first, &offsets, None).is_none());
}
