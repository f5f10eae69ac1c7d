use std::collections::BTreeMap;

use cs2_dumper::analysis::entities::{walk, EntityError};
use cs2_dumper::analysis::entity_list::{EntityListLayout, HANDLE_INDEX_MASK, SLOT_INDEX_MASK};
use cs2_dumper::analysis::schemas::{Class, ClassField, SchemaMap};
use cs2_dumper::memory::fake::FakeMemory;

/// Builds a list incrementally so a test can place identities at arbitrary
/// entity indices, including indices that land in a later chunk.
struct ListBuilder {
    layout: EntityListLayout,
    list: u64,
    chunks: BTreeMap<u32, u64>,
}

impl ListBuilder {
    fn new(mem: &mut FakeMemory) -> Self {
        Self {
            layout: EntityListLayout::default(),
            list: mem.allocate(0x400),
            chunks: BTreeMap::new(),
        }
    }

    /// Reserve chunk `chunk_index`, publishing its pointer in the chunk
    /// array the way the game does.
    fn chunk(&mut self, mem: &mut FakeMemory, chunk_index: u32) -> u64 {
        if let Some(chunk) = self.chunks.get(&chunk_index) {
            return *chunk;
        }
        let slots = SLOT_INDEX_MASK as usize + 1;
        let chunk = mem.allocate(self.layout.chunk_entry_stride as usize * slots);
        mem.put_ptr(
            self.list
                + self.layout.chunk_array_base
                + self.layout.chunk_ptr_stride * chunk_index as u64,
            chunk,
        );
        self.chunks.insert(chunk_index, chunk);
        chunk
    }

    /// VA of the `CEntityIdentity` slot entity `index` lives in.
    fn identity(&mut self, mem: &mut FakeMemory, index: u32) -> u64 {
        let i = index & HANDLE_INDEX_MASK;
        let chunk = self.chunk(mem, i >> 9);
        chunk + self.layout.chunk_entry_stride * (i & SLOT_INDEX_MASK) as u64
    }

    /// Place a live identity at `index` and return its instance VA, which is
    /// where a walker decodes schema fields from.
    fn place(&mut self, mem: &mut FakeMemory, index: u32, classname: &str) -> u64 {
        let ident = self.identity(mem, index);
        let instance = mem.allocate(0x600);
        let name = mem.alloc_cstr(classname);
        mem.put_ptr(ident + self.layout.identity_instance, instance);
        mem.put_ptr(ident + self.layout.identity_designer_name, name);
        instance
    }

    /// VA of the list object itself, which is what a global points at.
    fn list(&self) -> u64 {
        self.list
    }

    /// Publish the list through a global pointer, the way a walk finds it.
    fn global(&self, mem: &mut FakeMemory) -> u64 {
        let global = mem.allocate(0x8);
        mem.put_ptr(global, self.list());
        global
    }
}

fn schema_map(classes: Vec<Class>) -> SchemaMap {
    let mut map = SchemaMap::new();
    map.insert("client.dll".to_string(), (classes, Vec::new()));
    map
}

const OFF_SCENE_NODE: i32 = 0x0328;
const OFF_MAX_HEALTH: i32 = 0x0334;
const OFF_HEALTH: i32 = 0x0338;
const OFF_TEAM: i32 = 0x03E3;
const OFF_ORIGIN: i32 = 0x00D0;

fn field(name: &str, offset: i32) -> ClassField {
    ClassField {
        name: name.to_string(),
        field_type: "int32".to_string(),
        offset,
        metadata: Vec::new(),
    }
}

fn class(name: &str, fields: Vec<ClassField>) -> Class {
    Class {
        name: name.to_string(),
        module_name: "client.dll".into(),
        parent_name: None,
        size: 0x1000,
        alignment: 8,
        metadata: Vec::new(),
        fields,
        static_fields: Vec::new(),
        flags: Vec::new(),
    }
}

/// A schema map holding only the fields the snapshot walk looks up.
fn schemas() -> SchemaMap {
    schema_map(vec![
                class(
                    "C_BaseEntity",
                    vec![
                        field("m_pGameSceneNode", OFF_SCENE_NODE),
                        field("m_iMaxHealth", OFF_MAX_HEALTH),
                        field("m_iHealth", OFF_HEALTH),
                        field("m_iTeamNum", OFF_TEAM),
                    ],
                ),
                class("CGameSceneNode", vec![field("m_vecAbsOrigin", OFF_ORIGIN)]),
            ])
}

/// Give `instance` a `CGameSceneNode` whose absolute origin is `origin`.
fn attach_scene_node(mem: &mut FakeMemory, instance: u64, origin: [f32; 3]) {
    let node = mem.allocate(0x200);
    mem.put_ptr(instance + OFF_SCENE_NODE as u64, node);
    for (axis, value) in origin.iter().enumerate() {
        mem.put_u32(node + OFF_ORIGIN as u64 + axis as u64 * 4, (*value as f32).to_bits());
    }
}

#[test]
fn snapshots_every_live_entity_with_its_schema_fields() {
    let mut mem = FakeMemory::new();
    let mut list = ListBuilder::new(&mut mem);

    let player = list.place(&mut mem, 1, "cs_player_controller");
    mem.put_i32(player + OFF_HEALTH as u64, 87);
    mem.put_i32(player + OFF_MAX_HEALTH as u64, 100);
    mem.put_u8(player + OFF_TEAM as u64, 3);
    attach_scene_node(&mut mem, player, [1.5, -2.0, 64.25]);

    // A late index proves the chunk arithmetic: 600 >> 9 == chunk 1,
    // 600 & 0x1FF == slot 88.
    let world = list.place(&mut mem, 600, "worldent");
    mem.put_i32(world + OFF_HEALTH as u64, 0);
    mem.put_u8(world + OFF_TEAM as u64, 0);

    let global = list.global(&mut mem);
    let found = walk(mem.memory(), global, &schemas()).expect("walk");

    let seen: Vec<_> = found
        .iter()
        .map(|entry| (entry.index, entry.classname.as_str()))
        .collect();
    assert_eq!(seen, vec![(1, "cs_player_controller"), (600, "worldent")]);

    let entry = &found[0];
    assert_eq!(entry.health, Some(87));
    assert_eq!(entry.max_health, Some(100));
    assert_eq!(entry.team, Some(3));
    assert_eq!(entry.origin.map(|bits| bits.map(f32::from_bits)), Some([1.5, -2.0, 64.25]));

    // The world entity has no scene node, so no origin is invented for it.
    assert_eq!(found[1].origin, None);
}

#[test]
fn out_of_range_field_values_are_dropped_rather_than_emitted() {
    let mut mem = FakeMemory::new();
    let mut list = ListBuilder::new(&mut mem);

    // A logic entity that happens to have pointer bytes where a player
    // would have health, team and a scene node.
    let logic = list.place(&mut mem, 2, "logic_relay");
    mem.put_i32(logic + OFF_HEALTH as u64, i32::MAX);
    mem.put_i32(logic + OFF_MAX_HEALTH as u64, -5);
    mem.put_u8(logic + OFF_TEAM as u64, 9);
    attach_scene_node(&mut mem, logic, [f32::NAN, 0.0, 0.0]);

    let far = list.place(&mut mem, 3, "prop_physics");
    attach_scene_node(&mut mem, far, [2_000_000.0, 0.0, 0.0]);

    let global = list.global(&mut mem);
    let found = walk(mem.memory(), global, &schemas()).expect("walk");

    assert_eq!(found.len(), 2);
    assert_eq!(found[0].classname, "logic_relay");
    assert_eq!(found[0].health, None);
    assert_eq!(found[0].max_health, None);
    assert_eq!(found[0].team, None);
    assert_eq!(found[0].origin, None, "a NaN coordinate must be rejected");
    assert_eq!(
        found[1].origin, None,
        "a coordinate outside the world bounds must be rejected"
    );
}

#[test]
fn an_identity_without_a_designer_name_is_skipped() {
    let mut mem = FakeMemory::new();
    let mut list = ListBuilder::new(&mut mem);
    list.place(&mut mem, 7, "func_brush");

    // A slot with a live instance but a null name pointer is half-torn-down
    // and must not reach the output as a blank classname.
    let ident = list.identity(&mut mem, 8);
    let instance = mem.allocate(0x600);
    mem.put_ptr(ident, instance);

    let global = list.global(&mut mem);
    let found = walk(mem.memory(), global, &schemas()).expect("walk");

    assert_eq!(found.len(), 1);
    assert_eq!(found[0].index, 7);
}

#[test]
fn a_null_entity_system_global_is_an_error_not_an_empty_snapshot() {
    let mut mem = FakeMemory::new();
    let global = mem.allocate(0x8);
    assert_eq!(walk(mem.memory(), global, &schemas()).unwrap_err(), EntityError::NullSystem);
}

#[test]
fn a_schema_without_the_expected_fields_still_lists_the_entities() {
    let mut mem = FakeMemory::new();
    let mut list = ListBuilder::new(&mut mem);
    let entity = list.place(&mut mem, 4, "weapon_ak47");
    mem.put_i32(entity + OFF_HEALTH as u64, 42);
    let global = list.global(&mut mem);

    // An empty schema map means no field offsets resolve; the walk must
    // still report the identity instead of failing.
    let found = walk(mem.memory(), global, &SchemaMap::new()).expect("walk");
    assert_eq!(found.len(), 1);
    assert_eq!(found[0].classname, "weapon_ak47");
    assert_eq!(found[0].health, None);
    assert_eq!(found[0].origin, None);
}

#[test]
fn a_scene_without_an_origin_schema_field_does_not_emit_fake_coordinates() {
    let mut mem = FakeMemory::new();
    let mut list = ListBuilder::new(&mut mem);
    let entity = list.place(&mut mem, 5, "prop_dynamic");
    attach_scene_node(&mut mem, entity, [12.0, 34.0, 56.0]);
    let global = list.global(&mut mem);

    let schemas = schema_map(vec![class(
                "C_BaseEntity",
                vec![field("m_pGameSceneNode", OFF_SCENE_NODE)],
            )]);
    let found = walk(mem.memory(), global, &schemas).expect("walk");
    assert_eq!(found.len(), 1);
    assert_eq!(found[0].origin, None);
}
