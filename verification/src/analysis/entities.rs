//! A snapshot of the live entities with a few fields that all of them have.

use crate::analysis::entity_list::{
    detect_layout, detected, entities_in, entity_models, live_entities, EntityModel, LiveEntity,
    MAX_ENTITY_INDEX,
};
use crate::analysis::read::{f32_va, i32_va, ld32, ld64, ld8, ldi32, signed32, u64_va, u8_va};
use crate::analysis::schemas::{
    all_classes, class_index, field_offset_in, field_offset_of, Class, SchemaMap,
};
use crate::analysis::view_matrix::{exponent_of, fraction_of, magnitude_of};
use crate::memory::Memory;
use crate::memory::stored::{lemma_loads, stands32, stands64, stands8};
use vstd::arithmetic::power2::{
    lemma2_to64, lemma_pow2_adds, lemma_pow2_pos, lemma_pow2_strictly_increases, pow2,
};
use vstd::prelude::*;

verus! {

/// An entity of the snapshot. The coordinates are the bits of their IEEE 754
/// form.
#[derive(Debug)]
pub struct EntitySnapshotEntry {
    pub index: u32,
    pub classname: String,
    pub health: Option<i32>,
    pub max_health: Option<i32>,
    pub team: Option<u8>,
    pub origin: Option<[u32; 3]>,
}

/// Where the fields of an entity stand.
#[derive(Clone, Copy, Debug)]
pub struct EntityOffsets {
    pub scene_node: Option<u64>,
    pub max_health: Option<u64>,
    pub health: Option<u64>,
    pub team: Option<u64>,
    pub origin: Option<u64>,
}

/// The offsets that the schemas give.
pub open spec fn entity_offsets(classes: Seq<Class>) -> EntityOffsets {
    EntityOffsets {
        scene_node: field_offset_of(classes, "C_BaseEntity"@, "m_pGameSceneNode"@),
        max_health: field_offset_of(classes, "C_BaseEntity"@, "m_iMaxHealth"@),
        health: field_offset_of(classes, "C_BaseEntity"@, "m_iHealth"@),
        team: field_offset_of(classes, "C_BaseEntity"@, "m_iTeamNum"@),
        origin: field_offset_of(classes, "CGameSceneNode"@, "m_vecAbsOrigin"@),
    }
}

/// The address of a field, if its offset is known and it lies in the address
/// space.
pub open spec fn field_address(object: u64, offset: Option<u64>) -> Option<u64> {
    match offset {
        Some(off) => if object + off <= u64::MAX {
            Some((object + off) as u64)
        } else {
            None
        },
        None => None,
    }
}

fn field_va(object: u64, offset: Option<u64>) -> (va: Option<u64>)
    ensures
        va == field_address(object, offset),
{
    match offset {
        Some(off) => object.checked_add(off),
        None => None,
    }
}

/// A number within limits.
pub open spec fn within(mem: Map<int, u8>, at: Option<u64>, low: int, high: int) -> Option<i32> {
    match at {
        Some(va) => {
            let value = ldi32(mem, va as int);
            if low <= value <= high {
                Some(value)
            } else {
                None
            }
        },
        None => None,
    }
}

/// A team number.
pub open spec fn team_at(mem: Map<int, u8>, at: Option<u64>) -> Option<u8> {
    match at {
        Some(va) => {
            let value = ld8(mem, va as int);
            if value <= 4 {
                Some(value)
            } else {
                None
            }
        },
        None => None,
    }
}

/// The bits of a finite number of magnitude below 2^20: that many bits below
/// the sign bit come before those of 2^20.
pub open spec fn in_world(bits: u32) -> bool {
    bits % 0x8000_0000 < 0x4980_0000
}

/// The place of an entity, where it has one in the world.
pub open spec fn origin_of(mem: Map<int, u8>, instance: u64, offsets: EntityOffsets) -> Option<
    Seq<u32>,
> {
    let scene = match field_address(instance, offsets.scene_node) {
        Some(va) => ld64(mem, va as int),
        None => 0,
    };
    match field_address(scene, offsets.origin) {
        Some(x) => {
            let list = seq![
                ld32(mem, x as int),
                ld32(mem, x + 4),
                ld32(mem, x + 8),
            ];
            if scene > 0x10000 && x + 8 <= u64::MAX && in_world(list[0]) && in_world(list[1])
                && in_world(list[2]) {
                Some(list)
            } else {
                None
            }
        },
        None => None,
    }
}

impl EntitySnapshotEntry {
    /// The entry shows this entity with its fields.
    pub open spec fn shows(&self, mem: Map<int, u8>, entity: EntityModel, offsets: EntityOffsets) -> bool {
        &&& self.index == entity.index
        &&& self.classname@ == entity.classname
        &&& self.health == within(
            mem,
            field_address(entity.instance, offsets.health),
            -16384,
            1_000_000,
        )
        &&& self.max_health == within(
            mem,
            field_address(entity.instance, offsets.max_health),
            0,
            1_000_000,
        )
        &&& self.team == team_at(mem, field_address(entity.instance, offsets.team))
        &&& match origin_of(mem, entity.instance, offsets) {
            Some(list) => self.origin matches Some(o) && o@ == list,
            None => self.origin is None,
        }
    }
}

fn read_within(mem: &Memory, at: Option<u64>, low: i32, high: i32) -> (value: Option<i32>)
    requires
        mem.wf(),
    ensures
        value == within(mem@, at, low as int, high as int),
{
    match at {
        Some(va) => {
            let value: i32 = i32_va(mem, va);
            if low <= value && value <= high {
                Some(value)
            } else {
                None
            }
        },
        None => None,
    }
}

fn read_team(mem: &Memory, at: Option<u64>) -> (team: Option<u8>)
    requires
        mem.wf(),
    ensures
        team == team_at(mem@, at),
{
    match at {
        Some(va) => {
            let value: u8 = u8_va(mem, va);
            if value <= 4 {
                Some(value)
            } else {
                None
            }
        },
        None => None,
    }
}

fn read_origin(mem: &Memory, instance: u64, offsets: &EntityOffsets) -> (origin: Option<[u32; 3]>)
    requires
        mem.wf(),
    ensures
        match origin_of(mem@, instance, *offsets) {
            Some(list) => origin matches Some(o) && o@ == list,
            None => origin is None,
        },
{
    let scene: u64 = match field_va(instance, offsets.scene_node) {
        Some(va) => u64_va(mem, va),
        None => 0,
    };
    if scene <= 0x10000 {
        return None;
    }
    match field_va(scene, offsets.origin) {
        Some(x) => {
            if x > u64::MAX - 8 {
                return None;
            }
            let a: u32 = f32_va(mem, x);
            let b: u32 = f32_va(mem, x + 4);
            let c: u32 = f32_va(mem, x + 8);
            if a % 0x8000_0000 < 0x4980_0000 && b % 0x8000_0000 < 0x4980_0000 && c % 0x8000_0000
                < 0x4980_0000 {
                let o: [u32; 3] = [a, b, c];
                assert(o@ =~= seq![a, b, c]);
                Some(o)
            } else {
                None
            }
        },
        None => None,
    }
}

/// Why there is no snapshot.
#[derive(Clone, Copy, Debug, PartialEq, Eq, Structural)]
pub enum EntityError {
    /// The global of the entity system is null.
    NullSystem,
}

/// The entries show the entities, in their order.
pub open spec fn entries_show(
    entries: Seq<EntitySnapshotEntry>,
    mem: Map<int, u8>,
    entities: Seq<EntityModel>,
    offsets: EntityOffsets,
) -> bool {
    &&& entries.len() == entities.len()
    &&& forall|i: int|
        0 <= i < entries.len() ==> (#[trigger] entries[i]).shows(mem, entities[i], offsets)
}

fn read_offsets(schemas: &SchemaMap) -> (offsets: EntityOffsets)
    ensures
        offsets == entity_offsets(all_classes(*schemas)),
{
    let index = class_index(schemas);
    EntityOffsets {
        scene_node: field_offset_in(&index, "C_BaseEntity", "m_pGameSceneNode"),
        max_health: field_offset_in(&index, "C_BaseEntity", "m_iMaxHealth"),
        health: field_offset_in(&index, "C_BaseEntity", "m_iHealth"),
        team: field_offset_in(&index, "C_BaseEntity", "m_iTeamNum"),
        origin: field_offset_in(&index, "CGameSceneNode", "m_vecAbsOrigin"),
    }
}

/// What a walk from a global comes to.
pub open spec fn walks_to(
    mem: Map<int, u8>,
    entity_system_global_va: u64,
    schemas: SchemaMap,
    entries: Result<Vec<EntitySnapshotEntry>, EntityError>,
) -> bool {
    let list = ld64(mem, entity_system_global_va as int);
    if list == 0 {
        entries == Err::<Vec<EntitySnapshotEntry>, EntityError>(EntityError::NullSystem)
    } else {
        entries matches Ok(e) && entries_show(
            e@,
            mem,
            entities_in(mem, list, detected(mem, list), MAX_ENTITY_INDEX as int),
            entity_offsets(all_classes(schemas)),
        )
    }
}

/// Shows every live entity of the system that the global at
/// `entity_system_global_va` points at. A field that is not where a real entity
/// has it, or is not in the schemas, is left out.
pub fn walk(mem: &Memory, entity_system_global_va: u64, schemas: &SchemaMap) -> (entries: Result<
    Vec<EntitySnapshotEntry>,
    EntityError,
>)
    requires
        mem.wf(),
    ensures
        walks_to(mem@, entity_system_global_va, *schemas, entries),
{
    let list: u64 = u64_va(mem, entity_system_global_va);
    if list == 0 {
        return Err(EntityError::NullSystem);
    }
    let layout = detect_layout(mem, list);
    let offsets = read_offsets(schemas);
    let entities = live_entities(mem, list, layout);
    let ghost models = entities_in(mem@, list, layout, MAX_ENTITY_INDEX as int);
    let mut out: Vec<EntitySnapshotEntry> = Vec::new();
    let mut i: usize = 0;
    while i < entities.len()
        invariant
            mem.wf(),
            i <= entities@.len(),
            models == entity_models(entities@),
            out@.len() == i,
            forall|k: int|
                0 <= k < i ==> (#[trigger] out@[k]).shows(mem@, models[k], offsets),
        decreases entities@.len() - i,
    {
        let entity: &LiveEntity = &entities[i];
        assert(models[i as int] == entity.model());
        let instance: u64 = entity.instance;
        let entry = EntitySnapshotEntry {
            index: entity.index,
            classname: entity.classname.clone(),
            health: read_within(mem, field_va(instance, offsets.health), -16384, 1_000_000),
            max_health: read_within(mem, field_va(instance, offsets.max_health), 0, 1_000_000),
            team: read_team(mem, field_va(instance, offsets.team)),
            origin: read_origin(mem, instance, &offsets),
        };
        out.push(entry);
        i = i + 1;
    }
    Ok(out)
}

/// A coordinate is in the world exactly where it is finite and its magnitude is
/// below 2^20.
pub proof fn lemma_in_world(bits: u32)
    ensures
        in_world(bits) <==> exponent_of(bits) < 255 && magnitude_of(bits) < 0x10_0000 * pow2(149),
{
    let e = exponent_of(bits);
    let f = fraction_of(bits);
    let unit = pow2(146) as int;
    assert(bits % 0x8000_0000 == e * 0x80_0000 + f);
    lemma_pow2_pos(146);
    lemma_pow2_adds(146, 3);
    assert(pow2(3) == 8 && pow2(1) == 2) by {
        lemma2_to64();
    }
    assert(0x10_0000 * pow2(149) == 0x80_0000 * unit) by (nonlinear_arith)
        requires
            pow2(149) == unit * 8,
    ;
    if e == 0 {
        assert(f < 0x80_0000 * unit) by (nonlinear_arith)
            requires
                f < 0x80_0000,
                unit >= 1,
        ;
    } else if e < 147 {
        let scale = pow2((e - 1) as nat) as int;
        let half = pow2(145) as int;
        lemma_pow2_pos((e - 1) as nat);
        lemma_pow2_adds(1, 145);
        if e - 1 < 145 {
            lemma_pow2_strictly_increases((e - 1) as nat, 145);
        }
        assert((0x80_0000 + f) * scale < 0x80_0000 * unit) by (nonlinear_arith)
            requires
                0 <= f < 0x80_0000,
                0 < scale <= half,
                unit == 2 * half,
        ;
    } else {
        let scale = pow2((e - 1) as nat) as int;
        if e - 1 > 146 {
            lemma_pow2_strictly_increases(146, (e - 1) as nat);
        }
        assert((0x80_0000 + f) * scale >= 0x80_0000 * unit) by (nonlinear_arith)
            requires
                0 <= f,
                0 < unit <= scale,
        ;
    }
}

/// An entry of the snapshot shows the numbers that stand at the places which the
/// schemas give the fields of a base entity, where a real entity can have them:
/// health from -16384 to a million, full health from none to a million, and a
/// team up to four.
pub proof fn lemma_entry_numbers(
    mem: Map<int, u8>,
    classes: Seq<Class>,
    entity: EntityModel,
    entry: EntitySnapshotEntry,
    offset: u64,
    x: int,
)
    requires
        entry.shows(mem, entity, entity_offsets(classes)),
        entity.instance + offset <= u64::MAX,
    ensures
        field_offset_of(classes, "C_BaseEntity"@, "m_iHealth"@) == Some(offset) && -0x8000_0000 <= x
            < 0x8000_0000 && stands32(mem, entity.instance + offset, x % 0x1_0000_0000)
            ==> entry.health == (if -16384 <= x <= 1_000_000 {
            Some(x as i32)
        } else {
            None
        }),
        field_offset_of(classes, "C_BaseEntity"@, "m_iMaxHealth"@) == Some(offset) && -0x8000_0000
            <= x < 0x8000_0000 && stands32(mem, entity.instance + offset, x % 0x1_0000_0000)
            ==> entry.max_health == (if 0 <= x <= 1_000_000 {
            Some(x as i32)
        } else {
            None
        }),
        field_offset_of(classes, "C_BaseEntity"@, "m_iTeamNum"@) == Some(offset) && 0 <= x < 256
            && stands8(mem, entity.instance + offset, x) ==> entry.team == (if x <= 4 {
            Some(x as u8)
        } else {
            None
        }),
        field_offset_of(classes, "C_BaseEntity"@, "m_iHealth"@) is None ==> entry.health is None,
        field_offset_of(classes, "C_BaseEntity"@, "m_iMaxHealth"@) is None
            ==> entry.max_health is None,
        field_offset_of(classes, "C_BaseEntity"@, "m_iTeamNum"@) is None ==> entry.team is None,
        entry.index == entity.index,
        entry.classname@ == entity.classname,
{
    let at = entity.instance + offset;
    lemma_loads(mem, at, x);
    lemma_loads(mem, at, x % 0x1_0000_0000);
    assert(ldi32(mem, at) == signed32(ld32(mem, at) as int));
    if -0x8000_0000 <= x < 0x8000_0000 {
        assert(signed32(x % 0x1_0000_0000) == x);
    }
}

/// An entry of the snapshot shows the three coordinates that stand side by side
/// in the entity's scene node, as the schemas place both, where all of them are
/// in the world.
pub proof fn lemma_entry_origin(
    mem: Map<int, u8>,
    classes: Seq<Class>,
    entity: EntityModel,
    entry: EntitySnapshotEntry,
    node_offset: u64,
    node: u64,
    origin_offset: u64,
    place: Seq<u32>,
)
    requires
        entry.shows(mem, entity, entity_offsets(classes)),
        field_offset_of(classes, "C_BaseEntity"@, "m_pGameSceneNode"@) == Some(node_offset),
        field_offset_of(classes, "CGameSceneNode"@, "m_vecAbsOrigin"@) == Some(origin_offset),
        entity.instance + node_offset <= u64::MAX,
        stands64(mem, entity.instance + node_offset, node as int),
        node > 0x10000,
        node + origin_offset + 12 <= u64::MAX,
        place.len() == 3,
        stands32(mem, node + origin_offset, place[0] as int),
        stands32(mem, node + origin_offset + 4, place[1] as int),
        stands32(mem, node + origin_offset + 8, place[2] as int),
    ensures
        (forall|i: int|
            0 <= i < 3 ==> exponent_of(#[trigger] place[i]) < 255 && magnitude_of(place[i])
                < 0x10_0000 * pow2(149)) ==> (entry.origin matches Some(o) && o@ == place),
        (exists|i: int|
            0 <= i < 3 && !(exponent_of(#[trigger] place[i]) < 255 && magnitude_of(place[i])
                < 0x10_0000 * pow2(149))) ==> entry.origin is None,
{
    lemma_loads(mem, entity.instance + node_offset, node as int);
    lemma_loads(mem, node + origin_offset, place[0] as int);
    lemma_loads(mem, node + origin_offset + 4, place[1] as int);
    lemma_loads(mem, node + origin_offset + 8, place[2] as int);
    lemma_in_world(place[0]);
    lemma_in_world(place[1]);
    lemma_in_world(place[2]);
    let x = node + origin_offset;
    let list = seq![ld32(mem, x), ld32(mem, x + 4), ld32(mem, x + 8)];
    assert(list =~= place);
}

/// A walk from a null global is refused; any other shows the live entities of the list
/// that the global points at, one entry for each, in the order of their indices.
pub proof fn lemma_walked(
    mem: Map<int, u8>,
    global: u64,
    list: u64,
    schemas: SchemaMap,
    entries: Result<Vec<EntitySnapshotEntry>, EntityError>,
    i: int,
)
    requires
        walks_to(mem, global, schemas, entries),
        stands64(mem, global as int, list as int),
    ensures
        list == 0 <==> entries is Err,
        list != 0 ==> {
            let found = entities_in(mem, list, detected(mem, list), 0x8000);
            &&& entries->Ok_0@.len() == found.len()
            &&& 0 <= i < found.len() ==> entries->Ok_0@[i].index == found[i].index
                && entries->Ok_0@[i].classname@ == found[i].classname
        },
{
    lemma_loads(mem, global as int, list as int);
    if list != 0 {
        let found = entities_in(mem, list, detected(mem, list), 0x8000);
        if 0 <= i < found.len() {
            assert(entries->Ok_0@[i].shows(
                mem,
                found[i],
                entity_offsets(all_classes(schemas)),
            ));
        }
    }
}

} // verus!
