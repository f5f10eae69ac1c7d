//! The gameplay values of the weapons that exist as entities.
//!
//! Where a weapon keeps the pointer to its values has differed between builds.
//! The offset that fits the most weapons is tried first on each of them, then
//! the others; values that no weapon can have rule an offset out.

use crate::analysis::entity_list::{
    detect_layout, detected, entity_stands, EntityListLayout, MAX_ENTITY_INDEX,
};
use crate::analysis::read::{
    f32_va, i32_va, ld32, ld64, ldi32, plus, signed32, text_at, text_in, u64_va,
};
use crate::analysis::schemas::{
    all_classes, class_index, field_offset_in, field_offset_of, Class, ClassIndex, SchemaMap,
};
use crate::analysis::view_matrix::{exponent_of, fraction_of, magnitude_of};
use crate::memory::Memory;
use crate::memory::stored::{lemma_loads, lemma_text, stands32, stands64};
use crate::order::{lemma_in_order, name_order, names_of, rearranged, sort_by_name, Named};
use crate::text::{begins_with, str_before, str_eq, str_starts_with};
use vstd::arithmetic::power2::{
    lemma2_to64, lemma_pow2_adds, lemma_pow2_pos, lemma_pow2_strictly_increases, pow2,
};
use vstd::prelude::*;
use vstd::string::*;
use vstd::utf8::*;

verus! {

/// Candidate `i` of six for where a weapon keeps its values' pointer.
pub open spec fn vdata_candidate(i: int) -> u64 {
    if i == 0 {
        0x340
    } else if i == 1 {
        0x348
    } else if i == 2 {
        0x388
    } else if i == 3 {
        0x338
    } else if i == 4 {
        0x350
    } else {
        0x358
    }
}

/// Candidate `i` of six for where an entity keeps the pointer to its values.
pub fn vdata_offset(i: usize) -> (offset: u64)
    ensures
        offset == vdata_candidate(i as int),
{
    if i == 0 {
        0x340
    } else if i == 1 {
        0x348
    } else if i == 2 {
        0x388
    } else if i == 3 {
        0x338
    } else if i == 4 {
        0x350
    } else {
        0x358
    }
}

/// Where the values of a weapon stand.
#[derive(Clone, Copy, Debug)]
pub struct WeaponOffsets {
    pub price: u64,
    pub num_bullets: u64,
    pub cycle_time: u64,
    pub max_speed: u64,
    pub spread: u64,
    pub inaccuracy_stand: u64,
    pub inaccuracy_move: u64,
    pub recoil_magnitude: u64,
    pub damage: u64,
    pub headshot_multiplier: u64,
    pub armor_ratio: u64,
    pub penetration: u64,
    pub range: u64,
    pub range_modifier: u64,
}

/// The offset of a weapon value.
pub open spec fn value_offset(classes: Seq<Class>, field: Seq<char>) -> Option<u64> {
    field_offset_of(classes, "CCSWeaponBaseVData"@, field)
}

/// The offsets that the schemas give, if they have all of them.
pub open spec fn offsets_in(classes: Seq<Class>) -> Option<WeaponOffsets> {
    let price = value_offset(classes, "m_nPrice"@);
    let num_bullets = value_offset(classes, "m_nNumBullets"@);
    let cycle_time = value_offset(classes, "m_flCycleTime"@);
    let max_speed = value_offset(classes, "m_flMaxSpeed"@);
    let spread = value_offset(classes, "m_flSpread"@);
    let inaccuracy_stand = value_offset(classes, "m_flInaccuracyStand"@);
    let inaccuracy_move = value_offset(classes, "m_flInaccuracyMove"@);
    let recoil_magnitude = value_offset(classes, "m_flRecoilMagnitude"@);
    let damage = value_offset(classes, "m_nDamage"@);
    let headshot_multiplier = value_offset(classes, "m_flHeadshotMultiplier"@);
    let armor_ratio = value_offset(classes, "m_flArmorRatio"@);
    let penetration = value_offset(classes, "m_flPenetration"@);
    let range = value_offset(classes, "m_flRange"@);
    let range_modifier = value_offset(classes, "m_flRangeModifier"@);
    if price is Some && num_bullets is Some && cycle_time is Some && max_speed is Some
        && spread is Some && inaccuracy_stand is Some && inaccuracy_move is Some
        && recoil_magnitude is Some && damage is Some && headshot_multiplier is Some
        && armor_ratio is Some && penetration is Some && range is Some && range_modifier is Some {
        Some(
            WeaponOffsets {
                price: price->0,
                num_bullets: num_bullets->0,
                cycle_time: cycle_time->0,
                max_speed: max_speed->0,
                spread: spread->0,
                inaccuracy_stand: inaccuracy_stand->0,
                inaccuracy_move: inaccuracy_move->0,
                recoil_magnitude: recoil_magnitude->0,
                damage: damage->0,
                headshot_multiplier: headshot_multiplier->0,
                armor_ratio: armor_ratio->0,
                penetration: penetration->0,
                range: range->0,
                range_modifier: range_modifier->0,
            },
        )
    } else {
        None
    }
}

fn value_in(index: &ClassIndex<'_>, field: &str) -> (offset: Option<u64>)
    requires
        index.wf(),
    ensures
        offset == value_offset(index.list(), field@),
{
    field_offset_in(index, "CCSWeaponBaseVData", field)
}

/// The offsets of the weapon values, if the schemas have all of them.
pub fn weapon_offsets(schemas: &SchemaMap) -> (offsets: Option<WeaponOffsets>)
    ensures
        offsets == offsets_in(all_classes(*schemas)),
{
    let index = class_index(schemas);
    match (
        value_in(&index, "m_nPrice"),
        value_in(&index, "m_nNumBullets"),
        value_in(&index, "m_flCycleTime"),
        value_in(&index, "m_flMaxSpeed"),
        value_in(&index, "m_flSpread"),
        value_in(&index, "m_flInaccuracyStand"),
        value_in(&index, "m_flInaccuracyMove"),
        value_in(&index, "m_flRecoilMagnitude"),
    ) {
        (
            Some(price),
            Some(num_bullets),
            Some(cycle_time),
            Some(max_speed),
            Some(spread),
            Some(inaccuracy_stand),
            Some(inaccuracy_move),
            Some(recoil_magnitude),
        ) => match (
            value_in(&index, "m_nDamage"),
            value_in(&index, "m_flHeadshotMultiplier"),
            value_in(&index, "m_flArmorRatio"),
            value_in(&index, "m_flPenetration"),
            value_in(&index, "m_flRange"),
            value_in(&index, "m_flRangeModifier"),
        ) {
            (
                Some(damage),
                Some(headshot_multiplier),
                Some(armor_ratio),
                Some(penetration),
                Some(range),
                Some(range_modifier),
            ) => Some(
                WeaponOffsets {
                    price,
                    num_bullets,
                    cycle_time,
                    max_speed,
                    spread,
                    inaccuracy_stand,
                    inaccuracy_move,
                    recoil_magnitude,
                    damage,
                    headshot_multiplier,
                    armor_ratio,
                    penetration,
                    range,
                    range_modifier,
                },
            ),
            _ => None,
        },
        _ => None,
    }
}

/// A weapon with its values. Those that are not whole numbers are kept as the
/// bits of their IEEE 754 form.
#[derive(Debug)]
pub struct Weapon {
    pub name: String,
    pub damage: i32,
    pub headshot_multiplier: u32,
    pub armor_ratio: u32,
    pub penetration: u32,
    pub range: u32,
    pub range_modifier: u32,
    pub cycle_time: u32,
    pub price: i32,
    pub num_bullets: i32,
    pub max_speed: u32,
    pub spread: u32,
    pub inaccuracy_stand: u32,
    pub inaccuracy_move: u32,
    pub recoil_magnitude: u32,
    /// Where its values stand.
    pub address: u64,
    /// Where the weapon keeps the pointer to them.
    pub vdata_ptr_offset: u64,
}

impl Named for Weapon {
    open spec fn name_text(&self) -> Seq<char> {
        self.name@
    }

    fn name_str(&self) -> (name: &str) {
        self.name.as_str()
    }
}

/// A weapon, where its values stand, and where the pointer to them stands.
pub struct WeaponModel {
    pub name: Seq<char>,
    pub address: u64,
    pub vdata_ptr_offset: u64,
}

impl Weapon {
    /// The weapon shows the values at the model's address.
    pub open spec fn is(&self, mem: Map<int, u8>, offsets: WeaponOffsets, model: WeaponModel) -> bool {
        let vd = model.address;
        &&& self.name@ == model.name
        &&& self.address == vd
        &&& self.vdata_ptr_offset == model.vdata_ptr_offset
        &&& self.damage == ldi32(mem, plus(vd, offsets.damage as int) as int)
        &&& self.headshot_multiplier == ld32(
            mem,
            plus(vd, offsets.headshot_multiplier as int) as int,
        )
        &&& self.armor_ratio == ld32(mem, plus(vd, offsets.armor_ratio as int) as int)
        &&& self.penetration == ld32(mem, plus(vd, offsets.penetration as int) as int)
        &&& self.range == ld32(mem, plus(vd, offsets.range as int) as int)
        &&& self.range_modifier == ld32(mem, plus(vd, offsets.range_modifier as int) as int)
        &&& self.cycle_time == ld32(mem, plus(vd, offsets.cycle_time as int) as int)
        &&& self.price == ldi32(mem, plus(vd, offsets.price as int) as int)
        &&& self.num_bullets == ldi32(mem, plus(vd, offsets.num_bullets as int) as int)
        &&& self.max_speed == ld32(mem, plus(vd, offsets.max_speed as int) as int)
        &&& self.spread == ld32(mem, plus(vd, offsets.spread as int) as int)
        &&& self.inaccuracy_stand == ld32(mem, plus(vd, offsets.inaccuracy_stand as int) as int)
        &&& self.inaccuracy_move == ld32(mem, plus(vd, offsets.inaccuracy_move as int) as int)
        &&& self.recoil_magnitude == ld32(mem, plus(vd, offsets.recoil_magnitude as int) as int)
    }
}

/// The bits of a number from zero to ten, the negative zero among them.
pub open spec fn zero_to_ten(bits: u32) -> bool {
    bits <= 0x4120_0000 || bits == 0x8000_0000
}

/// The values that an entity's pointer at `off` leads to, where a weapon can
/// have them.
pub open spec fn vdata_at(mem: Map<int, u8>, offsets: WeaponOffsets, entity: u64, off: u64) -> Option<
    u64,
> {
    let vd = ld64(mem, plus(entity, off as int) as int);
    if vd >= 0x10000 && 1 <= ldi32(mem, plus(vd, offsets.damage as int) as int) <= 1000
        && zero_to_ten(ld32(mem, plus(vd, offsets.penetration as int) as int)) && 0 <= ldi32(
        mem,
        plus(vd, offsets.price as int) as int,
    ) <= 20000 {
        Some(vd)
    } else {
        None
    }
}

fn read_vdata(mem: &Memory, offsets: &WeaponOffsets, entity: u64, off: u64) -> (vd: Option<u64>)
    requires
        mem.wf(),
    ensures
        vd == vdata_at(mem@, *offsets, entity, off),
{
    let vd: u64 = u64_va(mem, entity.wrapping_add(off));
    if vd < 0x10000 {
        return None;
    }
    let damage: i32 = i32_va(mem, vd.wrapping_add(offsets.damage));
    let penetration: u32 = f32_va(mem, vd.wrapping_add(offsets.penetration));
    let price: i32 = i32_va(mem, vd.wrapping_add(offsets.price));
    if 1 <= damage && damage <= 1000 && (penetration <= 0x4120_0000 || penetration == 0x8000_0000)
        && 0 <= price && price <= 20000 {
        Some(vd)
    } else {
        None
    }
}

/// How many of the first `n` weapons have values behind the pointer at `off`.
#[verifier::opaque]
pub open spec fn fits(
    mem: Map<int, u8>,
    offsets: WeaponOffsets,
    entities: Seq<(Seq<char>, u64)>,
    off: u64,
    n: nat,
) -> int
    decreases n,
{
    if n == 0 {
        0
    } else {
        fits(mem, offsets, entities, off, (n - 1) as nat) + if vdata_at(
            mem,
            offsets,
            entities[n - 1].1,
            off,
        ) is Some {
            1int
        } else {
            0int
        }
    }
}

/// The first of the first `n` candidates that fits the most weapons.
pub open spec fn best_offset(
    mem: Map<int, u8>,
    offsets: WeaponOffsets,
    entities: Seq<(Seq<char>, u64)>,
    n: int,
) -> int
    decreases n,
{
    if n <= 1 {
        0
    } else {
        let before = best_offset(mem, offsets, entities, n - 1);
        if fits(mem, offsets, entities, vdata_candidate(n - 1), entities.len()) > fits(
            mem,
            offsets,
            entities,
            vdata_candidate(before),
            entities.len(),
        ) {
            n - 1
        } else {
            before
        }
    }
}

/// The offset to try first: the one that fits the most weapons, if it fits any.
pub open spec fn preferred_offset(
    mem: Map<int, u8>,
    offsets: WeaponOffsets,
    entities: Seq<(Seq<char>, u64)>,
) -> Option<u64> {
    let best = vdata_candidate(best_offset(mem, offsets, entities, 6));
    if fits(mem, offsets, entities, best, entities.len()) > 0 {
        Some(best)
    } else {
        None
    }
}

/// No candidate fits more weapons than the best one, and none before it as many.
pub proof fn lemma_best_offset(
    mem: Map<int, u8>,
    offsets: WeaponOffsets,
    entities: Seq<(Seq<char>, u64)>,
    n: int,
    j: int,
)
    requires
        0 <= j < n,
    ensures
        0 <= best_offset(mem, offsets, entities, n) < n,
        fits(mem, offsets, entities, vdata_candidate(j), entities.len()) <= fits(
            mem,
            offsets,
            entities,
            vdata_candidate(best_offset(mem, offsets, entities, n)),
            entities.len(),
        ),
        j < best_offset(mem, offsets, entities, n) ==> fits(
            mem,
            offsets,
            entities,
            vdata_candidate(j),
            entities.len(),
        ) < fits(
            mem,
            offsets,
            entities,
            vdata_candidate(best_offset(mem, offsets, entities, n)),
            entities.len(),
        ),
    decreases n,
{
    if n > 1 {
        if j < n - 1 {
            lemma_best_offset(mem, offsets, entities, n - 1, j);
        } else {
            lemma_best_offset(mem, offsets, entities, n - 1, 0);
        }
    }
}

/// The names and objects of a list of weapons.
pub open spec fn entity_pairs(list: Seq<(String, u64)>) -> Seq<(Seq<char>, u64)> {
    Seq::new(list.len(), |i: int| (list[i].0@, list[i].1))
}

fn count_fits(mem: &Memory, offsets: &WeaponOffsets, entities: &Vec<(String, u64)>, off: u64) -> (count:
    usize)
    requires
        mem.wf(),
    ensures
        count == fits(mem@, *offsets, entity_pairs(entities@), off, entities@.len()),
{
    let ghost pairs = entity_pairs(entities@);
    proof {
        reveal(fits);
    }
    let mut count: usize = 0;
    let mut i: usize = 0;
    while i < entities.len()
        invariant
            mem.wf(),
            i <= entities@.len(),
            count <= i,
            pairs == entity_pairs(entities@),
            count == fits(mem@, *offsets, pairs, off, i as nat),
        decreases entities@.len() - i,
    {
        proof {
            reveal(fits);
        }
        assert(pairs[i as int].1 == entities@[i as int].1);
        if read_vdata(mem, offsets, entities[i].1, off).is_some() {
            count = count + 1;
        }
        i = i + 1;
    }
    count
}

/// The offset that fits the most weapons, if one fits any.
pub fn select_vdata_offset(mem: &Memory, entities: &Vec<(String, u64)>, offsets: &WeaponOffsets) -> (best:
    Option<u64>)
    requires
        mem.wf(),
    ensures
        best == preferred_offset(mem@, *offsets, entity_pairs(entities@)),
{
    let ghost pairs = entity_pairs(entities@);
    let mut best: u64 = vdata_offset(0);
    let mut score: usize = count_fits(mem, offsets, entities, best);
    let mut k: usize = 1;
    while k < 6
        invariant
            mem.wf(),
            1 <= k <= 6,
            pairs == entity_pairs(entities@),
            pairs.len() == entities@.len(),
            best == vdata_candidate(best_offset(mem@, *offsets, pairs, k as int)),
            score == fits(mem@, *offsets, pairs, best, pairs.len()),
        decreases 6 - k,
    {
        let other: u64 = vdata_offset(k);
        let count: usize = count_fits(mem, offsets, entities, other);
        if count > score {
            best = other;
            score = count;
        }
        k = k + 1;
    }
    if score > 0 {
        Some(best)
    } else {
        None
    }
}

/// The values of a weapon under the candidates from `k` on, without `skip`.
pub open spec fn vdata_from(
    mem: Map<int, u8>,
    offsets: WeaponOffsets,
    entity: u64,
    skip: Option<u64>,
    k: int,
) -> Option<(u64, u64)>
    decreases 6 - k,
{
    if k >= 6 {
        None
    } else {
        let off = vdata_candidate(k);
        match vdata_at(mem, offsets, entity, off) {
            Some(vd) if skip != Some(off) => Some((vd, off)),
            _ => vdata_from(mem, offsets, entity, skip, k + 1),
        }
    }
}

/// The values of a weapon: behind the preferred offset, else behind the first
/// of the others that leads to some.
pub open spec fn weapon_vdata(
    mem: Map<int, u8>,
    offsets: WeaponOffsets,
    entity: u64,
    preferred: Option<u64>,
) -> Option<(u64, u64)> {
    match preferred {
        Some(off) => match vdata_at(mem, offsets, entity, off) {
            Some(vd) => Some((vd, off)),
            None => vdata_from(mem, offsets, entity, preferred, 0),
        },
        None => vdata_from(mem, offsets, entity, preferred, 0),
    }
}

fn find_vdata(mem: &Memory, offsets: &WeaponOffsets, entity: u64, preferred: Option<u64>) -> (found:
    Option<(u64, u64)>)
    requires
        mem.wf(),
    ensures
        found == weapon_vdata(mem@, *offsets, entity, preferred),
{
    match preferred {
        Some(off) => match read_vdata(mem, offsets, entity, off) {
            Some(vd) => {
                return Some((vd, off));
            },
            None => {},
        },
        None => {},
    }
    let mut k: usize = 0;
    while k < 6
        invariant
            mem.wf(),
            k <= 6,
            vdata_from(mem@, *offsets, entity, preferred, k as int) == weapon_vdata(
                mem@,
                *offsets,
                entity,
                preferred,
            ),
        decreases 6 - k,
    {
        let off: u64 = vdata_offset(k);
        let skip = match preferred {
            Some(p) => p == off,
            None => false,
        };
        if !skip {
            match read_vdata(mem, offsets, entity, off) {
                Some(vd) => {
                    return Some((vd, off));
                },
                None => {},
            }
        }
        k = k + 1;
    }
    None
}

/// Reads the values of the weapon whose object is `entity`.
pub fn read_weapon(
    mem: &Memory,
    name: &str,
    entity: u64,
    offsets: &WeaponOffsets,
    preferred: Option<u64>,
) -> (weapon: Option<Weapon>)
    requires
        mem.wf(),
    ensures
        match weapon_vdata(mem@, *offsets, entity, preferred) {
            Some((vd, off)) => weapon matches Some(w) && w.is(
                mem@,
                *offsets,
                WeaponModel { name: name@, address: vd, vdata_ptr_offset: off },
            ),
            None => weapon is None,
        },
{
    match find_vdata(mem, offsets, entity, preferred) {
        Some((vd, off)) => Some(
            Weapon {
                name: name.to_owned(),
                damage: i32_va(mem, vd.wrapping_add(offsets.damage)),
                headshot_multiplier: f32_va(mem, vd.wrapping_add(offsets.headshot_multiplier)),
                armor_ratio: f32_va(mem, vd.wrapping_add(offsets.armor_ratio)),
                penetration: f32_va(mem, vd.wrapping_add(offsets.penetration)),
                range: f32_va(mem, vd.wrapping_add(offsets.range)),
                range_modifier: f32_va(mem, vd.wrapping_add(offsets.range_modifier)),
                cycle_time: f32_va(mem, vd.wrapping_add(offsets.cycle_time)),
                price: i32_va(mem, vd.wrapping_add(offsets.price)),
                num_bullets: i32_va(mem, vd.wrapping_add(offsets.num_bullets)),
                max_speed: f32_va(mem, vd.wrapping_add(offsets.max_speed)),
                spread: f32_va(mem, vd.wrapping_add(offsets.spread)),
                inaccuracy_stand: f32_va(mem, vd.wrapping_add(offsets.inaccuracy_stand)),
                inaccuracy_move: f32_va(mem, vd.wrapping_add(offsets.inaccuracy_move)),
                recoil_magnitude: f32_va(mem, vd.wrapping_add(offsets.recoil_magnitude)),
                address: vd,
                vdata_ptr_offset: off,
            },
        ),
        None => None,
    }
}

/// The entity at `index` as its slot names it: its name and object, if it has
/// an object and the name of a weapon.
pub open spec fn weapon_at(mem: Map<int, u8>, list: u64, layout: EntityListLayout, index: int) -> Option<
    (Seq<char>, u64),
> {
    let slot = plus(
        plus(list, layout.chunk_array_base as int),
        layout.chunk_ptr_stride * (index / 0x200),
    );
    let chunk = ld64(mem, slot as int);
    let ident = plus(chunk, layout.chunk_entry_stride * (index % 0x200));
    let inst = ld64(mem, plus(ident, layout.identity_instance as int) as int);
    let name_ptr = ld64(mem, plus(ident, layout.identity_designer_name as int) as int);
    let name = if name_ptr == 0 {
        Seq::empty()
    } else {
        text_in(mem, name_ptr as int, 64)
    };
    if chunk == 0 || inst == 0 || !begins_with(name, "weapon_"@) {
        None
    } else {
        Some((name, inst))
    }
}

/// A list names an entity.
pub open spec fn is_known(list: Seq<(Seq<char>, u64)>, name: Seq<char>) -> bool {
    exists|i: int| 0 <= i < list.len() && (#[trigger] list[i]).0 == name
}

/// The weapons at the first `n` indices, one for each name: the first.
pub open spec fn weapon_entities(mem: Map<int, u8>, list: u64, layout: EntityListLayout, n: int) -> Seq<
    (Seq<char>, u64),
>
    decreases n,
{
    if n <= 0 {
        Seq::empty()
    } else {
        let before = weapon_entities(mem, list, layout, n - 1);
        match weapon_at(mem, list, layout, n - 1) {
            Some((name, inst)) => if is_known(before, name) {
                before
            } else {
                before.push((name, inst))
            },
            None => before,
        }
    }
}

/// A weapon that is spawned twice is listed once.
pub proof fn lemma_entities_distinct(
    mem: Map<int, u8>,
    list: u64,
    layout: EntityListLayout,
    n: int,
    i: int,
    j: int,
)
    requires
        0 <= i < j < weapon_entities(mem, list, layout, n).len(),
    ensures
        weapon_entities(mem, list, layout, n)[i].0 != weapon_entities(mem, list, layout, n)[j].0,
    decreases n,
{
    if n > 0 {
        let before = weapon_entities(mem, list, layout, n - 1);
        if j < before.len() {
            lemma_entities_distinct(mem, list, layout, n - 1, i, j);
        } else {
            let all = weapon_entities(mem, list, layout, n);
            assert(before[i] == all[i]);
        }
    }
}

fn knows(list: &Vec<(String, u64)>, name: &str) -> (known: bool)
    ensures
        known == is_known(entity_pairs(list@), name@),
{
    let ghost pairs = entity_pairs(list@);
    let mut i: usize = 0;
    while i < list.len()
        invariant
            i <= list@.len(),
            pairs == entity_pairs(list@),
            forall|k: int| 0 <= k < i ==> (#[trigger] pairs[k]).0 != name@,
        decreases list@.len() - i,
    {
        assert(pairs[i as int].0 == list@[i as int].0@);
        if str_eq(list[i].0.as_str(), name) {
            return true;
        }
        i = i + 1;
    }
    false
}

fn read_weapon_entity(mem: &Memory, chunk: u64, layout: &EntityListLayout, index: u32) -> (entity: Option<
    (String, u64),
>)
    requires
        mem.wf(),
        index < MAX_ENTITY_INDEX,
        layout.chunk_entry_stride <= 0x78,
    ensures
        ({
            let ident = plus(chunk, layout.chunk_entry_stride * (index as int % 0x200));
            let inst = ld64(mem@, plus(ident, layout.identity_instance as int) as int);
            let name_ptr = ld64(mem@, plus(ident, layout.identity_designer_name as int) as int);
            let name = if name_ptr == 0 {
                Seq::empty()
            } else {
                text_in(mem@, name_ptr as int, 64)
            };
            if inst == 0 || !begins_with(name, "weapon_"@) {
                entity is None
            } else {
                entity matches Some(e) && e.0@ == name && e.1 == inst
            }
        }),
{
    let s: u64 = (index % 0x200) as u64;
    assert(layout.chunk_entry_stride * s <= 0x78 * 0x200) by (nonlinear_arith)
        requires
            layout.chunk_entry_stride <= 0x78,
            s <= 0x200,
    ;
    let ident: u64 = chunk.wrapping_add(layout.chunk_entry_stride * s);
    let inst: u64 = u64_va(mem, ident.wrapping_add(layout.identity_instance));
    if inst == 0 {
        return None;
    }
    let name_ptr: u64 = u64_va(mem, ident.wrapping_add(layout.identity_designer_name));
    let name = if name_ptr == 0 {
        String::new()
    } else {
        text_at(mem, name_ptr, 64)
    };
    if str_starts_with(name.as_str(), "weapon_") {
        Some((name, inst))
    } else {
        None
    }
}

fn collect_weapons(mem: &Memory, list: u64, layout: &EntityListLayout) -> (entities: Vec<
    (String, u64),
>)
    requires
        mem.wf(),
        layout.chunk_entry_stride <= 0x78,
        layout.chunk_ptr_stride <= 0x8,
    ensures
        entity_pairs(entities@) == weapon_entities(mem@, list, *layout, MAX_ENTITY_INDEX as int),
{
    let mut entities: Vec<(String, u64)> = Vec::new();
    let mut chunk: u64 = 0;
    let mut index: u32 = 0;
    assert(entity_pairs(entities@) =~= Seq::<(Seq<char>, u64)>::empty());
    while index < MAX_ENTITY_INDEX
        invariant
            mem.wf(),
            index <= MAX_ENTITY_INDEX,
            layout.chunk_entry_stride <= 0x78,
            layout.chunk_ptr_stride <= 0x8,
            index % 0x200 != 0 ==> chunk == ld64(
                mem@,
                plus(
                    plus(list, layout.chunk_array_base as int),
                    layout.chunk_ptr_stride * (index as int / 0x200),
                ) as int,
            ),
            entity_pairs(entities@) == weapon_entities(mem@, list, *layout, index as int),
        decreases MAX_ENTITY_INDEX - index,
    {
        if index % 0x200 == 0 {
            let c: u64 = (index / 0x200) as u64;
            assert(layout.chunk_ptr_stride * c <= 0x8 * 0x40) by (nonlinear_arith)
                requires
                    layout.chunk_ptr_stride <= 0x8,
                    c <= 0x40,
            ;
            let slot: u64 = list.wrapping_add(layout.chunk_array_base).wrapping_add(
                layout.chunk_ptr_stride * c,
            );
            chunk = u64_va(mem, slot);
        }
        if chunk != 0 {
            match read_weapon_entity(mem, chunk, layout, index) {
                Some((name, inst)) => {
                    if !knows(&entities, name.as_str()) {
                        let ghost before = entity_pairs(entities@);
                        let ghost item = (name@, inst);
                        entities.push((name, inst));
                        assert(entity_pairs(entities@) =~= before.push(item));
                    }
                },
                None => {},
            }
        }
        assert((index + 1) as int % 0x200 != 0 ==> (index + 1) as int / 0x200 == index as int
            / 0x200);
        index = index + 1;
    }
    entities
}

/// Why there is no table of weapons.
#[derive(Clone, Copy, Debug, PartialEq, Eq, Structural)]
pub enum WeaponError {
    /// The schemas lack a field of the weapon values.
    FieldsMissing,
    /// The global of the entity system is null.
    NullSystem,
}

/// The first `n` of the weapons that lead to values.
pub open spec fn weapons_in(
    mem: Map<int, u8>,
    offsets: WeaponOffsets,
    entities: Seq<(Seq<char>, u64)>,
    preferred: Option<u64>,
    n: nat,
) -> Seq<WeaponModel>
    decreases n,
{
    if n == 0 {
        Seq::empty()
    } else {
        let before = weapons_in(mem, offsets, entities, preferred, (n - 1) as nat);
        let (name, inst) = entities[n - 1];
        match weapon_vdata(mem, offsets, inst, preferred) {
            Some((vd, off)) => before.push(
                WeaponModel { name, address: vd, vdata_ptr_offset: off },
            ),
            None => before,
        }
    }
}

/// Weapons come from entities in their order, each from one of its own.
proof fn lemma_weapon_source(
    mem: Map<int, u8>,
    offsets: WeaponOffsets,
    entities: Seq<(Seq<char>, u64)>,
    preferred: Option<u64>,
    n: nat,
    i: int,
) -> (k: int)
    requires
        n <= entities.len(),
        0 <= i < weapons_in(mem, offsets, entities, preferred, n).len(),
    ensures
        i <= k < n,
        entities[k].0 == weapons_in(mem, offsets, entities, preferred, n)[i].name,
        weapons_in(mem, offsets, entities, preferred, k as nat).len() == i,
    decreases n,
{
    let before = weapons_in(mem, offsets, entities, preferred, (n - 1) as nat);
    lemma_weapon_count(mem, offsets, entities, preferred, (n - 1) as nat);
    if i < before.len() {
        lemma_weapon_source(mem, offsets, entities, preferred, (n - 1) as nat, i)
    } else {
        n - 1
    }
}

proof fn lemma_weapon_count(
    mem: Map<int, u8>,
    offsets: WeaponOffsets,
    entities: Seq<(Seq<char>, u64)>,
    preferred: Option<u64>,
    n: nat,
)
    ensures
        weapons_in(mem, offsets, entities, preferred, n).len() <= n,
    decreases n,
{
    if n > 0 {
        lemma_weapon_count(mem, offsets, entities, preferred, (n - 1) as nat);
    }
}

/// No two of the weapons of a list have one name.
#[verifier::spinoff_prover]
#[verifier::rlimit(60)]
pub proof fn lemma_one_of_each(mem: Map<int, u8>, list: u64, offsets: WeaponOffsets, i: int, j: int)
    requires
        0 <= i < j < all_weapons(mem, list, offsets).len(),
    ensures
        all_weapons(mem, list, offsets)[i].name != all_weapons(mem, list, offsets)[j].name,
{
    let entities = weapon_entities(mem, list, detected(mem, list), MAX_ENTITY_INDEX as int);
    let preferred = preferred_offset(mem, offsets, entities);
    let a = lemma_weapon_source(mem, offsets, entities, preferred, entities.len(), i);
    let b = lemma_weapon_source(mem, offsets, entities, preferred, entities.len(), j);
    if a < b {
        lemma_entities_distinct(mem, list, detected(mem, list), MAX_ENTITY_INDEX as int, a, b);
    } else if b < a {
        lemma_entities_distinct(mem, list, detected(mem, list), MAX_ENTITY_INDEX as int, b, a);
    }
}

pub open spec fn weapons_are(
    list: Seq<Weapon>,
    mem: Map<int, u8>,
    offsets: WeaponOffsets,
    models: Seq<WeaponModel>,
) -> bool {
    &&& list.len() == models.len()
    &&& forall|i: int| 0 <= i < list.len() ==> (#[trigger] list[i]).is(mem, offsets, models[i])
}

pub open spec fn weapon_names(models: Seq<WeaponModel>) -> Seq<Seq<char>> {
    Seq::new(models.len(), |i: int| models[i].name)
}

/// The list shows the weapons, in the order of their names.
pub open spec fn weapons_sorted(
    list: Seq<Weapon>,
    mem: Map<int, u8>,
    offsets: WeaponOffsets,
    models: Seq<WeaponModel>,
) -> bool {
    exists|p: Seq<int>|
        #[trigger] name_order(weapon_names(models), p) && list.len() == p.len() && forall|i: int|
            0 <= i < p.len() ==> (#[trigger] list[i]).is(mem, offsets, models[p[i]])
}

/// All weapons of an entity list.
pub open spec fn all_weapons(mem: Map<int, u8>, list: u64, offsets: WeaponOffsets) -> Seq<
    WeaponModel,
> {
    let entities = weapon_entities(mem, list, detected(mem, list), MAX_ENTITY_INDEX as int);
    weapons_in(
        mem,
        offsets,
        entities,
        preferred_offset(mem, offsets, entities),
        entities.len(),
    )
}

#[verifier::spinoff_prover]
#[verifier::rlimit(40)]
fn read_weapons(
    mem: &Memory,
    entities: &Vec<(String, u64)>,
    offsets: &WeaponOffsets,
    preferred: Option<u64>,
) -> (weapons: Vec<Weapon>)
    requires
        mem.wf(),
    ensures
        weapons_are(
            weapons@,
            mem@,
            *offsets,
            weapons_in(
                mem@,
                *offsets,
                entity_pairs(entities@),
                preferred,
                entities@.len(),
            ),
        ),
{
    let ghost pairs = entity_pairs(entities@);
    let mut weapons: Vec<Weapon> = Vec::new();
    let mut i: usize = 0;
    while i < entities.len()
        invariant
            mem.wf(),
            i <= entities@.len(),
            pairs == entity_pairs(entities@),
            weapons_are(
                weapons@,
                mem@,
                *offsets,
                weapons_in(mem@, *offsets, pairs, preferred, i as nat),
            ),
        decreases entities@.len() - i,
    {
        let (name, inst) = &entities[i];
        assert(pairs[i as int] == (name@, *inst));
        match read_weapon(mem, name.as_str(), *inst, offsets, preferred) {
            Some(weapon) => {
                weapons.push(weapon);
            },
            None => {},
        }
        i = i + 1;
    }
    weapons
}

proof fn lemma_strides(mem: Map<int, u8>, list: u64)
    ensures
        detected(mem, list).chunk_entry_stride <= 0x78,
        detected(mem, list).chunk_ptr_stride <= 0x8,
{
}

/// What a walk from a global comes to.
pub open spec fn walks_to(
    mem: Map<int, u8>,
    entity_system_global_va: u64,
    schemas: SchemaMap,
    weapons: Result<Vec<Weapon>, WeaponError>,
) -> bool {
    let list = ld64(mem, entity_system_global_va as int);
    match offsets_in(all_classes(schemas)) {
        None => weapons == Err::<Vec<Weapon>, WeaponError>(WeaponError::FieldsMissing),
        Some(offsets) => if list == 0 {
            weapons == Err::<Vec<Weapon>, WeaponError>(WeaponError::NullSystem)
        } else {
            weapons matches Ok(w) && weapons_sorted(
                w@,
                mem,
                offsets,
                all_weapons(mem, list, offsets),
            )
        },
    }
}

/// Reads the weapons that exist as entities of the system that the global at
/// `entity_system_global_va` points at, one for each name, in the order of
/// their names.
pub fn walk(mem: &Memory, entity_system_global_va: u64, schemas: &SchemaMap) -> (weapons: Result<
    Vec<Weapon>,
    WeaponError,
>)
    requires
        mem.wf(),
    ensures
        walks_to(mem@, entity_system_global_va, *schemas, weapons),
{
    let offsets = match weapon_offsets(schemas) {
        Some(o) => o,
        None => {
            return Err(WeaponError::FieldsMissing);
        },
    };
    let list: u64 = u64_va(mem, entity_system_global_va);
    if list == 0 {
        return Err(WeaponError::NullSystem);
    }
    let layout = detect_layout(mem, list);
    proof {
        lemma_strides(mem@, list);
    }
    let entities = collect_weapons(mem, list, &layout);
    let preferred = select_vdata_offset(mem, &entities, &offsets);
    let mut weapons = read_weapons(mem, &entities, &offsets, preferred);
    let ghost found = all_weapons(mem@, list, offsets);
    let ghost before = weapons@;
    assert(entity_pairs(entities@).len() == entities@.len());
    assert(weapons_are(before, mem@, offsets, found));
    sort_by_name(&mut weapons);
    proof {
        assert(names_of(before) =~= weapon_names(found));
        let p = choose|p: Seq<int>|
            #![trigger name_order(names_of(before), p)]
            name_order(names_of(before), p) && rearranged(before, weapons@, p);
        assert(name_order(weapon_names(found), p));
        assert forall|i: int| 0 <= i < p.len() implies (#[trigger] weapons@[i]).is(
            mem@,
            offsets,
            found[p[i]],
        ) by {
            assert(before[p[i]].is(mem@, offsets, found[p[i]]));
        }
    }
    Ok(weapons)
}

/// A number is accepted exactly where it is finite and lies from zero to ten,
/// where the negative zero counts as zero.
pub proof fn lemma_zero_to_ten(bits: u32)
    ensures
        zero_to_ten(bits) <==> exponent_of(bits) < 255 && (magnitude_of(bits) == 0 || (bits
            < 0x8000_0000 && magnitude_of(bits) <= 10 * pow2(149))),
{
    let e = exponent_of(bits);
    let f = fraction_of(bits);
    let unit = pow2(129) as int;
    assert(bits % 0x8000_0000 == e * 0x80_0000 + f);
    lemma_pow2_pos(129);
    lemma_pow2_adds(129, 20);
    assert(pow2(20) == 0x10_0000 && pow2(1) == 2) by {
        lemma2_to64();
    }
    assert(10 * pow2(149) == 0xA0_0000 * unit) by (nonlinear_arith)
        requires
            pow2(149) == unit * 0x10_0000,
    ;
    if e == 0 {
        assert(f <= 0xA0_0000 * unit) by (nonlinear_arith)
            requires
                f < 0x80_0000,
                unit >= 1,
        ;
    } else {
        let scale = pow2((e - 1) as nat) as int;
        lemma_pow2_pos((e - 1) as nat);
        assert((0x80_0000 + f) * scale > 0) by (nonlinear_arith)
            requires
                0 <= f,
                0 < scale,
        ;
        if e == 130 {
            let m = 0x80_0000 + f;
            assert(m <= 0xA0_0000 <==> m * unit <= 0xA0_0000 * unit) by (nonlinear_arith)
                requires
                    unit > 0,
            ;
        } else if e < 130 {
            let half = pow2(128) as int;
            lemma_pow2_adds(1, 128);
            if e - 1 < 128 {
                lemma_pow2_strictly_increases((e - 1) as nat, 128);
            }
            assert((0x80_0000 + f) * scale <= 0xA0_0000 * unit) by (nonlinear_arith)
                requires
                    0 <= f < 0x80_0000,
                    0 < scale <= half,
                    unit == 2 * half,
            ;
        } else {
            lemma_pow2_adds(1, 129);
            if e - 1 > 130 {
                lemma_pow2_strictly_increases(130, (e - 1) as nat);
            }
            assert((0x80_0000 + f) * scale > 0xA0_0000 * unit) by (nonlinear_arith)
                requires
                    0 <= f,
                    unit > 0,
                    scale >= 2 * unit,
            ;
        }
    }
}

/// The values that a pointer of an entity leads to are a weapon's exactly where
/// the damage is from 1 to 1000, the penetration from zero to ten and the price
/// from nothing to 20000.
pub proof fn lemma_vdata_read_back(
    mem: Map<int, u8>,
    offsets: WeaponOffsets,
    entity: u64,
    off: u64,
    vd: u64,
    damage: i32,
    penetration: u32,
    price: i32,
)
    requires
        entity + off <= u64::MAX,
        stands64(mem, entity + off, vd as int),
        vd >= 0x10000,
        vd + offsets.damage <= u64::MAX,
        vd + offsets.penetration <= u64::MAX,
        vd + offsets.price <= u64::MAX,
        stands32(mem, vd + offsets.damage, damage as int % 0x1_0000_0000),
        stands32(mem, vd + offsets.penetration, penetration as int),
        stands32(mem, vd + offsets.price, price as int % 0x1_0000_0000),
    ensures
        vdata_at(mem, offsets, entity, off) == (if 1 <= damage <= 1000 && 0 <= price <= 20000
            && exponent_of(penetration) < 255 && (magnitude_of(penetration) == 0 || (penetration
            < 0x8000_0000 && magnitude_of(penetration) <= 10 * pow2(149))) {
            Some(vd)
        } else {
            None
        }),
{
    lemma_loads(mem, entity + off, vd as int);
    lemma_loads(mem, vd + offsets.penetration, penetration as int);
    lemma_signed_load(mem, vd + offsets.damage, damage);
    lemma_signed_load(mem, vd + offsets.price, price);
    lemma_zero_to_ten(penetration);
}

proof fn lemma_signed_load(mem: Map<int, u8>, at: int, x: i32)
    requires
        stands32(mem, at, x as int % 0x1_0000_0000),
    ensures
        ldi32(mem, at) == x,
{
    lemma_loads(mem, at, x as int % 0x1_0000_0000);
    assert(ldi32(mem, at) == signed32(ld32(mem, at) as int));
    assert(signed32(x as int % 0x1_0000_0000) == x);
}

/// A whole number of a weapon is the one that stands at the place which the
/// schemas give its field.
pub proof fn lemma_weapon_numbers(
    mem: Map<int, u8>,
    classes: Seq<Class>,
    weapon: Weapon,
    model: WeaponModel,
    offset: u64,
    x: i32,
)
    requires
        offsets_in(classes) matches Some(offsets) && weapon.is(mem, offsets, model),
        model.address + offset <= u64::MAX,
        stands32(mem, model.address + offset, x as int % 0x1_0000_0000),
    ensures
        field_offset_of(classes, "CCSWeaponBaseVData"@, "m_nPrice"@) == Some(offset) ==> weapon.price == x,
        field_offset_of(classes, "CCSWeaponBaseVData"@, "m_nNumBullets"@) == Some(offset) ==> weapon.num_bullets == x,
        field_offset_of(classes, "CCSWeaponBaseVData"@, "m_nDamage"@) == Some(offset) ==> weapon.damage == x,
{
    lemma_signed_load(mem, model.address + offset, x);
}

/// A fractional number of a weapon is the one that stands at the place which the
/// schemas give its field.
pub proof fn lemma_weapon_fractions(
    mem: Map<int, u8>,
    classes: Seq<Class>,
    weapon: Weapon,
    model: WeaponModel,
    offset: u64,
    bits: u32,
)
    requires
        offsets_in(classes) matches Some(offsets) && weapon.is(mem, offsets, model),
        model.address + offset <= u64::MAX,
        stands32(mem, model.address + offset, bits as int),
    ensures
        field_offset_of(classes, "CCSWeaponBaseVData"@, "m_flCycleTime"@) == Some(offset) ==> weapon.cycle_time
            == bits,
        field_offset_of(classes, "CCSWeaponBaseVData"@, "m_flMaxSpeed"@) == Some(offset) ==> weapon.max_speed
            == bits,
        field_offset_of(classes, "CCSWeaponBaseVData"@, "m_flSpread"@) == Some(offset) ==> weapon.spread
            == bits,
        field_offset_of(classes, "CCSWeaponBaseVData"@, "m_flInaccuracyStand"@) == Some(offset) ==> weapon.inaccuracy_stand
            == bits,
        field_offset_of(classes, "CCSWeaponBaseVData"@, "m_flInaccuracyMove"@) == Some(offset) ==> weapon.inaccuracy_move
            == bits,
        field_offset_of(classes, "CCSWeaponBaseVData"@, "m_flRecoilMagnitude"@) == Some(offset) ==> weapon.recoil_magnitude
            == bits,
        field_offset_of(classes, "CCSWeaponBaseVData"@, "m_flHeadshotMultiplier"@) == Some(offset) ==> weapon.headshot_multiplier
            == bits,
        field_offset_of(classes, "CCSWeaponBaseVData"@, "m_flArmorRatio"@) == Some(offset) ==> weapon.armor_ratio
            == bits,
        field_offset_of(classes, "CCSWeaponBaseVData"@, "m_flPenetration"@) == Some(offset) ==> weapon.penetration
            == bits,
        field_offset_of(classes, "CCSWeaponBaseVData"@, "m_flRange"@) == Some(offset) ==> weapon.range
            == bits,
        field_offset_of(classes, "CCSWeaponBaseVData"@, "m_flRangeModifier"@) == Some(offset) ==> weapon.range_modifier
            == bits,
{
    lemma_loads(mem, model.address + offset, bits as int);
}

/// An entity of the list is a weapon exactly where its designer name begins with
/// `weapon_`: it is then listed with that name and its object.
pub proof fn lemma_weapon_read_back(
    mem: Map<int, u8>,
    list: u64,
    layout: EntityListLayout,
    index: int,
    chunk: u64,
    instance: u64,
    name_at: u64,
    name: Seq<char>,
)
    requires
        list + layout.chunk_array_base <= u64::MAX,
        entity_stands(mem, list, layout, index, chunk, instance, name_at, name),
        chunk + layout.chunk_entry_stride * (index % 512) <= u64::MAX,
        0 <= layout.chunk_ptr_stride * (index / 512),
        0 <= layout.chunk_entry_stride * (index % 512),
        instance != 0,
        is_ascii_chars(name),
        name.len() <= 64,
    ensures
        weapon_at(mem, list, layout, index) == (if name.len() >= 7 && name.subrange(0, 7)
            == seq!['w', 'e', 'a', 'p', 'o', 'n', '_'] {
            Some((name, instance))
        } else {
            None
        }),
{
    let slot = list + layout.chunk_array_base + layout.chunk_ptr_stride * (index / 512);
    let ident = chunk + layout.chunk_entry_stride * (index % 512);
    lemma_loads(mem, slot, chunk as int);
    lemma_loads(mem, ident + layout.identity_instance, instance as int);
    lemma_loads(mem, ident + layout.identity_designer_name, name_at as int);
    is_ascii_chars_encode_utf8(name);
    lemma_text(mem, name_at as int, name, 64);
    lemma_weapon_prefix(name);
}

proof fn lemma_weapon_prefix(name: Seq<char>)
    requires
        is_ascii_chars(name),
    ensures
        begins_with(name, "weapon_"@) <==> name.len() >= 7 && name.subrange(0, 7) == seq![
            'w',
            'e',
            'a',
            'p',
            'o',
            'n',
            '_',
        ],
{
    let prefix = seq!['w', 'e', 'a', 'p', 'o', 'n', '_'];
    reveal_strlit("weapon_");
    assert("weapon_"@ =~= prefix);
    assert(is_ascii_chars(prefix));
    is_ascii_chars_encode_utf8(name);
    is_ascii_chars_encode_utf8(prefix);
    let (b, p) = (encode_utf8(name), encode_utf8(prefix));
    if begins_with(name, "weapon_"@) {
        assert forall|j: int| 0 <= j < 7 implies name.subrange(0, 7)[j] == prefix[j] by {
            assert(b[0 + j] == p[j]);
            assert(name[j] as u8 == prefix[j] as u8);
            is_ascii_chars_nat_bound(name);
            is_ascii_chars_nat_bound(prefix);
        }
        assert(name.subrange(0, 7) =~= prefix);
    }
    if name.len() >= 7 && name.subrange(0, 7) == prefix {
        assert forall|j: int| 0 <= j < p.len() implies #[trigger] b[0 + j] == p[j] by {
            assert(name.subrange(0, 7)[j] == name[j]);
        }
    }
}

/// All of the fourteen fields are needed: where the schemas lack one there are no
/// offsets.
pub proof fn lemma_fields_needed(classes: Seq<Class>, field: Seq<char>)
    requires
        field_offset_of(classes, "CCSWeaponBaseVData"@, field) is None,
    ensures
        field == "m_nPrice"@ ==> offsets_in(classes) is None,
        field == "m_nNumBullets"@ ==> offsets_in(classes) is None,
        field == "m_flCycleTime"@ ==> offsets_in(classes) is None,
        field == "m_flMaxSpeed"@ ==> offsets_in(classes) is None,
        field == "m_flSpread"@ ==> offsets_in(classes) is None,
        field == "m_flInaccuracyStand"@ ==> offsets_in(classes) is None,
        field == "m_flInaccuracyMove"@ ==> offsets_in(classes) is None,
        field == "m_flRecoilMagnitude"@ ==> offsets_in(classes) is None,
        field == "m_nDamage"@ ==> offsets_in(classes) is None,
        field == "m_flHeadshotMultiplier"@ ==> offsets_in(classes) is None,
        field == "m_flArmorRatio"@ ==> offsets_in(classes) is None,
        field == "m_flPenetration"@ ==> offsets_in(classes) is None,
        field == "m_flRange"@ ==> offsets_in(classes) is None,
        field == "m_flRangeModifier"@ ==> offsets_in(classes) is None,
{
}

/// The places that are tried for the pointer to a weapon's values.
pub proof fn lemma_places_tried(off: u64)
    ensures
        (exists|k: int| 0 <= k < 6 && #[trigger] vdata_candidate(k) == off) <==> off == 0x388 || (
        0x338 <= off <= 0x358 && off % 8 == 0),
{
    let k: int = if off == 0x340 {
        0
    } else if off == 0x348 {
        1
    } else if off == 0x388 {
        2
    } else if off == 0x338 {
        3
    } else if off == 0x350 {
        4
    } else {
        5
    };
    if vdata_candidate(k) == off {
        assert(0 <= k < 6);
    }
}

/// As many weapons fit a place as have plausible values behind it.
pub proof fn lemma_fits_counted(
    mem: Map<int, u8>,
    offsets: WeaponOffsets,
    entities: Seq<(Seq<char>, u64)>,
    off: u64,
    n: nat,
    fitting: Set<int>,
)
    requires
        n <= entities.len(),
        fitting.finite(),
        forall|i: int| #[trigger] fitting.contains(i) ==> 0 <= i < n,
        forall|i: int|
            0 <= i < n ==> (#[trigger] fitting.contains(i) <==> vdata_at(
                mem,
                offsets,
                entities[i].1,
                off,
            ) is Some),
    ensures
        fits(mem, offsets, entities, off, n) == fitting.len(),
    decreases n,
{
    reveal(fits);
    if n > 0 {
        assert(fitting.contains(n - 1) <==> vdata_at(
            mem,
            offsets,
            entities[n - 1].1,
            off,
        ) is Some);
        lemma_fits_counted(
            mem,
            offsets,
            entities,
            off,
            (n - 1) as nat,
            fitting.remove(n - 1),
        );
        if !fitting.contains(n - 1) {
            assert(fitting.remove(n - 1) =~= fitting);
        }
    } else {
        assert(fitting =~= Set::empty());
    }
}

/// A weapon's values are looked for at the preferred place first, and at the others,
/// in their order, only where none are there.
pub proof fn lemma_values_chosen(
    mem: Map<int, u8>,
    offsets: WeaponOffsets,
    entity: u64,
    preferred: Option<u64>,
    k: int,
)
    ensures
        preferred is Some && vdata_at(mem, offsets, entity, preferred->0) is Some ==> weapon_vdata(
            mem,
            offsets,
            entity,
            preferred,
        ) == Some((vdata_at(mem, offsets, entity, preferred->0)->0, preferred->0)),
        (preferred is None || vdata_at(mem, offsets, entity, preferred->0) is None) && 0 <= k < 6
            && vdata_at(mem, offsets, entity, vdata_candidate(k)) is Some && (forall|j: int|
            0 <= j < k ==> vdata_at(mem, offsets, entity, #[trigger] vdata_candidate(j)) is None)
            ==> weapon_vdata(mem, offsets, entity, preferred) == Some(
            (vdata_at(mem, offsets, entity, vdata_candidate(k))->0, vdata_candidate(k)),
        ),
        (preferred is None || vdata_at(mem, offsets, entity, preferred->0) is None) && (forall|
            j: int,
        |
            0 <= j < 6 ==> vdata_at(mem, offsets, entity, #[trigger] vdata_candidate(j)) is None)
            ==> weapon_vdata(mem, offsets, entity, preferred) is None,
{
    if (preferred is None || vdata_at(mem, offsets, entity, preferred->0) is None) {
        if 0 <= k < 6 && vdata_at(mem, offsets, entity, vdata_candidate(k)) is Some && (forall|
            j: int,
        |
            0 <= j < k ==> vdata_at(mem, offsets, entity, #[trigger] vdata_candidate(j)) is None) {
            lemma_values_from(mem, offsets, entity, preferred, k, 0);
        }
        if forall|j: int|
            0 <= j < 6 ==> vdata_at(mem, offsets, entity, #[trigger] vdata_candidate(j)) is None {
            lemma_no_values(mem, offsets, entity, preferred, 0);
        }
    }
}

proof fn lemma_values_from(
    mem: Map<int, u8>,
    offsets: WeaponOffsets,
    entity: u64,
    preferred: Option<u64>,
    k: int,
    i: int,
)
    requires
        0 <= i <= k < 6,
        preferred is None || vdata_at(mem, offsets, entity, preferred->0) is None,
        vdata_at(mem, offsets, entity, vdata_candidate(k)) is Some,
        forall|j: int|
            0 <= j < k ==> vdata_at(mem, offsets, entity, #[trigger] vdata_candidate(j)) is None,
    ensures
        vdata_from(mem, offsets, entity, preferred, i) == Some(
            (vdata_at(mem, offsets, entity, vdata_candidate(k))->0, vdata_candidate(k)),
        ),
    decreases k - i,
{
    if i < k {
        assert(vdata_at(mem, offsets, entity, vdata_candidate(i)) is None);
        lemma_values_from(mem, offsets, entity, preferred, k, i + 1);
    }
}

proof fn lemma_no_values(
    mem: Map<int, u8>,
    offsets: WeaponOffsets,
    entity: u64,
    preferred: Option<u64>,
    i: int,
)
    requires
        0 <= i <= 6,
        forall|j: int|
            0 <= j < 6 ==> vdata_at(mem, offsets, entity, #[trigger] vdata_candidate(j)) is None,
    ensures
        vdata_from(mem, offsets, entity, preferred, i) is None,
    decreases 6 - i,
{
    if i < 6 {
        assert(vdata_at(mem, offsets, entity, vdata_candidate(i)) is None);
        lemma_no_values(mem, offsets, entity, preferred, i + 1);
    }
}

/// The name of the weapon at an index that has one.
pub open spec fn name_at_index(
    mem: Map<int, u8>,
    list: u64,
    layout: EntityListLayout,
    index: int,
) -> Seq<char> {
    (weapon_at(mem, list, layout, index)->0).0
}

/// Of the weapons of one name the one at the lowest index is listed, and every name
/// of a weapon is.
pub proof fn lemma_first_weapon(
    mem: Map<int, u8>,
    list: u64,
    layout: EntityListLayout,
    n: int,
    k: int,
)
    requires
        0 <= k < n,
        weapon_at(mem, list, layout, k) is Some,
        forall|j: int|
            0 <= j < k ==> ((#[trigger] weapon_at(mem, list, layout, j)) is None || name_at_index(
                mem,
                list,
                layout,
                j,
            ) != name_at_index(mem, list, layout, k)),
    ensures
        weapon_entities(mem, list, layout, n).contains(weapon_at(mem, list, layout, k)->0),
    decreases n,
{
    let own = weapon_at(mem, list, layout, k)->0;
    let before = weapon_entities(mem, list, layout, n - 1);
    let now = weapon_entities(mem, list, layout, n);
    if k == n - 1 {
        lemma_names_from(mem, list, layout, n - 1);
        assert(!is_known(before, own.0)) by {
            if is_known(before, own.0) {
                let i = choose|i: int| 0 <= i < before.len() && (#[trigger] before[i]).0 == own.0;
                let j = choose|j: int|
                    0 <= j < n - 1 && #[trigger] weapon_at(mem, list, layout, j) == Some(before[i]);
                assert(name_at_index(mem, list, layout, j) == own.0);
            }
        }
        assert(now[before.len() as int] == own);
    } else {
        lemma_first_weapon(mem, list, layout, n - 1, k);
        let i = choose|i: int| 0 <= i < before.len() && before[i] == own;
        assert(now[i] == own);
    }
}

proof fn lemma_names_from(mem: Map<int, u8>, list: u64, layout: EntityListLayout, n: int)
    requires
        0 <= n,
    ensures
        forall|i: int|
            0 <= i < weapon_entities(mem, list, layout, n).len() ==> exists|j: int|
                0 <= j < n && #[trigger] weapon_at(mem, list, layout, j) == Some(
                    #[trigger] weapon_entities(mem, list, layout, n)[i],
                ),
    decreases n,
{
    if n > 0 {
        lemma_names_from(mem, list, layout, n - 1);
        let before = weapon_entities(mem, list, layout, n - 1);
        let now = weapon_entities(mem, list, layout, n);
        assert forall|i: int| 0 <= i < now.len() implies exists|j: int|
            0 <= j < n && #[trigger] weapon_at(mem, list, layout, j) == Some(
                #[trigger] now[i],
            ) by {
            if i < before.len() {
                assert(now[i] == before[i]);
                let j = choose|j: int|
                    0 <= j < n - 1 && #[trigger] weapon_at(mem, list, layout, j) == Some(before[i]);
                assert(weapon_at(mem, list, layout, j) == Some(now[i]));
            } else {
                assert(weapon_at(mem, list, layout, n - 1) == Some(now[i]));
            }
        }
    }
}

/// A walk is refused where the schemas lack a field, or the global is null; any other
/// gives the weapons of the list that the global points at, in the order of their names.
pub proof fn lemma_walked(
    mem: Map<int, u8>,
    global: u64,
    list: u64,
    schemas: SchemaMap,
    weapons: Result<Vec<Weapon>, WeaponError>,
    i: int,
    j: int,
)
    requires
        walks_to(mem, global, schemas, weapons),
        stands64(mem, global as int, list as int),
    ensures
        offsets_in(all_classes(schemas)) is None ==> weapons == Err::<Vec<Weapon>, WeaponError>(
            WeaponError::FieldsMissing,
        ),
        offsets_in(all_classes(schemas)) is Some && list == 0 ==> weapons == Err::<
            Vec<Weapon>,
            WeaponError,
        >(WeaponError::NullSystem),
        offsets_in(all_classes(schemas)) is Some && list != 0 ==> {
            let found = all_weapons(mem, list, offsets_in(all_classes(schemas))->0);
            let out = weapons->Ok_0@;
            &&& weapons is Ok
            &&& out.len() == found.len()
            &&& 0 <= i < j < out.len() ==> !str_before(out[j].name@, out[i].name@)
            &&& 0 <= i < out.len() ==> exists|k: int|
                0 <= k < found.len() && out[i].name@ == (#[trigger] found[k]).name
        },
{
    lemma_loads(mem, global as int, list as int);
    if offsets_in(all_classes(schemas)) is Some && list != 0 {
        let offsets = offsets_in(all_classes(schemas))->0;
        let found = all_weapons(mem, list, offsets);
        let out = weapons->Ok_0@;
        lemma_sorted(out, mem, offsets, found, i, j);
    }
}

proof fn lemma_sorted(
    list: Seq<Weapon>,
    mem: Map<int, u8>,
    offsets: WeaponOffsets,
    models: Seq<WeaponModel>,
    i: int,
    j: int,
)
    requires
        weapons_sorted(list, mem, offsets, models),
    ensures
        list.len() == models.len(),
        0 <= i < j < list.len() ==> !str_before(list[j].name@, list[i].name@),
        0 <= i < list.len() ==> exists|k: int|
            0 <= k < models.len() && list[i].name@ == (#[trigger] models[k]).name,
{
    let p = choose|p: Seq<int>|
        #[trigger] name_order(weapon_names(models), p) && list.len() == p.len() && forall|i: int|
            0 <= i < p.len() ==> (#[trigger] list[i]).is(mem, offsets, models[p[i]]);
    if 0 <= i < list.len() {
        assert(list[i].is(mem, offsets, models[p[i]]));
        assert(list[i].name@ == models[p[i]].name);
    }
    if 0 <= i < j < list.len() {
        lemma_in_order(weapon_names(models), p, i, j);
        assert(list[j].is(mem, offsets, models[p[j]]));
    }
}

} // verus!
