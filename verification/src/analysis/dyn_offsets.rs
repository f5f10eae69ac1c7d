//! Offsets of globals that are recovered without the pattern that normally
//! gives them.
//!
//! The objects here have nothing to be recognised by, but they are named by
//! where they are found: in the entity list, or behind a field that the schemas
//! place. The global is the slot of the module's writable data that holds the
//! object, where exactly one does.

use crate::analysis::entity_list;
use crate::analysis::entity_list::{
    detect_layout, detected, entities_in, entity_models, live_entities, EntityModel, LiveEntity,
    MAX_ENTITY_INDEX,
};
use crate::analysis::global_anchor::{
    find_publishing_global, globals_holding, lemma_holders_listed, slot_stands, slots_holding,
    USER_SPACE_END,
};
use crate::analysis::module_data::{
    find_image, image_named, image_ranges, writable_ranges, ModuleImage,
};
use crate::analysis::read::{ld64, le8, plus, u64_va};
use crate::analysis::schemas::{all_classes, field_offset, field_offset_of, Class, SchemaMap};
use crate::analysis::view_matrix::{find_in_image, matrix_in};
use crate::memory::Memory;
use crate::memory::stored::{lemma_loads, stands64};
use crate::text::str_eq;
use vstd::prelude::*;

verus! {

/// A recovered symbol of a module.
#[derive(Debug)]
pub struct Recovered {
    pub module: String,
    pub symbol: String,
    pub rva: u32,
}

pub struct RecoveredModel {
    pub symbol: Seq<char>,
    pub rva: u32,
}

impl Recovered {
    /// It is this symbol of the client module.
    pub open spec fn is(&self, model: RecoveredModel) -> bool {
        self.module@ == "client.dll"@ && self.symbol@ == model.symbol && self.rva == model.rva
    }
}

pub open spec fn recovered_are(list: Seq<Recovered>, models: Seq<RecoveredModel>) -> bool {
    &&& list.len() == models.len()
    &&& forall|i: int| 0 <= i < list.len() ==> (#[trigger] list[i]).is(models[i])
}

/// What an entity is looked for as.
#[derive(Clone, Copy, Debug, PartialEq, Eq, Structural)]
pub enum Kind {
    Controller,
    Pawn,
}

/// The designer names of each kind.
pub open spec fn is_kind(kind: Kind, classname: Seq<char>) -> bool {
    match kind {
        Kind::Controller => classname == "cs_player_controller"@ || classname
            == "csplayercontroller"@ || classname == "player_controller"@,
        Kind::Pawn => classname == "player"@ || classname == "cs_player_pawn"@ || classname
            == "csplayerpawn"@,
    }
}

/// Whether a designer name is that of a player controller.
pub fn is_controller(classname: &str) -> (yes: bool)
    ensures
        yes == is_kind(Kind::Controller, classname@),
{
    str_eq(classname, "cs_player_controller") || str_eq(classname, "csplayercontroller") || str_eq(
        classname,
        "player_controller",
    )
}

/// Whether a designer name is that of a player pawn.
pub fn is_pawn(classname: &str) -> (yes: bool)
    ensures
        yes == is_kind(Kind::Pawn, classname@),
{
    str_eq(classname, "player") || str_eq(classname, "cs_player_pawn") || str_eq(
        classname,
        "csplayerpawn",
    )
}

fn has_kind(kind: Kind, classname: &str) -> (yes: bool)
    ensures
        yes == is_kind(kind, classname@),
{
    match kind {
        Kind::Controller => is_controller(classname),
        Kind::Pawn => is_pawn(classname),
    }
}

/// The offset of the global that publishes an object: of the only slot that
/// holds it.
pub open spec fn published_rva(
    image: Seq<u8>,
    base: u64,
    ranges: Seq<(u64, u64)>,
    object: u64,
) -> Option<u32> {
    let slots = slots_holding(image, base, ranges, object);
    if slots.len() == 1 && base <= slots[0] && slots[0] - base <= u32::MAX {
        Some((slots[0] - base) as u32)
    } else {
        None
    }
}

pub fn publishing_rva(image: &[u8], base: u64, ranges: &[(u64, u64)], object: u64) -> (rva: Option<
    u32,
>)
    ensures
        rva == published_rva(image@, base, ranges@, object),
{
    match find_publishing_global(image, base, ranges, object) {
        Some(slot) => if base <= slot && slot - base <= 0xFFFF_FFFF {
            Some((slot - base) as u32)
        } else {
            None
        },
        None => None,
    }
}

/// The rules object that the first of the entities from `i` on leads to which
/// is a rules proxy and leads to one.
pub open spec fn rules_from(
    mem: Map<int, u8>,
    entities: Seq<EntityModel>,
    offset: u64,
    i: int,
) -> Option<u64>
    decreases entities.len() - i,
{
    if i >= entities.len() {
        None
    } else {
        let rules = ld64(mem, plus(entities[i].instance, offset as int) as int);
        if entities[i].classname == "cs_gamerules"@ && 0x10000 <= rules < USER_SPACE_END {
            Some(rules)
        } else {
            rules_from(mem, entities, offset, i + 1)
        }
    }
}

/// The rules object of the game.
pub open spec fn rules_of(mem: Map<int, u8>, classes: Seq<Class>, entities: Seq<EntityModel>) -> Option<
    u64,
> {
    match field_offset_of(classes, "C_CSGameRulesProxy"@, "m_pGameRules"@) {
        Some(offset) => rules_from(mem, entities, offset, 0),
        None => None,
    }
}

pub fn game_rules(mem: &Memory, schemas: &SchemaMap, entities: &Vec<LiveEntity>) -> (rules: Option<
    u64,
>)
    requires
        mem.wf(),
    ensures
        rules == rules_of(mem@, all_classes(*schemas), entity_models(entities@)),
{
    let offset: u64 = match field_offset(schemas, "C_CSGameRulesProxy", "m_pGameRules") {
        Some(o) => o,
        None => {
            return None;
        },
    };
    let ghost models = entity_models(entities@);
    let mut i: usize = 0;
    while i < entities.len()
        invariant
            mem.wf(),
            i <= entities@.len(),
            models == entity_models(entities@),
            rules_of(mem@, all_classes(*schemas), models) == rules_from(
                mem@,
                models,
                offset,
                i as int,
            ),
        decreases entities@.len() - i,
    {
        assert(models[i as int] == entities@[i as int].model());
        if str_eq(entities[i].classname.as_str(), "cs_gamerules") {
            let rules: u64 = u64_va(mem, entities[i].instance.wrapping_add(offset));
            if 0x10000 <= rules && rules < USER_SPACE_END {
                return Some(rules);
            }
        }
        i = i + 1;
    }
    None
}

/// An entity of a kind that a global holds.
pub open spec fn is_published(
    image: Seq<u8>,
    base: u64,
    ranges: Seq<(u64, u64)>,
    entity: EntityModel,
    kind: Kind,
) -> bool {
    is_kind(kind, entity.classname) && slots_holding(image, base, ranges, entity.instance).len() > 0
}

/// The object `object` is the only one of a kind that a global holds.
pub open spec fn sole_object(
    image: Seq<u8>,
    base: u64,
    ranges: Seq<(u64, u64)>,
    entities: Seq<EntityModel>,
    kind: Kind,
    object: u64,
) -> bool {
    &&& exists|i: int|
        0 <= i < entities.len() && is_published(image, base, ranges, #[trigger] entities[i], kind)
            && entities[i].instance == object
    &&& forall|i: int|
        0 <= i < entities.len() && is_published(image, base, ranges, #[trigger] entities[i], kind)
            ==> entities[i].instance == object
}

/// The only object of a kind that a global holds, if there is one.
pub open spec fn sole_of(
    image: Seq<u8>,
    base: u64,
    ranges: Seq<(u64, u64)>,
    entities: Seq<EntityModel>,
    kind: Kind,
) -> Option<u64> {
    if exists|object: u64| sole_object(image, base, ranges, entities, kind, object) {
        Some(choose|object: u64| sole_object(image, base, ranges, entities, kind, object))
    } else {
        None
    }
}

/// The only object of a kind that the module keeps a pointer to: a match has
/// many players, but the client points at its own.
pub fn sole_published(
    image: &[u8],
    base: u64,
    ranges: &[(u64, u64)],
    entities: &Vec<LiveEntity>,
    kind: Kind,
) -> (object: Option<u64>)
    ensures
        object == sole_of(image@, base, ranges@, entity_models(entities@), kind),
{
    let ghost models = entity_models(entities@);
    let mut found: Option<u64> = None;
    let ghost mut at: int = 0;
    let mut i: usize = 0;
    while i < entities.len()
        invariant
            i <= entities@.len(),
            models == entity_models(entities@),
            found is None ==> forall|k: int|
                0 <= k < i ==> !is_published(image@, base, ranges@, #[trigger] models[k], kind),
            found matches Some(object) ==> {
                &&& 0 <= at < i
                &&& is_published(image@, base, ranges@, models[at], kind)
                &&& models[at].instance == object
                &&& forall|k: int|
                    0 <= k < i && is_published(image@, base, ranges@, #[trigger] models[k], kind)
                        ==> models[k].instance == object
            },
        decreases entities@.len() - i,
    {
        assert(models[i as int] == entities@[i as int].model());
        if has_kind(kind, entities[i].classname.as_str()) {
            let instance: u64 = entities[i].instance;
            let slots = globals_holding(image, base, ranges, instance);
            if slots.len() > 0 {
                assert(is_published(image@, base, ranges@, models[i as int], kind));
                match found {
                    None => {
                        found = Some(instance);
                        proof {
                            at = i as int;
                        }
                    },
                    Some(earlier) => {
                        if earlier != instance {
                            assert forall|object: u64| !sole_object(
                                image@,
                                base,
                                ranges@,
                                models,
                                kind,
                                object,
                            ) by {
                                if sole_object(image@, base, ranges@, models, kind, object) {
                                    assert(models[at].instance == object);
                                    assert(models[i as int].instance == object);
                                }
                            }
                            return None;
                        }
                    },
                }
            } else {
                assert(slots_holding(image@, base, ranges@, instance).len() == 0);
            }
        }
        i = i + 1;
    }
    proof {
        match found {
            Some(object) => {
                assert(sole_object(image@, base, ranges@, models, kind, object));
                let other = choose|o: u64| sole_object(image@, base, ranges@, models, kind, o);
                assert(models[at].instance == other);
            },
            None => {
                assert forall|object: u64| !sole_object(
                    image@,
                    base,
                    ranges@,
                    models,
                    kind,
                    object,
                ) by {}
            },
        }
    }
    found
}

/// A symbol whose object is published, behind the symbols before it.
pub open spec fn offered(
    before: Seq<RecoveredModel>,
    symbol: Seq<char>,
    image: Seq<u8>,
    base: u64,
    ranges: Seq<(u64, u64)>,
    object: Option<u64>,
) -> Seq<RecoveredModel> {
    match object {
        Some(o) => match published_rva(image, base, ranges, o) {
            Some(rva) => before.push(RecoveredModel { symbol, rva }),
            None => before,
        },
        None => before,
    }
}

/// The symbol of the view matrix, where it was found in the module.
pub open spec fn matrix_symbol(base: u64, view_matrix: Option<u64>) -> Seq<RecoveredModel> {
    match view_matrix {
        Some(va) => if base <= va && va - base <= u32::MAX {
            seq![RecoveredModel { symbol: "dwViewMatrix"@, rva: (va - base) as u32 }]
        } else {
            Seq::empty()
        },
        None => Seq::empty(),
    }
}

/// What is recovered: the view matrix, and from the live entities the rules
/// object and the local player's controller and pawn.
pub open spec fn recovered_in(
    mem: Map<int, u8>,
    classes: Seq<Class>,
    entity_system_global: Option<u64>,
    image: Seq<u8>,
    base: u64,
    ranges: Seq<(u64, u64)>,
    view_matrix: Option<u64>,
) -> Seq<RecoveredModel> {
    let first = matrix_symbol(base, view_matrix);
    match entity_system_global {
        None => first,
        Some(global) => {
            let list = ld64(mem, global as int);
            let entities = entities_in(
                mem,
                list,
                detected(mem, list),
                MAX_ENTITY_INDEX as int,
            );
            if list < 0x10000 {
                first
            } else {
                let second = offered(
                    first,
                    "dwGameRules"@,
                    image,
                    base,
                    ranges,
                    rules_of(mem, classes, entities),
                );
                let third = offered(
                    second,
                    "dwLocalPlayerController"@,
                    image,
                    base,
                    ranges,
                    sole_of(image, base, ranges, entities, Kind::Controller),
                );
                offered(
                    third,
                    "dwLocalPlayerPawn"@,
                    image,
                    base,
                    ranges,
                    sole_of(image, base, ranges, entities, Kind::Pawn),
                )
            }
        },
    }
}

fn offer(
    out: &mut Vec<Recovered>,
    symbol: &str,
    image: &[u8],
    base: u64,
    ranges: &[(u64, u64)],
    object: Option<u64>,
    Ghost(before): Ghost<Seq<RecoveredModel>>,
)
    requires
        recovered_are(old(out)@, before),
    ensures
        recovered_are(
            final(out)@,
            offered(before, symbol@, image@, base, ranges@, object),
        ),
{
    match object {
        Some(o) => match publishing_rva(image, base, ranges, o) {
            Some(rva) => {
                out.push(
                    Recovered {
                        module: "client.dll".to_owned(),
                        symbol: symbol.to_owned(),
                        rva,
                    },
                );
            },
            None => {},
        },
        None => {},
    }
}

/// Recovers what the live process and the schemas show of the client module's
/// globals. Without the global of the entity system only the view matrix is
/// recovered, whose address is given where it was found.
pub fn recover_in(
    mem: &Memory,
    schemas: &SchemaMap,
    entity_system_global: Option<u64>,
    image: &[u8],
    base: u64,
    ranges: &[(u64, u64)],
    view_matrix: Option<u64>,
) -> (list: Vec<Recovered>)
    requires
        mem.wf(),
    ensures
        recovered_are(
            list@,
            recovered_in(
                mem@,
                all_classes(*schemas),
                entity_system_global,
                image@,
                base,
                ranges@,
                view_matrix,
            ),
        ),
{
    let mut out: Vec<Recovered> = Vec::new();
    match view_matrix {
        Some(va) => {
            if base <= va && va - base <= 0xFFFF_FFFF {
                out.push(
                    Recovered {
                        module: "client.dll".to_owned(),
                        symbol: "dwViewMatrix".to_owned(),
                        rva: (va - base) as u32,
                    },
                );
            }
        },
        None => {},
    }
    let ghost first = matrix_symbol(base, view_matrix);
    assert(recovered_are(out@, first));
    let global: u64 = match entity_system_global {
        Some(g) => g,
        None => {
            return out;
        },
    };
    let list: u64 = u64_va(mem, global);
    if list < 0x10000 {
        return out;
    }
    let layout = detect_layout(mem, list);
    let entities = live_entities(mem, list, layout);
    let ghost models = entity_models(entities@);
    let rules = game_rules(mem, schemas, &entities);
    offer(&mut out, "dwGameRules", image, base, ranges, rules, Ghost(first));
    let ghost second = offered(first, "dwGameRules"@, image@, base, ranges@, rules);
    let controller = sole_published(image, base, ranges, &entities, Kind::Controller);
    offer(&mut out, "dwLocalPlayerController", image, base, ranges, controller, Ghost(second));
    let ghost third = offered(
        second,
        "dwLocalPlayerController"@,
        image@,
        base,
        ranges@,
        controller,
    );
    let pawn = sole_published(image, base, ranges, &entities, Kind::Pawn);
    offer(&mut out, "dwLocalPlayerPawn", image, base, ranges, pawn, Ghost(third));
    out
}

/// A symbol is never a guess between globals: an object that two slots hold is
/// not offered.
pub proof fn lemma_ambiguous_declined(
    image: Seq<u8>,
    base: u64,
    ranges: Seq<(u64, u64)>,
    object: u64,
)
    requires
        slots_holding(image, base, ranges, object).len() != 1,
    ensures
        published_rva(image, base, ranges, object) is None,
{
}

/// What the image of a module with its view matrix gives.
pub open spec fn recovered_from<F: Fn(Vec<u32>) -> bool>(
    list: Seq<Recovered>,
    mem: Map<int, u8>,
    schemas: SchemaMap,
    entity_system_global: Option<u64>,
    module: ModuleImage,
    ranges: Seq<(u64, u64)>,
    fits: F,
) -> bool {
    exists|view_matrix: Option<u64>| #[trigger]
        matrix_in(module.bytes@, module.base, ranges, fits, view_matrix) && recovered_are(
            list,
            recovered_in(
                mem,
                all_classes(schemas),
                entity_system_global,
                module.bytes@,
                module.base,
                ranges,
                view_matrix,
            ),
        )
}

/// What the image of the client module and the objects that it leads to give.
#[verifier::opaque]
pub open spec fn recovered_of<F: Fn(Vec<u32>) -> bool>(
    list: Seq<Recovered>,
    mem: Map<int, u8>,
    schemas: SchemaMap,
    entity_system_global: Option<u64>,
    images: Seq<ModuleImage>,
    fits: F,
) -> bool {
    match image_named(images, "client.dll"@) {
        None => list.len() == 0,
        Some(k) => match image_ranges(images[k].bytes@) {
            None => list.len() == 0,
            Some(ranges) => recovered_from(
                list,
                mem,
                schemas,
                entity_system_global,
                images[k],
                ranges,
                fits,
            ),
        },
    }
}

/// Recovers offsets from the client module; nothing where there is no image of
/// it.
pub fn recover<F: Fn(Vec<u32>) -> bool>(
    mem: &Memory,
    schemas: &SchemaMap,
    entity_system_global: Option<u64>,
    images: &Vec<ModuleImage>,
    fits: F,
) -> (list: Vec<Recovered>)
    requires
        mem.wf(),
        forall|bits: Vec<u32>| #[trigger] call_requires(fits, (bits,)),
    ensures
        recovered_of(list@, mem@, *schemas, entity_system_global, images@, fits),
{
    proof {
        reveal(recovered_of);
    }
    let k: usize = match find_image(images, "client.dll") {
        Some(k) => k,
        None => {
            return Vec::new();
        },
    };
    let module = &images[k];
    let image = module.bytes.as_slice();
    let ranges = match writable_ranges(image) {
        Some(ranges) => ranges,
        None => {
            return Vec::new();
        },
    };
    let view_matrix = find_in_image(image, module.base, ranges.as_slice(), fits);
    recover_in(
        mem,
        schemas,
        entity_system_global,
        image,
        module.base,
        ranges.as_slice(),
        view_matrix,
    )
}

proof fn lemma_rules_from(
    mem: Map<int, u8>,
    entities: Seq<EntityModel>,
    offset: u64,
    k: int,
    i: int,
    rules: u64,
)
    requires
        0 <= i <= k < entities.len(),
        entities[k].classname == "cs_gamerules"@,
        entities[k].instance + offset <= u64::MAX,
        stands64(mem, entities[k].instance + offset, rules as int),
        0x10000 <= rules < 0x8000_0000_0000,
        forall|j: int| 0 <= j < k ==> (#[trigger] entities[j]).classname != "cs_gamerules"@,
    ensures
        rules_from(mem, entities, offset, i) == Some(rules),
    decreases k - i,
{
    if i < k {
        assert(entities[i].classname != "cs_gamerules"@);
        lemma_rules_from(mem, entities, offset, k, i + 1, rules);
    } else {
        lemma_loads(mem, entities[k].instance + offset, rules as int);
    }
}

/// The rules object is the one that the first `cs_gamerules` entity points at, in
/// the field that the schemas give the proxy of the game rules.
pub proof fn lemma_rules_read_back(
    mem: Map<int, u8>,
    classes: Seq<Class>,
    entities: Seq<EntityModel>,
    offset: u64,
    k: int,
    rules: u64,
)
    requires
        field_offset_of(classes, "C_CSGameRulesProxy"@, "m_pGameRules"@) == Some(offset),
        0 <= k < entities.len(),
        entities[k].classname == "cs_gamerules"@,
        entities[k].instance + offset <= u64::MAX,
        stands64(mem, entities[k].instance + offset, rules as int),
        0x10000 <= rules < 0x8000_0000_0000,
        forall|j: int| 0 <= j < k ==> (#[trigger] entities[j]).classname != "cs_gamerules"@,
    ensures
        rules_of(mem, classes, entities) == Some(rules),
{
    lemma_rules_from(mem, entities, offset, k, 0, rules);
}

/// An object that one global holds is published at the distance of that global
/// from the module's base, as far as 32 bits reach; one that no global holds is
/// not published.
pub proof fn lemma_published(
    image: Seq<u8>,
    base: u64,
    ranges: Seq<(u64, u64)>,
    object: u64,
    rva: u32,
)
    ensures
        published_rva(image, base, ranges, object) == Some(rva) ==> slot_stands(
            image.len() as int,
            ranges,
            rva as int,
        ) && le8(image, rva as int) == object,
        (forall|offset: int| #[trigger]
            slot_stands(image.len() as int, ranges, offset) ==> le8(image, offset) != object)
            ==> published_rva(image, base, ranges, object) is None,
        slots_holding(image, base, ranges, object).len() > 1 ==> published_rva(
            image,
            base,
            ranges,
            object,
        ) is None,
        slots_holding(image, base, ranges, object) == seq![(base + rva) as u64] && base + rva
            <= u64::MAX ==> published_rva(image, base, ranges, object) == Some(rva),
{
    let slots = slots_holding(image, base, ranges, object);
    if slots.len() == 1 {
        assert(slots.contains(slots[0]));
        lemma_holders_listed(image, base, ranges, object, slots[0]);
        assert(slot_stands(image.len() as int, ranges, slots[0] - base));
    }
}

/// What is recovered is, in this order and as far as it is found, the view
/// matrix, the rules object, and the controller and the pawn of the local player,
/// each under its name and with the offset of its global.
pub proof fn lemma_recovered(
    mem: Map<int, u8>,
    classes: Seq<Class>,
    global: u64,
    list: u64,
    image: Seq<u8>,
    base: u64,
    ranges: Seq<(u64, u64)>,
    matrix: u32,
    rules: u64,
    rules_rva: u32,
    controller: u64,
    controller_rva: u32,
    pawn: u64,
    pawn_rva: u32,
)
    requires
        stands64(mem, global as int, list as int),
        list >= 0x10000,
        base + matrix <= u64::MAX,
        ({
            let entities = entities_in(mem, list, detected(mem, list), 0x8000);
            &&& rules_of(mem, classes, entities) == Some(rules)
            &&& sole_object(image, base, ranges, entities, Kind::Controller, controller)
            &&& sole_object(image, base, ranges, entities, Kind::Pawn, pawn)
        }),
        published_rva(image, base, ranges, rules) == Some(rules_rva),
        published_rva(image, base, ranges, controller) == Some(controller_rva),
        published_rva(image, base, ranges, pawn) == Some(pawn_rva),
    ensures
        ({
            let all = recovered_in(
                mem,
                classes,
                Some(global),
                image,
                base,
                ranges,
                Some((base + matrix) as u64),
            );
            &&& all.len() == 4
            &&& all[0].symbol == "dwViewMatrix"@ && all[0].rva == matrix
            &&& all[1].symbol == "dwGameRules"@ && all[1].rva == rules_rva
            &&& all[2].symbol == "dwLocalPlayerController"@ && all[2].rva == controller_rva
            &&& all[3].symbol == "dwLocalPlayerPawn"@ && all[3].rva == pawn_rva
        }),
{
    lemma_loads(mem, global as int, list as int);
    let entities = entities_in(mem, list, detected(mem, list), 0x8000);
    lemma_sole(image, base, ranges, entities, Kind::Controller, controller);
    lemma_sole(image, base, ranges, entities, Kind::Pawn, pawn);
}

proof fn lemma_sole(
    image: Seq<u8>,
    base: u64,
    ranges: Seq<(u64, u64)>,
    entities: Seq<EntityModel>,
    kind: Kind,
    object: u64,
)
    requires
        sole_object(image, base, ranges, entities, kind, object),
    ensures
        sole_of(image, base, ranges, entities, kind) == Some(object),
{
    let other = choose|o: u64| sole_object(image, base, ranges, entities, kind, o);
    let i = choose|i: int|
        0 <= i < entities.len() && is_published(image, base, ranges, #[trigger] entities[i], kind)
            && entities[i].instance == object;
    assert(entities[i].instance == other);
}

/// No designer name is that of a controller and of a pawn.
pub proof fn lemma_kinds_apart(classname: Seq<char>)
    ensures
        !(is_kind(Kind::Controller, classname) && is_kind(Kind::Pawn, classname)),
        is_kind(Kind::Controller, classname) ==> classname.len() == 20 || classname.len() == 18
            || classname.len() == 17,
        is_kind(Kind::Pawn, classname) ==> classname.len() == 6 || classname.len() == 14
            || classname.len() == 12,
{
    reveal_strlit("cs_player_controller");
    reveal_strlit("csplayercontroller");
    reveal_strlit("player_controller");
    reveal_strlit("player");
    reveal_strlit("cs_player_pawn");
    reveal_strlit("csplayerpawn");
    assert("cs_player_controller"@.len() == 20);
    assert("csplayercontroller"@.len() == 18);
    assert("player_controller"@.len() == 17);
    assert("player"@.len() == 6);
    assert("cs_player_pawn"@.len() == 14);
    assert("csplayerpawn"@.len() == 12);
}

} // verus!
