//! Takes a process from the first passes over it to what is written down.

use crate::analysis::entity_anchor;
use crate::analysis::analyze::{
    analyze_all, result_of, schemas_from_system_va, system_schemas, AnalysisResult, Target,
};
use crate::analysis::buttons::{
    button_map, button_nodes, buttons_from_global, find_button_list, list_heads, ButtonMap,
};
use crate::analysis::convars::{find_registry, registry_scan, RegistryAnchor};
use crate::analysis::dyn_offsets::{recover, recovered_of, Recovered};
use crate::analysis::entity_anchor::{entity_scan, EntitySystemAnchor};
use crate::analysis::gameevents::{find_manager, manager_scan, ManagerAnchor};
use crate::analysis::global_anchor::{all_qwords, decides, module_finds, Anchor, AnchorScan};
use crate::analysis::interfaces::nested;
use crate::analysis::module_data::{find_image, image_at, image_named, image_ranges};
use crate::analysis::offsets::{lemma_image_named, OffsetMap};
use crate::analysis::read::ld64;
use crate::analysis::schema_anchor::system_found;
use crate::analysis::schemas::SchemaMap;
use crate::dump::{
    build_at, build_from, capped_count, dynamic_build_number, is_first_hit, keeps, lemma_first_hit,
    lemma_keeps_twice, lemma_keyed, lemma_overlay_counts, lemma_overlay_keeps,
    lemma_recovered_counts, lemma_recovered_keeps, lemma_symbols_finite, named_from, never_hit,
    overlaid, overlay_dynamic_offsets, read_build_number, recover_live_offsets, recovered_onto,
    resolved_pattern_va, sanitize_offset_map, sanitized, symbols_of, va_of,
};
use crate::patterns::PatternHit;
use crate::strmap::StrMap;
use vstd::prelude::*;

verus! {

/// The globals that the walks start from.
#[derive(Clone, Copy, Debug, PartialEq, Eq, Structural)]
pub struct LiveAnchors {
    pub entity_system: Option<u64>,
    pub cvar_registry: Option<u64>,
    pub event_manager: Option<u64>,
}

/// The address that a pattern gives, or else what a scan of a module's data
/// finds; nothing where there is no image of the module.
pub open spec fn anchor_of<A: Anchor>(
    anchor: &A,
    target: Target,
    hits: Seq<PatternHit>,
    pattern: Seq<char>,
    module: Seq<char>,
    scan: AnchorScan,
    found: Option<u64>,
) -> bool {
    match va_of(hits, pattern) {
        Some(va) => found == Some(va),
        None => match image_named(target.images@, module) {
            Some(k) => module_finds(
                anchor,
                target.mem@,
                target.images@[k].bytes@,
                target.images@[k].base,
                scan,
                found,
            ),
            None => found is None,
        },
    }
}

/// The globals as the patterns give them, and as a scan of the data gives those
/// that no pattern does.
pub fn resolve_live_anchors(target: &Target, hits: &Vec<PatternHit>) -> (anchors: LiveAnchors)
    requires
        target.wf(),
    ensures
        anchors_of(*target, hits@, anchors),
{
    proof {
        reveal(anchors_of);
    }
    let entity_system = match resolved_pattern_va(hits, "pEntitySystem") {
        Some(va) => Some(va),
        None => match find_image(&target.images, "client.dll") {
            Some(k) => entity_anchor::find_in_module(&target.mem, &target.images[k]),
            None => None,
        },
    };
    let cvar_registry = match resolved_pattern_va(hits, "pCvarRegistry") {
        Some(va) => Some(va),
        None => match find_image(&target.images, "tier0.dll") {
            Some(k) => find_registry(&target.mem, &target.images[k]),
            None => None,
        },
    };
    let event_manager = match resolved_pattern_va(hits, "pGameEventManager") {
        Some(va) => Some(va),
        None => match find_image(&target.images, "client.dll") {
            Some(k) => find_manager(&target.mem, &target.images[k]),
            None => None,
        },
    };
    LiveAnchors { entity_system, cvar_registry, event_manager }
}

/// The globals are those that the patterns or the data give.
#[verifier::opaque]
pub open spec fn anchors_of(target: Target, hits: Seq<PatternHit>, anchors: LiveAnchors) -> bool {
    &&& anchor_of(
        &EntitySystemAnchor,
        target,
        hits,
        "pEntitySystem"@,
        "client.dll"@,
        entity_scan(),
        anchors.entity_system,
    )
    &&& anchor_of(
        &RegistryAnchor,
        target,
        hits,
        "pCvarRegistry"@,
        "tier0.dll"@,
        registry_scan(),
        anchors.cvar_registry,
    )
    &&& anchor_of(
        &ManagerAnchor,
        target,
        hits,
        "pGameEventManager"@,
        "client.dll"@,
        manager_scan(),
        anchors.event_manager,
    )
}

/// The first of the maps from `i` on that was read and is not empty.
pub open spec fn usable_from<V>(maps: Seq<Option<StrMap<V>>>, i: int) -> Option<int>
    decreases maps.len() - i,
{
    if i >= maps.len() {
        None
    } else if maps[i] is Some && maps[i]->0.entries@.len() > 0 {
        Some(i)
    } else {
        usable_from(maps, i + 1)
    }
}

/// Takes the first of the maps that was read and is not empty, and keeps the
/// one at hand where there is none.
pub fn recover_map<V>(current: StrMap<V>, candidates: Vec<Option<StrMap<V>>>) -> (map: StrMap<V>)
    ensures
        match usable_from(candidates@, 0) {
            Some(i) => Some(map) == candidates@[i],
            None => map == current,
        },
{
    let ghost all = candidates@;
    for candidate in it: candidates
        invariant
            it.seq() == all,
            usable_from(all, 0) == usable_from(all, it.index()),
    {
        match candidate {
            Some(map) => {
                if map.len() > 0 {
                    return map;
                }
            },
            None => {},
        }
    }
    current
}

/// The global is that of the button list as a pattern gives it, or else as the
/// data of the client module does.
pub open spec fn button_global(target: Target, hits: Seq<PatternHit>, found: Option<u64>) -> bool {
    match va_of(hits, "pButtonList"@) {
        Some(va) => found == Some(va),
        None => match image_named(target.images@, "client.dll"@) {
            Some(k) => {
                let module = target.images@[k];
                match image_ranges(module.bytes@) {
                    Some(ranges) => decides(
                        list_heads(
                            module.bytes@,
                            module.base,
                            all_qwords(module.bytes@, module.base, ranges),
                        ),
                        found,
                    ),
                    None => found is None,
                }
            },
            None => found is None,
        },
    }
}

/// The buttons after a look at the list behind a global: those of the list where
/// it can be read and has any, else those at hand.
pub open spec fn buttons_after(
    target: Target,
    global: Option<u64>,
    before: Map<Seq<char>, u64>,
) -> Map<Seq<char>, u64> {
    match (global, image_named(target.images@, "client.dll"@)) {
        (Some(va), Some(k)) => {
            let module = target.images@[k];
            match button_nodes(target.mem@, ld64(target.mem@, va as int), Seq::empty()) {
                Ok(nodes) => {
                    let found = button_map(
                        target.mem@,
                        nodes,
                        module.base,
                        module.bytes@.len() as u64,
                    );
                    if found == Map::<Seq<char>, u64>::empty() {
                        before
                    } else {
                        found
                    }
                },
                Err(_) => before,
            }
        },
        _ => before,
    }
}

/// The buttons after recovery.
#[verifier::opaque]
pub open spec fn buttons_recovered(
    target: Target,
    hits: Seq<PatternHit>,
    before: Map<Seq<char>, u64>,
    after: Map<Seq<char>, u64>,
) -> bool {
    exists|global: Option<u64>| #[trigger]
        button_global(target, hits, global) && after == buttons_after(target, global, before)
}

fn recover_buttons(target: &Target, hits: &Vec<PatternHit>, current: ButtonMap) -> (map: ButtonMap)
    requires
        target.wf(),
        current.wf(),
    ensures
        map.wf(),
        buttons_recovered(*target, hits@, current.map(), map.map()),
{
    proof {
        reveal(buttons_recovered);
    }
    let client = find_image(&target.images, "client.dll");
    let global = match resolved_pattern_va(hits, "pButtonList") {
        Some(va) => Some(va),
        None => match client {
            Some(k) => find_button_list(&target.images[k]),
            None => None,
        },
    };
    assert(button_global(*target, hits@, global));
    match (global, client) {
        (Some(va), Some(k)) => {
            let module = &target.images[k];
            match buttons_from_global(&target.mem, module.base, module.bytes.len() as u64, va) {
                Ok(map) => {
                    proof {
                        map.lemma_empty();
                    }
                    if map.is_empty() {
                        current
                    } else {
                        map
                    }
                },
                Err(_) => current,
            }
        },
        _ => current,
    }
}

/// What the schema system at an address gave, where there is one that is in
/// use.
pub open spec fn schemas_at(target: Target, va: Option<u64>, found: Option<SchemaMap>) -> bool {
    match va {
        None => found is None,
        Some(address) => match system_found(target.mem@, Some(address)) {
            Err(_) => found is None,
            Ok(system) => found is Some && system_schemas(
                found->0,
                target.mem@,
                system,
                target.layout,
                target.modules@,
                target.bindings@,
            ),
        },
    }
}

fn read_schemas_at(target: &Target, va: Option<u64>) -> (found: Option<SchemaMap>)
    requires
        target.wf(),
    ensures
        found is Some ==> found->0.wf(),
        schemas_at(*target, va, found),
{
    match va {
        None => None,
        Some(address) => match schemas_from_system_va(
            &target.mem,
            address,
            &target.layout,
            &target.modules,
            &target.bindings,
        ) {
            Ok(map) => Some(map),
            Err(_) => None,
        },
    }
}

/// The maps of the schema system that the loader reported, and of the one that
/// a pattern gives.
pub open spec fn resolved_schemas(
    target: Target,
    hits: Seq<PatternHit>,
    loadlib_schema_va: Option<u64>,
    maps: Seq<Option<SchemaMap>>,
) -> bool {
    &&& maps.len() == 2
    &&& schemas_at(target, loadlib_schema_va, maps[0])
    &&& schemas_at(target, va_of(hits, "pSchemaSystem"@), maps[1])
}

/// The schemas after recovery: those of the first resolved schema system that
/// holds anything, else those at hand.
#[verifier::opaque]
pub open spec fn schemas_recovered(
    target: Target,
    hits: Seq<PatternHit>,
    loadlib_schema_va: Option<u64>,
    before: SchemaMap,
    after: SchemaMap,
) -> bool {
    exists|maps: Seq<Option<SchemaMap>>|
        {
            &&& #[trigger] resolved_schemas(target, hits, loadlib_schema_va, maps)
            &&& match usable_from(maps, 0) {
                Some(i) => Some(after) == maps[i],
                None => after == before,
            }
        }
}

fn recover_schemas(
    target: &Target,
    hits: &Vec<PatternHit>,
    loadlib_schema_va: Option<u64>,
    current: SchemaMap,
) -> (map: SchemaMap)
    requires
        target.wf(),
        current.wf(),
    ensures
        map.wf(),
        schemas_recovered(*target, hits@, loadlib_schema_va, current, map),
{
    proof {
        reveal(schemas_recovered);
    }
    let mut maps: Vec<Option<SchemaMap>> = Vec::new();
    maps.push(read_schemas_at(target, loadlib_schema_va));
    maps.push(read_schemas_at(target, resolved_pattern_va(hits, "pSchemaSystem")));
    assert(resolved_schemas(*target, hits@, loadlib_schema_va, maps@));
    proof {
        lemma_usable(maps@, 0);
    }
    recover_map(current, maps)
}

/// Replaces the schemas by those of the schema system that the loader reported,
/// or else of the one that a pattern gives, where it has any, and the buttons
/// by those of the resolved list where it has any.
pub fn recover_schema_and_buttons(
    target: &Target,
    hits: &Vec<PatternHit>,
    loadlib_schema_va: Option<u64>,
    result: AnalysisResult,
) -> (recovered: AnalysisResult)
    requires
        target.wf(),
        result.wf(),
    ensures
        recovered.wf(),
        recovered.interfaces == result.interfaces,
        recovered.offsets == result.offsets,
        recovered.vtables == result.vtables,
        schemas_recovered(*target, hits@, loadlib_schema_va, result.schemas, recovered.schemas),
        buttons_recovered(*target, hits@, result.buttons.map(), recovered.buttons.map()),
{
    AnalysisResult {
        buttons: recover_buttons(target, hits, result.buttons),
        interfaces: result.interfaces,
        offsets: result.offsets,
        schemas: recover_schemas(target, hits, loadlib_schema_va, result.schemas),
        vtables: result.vtables,
    }
}

proof fn lemma_usable<V>(maps: Seq<Option<StrMap<V>>>, i: int)
    requires
        0 <= i,
    ensures
        usable_from(maps, i) matches Some(k) ==> i <= k < maps.len() && maps[k] is Some,
    decreases maps.len() - i,
{
    if i < maps.len() {
        lemma_usable(maps, i + 1);
    }
}

/// What is known of a process before it is written down.
#[derive(Debug)]
pub struct AnalyzedDump {
    pub result: AnalysisResult,
    pub anchors: LiveAnchors,
    pub build_number: Option<u32>,
    pub dynamic_offsets_added: usize,
    pub removed_invalid_offsets: usize,
}

/// The build number that the offsets lead to, or else that which the hits do.
pub open spec fn build_of(target: Target, offsets: OffsetMap, hits: Seq<PatternHit>) -> Option<u32> {
    let named = match named_from(offsets.entries@, "dwBuildNumber"@, 0) {
        Some((module, rva)) => build_at(target.mem@, target.modules@, module, rva),
        None => None,
    };
    match named {
        Some(build) => Some(build),
        None => build_from(target.mem@, target.modules@, hits, 0),
    }
}

/// What the passes found at first, what patterns and live objects added to it,
/// and what was left of the offsets.
pub open spec fn stages(
    target: Target,
    hits: Seq<PatternHit>,
    loadlib_schema_va: Option<u64>,
    first: AnalysisResult,
    live: Seq<Recovered>,
    offsets: OffsetMap,
    dump: AnalyzedDump,
) -> bool {
    let (overlay, from_hits) = overlaid(nested(first.offsets.map()), hits, hits.len());
    let (full, from_live) = recovered_onto(overlay, live, live.len());
    &&& result_of(target, first)
    &&& dump.build_number == build_of(target, first.offsets, hits)
    &&& dump.result.interfaces == first.interfaces
    &&& dump.result.vtables == first.vtables
    &&& schemas_recovered(target, hits, loadlib_schema_va, first.schemas, dump.result.schemas)
    &&& buttons_recovered(target, hits, first.buttons.map(), dump.result.buttons.map())
    &&& anchors_of(target, hits, dump.anchors)
    &&& nested(offsets.map()) == full
    &&& dump.dynamic_offsets_added == capped_count(from_hits + from_live)
    &&& sanitized(offsets, target.modules@, dump.result.offsets, dump.removed_invalid_offsets)
}

/// The dump of a process with a set of hits.
pub open spec fn dump_of<F: Fn(Vec<u32>) -> bool>(
    target: Target,
    hits: Seq<PatternHit>,
    loadlib_schema_va: Option<u64>,
    fits: F,
    dump: AnalyzedDump,
) -> bool {
    exists|first: AnalysisResult, live: Seq<Recovered>, offsets: OffsetMap| #[trigger]
        stages(target, hits, loadlib_schema_va, first, live, offsets, dump) && recovered_of(
            live,
            target.mem@,
            dump.result.schemas,
            dump.anchors.entity_system,
            target.images@,
            fits,
        )
}

/// Runs the passes, and adds to what they found what the hits and the live
/// objects give. Offsets that lie outside their module are dropped at the end.
pub fn analyze_process<F: Fn(Vec<u32>) -> bool>(
    target: &Target,
    hits: &Vec<PatternHit>,
    loadlib_schema_va: Option<u64>,
    fits: F,
) -> (dump: AnalyzedDump)
    requires
        target.wf(),
        forall|bits: Vec<u32>| #[trigger] call_requires(fits, (bits,)),
    ensures
        dump.result.wf(),
        dump_of(*target, hits@, loadlib_schema_va, fits, dump),
{
    let mut result = analyze_all(target);
    let ghost first = result;
    let build_number = match read_build_number(&target.mem, &target.modules, &result.offsets) {
        Some(build) => Some(build),
        None => dynamic_build_number(&target.mem, &target.modules, hits),
    };
    let from_hits: usize = overlay_dynamic_offsets(&mut result.offsets, hits);
    let mut result = recover_schema_and_buttons(target, hits, loadlib_schema_va, result);
    let anchors = resolve_live_anchors(target, hits);
    let live = recover(&target.mem, &result.schemas, anchors.entity_system, &target.images, fits);
    let from_live: usize = recover_live_offsets(&mut result.offsets, &live);
    let ghost offsets = result.offsets;
    let removed: usize = sanitize_offset_map(&mut result.offsets, &target.modules);
    let dump = AnalyzedDump {
        result,
        anchors,
        build_number,
        dynamic_offsets_added: from_hits.saturating_add(from_live),
        removed_invalid_offsets: removed,
    };
    assert(stages(*target, hits@, loadlib_schema_va, first, live@, offsets, dump));
    dump
}

/// A global that a pattern gives is taken as the pattern gives it, whatever the
/// data of the modules holds.
pub proof fn lemma_patterns_first(
    target: Target,
    hits: Seq<PatternHit>,
    anchors: LiveAnchors,
    i: int,
)
    requires
        anchors_of(target, hits, anchors),
        0 <= i < hits.len(),
        hits[i].va is Some,
    ensures
        is_first_hit(hits, "pEntitySystem"@, i) ==> anchors.entity_system == hits[i].va,
        is_first_hit(hits, "pCvarRegistry"@, i) ==> anchors.cvar_registry == hits[i].va,
        is_first_hit(hits, "pGameEventManager"@, i) ==> anchors.event_manager == hits[i].va,
{
    reveal(anchors_of);
    lemma_first_hit(hits, "pEntitySystem"@, i);
    lemma_first_hit(hits, "pCvarRegistry"@, i);
    lemma_first_hit(hits, "pGameEventManager"@, i);
}

/// A global that no pattern gives is the one that the data of its module gives:
/// the entity system and the events of the client's, the registry of tier0's.
pub proof fn lemma_data_next(
    target: Target,
    hits: Seq<PatternHit>,
    anchors: LiveAnchors,
    client: int,
    tier0: int,
)
    requires
        anchors_of(target, hits, anchors),
        image_at(target.images@, "client.dll"@, client),
        image_at(target.images@, "tier0.dll"@, tier0),
    ensures
        never_hit(hits, "pEntitySystem"@) ==> module_finds(
            &EntitySystemAnchor,
            target.mem@,
            target.images@[client].bytes@,
            target.images@[client].base,
            entity_scan(),
            anchors.entity_system,
        ),
        never_hit(hits, "pCvarRegistry"@) ==> module_finds(
            &RegistryAnchor,
            target.mem@,
            target.images@[tier0].bytes@,
            target.images@[tier0].base,
            registry_scan(),
            anchors.cvar_registry,
        ),
        never_hit(hits, "pGameEventManager"@) ==> module_finds(
            &ManagerAnchor,
            target.mem@,
            target.images@[client].bytes@,
            target.images@[client].base,
            manager_scan(),
            anchors.event_manager,
        ),
{
    reveal(anchors_of);
    lemma_image_named(target.images@, "client.dll"@, client);
    lemma_image_named(target.images@, "tier0.dll"@, tier0);
    lemma_first_hit(hits, "pEntitySystem"@, 0);
    lemma_first_hit(hits, "pCvarRegistry"@, 0);
    lemma_first_hit(hits, "pGameEventManager"@, 0);
}

/// Of the maps the first that was read and holds anything is the one that is
/// used, and none is where each is missing or empty.
pub proof fn lemma_first_usable<V>(maps: Seq<Option<StrMap<V>>>, k: int)
    ensures
        0 <= k < maps.len() && maps[k] is Some && maps[k]->0.entries@.len() > 0 && (forall|j: int|
            0 <= j < k ==> (#[trigger] maps[j]) is None || maps[j]->0.entries@.len() == 0)
            ==> usable_from(maps, 0) == Some(k),
        (forall|j: int|
            0 <= j < maps.len() ==> (#[trigger] maps[j]) is None || maps[j]->0.entries@.len() == 0)
            ==> usable_from(maps, 0) is None,
{
    if 0 <= k < maps.len() && maps[k] is Some && maps[k]->0.entries@.len() > 0 && (forall|j: int|
        0 <= j < k ==> (#[trigger] maps[j]) is None || maps[j]->0.entries@.len() == 0) {
        lemma_usable_at(maps, k, 0);
    }
    if forall|j: int|
        0 <= j < maps.len() ==> (#[trigger] maps[j]) is None || maps[j]->0.entries@.len() == 0 {
        lemma_none_usable(maps, 0);
    }
}

proof fn lemma_usable_at<V>(maps: Seq<Option<StrMap<V>>>, k: int, i: int)
    requires
        0 <= i <= k < maps.len(),
        maps[k] is Some && maps[k]->0.entries@.len() > 0,
        forall|j: int|
            0 <= j < k ==> (#[trigger] maps[j]) is None || maps[j]->0.entries@.len() == 0,
    ensures
        usable_from(maps, i) == Some(k),
    decreases k - i,
{
    if i < k {
        assert(maps[i] is None || maps[i]->0.entries@.len() == 0);
        lemma_usable_at(maps, k, i + 1);
    }
}

proof fn lemma_none_usable<V>(maps: Seq<Option<StrMap<V>>>, i: int)
    requires
        0 <= i,
        forall|j: int|
            0 <= j < maps.len() ==> (#[trigger] maps[j]) is None || maps[j]->0.entries@.len() == 0,
    ensures
        usable_from(maps, i) is None,
    decreases maps.len() - i,
{
    if i < maps.len() {
        assert(maps[i] is None || maps[i]->0.entries@.len() == 0);
        lemma_none_usable(maps, i + 1);
    }
}

/// Buttons are replaced by those of the list behind the global that a pattern
/// gives, where the list can be read and has any, and else stay.
pub proof fn lemma_buttons_replaced(
    target: Target,
    hits: Seq<PatternHit>,
    before: Map<Seq<char>, u64>,
    after: Map<Seq<char>, u64>,
    i: int,
    va: u64,
    client: int,
)
    requires
        buttons_recovered(target, hits, before, after),
        is_first_hit(hits, "pButtonList"@, i),
        hits[i].va == Some(va),
        image_at(target.images@, "client.dll"@, client),
    ensures
        match button_nodes(target.mem@, ld64(target.mem@, va as int), Seq::empty()) {
            Ok(nodes) => {
                let module = target.images@[client];
                let found = button_map(target.mem@, nodes, module.base, module.bytes@.len() as u64);
                after == if found.dom() =~= Set::<Seq<char>>::empty() {
                    before
                } else {
                    found
                }
            },
            Err(_) => after == before,
        },
{
    reveal(buttons_recovered);
    lemma_first_hit(hits, "pButtonList"@, i);
    lemma_image_named(target.images@, "client.dll"@, client);
    match button_nodes(target.mem@, ld64(target.mem@, va as int), Seq::empty()) {
        Ok(nodes) => {
            let module = target.images@[client];
            let found = button_map(target.mem@, nodes, module.base, module.bytes@.len() as u64);
            if found.dom() =~= Set::<Seq<char>>::empty() {
                assert(found =~= Map::<Seq<char>, u64>::empty());
            }
        },
        Err(_) => {},
    }
}

/// Without an image of the client the buttons stay.
pub proof fn lemma_buttons_stay(
    target: Target,
    hits: Seq<PatternHit>,
    before: Map<Seq<char>, u64>,
    after: Map<Seq<char>, u64>,
)
    requires
        buttons_recovered(target, hits, before, after),
        forall|k: int| !image_at(target.images@, "client.dll"@, k),
    ensures
        after == before,
{
    reveal(buttons_recovered);
}

/// The schemas of the system that the loader reported are used where it holds
/// any, those of the system that a pattern gives where only that does, and else
/// those at hand stay.
pub proof fn lemma_schemas_replaced(
    target: Target,
    hits: Seq<PatternHit>,
    reported: Option<u64>,
    before: SchemaMap,
    after: SchemaMap,
)
    requires
        schemas_recovered(target, hits, reported, before, after),
    ensures
        exists|one: Option<SchemaMap>, two: Option<SchemaMap>|
            {
                &&& #[trigger] schemas_at(target, reported, one)
                &&& #[trigger] schemas_at(target, va_of(hits, "pSchemaSystem"@), two)
                &&& one is Some && one->0.entries@.len() > 0 ==> after == one->0
                &&& (one is None || one->0.entries@.len() == 0) && two is Some
                    && two->0.entries@.len() > 0 ==> after == two->0
                &&& (one is None || one->0.entries@.len() == 0) && (two is None
                    || two->0.entries@.len() == 0) ==> after == before
            },
        reported is None && never_hit(hits, "pSchemaSystem"@) ==> after == before,
{
    reveal(schemas_recovered);
    let maps = choose|maps: Seq<Option<SchemaMap>>|
        {
            &&& #[trigger] resolved_schemas(target, hits, reported, maps)
            &&& match usable_from(maps, 0) {
                Some(i) => Some(after) == maps[i],
                None => after == before,
            }
        };
    assert(schemas_at(target, reported, maps[0]));
    assert(schemas_at(target, va_of(hits, "pSchemaSystem"@), maps[1]));
    lemma_first_usable(maps, 0);
    lemma_first_usable(maps, 1);
    lemma_first_hit(hits, "pSchemaSystem"@, 0);
}

/// The offsets that the passes found stay with their values, up to the removal of invalid
/// ones, and what is counted as added is by how many symbols they grow.
pub proof fn lemma_growth_counted(
    target: Target,
    hits: Seq<PatternHit>,
    loadlib_schema_va: Option<u64>,
    first: AnalysisResult,
    live: Seq<Recovered>,
    offsets: OffsetMap,
    dump: AnalyzedDump,
)
    requires
        first.wf(),
        stages(target, hits, loadlib_schema_va, first, live, offsets, dump),
        symbols_of(nested(offsets.map())).len() <= usize::MAX,
    ensures
        keeps(nested(first.offsets.map()), nested(offsets.map())),
        symbols_of(nested(offsets.map())).len() == symbols_of(nested(first.offsets.map())).len()
            + dump.dynamic_offsets_added,
{
    let found = nested(first.offsets.map());
    lemma_keyed(first.offsets);
    lemma_symbols_finite(first.offsets);
    lemma_overlay_keeps(found, hits, hits.len());
    lemma_overlay_counts(found, hits, hits.len());
    let overlay = overlaid(found, hits, hits.len()).0;
    lemma_recovered_keeps(overlay, live, live.len());
    lemma_recovered_counts(overlay, live, live.len());
    lemma_keeps_twice(found, overlay, nested(offsets.map()));
}

} // verus!
