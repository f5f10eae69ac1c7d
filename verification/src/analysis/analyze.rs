//! Runs the passes over a process. A pass that fails leaves its part empty.

use crate::analysis::buttons::{button_map, button_nodes, button_pattern, buttons, ButtonMap};
use crate::analysis::interfaces::{inner_wf, interfaces, modules_map, nested, InterfaceMap};
use crate::analysis::module_data::{find_image, image_at, image_named, ModuleImage, ModuleRecord};
use crate::analysis::offsets::{
    lemma_image_named, lemma_six_modules, offsets, offsets_upto, trouble, OffsetMap,
};
use crate::analysis::pe::captured;
use crate::analysis::read::{ld64, plus};
use crate::analysis::schema_anchor::{
    head_pairs, named_scopes, read_count, read_found_system, read_raw_type_scopes,
    read_schema_system, system_found, system_of, SchemaSystem, SchemaSystemError, ScopeHead,
};
use crate::analysis::schemas::{
    read_type_scopes, sample_of, schemas_from_scopes, scope_map, scope_models, scopes_in,
    statics_of, Class, Enum, RawTypeScope, SchemaLayout, SchemaMap, TypeScope,
};
use crate::analysis::vtables::{all_tables_are, vtables, VTableClass, VTableMap};
use crate::memory::Memory;
use crate::memory::stored::{lemma_loads, stands64};
use crate::strmap::StrMap;
use vstd::prelude::*;

verus! {

/// A process as it was read.
#[derive(Debug)]
pub struct Target {
    pub mem: Memory,
    /// Live copies of its modules.
    pub images: Vec<ModuleImage>,
    /// The images in which patterns are matched: live ones, or the modules' files
    /// as they would be mapped. The latter are not relocated, so no pointer in
    /// them is followed.
    pub pe_images: Vec<ModuleImage>,
    /// Its modules, in the order in which they are listed.
    pub modules: Vec<ModuleRecord>,
    /// The shape of its schema records.
    pub layout: SchemaLayout,
    /// The bindings of the type scopes of its schema system: for the scope at an
    /// address those of its classes and those of its enums.
    pub bindings: Vec<(u64, Vec<u64>, Vec<u64>)>,
    /// The classes to which its virtual tables belong.
    pub classes: Vec<VTableClass>,
}

impl Target {
    /// The memory is well formed and every live image lies in the address space.
    pub open spec fn wf(&self) -> bool {
        &&& self.mem.wf()
        &&& forall|i: int|
            0 <= i < self.images@.len() ==> (#[trigger] self.images@[i]).base
                + self.images@[i].bytes@.len() <= u64::MAX
    }
}

/// What the passes found.
#[derive(Debug)]
pub struct AnalysisResult {
    pub buttons: ButtonMap,
    pub interfaces: InterfaceMap,
    pub offsets: OffsetMap,
    pub schemas: SchemaMap,
    pub vtables: VTableMap,
}

impl AnalysisResult {
    pub open spec fn wf(&self) -> bool {
        &&& self.buttons.wf()
        &&& self.interfaces.wf()
        &&& inner_wf(self.interfaces.map())
        &&& self.offsets.wf()
        &&& inner_wf(self.offsets.map())
        &&& self.schemas.wf()
        &&& self.vtables.wf()
        &&& inner_wf(self.vtables.map())
    }
}

/// The buttons that the code of the client module leads to.
pub open spec fn client_buttons(mem: Map<int, u8>, images: Seq<ModuleImage>) -> Map<
    Seq<char>,
    u64,
> {
    match image_named(images, "client.dll"@) {
        None => Map::empty(),
        Some(k) => {
            let module = images[k];
            match captured(module.bytes@, button_pattern()) {
                None => Map::empty(),
                Some(place) => match button_nodes(
                    mem,
                    ld64(mem, plus(module.base, place as int) as int),
                    Seq::empty(),
                ) {
                    Ok(nodes) => button_map(mem, nodes, module.base, module.bytes@.len() as u64),
                    Err(_) => Map::empty(),
                },
            }
        },
    }
}

fn analyze_buttons(target: &Target) -> (map: ButtonMap)
    requires
        target.wf(),
    ensures
        map.wf(),
        map.map() == client_buttons(target.mem@, target.images@),
{
    match find_image(&target.images, "client.dll") {
        Some(k) => match buttons(&target.mem, &target.images[k]) {
            Ok(map) => map,
            Err(_) => StrMap::new(),
        },
        None => StrMap::new(),
    }
}

/// The offsets of the modules; none at all where one of them cannot be read.
pub open spec fn known_offsets(images: Seq<ModuleImage>) -> Map<Seq<char>, Map<Seq<char>, u32>> {
    if trouble(images, 0) is None {
        offsets_upto(images, 6)
    } else {
        Map::empty()
    }
}

fn analyze_offsets(target: &Target) -> (map: OffsetMap)
    ensures
        map.wf(),
        inner_wf(map.map()),
        nested(map.map()) == known_offsets(target.pe_images@),
{
    match offsets(&target.pe_images) {
        Ok(map) => map,
        Err(_) => {
            let map: OffsetMap = StrMap::new();
            assert(nested(map.map()) =~= Map::<Seq<char>, Map<Seq<char>, u32>>::empty());
            map
        },
    }
}

/// The map holds the classes and enums of the bindings of type scopes.
pub open spec fn schemas_are(
    map: SchemaMap,
    mem: Map<int, u8>,
    layout: SchemaLayout,
    raw: Seq<RawTypeScope>,
) -> bool {
    exists|list: Seq<TypeScope>|
        #![trigger scope_models(list)]
        scope_models(list) == scopes_in(
            mem,
            layout,
            raw,
            raw.len(),
            statics_of(mem, sample_of(raw)),
        ) && map.map() == scope_map(list, list.len())
}

/// The first of the bindings from `i` on that are listed for a scope.
pub open spec fn listed_from(bindings: Seq<(u64, Vec<u64>, Vec<u64>)>, scope: u64, i: int) -> Option<
    int,
>
    decreases bindings.len() - i,
{
    if i >= bindings.len() {
        None
    } else if bindings[i].0 == scope {
        Some(i)
    } else {
        listed_from(bindings, scope, i + 1)
    }
}

/// A scope has its name, and the bindings that are listed for it.
pub open spec fn is_bound(
    scope: RawTypeScope,
    head: (u64, Seq<char>),
    bindings: Seq<(u64, Vec<u64>, Vec<u64>)>,
) -> bool {
    &&& scope.module_name@ == head.1
    &&& match listed_from(bindings, head.0, 0) {
        Some(k) => scope.class_bindings@ == bindings[k].1@ && scope.enum_bindings@
            == bindings[k].2@,
        None => scope.class_bindings@.len() == 0 && scope.enum_bindings@.len() == 0,
    }
}

/// The scopes are those that were read, in their order, each with the bindings
/// that are listed for it.
pub open spec fn bound_to(
    scopes: Seq<RawTypeScope>,
    heads: Seq<(u64, Seq<char>)>,
    bindings: Seq<(u64, Vec<u64>, Vec<u64>)>,
) -> bool {
    &&& scopes.len() == heads.len()
    &&& forall|i: int|
        0 <= i < scopes.len() ==> is_bound(#[trigger] scopes[i], heads[i], bindings)
}

fn copy_of(list: &Vec<u64>) -> (copy: Vec<u64>)
    ensures
        copy@ == list@,
{
    let mut copy: Vec<u64> = Vec::new();
    copy.extend_from_slice(list.as_slice());
    assert(copy@ =~= list@);
    copy
}

fn bind(head: ScopeHead, bindings: &Vec<(u64, Vec<u64>, Vec<u64>)>) -> (scope: RawTypeScope)
    ensures
        is_bound(scope, (head.address, head.module_name@), bindings@),
{
    let mut i: usize = 0;
    while i < bindings.len()
        invariant
            i <= bindings@.len(),
            listed_from(bindings@, head.address, 0) == listed_from(
                bindings@,
                head.address,
                i as int,
            ),
        decreases bindings@.len() - i,
    {
        if bindings[i].0 == head.address {
            return RawTypeScope {
                module_name: head.module_name,
                class_bindings: copy_of(&bindings[i].1),
                enum_bindings: copy_of(&bindings[i].2),
            };
        }
        i = i + 1;
    }
    RawTypeScope {
        module_name: head.module_name,
        class_bindings: Vec::new(),
        enum_bindings: Vec::new(),
    }
}

fn bind_all(heads: Vec<ScopeHead>, bindings: &Vec<(u64, Vec<u64>, Vec<u64>)>) -> (scopes: Vec<
    RawTypeScope,
>)
    ensures
        bound_to(scopes@, head_pairs(heads@), bindings@),
{
    let ghost all = heads@;
    let mut scopes: Vec<RawTypeScope> = Vec::new();
    for head in it: heads
        invariant
            it.seq() == all,
            scopes@.len() == it.index(),
            forall|i: int|
                0 <= i < scopes@.len() ==> is_bound(
                    #[trigger] scopes@[i],
                    head_pairs(all)[i],
                    bindings@,
                ),
    {
        scopes.push(bind(head, bindings));
    }
    scopes
}

/// The map holds the classes and enums of a schema system: of its scopes in
/// their order, each with the bindings that are listed for it.
pub open spec fn system_schemas(
    map: SchemaMap,
    mem: Map<int, u8>,
    system: SchemaSystem,
    layout: SchemaLayout,
    modules: Seq<ModuleRecord>,
    bindings: Seq<(u64, Vec<u64>, Vec<u64>)>,
) -> bool {
    exists|scopes: Seq<RawTypeScope>| #[trigger]
        bound_to(
            scopes,
            named_scopes(mem, modules, system.scope_array, read_count(system)),
            bindings,
        ) && schemas_are(map, mem, layout, scopes)
}

/// The classes and enums of a schema system.
pub fn schemas_from_system(
    mem: &Memory,
    system: &SchemaSystem,
    layout: &SchemaLayout,
    modules: &Vec<ModuleRecord>,
    bindings: &Vec<(u64, Vec<u64>, Vec<u64>)>,
) -> (map: SchemaMap)
    requires
        mem.wf(),
    ensures
        map.wf(),
        system_schemas(map, mem@, *system, *layout, modules@, bindings@),
{
    let heads = read_raw_type_scopes(mem, system, modules);
    let scopes = bind_all(heads, bindings);
    let list = read_type_scopes(mem, layout, &scopes);
    let ghost all = list@;
    let map = schemas_from_scopes(list);
    assert(scope_models(all) == scopes_in(
        mem@,
        *layout,
        scopes@,
        scopes@.len(),
        statics_of(mem@, sample_of(scopes@)),
    ));
    assert(schemas_are(map, mem@, *layout, scopes@));
    map
}

/// The classes and enums of the schema system of a module.
pub fn schemas(
    mem: &Memory,
    module: &ModuleImage,
    layout: &SchemaLayout,
    modules: &Vec<ModuleRecord>,
    bindings: &Vec<(u64, Vec<u64>, Vec<u64>)>,
) -> (map: Result<SchemaMap, SchemaSystemError>)
    requires
        mem.wf(),
        module.base + module.bytes@.len() <= u64::MAX,
    ensures
        map is Ok ==> map->Ok_0.wf(),
        schemas_in(mem@, *module, *layout, modules@, bindings@, map),
{
    proof {
        reveal(schemas_in);
    }
    let found = read_schema_system(mem, module);
    assert(system_of(mem@, module.bytes@, module.base, found));
    match found {
        Err(error) => Err(error),
        Ok(system) => Ok(schemas_from_system(mem, &system, layout, modules, bindings)),
    }
}

/// What the schema system of a module comes to: its classes and enums, or why
/// there is none.
#[verifier::opaque]
pub open spec fn schemas_in(
    mem: Map<int, u8>,
    module: ModuleImage,
    layout: SchemaLayout,
    modules: Seq<ModuleRecord>,
    bindings: Seq<(u64, Vec<u64>, Vec<u64>)>,
    map: Result<SchemaMap, SchemaSystemError>,
) -> bool {
    exists|system: Result<SchemaSystem, SchemaSystemError>|
        {
            &&& #[trigger] system_of(mem, module.bytes@, module.base, system)
            &&& match system {
                Err(error) => map is Err && map->Err_0 == error,
                Ok(found) => map is Ok && system_schemas(
                    map->Ok_0,
                    mem,
                    found,
                    layout,
                    modules,
                    bindings,
                ),
            }
        }
}

/// The classes and enums of the schema system at an address, where it is in use.
pub fn schemas_from_system_va(
    mem: &Memory,
    schema_system_va: u64,
    layout: &SchemaLayout,
    modules: &Vec<ModuleRecord>,
    bindings: &Vec<(u64, Vec<u64>, Vec<u64>)>,
) -> (map: Result<SchemaMap, SchemaSystemError>)
    requires
        mem.wf(),
    ensures
        match system_found(mem@, Some(schema_system_va)) {
            Err(error) => map is Err && map->Err_0 == error,
            Ok(system) => map is Ok && map->Ok_0.wf() && system_schemas(
                map->Ok_0,
                mem@,
                system,
                *layout,
                modules@,
                bindings@,
            ),
        },
{
    match read_found_system(mem, Some(schema_system_va)) {
        Err(error) => Err(error),
        Ok(system) => Ok(schemas_from_system(mem, &system, layout, modules, bindings)),
    }
}

/// The map that was read, and an empty one where none was.
pub open spec fn or_empty(found: Result<SchemaMap, SchemaSystemError>, map: SchemaMap) -> bool {
    match found {
        Ok(schemas) => map == schemas,
        Err(_) => map.map() == Map::<Seq<char>, (Vec<Class>, Vec<Enum>)>::empty(),
    }
}

/// The map holds the classes and enums of the schema system of a process, and
/// nothing where it has none.
pub open spec fn target_schemas(target: Target, map: SchemaMap) -> bool {
    match image_named(target.images@, "schemasystem.dll"@) {
        None => map.map() == Map::<Seq<char>, (Vec<Class>, Vec<Enum>)>::empty(),
        Some(k) => module_schemas(target, k, map),
    }
}

/// The map holds what the schema system in image `k` of a process comes to.
pub open spec fn module_schemas(target: Target, k: int, map: SchemaMap) -> bool {
    exists|found: Result<SchemaMap, SchemaSystemError>| #[trigger]
        schemas_in(
            target.mem@,
            target.images@[k],
            target.layout,
            target.modules@,
            target.bindings@,
            found,
        ) && or_empty(found, map)
}

fn analyze_schemas(target: &Target) -> (map: SchemaMap)
    requires
        target.wf(),
    ensures
        map.wf(),
        target_schemas(*target, map),
{
    match find_image(&target.images, "schemasystem.dll") {
        None => StrMap::new(),
        Some(k) => {
            let found = schemas(
                &target.mem,
                &target.images[k],
                &target.layout,
                &target.modules,
                &target.bindings,
            );
            let ghost read = found;
            let map = match found {
                Ok(map) => map,
                Err(_) => StrMap::new(),
            };
            assert(or_empty(read, map));
            assert(module_schemas(*target, k as int, map));
            map
        },
    }
}

/// The result holds what every pass finds.
#[verifier::opaque]
pub open spec fn result_of(target: Target, result: AnalysisResult) -> bool {
    &&& result.buttons.map() == client_buttons(target.mem@, target.images@)
    &&& nested(result.interfaces.map()) == modules_map(
        target.mem@,
        target.images@,
        target.images@.len(),
    )
    &&& nested(result.offsets.map()) == known_offsets(target.pe_images@)
    &&& target_schemas(target, result.schemas)
    &&& all_tables_are(
        result.vtables.map(),
        target.mem@,
        target.modules@,
        target.classes@,
        result.interfaces.map(),
    )
}

/// Runs all passes. None of them stops the others.
pub fn analyze_all(target: &Target) -> (result: AnalysisResult)
    requires
        target.wf(),
    ensures
        result.wf(),
        result_of(*target, result),
{
    proof {
        reveal(result_of);
    }
    let found = interfaces(&target.mem, &target.images);
    let tables = vtables(&target.mem, &target.modules, &found, &target.classes);
    AnalysisResult {
        buttons: analyze_buttons(target),
        interfaces: found,
        offsets: analyze_offsets(target),
        schemas: analyze_schemas(target),
        vtables: tables,
    }
}

/// The client's buttons are those of the list whose global its code names; there
/// are none without an image of the client, or where its code names no global.
pub proof fn lemma_client_buttons(
    mem: Map<int, u8>,
    images: Seq<ModuleImage>,
    client: int,
    head: u64,
)
    ensures
        (forall|k: int| !image_at(images, "client.dll"@, k)) ==> client_buttons(mem, images)
            == Map::<Seq<char>, u64>::empty(),
        image_at(images, "client.dll"@, client) ==> match captured(
            images[client].bytes@,
            "488b15${'} 4885d2 74? 488b02 4885c0"@,
        ) {
            None => client_buttons(mem, images) == Map::<Seq<char>, u64>::empty(),
            Some(place) => images[client].base + place <= u64::MAX && stands64(
                mem,
                images[client].base + place,
                head as int,
            ) ==> match button_nodes(mem, head, Seq::empty()) {
                Ok(nodes) => client_buttons(mem, images) == button_map(
                    mem,
                    nodes,
                    images[client].base,
                    images[client].bytes@.len() as u64,
                ),
                Err(_) => client_buttons(mem, images) == Map::<Seq<char>, u64>::empty(),
            },
        },
{
    if image_at(images, "client.dll"@, client) {
        lemma_image_named(images, "client.dll"@, client);
        match captured(images[client].bytes@, "488b15${'} 4885d2 74? 488b02 4885c0"@) {
            Some(place) => {
                lemma_loads(mem, images[client].base + place, head as int);
            },
            None => {},
        }
    }
}

/// A scope has the bindings of the first entry that is listed for its address, and
/// none where no entry is.
pub proof fn lemma_scope_bound(
    scopes: Seq<RawTypeScope>,
    heads: Seq<(u64, Seq<char>)>,
    bindings: Seq<(u64, Vec<u64>, Vec<u64>)>,
    i: int,
    k: int,
)
    requires
        bound_to(scopes, heads, bindings),
        0 <= i < heads.len(),
    ensures
        scopes.len() == heads.len(),
        scopes[i].module_name@ == heads[i].1,
        0 <= k < bindings.len() && bindings[k].0 == heads[i].0 && (forall|j: int|
            0 <= j < k ==> (#[trigger] bindings[j]).0 != heads[i].0) ==> scopes[i].class_bindings@
            == bindings[k].1@ && scopes[i].enum_bindings@ == bindings[k].2@,
        (forall|j: int| 0 <= j < bindings.len() ==> (#[trigger] bindings[j]).0 != heads[i].0)
            ==> scopes[i].class_bindings@.len() == 0 && scopes[i].enum_bindings@.len() == 0,
{
    assert(is_bound(scopes[i], heads[i], bindings));
    if 0 <= k < bindings.len() && bindings[k].0 == heads[i].0 && (forall|j: int|
        0 <= j < k ==> (#[trigger] bindings[j]).0 != heads[i].0) {
        lemma_listed_at(bindings, heads[i].0, k, 0);
    }
    if forall|j: int| 0 <= j < bindings.len() ==> (#[trigger] bindings[j]).0 != heads[i].0 {
        lemma_never_listed(bindings, heads[i].0, 0);
    }
}

proof fn lemma_listed_at(bindings: Seq<(u64, Vec<u64>, Vec<u64>)>, scope: u64, k: int, i: int)
    requires
        0 <= i <= k < bindings.len(),
        bindings[k].0 == scope,
        forall|j: int| 0 <= j < k ==> (#[trigger] bindings[j]).0 != scope,
    ensures
        listed_from(bindings, scope, i) == Some(k),
    decreases k - i,
{
    if i < k {
        assert(bindings[i].0 != scope);
        lemma_listed_at(bindings, scope, k, i + 1);
    }
}

proof fn lemma_never_listed(bindings: Seq<(u64, Vec<u64>, Vec<u64>)>, scope: u64, i: int)
    requires
        0 <= i,
        forall|j: int| 0 <= j < bindings.len() ==> (#[trigger] bindings[j]).0 != scope,
    ensures
        listed_from(bindings, scope, i) is None,
    decreases bindings.len() - i,
{
    if i < bindings.len() {
        assert(bindings[i].0 != scope);
        lemma_never_listed(bindings, scope, i + 1);
    }
}

/// The schemas of a process are those of its schema system's image; without one, or
/// where it has no system in use, there are none.
pub proof fn lemma_schemas_of_system(target: Target, map: SchemaMap, k: int)
    requires
        target_schemas(target, map),
    ensures
        (forall|j: int| !image_at(target.images@, "schemasystem.dll"@, j)) ==> map.map().dom()
            == Set::<Seq<char>>::empty(),
        image_at(target.images@, "schemasystem.dll"@, k) ==> exists|
            found: Result<SchemaMap, SchemaSystemError>,
        |
            {
                &&& #[trigger] schemas_in(
                    target.mem@,
                    target.images@[k],
                    target.layout,
                    target.modules@,
                    target.bindings@,
                    found,
                )
                &&& found is Ok ==> map == found->Ok_0
                &&& found is Err ==> map.map().dom() == Set::<Seq<char>>::empty()
            },
{
    if image_at(target.images@, "schemasystem.dll"@, k) {
        lemma_image_named(target.images@, "schemasystem.dll"@, k);
        let found = choose|found: Result<SchemaMap, SchemaSystemError>| #[trigger]
            schemas_in(
                target.mem@,
                target.images@[k],
                target.layout,
                target.modules@,
                target.bindings@,
                found,
            ) && or_empty(found, map);
        assert(schemas_in(
            target.mem@,
            target.images@[k],
            target.layout,
            target.modules@,
            target.bindings@,
            found,
        ));
    }
}

/// Offsets are all or nothing: where one of the six modules is missing or has no
/// valid image there are none.
pub proof fn lemma_offsets_all_or_none(images: Seq<ModuleImage>)
    ensures
        trouble(images, 0) is Some ==> known_offsets(images).dom() == Set::<Seq<char>>::empty(),
        trouble(images, 0) is None ==> known_offsets(images).dom().len() == 6,
{
    if trouble(images, 0) is None {
        lemma_six_modules(images);
    }
}

} // verus!
