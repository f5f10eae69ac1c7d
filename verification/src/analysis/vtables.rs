//! The virtual function tables of the interfaces.
//!
//! An object's first qword points at its table, which is an array of code
//! addresses that ends where one is outside every module.

use crate::analysis::interfaces::{inner_wf, InterfaceMap};
use crate::analysis::module_data::ModuleRecord;
use crate::analysis::protobufs::text_opt;
use crate::analysis::read::{ld64, le8, u64_le_at, u64_va};
use crate::memory::{raw, readable, Memory};
use crate::memory::stored::{lemma_loads, lemma_slot, stands64};
use crate::patterns::PatternHit;
use crate::strmap::{key_at, keys_ascend, StrMap};
use crate::text::{eq_ignore_case, lemma_str_order, lower_text, str_before};
use vstd::prelude::*;

verus! {

/// The most slots that are read of a table.
pub const MAX_METHODS: usize = 256;

/// A slot of a table.
#[derive(Debug)]
pub struct VTableMethod {
    /// The module that holds the method.
    pub module: String,
    /// Its offset in that module.
    pub rva: u64,
    /// The name of the pattern that resolves to it, if one does.
    pub name: Option<String>,
}

/// The table of an interface.
#[derive(Debug)]
pub struct VTableInfo {
    pub vtable_rva: u64,
    /// The module that holds the table.
    pub vtable_module: String,
    /// The class of the object, where the table's type information names it.
    pub rtti_class: Option<String>,
    pub methods: Vec<VTableMethod>,
}

/// The tables of each module's interfaces.
pub type VTableMap = StrMap<StrMap<VTableInfo>>;

/// A table's class by the address of the table.
#[derive(Debug)]
pub struct VTableClass {
    pub vtable: u64,
    pub class: String,
}

/// An address lies in a module.
pub open spec fn lies_in(va: u64, module: ModuleRecord) -> bool {
    module.base + module.size <= u64::MAX && module.base <= va < module.base + module.size
}

/// The first of the modules from `i` on that holds an address.
pub open spec fn module_from(va: u64, modules: Seq<ModuleRecord>, i: int) -> Option<int>
    decreases modules.len() - i,
{
    if i >= modules.len() {
        None
    } else if lies_in(va, modules[i]) {
        Some(i)
    } else {
        module_from(va, modules, i + 1)
    }
}

/// The module that holds an address, and its offset there; none for an address
/// that no code can have.
pub open spec fn classified(va: u64, modules: Seq<ModuleRecord>) -> Option<(Seq<char>, u64)> {
    if va < 0x10000 {
        None
    } else {
        match module_from(va, modules, 0) {
            Some(i) => Some((modules[i].name@, (va - modules[i].base) as u64)),
            None => None,
        }
    }
}

pub fn classify(va: u64, modules: &Vec<ModuleRecord>) -> (place: Option<(String, u64)>)
    ensures
        match classified(va, modules@) {
            Some((name, rva)) => place matches Some(p) && p.0@ == name && p.1 == rva,
            None => place is None,
        },
{
    if va < 0x10000 {
        return None;
    }
    let mut i: usize = 0;
    while i < modules.len()
        invariant
            va >= 0x10000,
            i <= modules@.len(),
            module_from(va, modules@, 0) == module_from(va, modules@, i as int),
        decreases modules@.len() - i,
    {
        let module = &modules[i];
        match module.base.checked_add(module.size) {
            Some(end) => {
                if module.base <= va && va < end {
                    return Some((module.name.clone(), va - module.base));
                }
            },
            None => {},
        }
        i = i + 1;
    }
    None
}

pub struct MethodModel {
    pub module: Seq<char>,
    pub rva: u64,
    pub name: Option<Seq<char>>,
}

pub struct TableModel {
    pub rva: u64,
    pub module: Seq<char>,
    pub class: Option<Seq<char>>,
    pub methods: Seq<MethodModel>,
}

impl VTableMethod {
    pub open spec fn model(&self) -> MethodModel {
        MethodModel { module: self.module@, rva: self.rva, name: text_opt(self.name) }
    }
}

pub open spec fn method_models(list: Seq<VTableMethod>) -> Seq<MethodModel> {
    Seq::new(list.len(), |i: int| list[i].model())
}

impl VTableInfo {
    pub open spec fn model(&self) -> TableModel {
        TableModel {
            rva: self.vtable_rva,
            module: self.vtable_module@,
            class: text_opt(self.rtti_class),
            methods: method_models(self.methods@),
        }
    }
}

/// The methods in the slots from `i` on, up to the first that is no code
/// address.
pub open spec fn methods_from(table: Seq<u8>, modules: Seq<ModuleRecord>, i: int) -> Seq<
    MethodModel,
>
    decreases MAX_METHODS - i,
{
    if i >= MAX_METHODS {
        Seq::empty()
    } else {
        match classified(le8(table, 8 * i) as u64, modules) {
            Some((module, rva)) => seq![MethodModel { module, rva, name: None }] + methods_from(
                table,
                modules,
                i + 1,
            ),
            None => Seq::empty(),
        }
    }
}

/// The class of a table among the classes from `i` on.
pub open spec fn class_from(classes: Seq<VTableClass>, vtable: u64, i: int) -> Option<Seq<char>>
    decreases classes.len() - i,
{
    if i >= classes.len() {
        None
    } else if classes[i].vtable == vtable {
        Some(classes[i].class@)
    } else {
        class_from(classes, vtable, i + 1)
    }
}

/// The table of the object at `instance`; none where its first qword points
/// outside every module, or where the table is empty.
pub open spec fn table_of(
    mem: Map<int, u8>,
    instance: u64,
    modules: Seq<ModuleRecord>,
    classes: Seq<VTableClass>,
) -> Option<TableModel> {
    let vtable = ld64(mem, instance as int);
    let methods = methods_from(raw(mem, vtable as int, 2048), modules, 0);
    match classified(vtable, modules) {
        Some((module, rva)) => if methods.len() == 0 {
            None
        } else {
            Some(TableModel { rva, module, class: class_from(classes, vtable, 0), methods })
        },
        None => None,
    }
}

fn read_methods(mem: &Memory, vtable: u64, modules: &Vec<ModuleRecord>) -> (methods: Vec<
    VTableMethod,
>)
    requires
        mem.wf(),
    ensures
        method_models(methods@) == methods_from(raw(mem@, vtable as int, 2048), modules@, 0),
{
    let table = mem.read_raw(vtable, 2048);
    let ghost want = methods_from(table@, modules@, 0);
    let mut methods: Vec<VTableMethod> = Vec::new();
    let mut i: usize = 0;
    assert(method_models(methods@) + want =~= want);
    while i < MAX_METHODS
        invariant
            i <= MAX_METHODS,
            table@.len() == 2048,
            want == methods_from(table@, modules@, 0),
            method_models(methods@) + methods_from(table@, modules@, i as int) == want,
        ensures
            method_models(methods@) =~= want,
        decreases MAX_METHODS - i,
    {
        let ghost done = method_models(methods@);
        match u64_le_at(table.as_slice(), 8 * i) {
            Some(va) => match classify(va, modules) {
                Some((module, rva)) => {
                    let method = VTableMethod { module, rva, name: None };
                    let ghost model = method.model();
                    let ghost rest = methods_from(table@, modules@, i + 1);
                    methods.push(method);
                    assert(method_models(methods@) =~= done.push(model));
                    assert(done + (seq![model] + rest) =~= done.push(model) + rest);
                },
                None => {
                    break ;
                },
            },
            None => {
                break ;
            },
        }
        i = i + 1;
    }
    methods
}

fn find_class(classes: &Vec<VTableClass>, vtable: u64) -> (class: Option<String>)
    ensures
        text_opt(class) == class_from(classes@, vtable, 0),
{
    let mut i: usize = 0;
    while i < classes.len()
        invariant
            i <= classes@.len(),
            class_from(classes@, vtable, 0) == class_from(classes@, vtable, i as int),
        decreases classes@.len() - i,
    {
        if classes[i].vtable == vtable {
            return Some(classes[i].class.clone());
        }
        i = i + 1;
    }
    None
}

/// Reads the table of the object at `instance_va`.
pub fn dump_one(
    mem: &Memory,
    instance_va: u64,
    modules: &Vec<ModuleRecord>,
    classes: &Vec<VTableClass>,
) -> (info: Option<VTableInfo>)
    requires
        mem.wf(),
    ensures
        match table_of(mem@, instance_va, modules@, classes@) {
            Some(model) => info matches Some(i) && i.model() == model,
            None => info is None,
        },
{
    let vtable: u64 = u64_va(mem, instance_va);
    match classify(vtable, modules) {
        None => None,
        Some((module, rva)) => {
            let methods = read_methods(mem, vtable, modules);
            assert(method_models(methods@).len() == methods@.len());
            if methods.len() == 0 {
                return None;
            }
            Some(
                VTableInfo {
                    vtable_rva: rva,
                    vtable_module: module,
                    rtti_class: find_class(classes, vtable),
                    methods,
                },
            )
        },
    }
}

/// The first of the modules from `i` on with this name, whatever its case.
pub open spec fn host_from(modules: Seq<ModuleRecord>, name: Seq<char>, i: int) -> Option<int>
    decreases modules.len() - i,
{
    if i >= modules.len() {
        None
    } else if lower_text(modules[i].name@) == lower_text(name) {
        Some(i)
    } else {
        host_from(modules, name, i + 1)
    }
}

/// The table of an interface whose object stands at an offset of a module.
#[verifier::opaque]
pub open spec fn interface_table(
    mem: Map<int, u8>,
    modules: Seq<ModuleRecord>,
    classes: Seq<VTableClass>,
    module: Seq<char>,
    rva: u64,
) -> Option<TableModel> {
    match host_from(modules, module, 0) {
        None => None,
        Some(i) => if modules[i].base + rva > u64::MAX {
            None
        } else {
            table_of(mem, (modules[i].base + rva) as u64, modules, classes)
        },
    }
}

/// The map holds exactly the tables of these interfaces of a module.
#[verifier::opaque]
pub open spec fn tables_are(
    map: Map<Seq<char>, VTableInfo>,
    mem: Map<int, u8>,
    modules: Seq<ModuleRecord>,
    classes: Seq<VTableClass>,
    module: Seq<char>,
    ifaces: Map<Seq<char>, u64>,
) -> bool {
    forall|name: Seq<char>|
        #![trigger map.contains_key(name)]
        {
            let table = interface_table(mem, modules, classes, module, ifaces[name]);
            &&& map.contains_key(name) == (ifaces.contains_key(name) && table is Some)
            &&& map.contains_key(name) ==> map[name].model() == table->0
        }
}

fn find_host(modules: &Vec<ModuleRecord>, name: &str) -> (host: Option<usize>)
    ensures
        match host {
            Some(i) => host_from(modules@, name@, 0) == Some(i as int) && i < modules@.len(),
            None => host_from(modules@, name@, 0) is None,
        },
{
    let mut i: usize = 0;
    while i < modules.len()
        invariant
            i <= modules@.len(),
            host_from(modules@, name@, 0) == host_from(modules@, name@, i as int),
        decreases modules@.len() - i,
    {
        if eq_ignore_case(modules[i].name.as_str(), name) {
            return Some(i);
        }
        i = i + 1;
    }
    None
}

/// Reads the tables of a module's interfaces.
pub fn module_vtables(
    mem: &Memory,
    modules: &Vec<ModuleRecord>,
    classes: &Vec<VTableClass>,
    module: &str,
    ifaces: &StrMap<u64>,
) -> (map: StrMap<VTableInfo>)
    requires
        mem.wf(),
        ifaces.wf(),
    ensures
        map.wf(),
        tables_are(map.map(), mem@, modules@, classes@, module@, ifaces.map()),
{
    proof {
        reveal(tables_are);
        reveal(interface_table);
    }
    let mut map: StrMap<VTableInfo> = StrMap::new();
    let host = match find_host(modules, module) {
        Some(i) => i,
        None => {
            return map;
        },
    };
    let ghost mut seen: Set<Seq<char>> = Set::empty();
    let mut i: usize = 0;
    while i < ifaces.entries.len()
        invariant
            mem.wf(),
            ifaces.wf(),
            host_from(modules@, module@, 0) == Some(host as int),
            host < modules@.len(),
            i <= ifaces.entries@.len(),
            map.wf(),
            forall|name: Seq<char>| #[trigger]
                seen.contains(name) == exists|k: int|
                    0 <= k < i && (#[trigger] ifaces.entries@[k]).0@ == name,
            forall|name: Seq<char>|
                #![trigger map.map().contains_key(name)]
                {
                    let table = interface_table(
                        mem@,
                        modules@,
                        classes@,
                        module@,
                        ifaces.map()[name],
                    );
                    &&& map.map().contains_key(name) == (seen.contains(name) && table is Some)
                    &&& map.map().contains_key(name) ==> map.map()[name].model() == table->0
                },
        decreases ifaces.entries@.len() - i,
    {
        proof {
            reveal(interface_table);
        }
        let (name, rva) = &ifaces.entries[i];
        let ghost key = name@;
        let ghost was = seen;
        let ghost before = map.map();
        proof {
            ifaces.lemma_entry(i as int);
            assert(!was.contains(key)) by {
                if was.contains(key) {
                    let k = choose|k: int| 0 <= k < i && (#[trigger] ifaces.entries@[k]).0@ == key;
                    assert(str_before(
                        ifaces.entries@[k].0@,
                        ifaces.entries@[i as int].0@,
                    ));
                    lemma_str_order(key, key, key);
                }
            }
            assert(!before.contains_key(key));
            seen = seen.insert(key);
        }
        match modules[host].base.checked_add(*rva) {
            Some(instance) => match dump_one(mem, instance, modules, classes) {
                Some(info) => {
                    let _previous = map.insert(name.clone(), info);
                },
                None => {},
            },
            None => {},
        }
        i = i + 1;
        proof {
            assert forall|n: Seq<char>| #[trigger] seen.contains(n) == exists|k: int|
                0 <= k < i && (#[trigger] ifaces.entries@[k]).0@ == n by {
                if n == key {
                    assert(ifaces.entries@[i - 1].0@ == n);
                } else if was.contains(n) {
                    let k = choose|k: int|
                        0 <= k < i - 1 && (#[trigger] ifaces.entries@[k]).0@ == n;
                    assert(ifaces.entries@[k].0@ == n);
                }
            }
            assert forall|n: Seq<char>|
                #![trigger map.map().contains_key(n)]
                ({
                    let table = interface_table(
                        mem@,
                        modules@,
                        classes@,
                        module@,
                        ifaces.map()[n],
                    );
                    &&& map.map().contains_key(n) == (seen.contains(n) && table is Some)
                    &&& map.map().contains_key(n) ==> map.map()[n].model() == table->0
                }) by {
                assert(before.contains_key(n) || !before.contains_key(n));
                assert(seen.contains(n) == (n == key || was.contains(n)));
            }
        }
    }
    proof {
        assert forall|name: Seq<char>| seen.contains(name) == #[trigger] ifaces.map().contains_key(
            name,
        ) by {
            if ifaces.map().contains_key(name) {
                let k = choose|k: int| key_at(ifaces.entries@, name, k);
                assert(ifaces.entries@[k].0@ == name);
            }
            if seen.contains(name) {
                let k = choose|k: int| 0 <= k < i && (#[trigger] ifaces.entries@[k]).0@ == name;
                ifaces.lemma_entry(k);
            }
        }
        assert forall|name: Seq<char>|
            #![trigger map.map().contains_key(name)]
            ({
                let table = interface_table(
                    mem@,
                    modules@,
                    classes@,
                    module@,
                    ifaces.map()[name],
                );
                &&& map.map().contains_key(name) == (ifaces.map().contains_key(name)
                    && table is Some)
                &&& map.map().contains_key(name) ==> map.map()[name].model() == table->0
            }) by {
            assert(seen.contains(name) == ifaces.map().contains_key(name));
        }
    }
    map
}

/// A hit that resolves to a place of a module.
pub open spec fn hits_place(hit: PatternHit, module: Seq<char>, rva: u64) -> bool {
    hit.found && hit.rva == Some(rva) && lower_text(hit.module@) == lower_text(module)
}

/// The name of the last of the first `n` hits that resolves to a place.
pub open spec fn last_name(hits: Seq<PatternHit>, module: Seq<char>, rva: u64, n: nat) -> Option<
    Seq<char>,
>
    decreases n,
{
    if n == 0 {
        None
    } else if hits_place(hits[n - 1], module, rva) {
        Some(hits[n - 1].name@)
    } else {
        last_name(hits, module, rva, (n - 1) as nat)
    }
}

/// A method after the hits named it: one that no hit resolves to keeps the name
/// it had.
pub open spec fn named_method(method: MethodModel, hits: Seq<PatternHit>) -> MethodModel {
    match last_name(hits, method.module, method.rva, hits.len()) {
        Some(name) => MethodModel { name: Some(name), ..method },
        None => method,
    }
}

/// A table after the hits named its methods.
pub open spec fn named_table(table: TableModel, hits: Seq<PatternHit>) -> TableModel {
    TableModel {
        methods: Seq::new(
            table.methods.len(),
            |i: int| named_method(table.methods[i], hits),
        ),
        ..table
    }
}

fn find_name(hits: &Vec<PatternHit>, module: &str, rva: u64) -> (name: Option<String>)
    ensures
        text_opt(name) == last_name(hits@, module@, rva, hits@.len()),
{
    let mut n: usize = hits.len();
    while n > 0
        invariant
            n <= hits@.len(),
            last_name(hits@, module@, rva, hits@.len()) == last_name(
                hits@,
                module@,
                rva,
                n as nat,
            ),
        decreases n,
    {
        let hit = &hits[n - 1];
        let here = match hit.rva {
            Some(at) => at == rva,
            None => false,
        };
        if hit.found && here && eq_ignore_case(hit.module.as_str(), module) {
            return Some(hit.name.clone());
        }
        n = n - 1;
    }
    None
}

fn name_methods(methods: &mut Vec<VTableMethod>, hits: &Vec<PatternHit>)
    ensures
        final(methods)@.len() == old(methods)@.len(),
        forall|i: int|
            0 <= i < final(methods)@.len() ==> (#[trigger] final(methods)@[i]).model()
                == named_method(old(methods)@[i].model(), hits@),
{
    let ghost was = methods@;
    let mut i: usize = 0;
    while i < methods.len()
        invariant
            methods@.len() == was.len(),
            i <= was.len(),
            forall|k: int|
                0 <= k < i ==> (#[trigger] methods@[k]).model() == named_method(
                    was[k].model(),
                    hits@,
                ),
            forall|k: int| i <= k < was.len() ==> #[trigger] methods@[k] == was[k],
        decreases was.len() - i,
    {
        let name = find_name(hits, methods[i].module.as_str(), methods[i].rva);
        match name {
            Some(n) => {
                methods[i].name = Some(n);
            },
            None => {},
        }
        i = i + 1;
    }
}

/// The tables of `now` are those of `was` with the hits' names.
pub open spec fn tables_named(
    was: Seq<(String, VTableInfo)>,
    now: Seq<(String, VTableInfo)>,
    hits: Seq<PatternHit>,
) -> bool {
    &&& now.len() == was.len()
    &&& forall|i: int|
        0 <= i < now.len() ==> (#[trigger] now[i]).0 == was[i].0 && now[i].1.model() == named_table(
            was[i].1.model(),
            hits,
        )
}

fn name_tables(tables: &mut Vec<(String, VTableInfo)>, hits: &Vec<PatternHit>)
    ensures
        tables_named(old(tables)@, final(tables)@, hits@),
{
    let ghost was = tables@;
    let mut i: usize = 0;
    while i < tables.len()
        invariant
            tables@.len() == was.len(),
            i <= was.len(),
            forall|k: int|
                0 <= k < i ==> (#[trigger] tables@[k]).0 == was[k].0 && tables@[k].1.model()
                    == named_table(was[k].1.model(), hits@),
            forall|k: int| i <= k < was.len() ==> #[trigger] tables@[k] == was[k],
        decreases was.len() - i,
    {
        let ghost before = tables@[i as int].1;
        name_methods(&mut tables[i].1.methods, hits);
        proof {
            let after = tables@[i as int].1;
            assert(method_models(after.methods@) =~= named_table(before.model(), hits@).methods);
        }
        i = i + 1;
    }
}

/// Gives each method the name of the last hit that resolves to it.
pub fn recover_names(map: &mut VTableMap, hits: &Vec<PatternHit>)
    requires
        old(map).wf(),
        inner_wf(old(map).map()),
    ensures
        final(map).wf(),
        final(map).entries@.len() == old(map).entries@.len(),
        forall|i: int|
            0 <= i < final(map).entries@.len() ==> {
                &&& (#[trigger] final(map).entries@[i]).0 == old(map).entries@[i].0
                &&& final(map).entries@[i].1.wf()
                &&& tables_named(
                    old(map).entries@[i].1.entries@,
                    final(map).entries@[i].1.entries@,
                    hits@,
                )
            },
{
    let ghost was = map.entries@;
    let ghost start = *map;
    let mut i: usize = 0;
    while i < map.entries.len()
        invariant
            was == start.entries@,
            start.wf(),
            inner_wf(start.map()),
            map.entries@.len() == was.len(),
            i <= was.len(),
            forall|k: int|
                0 <= k < i ==> {
                    &&& (#[trigger] map.entries@[k]).0 == was[k].0
                    &&& map.entries@[k].1.wf()
                    &&& tables_named(was[k].1.entries@, map.entries@[k].1.entries@, hits@)
                },
            forall|k: int| i <= k < was.len() ==> #[trigger] map.entries@[k] == was[k],
        decreases was.len() - i,
    {
        let ghost before = map.entries@[i as int].1;
        proof {
            start.lemma_entry(i as int);
            assert(before.wf());
        }
        name_tables(&mut map.entries[i].1.entries, hits);
        proof {
            let after = map.entries@[i as int].1;
            assert(keys_ascend(after.entries@)) by {
                assert forall|a: int, b: int| 0 <= a < b < after.entries@.len() implies str_before(
                    #[trigger] after.entries@[a].0@,
                    #[trigger] after.entries@[b].0@,
                ) by {
                    assert(str_before(
                        before.entries@[a].0@,
                        before.entries@[b].0@,
                    ));
                }
            }
        }
        i = i + 1;
    }
    proof {
        assert forall|a: int, b: int| 0 <= a < b < map.entries@.len() implies str_before(
            #[trigger] map.entries@[a].0@,
            #[trigger] map.entries@[b].0@,
        ) by {
            assert(str_before(was[a].0@, was[b].0@));
        }
    }
}

/// The map holds the tables of every module that has any.
pub open spec fn all_tables_are(
    map: Map<Seq<char>, StrMap<VTableInfo>>,
    mem: Map<int, u8>,
    modules: Seq<ModuleRecord>,
    classes: Seq<VTableClass>,
    interfaces: Map<Seq<char>, StrMap<u64>>,
) -> bool {
    forall|module: Seq<char>|
        #![trigger map.contains_key(module)]
        {
            &&& map.contains_key(module) ==> interfaces.contains_key(module) && map[module].wf()
                && map[module].entries@.len() > 0 && tables_are(
                map[module].map(),
                mem,
                modules,
                classes,
                module,
                interfaces[module].map(),
            )
            &&& interfaces.contains_key(module) && !map.contains_key(module) ==> forall|
                name: Seq<char>,
            | #[trigger]
                interfaces[module].map().contains_key(name) ==> interface_table(
                    mem,
                    modules,
                    classes,
                    module,
                    interfaces[module].map()[name],
                ) is None
        }
}

/// What the map holds of one module.
pub open spec fn module_done(
    map: Map<Seq<char>, StrMap<VTableInfo>>,
    mem: Map<int, u8>,
    modules: Seq<ModuleRecord>,
    classes: Seq<VTableClass>,
    module: Seq<char>,
    ifaces: Map<Seq<char>, u64>,
) -> bool {
    if map.contains_key(module) {
        map[module].wf() && map[module].entries@.len() > 0 && tables_are(
            map[module].map(),
            mem,
            modules,
            classes,
            module,
            ifaces,
        )
    } else {
        forall|name: Seq<char>| #[trigger]
            ifaces.contains_key(name) ==> interface_table(
                mem,
                modules,
                classes,
                module,
                ifaces[name],
            ) is None
    }
}

proof fn lemma_no_tables(
    map: Map<Seq<char>, VTableInfo>,
    mem: Map<int, u8>,
    modules: Seq<ModuleRecord>,
    classes: Seq<VTableClass>,
    module: Seq<char>,
    ifaces: Map<Seq<char>, u64>,
)
    requires
        tables_are(map, mem, modules, classes, module, ifaces),
        map == Map::<Seq<char>, VTableInfo>::empty(),
    ensures
        forall|name: Seq<char>| #[trigger]
            ifaces.contains_key(name) ==> interface_table(
                mem,
                modules,
                classes,
                module,
                ifaces[name],
            ) is None,
{
    reveal(tables_are);
    assert forall|name: Seq<char>| #[trigger] ifaces.contains_key(name) implies interface_table(
        mem,
        modules,
        classes,
        module,
        ifaces[name],
    ) is None by {
        assert(!map.contains_key(name));
    }
}

/// Reads the tables of all interfaces. A module without any is left out.
pub fn vtables(
    mem: &Memory,
    modules: &Vec<ModuleRecord>,
    interfaces: &InterfaceMap,
    classes: &Vec<VTableClass>,
) -> (map: VTableMap)
    requires
        mem.wf(),
        interfaces.wf(),
        inner_wf(interfaces.map()),
    ensures
        map.wf(),
        inner_wf(map.map()),
        all_tables_are(map.map(), mem@, modules@, classes@, interfaces.map()),
{
    let mut map: VTableMap = StrMap::new();
    let mut i: usize = 0;
    while i < interfaces.entries.len()
        invariant
            mem.wf(),
            interfaces.wf(),
            inner_wf(interfaces.map()),
            i <= interfaces.entries@.len(),
            map.wf(),
            forall|module: Seq<char>| #[trigger]
                map.map().contains_key(module) ==> map.map()[module].wf() && exists|k: int|
                    0 <= k < i && (#[trigger] interfaces.entries@[k]).0@ == module,
            forall|k: int|
                #![trigger interfaces.entries@[k]]
                0 <= k < i ==> module_done(
                    map.map(),
                    mem@,
                    modules@,
                    classes@,
                    interfaces.entries@[k].0@,
                    interfaces.entries@[k].1.map(),
                ),
        decreases interfaces.entries@.len() - i,
    {
        let (module, ifaces) = &interfaces.entries[i];
        let ghost key = module@;
        let ghost before = map.map();
        proof {
            interfaces.lemma_entry(i as int);
            assert(ifaces.wf());
            assert forall|k: int| 0 <= k < i implies (#[trigger] interfaces.entries@[k]).0@ != key by {
                assert(str_before(
                    interfaces.entries@[k].0@,
                    interfaces.entries@[i as int].0@,
                ));
                lemma_str_order(key, key, key);
            }
            assert(!before.contains_key(key));
        }
        let tables = module_vtables(mem, modules, classes, module.as_str(), ifaces);
        let ghost list = tables;
        proof {
            tables.lemma_empty();
        }
        if tables.len() > 0 {
            let _previous = map.insert(module.clone(), tables);
        } else {
            proof {
                lemma_no_tables(list.map(), mem@, modules@, classes@, key, ifaces.map());
            }
        }
        i = i + 1;
        proof {
            assert forall|m: Seq<char>| #[trigger] map.map().contains_key(m) implies map.map()[m].wf()
                && exists|k: int| 0 <= k < i && (#[trigger] interfaces.entries@[k]).0@ == m by {
                if m == key {
                    assert(interfaces.entries@[i - 1].0@ == m);
                } else {
                    assert(before.contains_key(m));
                    let k = choose|k: int|
                        0 <= k < i - 1 && (#[trigger] interfaces.entries@[k]).0@ == m;
                    assert(interfaces.entries@[k].0@ == m);
                }
            }
            assert forall|k: int|
                #![trigger interfaces.entries@[k]]
                0 <= k < i implies module_done(
                map.map(),
                mem@,
                modules@,
                classes@,
                interfaces.entries@[k].0@,
                interfaces.entries@[k].1.map(),
            ) by {
                if k < i - 1 {
                    let other = interfaces.entries@[k].0@;
                    assert(other != key);
                    assert(module_done(
                        before,
                        mem@,
                        modules@,
                        classes@,
                        other,
                        interfaces.entries@[k].1.map(),
                    ));
                    assert(map.map().contains_key(other) == before.contains_key(other));
                }
            }
        }
    }
    proof {
        assert forall|module: Seq<char>|
            #![trigger map.map().contains_key(module)]
            ({
                &&& map.map().contains_key(module) ==> interfaces.map().contains_key(module)
                    && map.map()[module].wf() && map.map()[module].entries@.len() > 0 && tables_are(
                    map.map()[module].map(),
                    mem@,
                    modules@,
                    classes@,
                    module,
                    interfaces.map()[module].map(),
                )
                &&& interfaces.map().contains_key(module) && !map.map().contains_key(module)
                    ==> forall|name: Seq<char>| #[trigger]
                    interfaces.map()[module].map().contains_key(name) ==> interface_table(
                        mem@,
                        modules@,
                        classes@,
                        module,
                        interfaces.map()[module].map()[name],
                    ) is None
            }) by {
            if map.map().contains_key(module) {
                let k = choose|k: int| 0 <= k < i && (#[trigger] interfaces.entries@[k]).0@ == module;
                interfaces.lemma_entry(k);
                assert(module_done(
                    map.map(),
                    mem@,
                    modules@,
                    classes@,
                    interfaces.entries@[k].0@,
                    interfaces.entries@[k].1.map(),
                ));
            } else if interfaces.map().contains_key(module) {
                let k = choose|k: int| key_at(interfaces.entries@, module, k);
                interfaces.lemma_entry(k);
                assert(module_done(
                    map.map(),
                    mem@,
                    modules@,
                    classes@,
                    interfaces.entries@[k].0@,
                    interfaces.entries@[k].1.map(),
                ));
            }
        }
    }
    map
}

/// Module `i` is the only one up to its place that holds the address.
pub open spec fn holder(va: u64, modules: Seq<ModuleRecord>, i: int) -> bool {
    &&& 0 <= i < modules.len()
    &&& modules[i].base <= va < modules[i].base + modules[i].size <= u64::MAX
    &&& forall|j: int|
        0 <= j < i ==> !((#[trigger] modules[j]).base <= va < modules[j].base + modules[j].size)
}

proof fn lemma_module_from(va: u64, modules: Seq<ModuleRecord>, i: int, k: int)
    requires
        holder(va, modules, i),
        0 <= k <= i,
    ensures
        module_from(va, modules, k) == Some(i),
    decreases i - k,
{
    if k < i {
        assert(!(modules[k].base <= va < modules[k].base + modules[k].size));
        lemma_module_from(va, modules, i, k + 1);
    }
}

/// An address of code is placed in the module that holds it, at its distance from
/// the module's base; one that no module holds, or below 0x10000, has no place.
pub proof fn lemma_classified(va: u64, modules: Seq<ModuleRecord>, i: int)
    ensures
        va >= 0x10000 && holder(va, modules, i) ==> classified(va, modules) == Some(
            (modules[i].name@, (va - modules[i].base) as u64),
        ),
        va < 0x10000 || (forall|j: int|
            0 <= j < modules.len() ==> !((#[trigger] modules[j]).base <= va < modules[j].base
                + modules[j].size)) ==> classified(va, modules) is None,
{
    if holder(va, modules, i) {
        lemma_module_from(va, modules, i, 0);
    }
    if forall|j: int|
        0 <= j < modules.len() ==> !((#[trigger] modules[j]).base <= va < modules[j].base
            + modules[j].size) {
        lemma_in_no_module(va, modules, 0);
    }
}

proof fn lemma_in_no_module(va: u64, modules: Seq<ModuleRecord>, k: int)
    requires
        0 <= k <= modules.len(),
        forall|j: int|
            0 <= j < modules.len() ==> !((#[trigger] modules[j]).base <= va < modules[j].base
                + modules[j].size),
    ensures
        module_from(va, modules, k) is None,
    decreases modules.len() - k,
{
    if k < modules.len() {
        assert(!(modules[k].base <= va < modules[k].base + modules[k].size));
        lemma_in_no_module(va, modules, k + 1);
    }
}

/// The addresses of methods stand side by side at `vtable`, and the slot behind
/// them, where the table has room for one, holds no address of code.
pub open spec fn methods_stand(
    mem: Map<int, u8>,
    modules: Seq<ModuleRecord>,
    vtable: int,
    code: Seq<u64>,
    homes: Seq<int>,
    stop: u64,
) -> bool {
    &&& code.len() <= 256
    &&& homes.len() == code.len()
    &&& forall|i: int|
        0 <= i < code.len() ==> stands64(mem, vtable + 8 * i, #[trigger] code[i] as int) && code[i]
            >= 0x10000 && holder(code[i], modules, homes[i])
    &&& if code.len() < 256 {
        &&& readable(mem, vtable, 8 * code.len() as int + 8)
        &&& stands64(mem, vtable + 8 * code.len(), stop as int)
        &&& classified(stop, modules) is None
    } else {
        readable(mem, vtable, 8 * code.len() as int)
    }
}

proof fn lemma_methods(
    mem: Map<int, u8>,
    modules: Seq<ModuleRecord>,
    vtable: u64,
    code: Seq<u64>,
    homes: Seq<int>,
    stop: u64,
    k: int,
)
    requires
        methods_stand(mem, modules, vtable as int, code, homes, stop),
        0 <= k <= code.len(),
    ensures
        methods_from(raw(mem, vtable as int, 2048), modules, k).len() == code.len() - k,
        forall|i: int|
            k <= i < code.len() ==> (#[trigger] methods_from(
                raw(mem, vtable as int, 2048),
                modules,
                k,
            )[i - k]) == (MethodModel {
                module: modules[homes[i]].name@,
                rva: (code[i] - modules[homes[i]].base) as u64,
                name: None,
            }),
    decreases code.len() - k,
{
    let table = raw(mem, vtable as int, 2048);
    if k < code.len() {
        assert(stands64(mem, vtable + 8 * k, code[k] as int));
        lemma_slot(mem, vtable as int, 2048, 8 * k, code[k] as int);
        lemma_classified(code[k], modules, homes[k]);
        lemma_methods(mem, modules, vtable, code, homes, stop, k + 1);
        let rest = methods_from(table, modules, k + 1);
        let all = methods_from(table, modules, k);
        assert forall|i: int| k <= i < code.len() implies (#[trigger] all[i - k]) == (MethodModel {
            module: modules[homes[i]].name@,
            rva: (code[i] - modules[homes[i]].base) as u64,
            name: None,
        }) by {
            if i > k {
                assert(all[i - k] == rest[i - (k + 1)]);
            }
        }
    } else if k < 256 {
        lemma_slot(mem, vtable as int, 2048, 8 * k, stop as int);
    }
}

/// An object whose first qword points at a table of methods has exactly these
/// methods, slot by slot, each placed in the module that holds it.
pub proof fn lemma_table_read_back(
    mem: Map<int, u8>,
    modules: Seq<ModuleRecord>,
    classes: Seq<VTableClass>,
    instance: u64,
    vtable: u64,
    home: int,
    code: Seq<u64>,
    homes: Seq<int>,
    stop: u64,
)
    requires
        stands64(mem, instance as int, vtable as int),
        vtable >= 0x10000,
        holder(vtable, modules, home),
        0 < code.len(),
        methods_stand(mem, modules, vtable as int, code, homes, stop),
    ensures
        table_of(mem, instance, modules, classes) is Some,
        table_of(mem, instance, modules, classes)->0.module == modules[home].name@,
        table_of(mem, instance, modules, classes)->0.rva == vtable - modules[home].base,
        table_of(mem, instance, modules, classes)->0.methods.len() == code.len(),
        forall|i: int|
            0 <= i < code.len() ==> {
                let method = #[trigger] table_of(mem, instance, modules, classes)->0.methods[i];
                &&& method.module == modules[homes[i]].name@
                &&& method.rva == code[i] - modules[homes[i]].base
                &&& method.name is None
            },
{
    lemma_loads(mem, instance as int, vtable as int);
    lemma_classified(vtable, modules, home);
    lemma_methods(mem, modules, vtable, code, homes, stop, 0);
    let methods = methods_from(raw(mem, vtable as int, 2048), modules, 0);
    assert forall|i: int| 0 <= i < code.len() implies (#[trigger] methods[i]) == (MethodModel {
        module: modules[homes[i]].name@,
        rva: (code[i] - modules[homes[i]].base) as u64,
        name: None,
    }) by {
        assert(methods[i - 0] == methods[i]);
    }
}

/// A method gets the name of the last hit that resolves to its place, and keeps
/// its own where none does.
pub proof fn lemma_method_named(method: MethodModel, hits: Seq<PatternHit>, k: int)
    ensures
        0 <= k < hits.len() && hits[k].found && hits[k].rva == Some(method.rva) && lower_text(
            hits[k].module@,
        ) == lower_text(method.module) && (forall|j: int|
            k < j < hits.len() ==> !((#[trigger] hits[j]).found && hits[j].rva == Some(method.rva)
                && lower_text(hits[j].module@) == lower_text(method.module))) ==> named_method(
            method,
            hits,
        ).name == Some(hits[k].name@),
        (forall|j: int|
            0 <= j < hits.len() ==> !((#[trigger] hits[j]).found && hits[j].rva == Some(method.rva)
                && lower_text(hits[j].module@) == lower_text(method.module))) ==> named_method(
            method,
            hits,
        ).name == method.name,
        named_method(method, hits).module == method.module,
        named_method(method, hits).rva == method.rva,
{
    if 0 <= k < hits.len() && hits_place(hits[k], method.module, method.rva) && (forall|j: int|
        k < j < hits.len() ==> !((#[trigger] hits[j]).found && hits[j].rva == Some(method.rva)
            && lower_text(hits[j].module@) == lower_text(method.module))) {
        lemma_last_name(hits, method.module, method.rva, hits.len(), k);
    }
    if forall|j: int|
        0 <= j < hits.len() ==> !((#[trigger] hits[j]).found && hits[j].rva == Some(method.rva)
            && lower_text(hits[j].module@) == lower_text(method.module)) {
        lemma_no_name(hits, method.module, method.rva, hits.len());
    }
}

proof fn lemma_last_name(hits: Seq<PatternHit>, module: Seq<char>, rva: u64, n: nat, k: int)
    requires
        0 <= k < n <= hits.len(),
        hits_place(hits[k], module, rva),
        forall|j: int| k < j < n ==> !hits_place(#[trigger] hits[j], module, rva),
    ensures
        last_name(hits, module, rva, n) == Some(hits[k].name@),
    decreases n,
{
    if k < n - 1 {
        assert(!hits_place(hits[n - 1], module, rva));
        lemma_last_name(hits, module, rva, (n - 1) as nat, k);
    }
}

proof fn lemma_no_name(hits: Seq<PatternHit>, module: Seq<char>, rva: u64, n: nat)
    requires
        n <= hits.len(),
        forall|j: int| 0 <= j < n ==> !hits_place(#[trigger] hits[j], module, rva),
    ensures
        last_name(hits, module, rva, n) is None,
    decreases n,
{
    if n > 0 {
        assert(!hits_place(hits[n - 1], module, rva));
        lemma_no_name(hits, module, rva, (n - 1) as nat);
    }
}

/// The table of an interface is that of the object at its offset behind the base of
/// the first module of its name, whatever its case; without such a module, or where the
/// address leaves the address space, there is none.
pub proof fn lemma_interface_placed(
    mem: Map<int, u8>,
    modules: Seq<ModuleRecord>,
    classes: Seq<VTableClass>,
    module: Seq<char>,
    rva: u64,
    host: int,
)
    ensures
        0 <= host < modules.len() && lower_text(modules[host].name@) == lower_text(module) && (
        forall|j: int|
            0 <= j < host ==> lower_text((#[trigger] modules[j]).name@) != lower_text(module))
            ==> interface_table(mem, modules, classes, module, rva) == if modules[host].base + rva
            <= u64::MAX {
            table_of(mem, (modules[host].base + rva) as u64, modules, classes)
        } else {
            None
        },
        (forall|j: int|
            0 <= j < modules.len() ==> lower_text((#[trigger] modules[j]).name@) != lower_text(
                module,
            )) ==> interface_table(mem, modules, classes, module, rva) is None,
{
    reveal(interface_table);
    if 0 <= host < modules.len() && lower_text(modules[host].name@) == lower_text(module) && (
    forall|j: int|
        0 <= j < host ==> lower_text((#[trigger] modules[j]).name@) != lower_text(module)) {
        lemma_host_at(modules, module, host, 0);
    }
    if forall|j: int|
        0 <= j < modules.len() ==> lower_text((#[trigger] modules[j]).name@) != lower_text(module) {
        lemma_no_host(modules, module, 0);
    }
}

proof fn lemma_host_at(modules: Seq<ModuleRecord>, name: Seq<char>, host: int, i: int)
    requires
        0 <= i <= host < modules.len(),
        lower_text(modules[host].name@) == lower_text(name),
        forall|j: int|
            0 <= j < host ==> lower_text((#[trigger] modules[j]).name@) != lower_text(name),
    ensures
        host_from(modules, name, i) == Some(host),
    decreases host - i,
{
    if i < host {
        assert(lower_text(modules[i].name@) != lower_text(name));
        lemma_host_at(modules, name, host, i + 1);
    }
}

proof fn lemma_no_host(modules: Seq<ModuleRecord>, name: Seq<char>, i: int)
    requires
        0 <= i,
        forall|j: int|
            0 <= j < modules.len() ==> lower_text((#[trigger] modules[j]).name@) != lower_text(name),
    ensures
        host_from(modules, name, i) is None,
    decreases modules.len() - i,
{
    if i < modules.len() {
        assert(lower_text(modules[i].name@) != lower_text(name));
        lemma_no_host(modules, name, i + 1);
    }
}

/// A table has the class of the first entry for its address, and none without one.
pub proof fn lemma_class_of_table(classes: Seq<VTableClass>, vtable: u64, k: int)
    ensures
        0 <= k < classes.len() && classes[k].vtable == vtable && (forall|j: int|
            0 <= j < k ==> (#[trigger] classes[j]).vtable != vtable) ==> class_from(
            classes,
            vtable,
            0,
        ) == Some(classes[k].class@),
        (forall|j: int| 0 <= j < classes.len() ==> (#[trigger] classes[j]).vtable != vtable)
            ==> class_from(classes, vtable, 0) is None,
{
    if 0 <= k < classes.len() && classes[k].vtable == vtable && (forall|j: int|
        0 <= j < k ==> (#[trigger] classes[j]).vtable != vtable) {
        lemma_class_at(classes, vtable, k, 0);
    }
    if forall|j: int| 0 <= j < classes.len() ==> (#[trigger] classes[j]).vtable != vtable {
        lemma_no_class(classes, vtable, 0);
    }
}

proof fn lemma_class_at(classes: Seq<VTableClass>, vtable: u64, k: int, i: int)
    requires
        0 <= i <= k < classes.len(),
        classes[k].vtable == vtable,
        forall|j: int| 0 <= j < k ==> (#[trigger] classes[j]).vtable != vtable,
    ensures
        class_from(classes, vtable, i) == Some(classes[k].class@),
    decreases k - i,
{
    if i < k {
        assert(classes[i].vtable != vtable);
        lemma_class_at(classes, vtable, k, i + 1);
    }
}

proof fn lemma_no_class(classes: Seq<VTableClass>, vtable: u64, i: int)
    requires
        0 <= i,
        forall|j: int| 0 <= j < classes.len() ==> (#[trigger] classes[j]).vtable != vtable,
    ensures
        class_from(classes, vtable, i) is None,
    decreases classes.len() - i,
{
    if i < classes.len() {
        assert(classes[i].vtable != vtable);
        lemma_no_class(classes, vtable, i + 1);
    }
}

} // verus!
