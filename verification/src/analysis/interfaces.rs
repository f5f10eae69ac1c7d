//! The interfaces that the modules register.
//!
//! A registration has its factory at +0x00, its name at +0x08 and the next
//! registration at +0x10. The factory begins with an instruction that refers to
//! the interface's object.

use crate::analysis::global_anchor::{head64, read_head};
use crate::analysis::module_data::ModuleImage;
use crate::analysis::pe::{exported, find_export};
use crate::analysis::read::{ld32, ld64, ldi32, signed32, text_at, text_in, u64_va};
use crate::memory::{raw, readable, Memory};
use crate::memory::address::{rel32, resolve_rip};
use crate::memory::stored::{lemma_heads, lemma_loads, lemma_text, stands32, stands64, stands_text};
use crate::order::AddrSet;
use crate::strmap::StrMap;
use crate::text::{ascii_lower, lower_text};
use vstd::prelude::*;
use vstd::utf8::*;

verus! {

pub const MAX_INTERFACE_REGISTRATIONS: usize = 16_384;

pub const REG_FACTORY: u64 = 0x00;

pub const REG_NAME: u64 = 0x08;

pub const REG_NEXT: u64 = 0x10;

pub const REG_SIZE: usize = 0x18;

/// The interfaces of each module by name, each with the offset of its object.
pub type InterfaceMap = StrMap<StrMap<u64>>;

/// Why a list of registrations could not be read.
#[derive(Clone, Copy, Debug, PartialEq, Eq, Structural)]
pub enum InterfaceError {
    /// The list comes back to the registration at this address.
    Cycle(u64),
    /// The list has more than `MAX_INTERFACE_REGISTRATIONS` registrations.
    TooMany,
    /// The factory at this address refers to nothing in the address space.
    BadFactory(u64),
}

pub open spec fn reg_record(mem: Map<int, u8>, ptr: u64) -> Seq<u8> {
    raw(mem, ptr as int, REG_SIZE as nat)
}

pub open spec fn reg_factory(mem: Map<int, u8>, ptr: u64) -> u64 {
    head64(reg_record(mem, ptr), REG_FACTORY as int)
}

pub open spec fn reg_name(mem: Map<int, u8>, ptr: u64) -> Seq<char> {
    text_in(mem, head64(reg_record(mem, ptr), REG_NAME as int) as int, 128)
}

pub open spec fn reg_next(mem: Map<int, u8>, ptr: u64) -> u64 {
    head64(reg_record(mem, ptr), REG_NEXT as int)
}

/// The object that a registration's factory refers to.
pub open spec fn reg_object(mem: Map<int, u8>, ptr: u64) -> Option<u64> {
    rel32(mem, reg_factory(mem, ptr) as int, 3)
}

/// The registrations from `ptr` on, behind those in `seen`.
pub open spec fn registrations(mem: Map<int, u8>, ptr: u64, seen: Seq<u64>) -> Result<
    Seq<u64>,
    InterfaceError,
>
    decreases MAX_INTERFACE_REGISTRATIONS + 1 - seen.len(),
{
    if ptr == 0 {
        Ok(Seq::empty())
    } else if seen.contains(ptr) {
        Err(InterfaceError::Cycle(ptr))
    } else if seen.len() >= MAX_INTERFACE_REGISTRATIONS {
        Err(InterfaceError::TooMany)
    } else if reg_object(mem, ptr) is None {
        Err(InterfaceError::BadFactory(reg_factory(mem, ptr)))
    } else {
        match registrations(mem, reg_next(mem, ptr), seen.push(ptr)) {
            Ok(rest) => Ok(seq![ptr] + rest),
            Err(error) => Err(error),
        }
    }
}

/// The interfaces of a list of registrations: those whose object stands at or
/// behind the module's base. Of two with one name the later counts.
pub open spec fn interface_map(mem: Map<int, u8>, nodes: Seq<u64>, base: u64) -> Map<Seq<char>, u64>
    decreases nodes.len(),
{
    if nodes.len() == 0 {
        Map::empty()
    } else {
        let before = interface_map(mem, nodes.drop_last(), base);
        match reg_object(mem, nodes.last()) {
            Some(object) => if object >= base {
                before.insert(reg_name(mem, nodes.last()), (object - base) as u64)
            } else {
                before
            },
            None => before,
        }
    }
}

/// A list that is read to its end names no registration twice and has at most
/// `MAX_INTERFACE_REGISTRATIONS`.
pub proof fn lemma_registrations_distinct(mem: Map<int, u8>, ptr: u64, seen: Seq<u64>)
    requires
        registrations(mem, ptr, seen) is Ok,
        seen.len() <= MAX_INTERFACE_REGISTRATIONS,
    ensures
        registrations(mem, ptr, seen)->Ok_0.len() + seen.len() <= MAX_INTERFACE_REGISTRATIONS,
        forall|i: int|
            0 <= i < registrations(mem, ptr, seen)->Ok_0.len() ==> !seen.contains(
                #[trigger] registrations(mem, ptr, seen)->Ok_0[i],
            ),
        forall|i: int, j: int|
            0 <= i < j < registrations(mem, ptr, seen)->Ok_0.len() ==> #[trigger] registrations(
                mem,
                ptr,
                seen,
            )->Ok_0[i] != #[trigger] registrations(mem, ptr, seen)->Ok_0[j],
    decreases MAX_INTERFACE_REGISTRATIONS + 1 - seen.len(),
{
    if ptr != 0 {
        let next = reg_next(mem, ptr);
        let more = seen.push(ptr);
        lemma_registrations_distinct(mem, next, more);
        let all = registrations(mem, ptr, seen)->Ok_0;
        let rest = registrations(mem, next, more)->Ok_0;
        assert(more[seen.len() as int] == ptr);
        assert forall|i: int| 0 <= i < all.len() implies !seen.contains(#[trigger] all[i]) by {
            if i > 0 {
                assert(all[i] == rest[i - 1]);
                if seen.contains(rest[i - 1]) {
                    let k = choose|k: int| 0 <= k < seen.len() && seen[k] == rest[i - 1];
                    assert(more[k] == rest[i - 1]);
                }
            }
        }
        assert forall|i: int, j: int| 0 <= i < j < all.len() implies #[trigger] all[i]
            != #[trigger] all[j] by {
            assert(all[j] == rest[j - 1]);
            if i > 0 {
                assert(all[i] == rest[i - 1]);
            } else {
                assert(more.contains(ptr));
            }
        }
    }
}

/// Reads the list whose first registration is at `list_head`.
pub fn read_interfaces(mem: &Memory, module_base: u64, list_head: u64) -> (map: Result<
    StrMap<u64>,
    InterfaceError,
>)
    requires
        mem.wf(),
    ensures
        match registrations(mem@, list_head, Seq::empty()) {
            Ok(nodes) => {
                &&& map is Ok
                &&& map->Ok_0.wf()
                &&& map->Ok_0.map() == interface_map(mem@, nodes, module_base)
            },
            Err(error) => map is Err && map->Err_0 == error,
        },
{
    let mut result: StrMap<u64> = StrMap::new();
    let mut seen = AddrSet::new();
    let mut count: usize = 0;
    let mut ptr: u64 = list_head;
    let ghost want = registrations(mem@, list_head, Seq::empty());
    let ghost mut nodes: Seq<u64> = Seq::empty();
    proof {
        if want is Ok {
            assert(nodes + want->Ok_0 =~= want->Ok_0);
        }
    }
    while ptr != 0
        invariant
            mem.wf(),
            want == registrations(mem@, list_head, Seq::empty()),
            count == nodes.len(),
            count <= MAX_INTERFACE_REGISTRATIONS,
            forall|a: u64| #[trigger] seen@.contains(a) == nodes.contains(a),
            result.wf(),
            result.map() == interface_map(mem@, nodes, module_base),
            match registrations(mem@, ptr, nodes) {
                Ok(rest) => want == Ok::<Seq<u64>, InterfaceError>(nodes + rest),
                Err(error) => want == Err::<Seq<u64>, InterfaceError>(error),
            },
        decreases MAX_INTERFACE_REGISTRATIONS - count,
    {
        if seen.contains(ptr) {
            return Err(InterfaceError::Cycle(ptr));
        }
        if count >= MAX_INTERFACE_REGISTRATIONS {
            return Err(InterfaceError::TooMany);
        }
        let record = read_head(mem, ptr, REG_SIZE);
        let name = text_at(mem, record.u64(REG_NAME), 128);
        let factory: u64 = record.u64(REG_FACTORY);
        let object: u64 = match resolve_rip(mem, factory) {
            Some(o) => o,
            None => {
                return Err(InterfaceError::BadFactory(factory));
            },
        };
        let next: u64 = record.u64(REG_NEXT);
        let ghost was = nodes;
        proof {
            nodes = nodes.push(ptr);
            assert(nodes.drop_last() =~= was);
            match registrations(mem@, next, nodes) {
                Ok(rest) => {
                    assert(was + (seq![ptr] + rest) =~= nodes + rest);
                },
                Err(_) => {},
            }
        }
        if object >= module_base {
            let _previous = result.insert(name, object - module_base);
        }
        let _fresh = seen.insert(ptr);
        proof {
            assert forall|a: u64| #[trigger] seen@.contains(a) == nodes.contains(a) by {
                assert(nodes[was.len() as int] == ptr);
                if was.contains(a) {
                    let k = choose|k: int| 0 <= k < was.len() && was[k] == a;
                    assert(nodes[k] == a);
                }
            }
        }
        count = count + 1;
        ptr = next;
    }
    assert(nodes + Seq::<u64>::empty() =~= nodes);
    Ok(result)
}

/// The head of the list that a module's `CreateInterface` refers to.
pub open spec fn list_head_of(mem: Map<int, u8>, module: ModuleImage) -> Option<u64> {
    match exported(module.bytes@, "CreateInterface"@) {
        None => None,
        Some(rva) => if module.base + rva > u64::MAX {
            None
        } else {
            match rel32(mem, module.base + rva, 3) {
                Some(list) => Some(ld64(mem, list as int)),
                None => None,
            }
        },
    }
}

/// The interfaces of a list, if it can be read and holds any.
pub open spec fn listed_interfaces(mem: Map<int, u8>, head: Option<u64>, base: u64) -> Option<
    Map<Seq<char>, u64>,
> {
    match head {
        None => None,
        Some(at) => match registrations(mem, at, Seq::empty()) {
            Ok(nodes) => {
                let map = interface_map(mem, nodes, base);
                if map == Map::<Seq<char>, u64>::empty() {
                    None
                } else {
                    Some(map)
                }
            },
            Err(_) => None,
        },
    }
}

/// The interfaces of a list, if it can be read and holds any.
pub fn interfaces_at(mem: &Memory, head: Option<u64>, base: u64) -> (map: Option<StrMap<u64>>)
    requires
        mem.wf(),
    ensures
        match listed_interfaces(mem@, head, base) {
            Some(want) => map matches Some(m) && m.wf() && m.map() == want,
            None => map is None,
        },
{
    match head {
        None => None,
        Some(at) => match read_interfaces(mem, base, at) {
            Ok(map) => {
                proof {
                    map.lemma_empty();
                }
                if map.len() == 0 {
                    None
                } else {
                    Some(map)
                }
            },
            Err(_) => None,
        },
    }
}

fn find_list_head(mem: &Memory, module: &ModuleImage) -> (head: Option<u64>)
    requires
        mem.wf(),
    ensures
        head == list_head_of(mem@, *module),
{
    match find_export(module.bytes.as_slice(), "CreateInterface") {
        None => None,
        Some(rva) => match module.base.checked_add(rva as u64) {
            None => None,
            Some(symbol) => match resolve_rip(mem, symbol) {
                Some(list) => Some(u64_va(mem, list)),
                None => None,
            },
        },
    }
}

/// The contents of a map of maps.
pub open spec fn nested<V>(map: Map<Seq<char>, StrMap<V>>) -> Map<Seq<char>, Map<Seq<char>, V>> {
    Map::new(|key: Seq<char>| map.contains_key(key), |key: Seq<char>| map[key].map())
}

/// Every inner map is well-formed.
pub open spec fn inner_wf<V>(map: Map<Seq<char>, StrMap<V>>) -> bool {
    forall|key: Seq<char>| #[trigger] map.contains_key(key) ==> map[key].wf()
}

/// The interfaces of the first `n` modules, by module name in lower case. Of
/// two modules with one name the later counts.
pub open spec fn modules_map(mem: Map<int, u8>, modules: Seq<ModuleImage>, n: nat) -> Map<
    Seq<char>,
    Map<Seq<char>, u64>,
>
    decreases n,
{
    if n == 0 {
        Map::empty()
    } else {
        let before = modules_map(mem, modules, (n - 1) as nat);
        let module = modules[n - 1];
        match listed_interfaces(mem, list_head_of(mem, module), module.base) {
            Some(map) => before.insert(lower_text(module.name@), map),
            None => before,
        }
    }
}

/// The interfaces of all modules that register any.
#[verifier::rlimit(40)]
pub fn interfaces(mem: &Memory, modules: &Vec<ModuleImage>) -> (map: InterfaceMap)
    requires
        mem.wf(),
    ensures
        map.wf(),
        inner_wf(map.map()),
        nested(map.map()) == modules_map(mem@, modules@, modules@.len()),
{
    let mut map: InterfaceMap = StrMap::new();
    let mut i: usize = 0;
    assert(nested(map.map()) =~= Map::<Seq<char>, Map<Seq<char>, u64>>::empty());
    while i < modules.len()
        invariant
            mem.wf(),
            i <= modules@.len(),
            map.wf(),
            inner_wf(map.map()),
            nested(map.map()) == modules_map(mem@, modules@, i as nat),
        decreases modules@.len() - i,
    {
        let head = find_list_head(mem, &modules[i]);
        match interfaces_at(mem, head, modules[i].base) {
            Some(list) => {
                let name = ascii_lower(modules[i].name.as_str());
                let ghost was = map.map();
                let ghost key = name@;
                let ghost inner = list;
                let _previous = map.insert(name, list);
                assert(nested(map.map()) =~= nested(was).insert(key, inner.map()));
            },
            None => {},
        }
        i = i + 1;
    }
    map
}

/// What a registration says, and where it stands: its factory, whose first
/// instruction refers to the object, and its name.
pub struct RegistrationImage {
    pub at: u64,
    pub factory: u64,
    pub object: u64,
    pub name_at: u64,
    pub name: Seq<char>,
}

/// A registration stands where it says, with the one at `next` behind it.
pub open spec fn registration_stands(
    mem: Map<int, u8>,
    r: RegistrationImage,
    next: u64,
) -> bool {
    &&& r.at != 0
    &&& r.at + 0x18 <= u64::MAX
    &&& readable(mem, r.at as int, 0x18)
    &&& stands64(mem, r.at as int, r.factory as int)
    &&& stands64(mem, r.at + 0x08, r.name_at as int)
    &&& stands64(mem, r.at + 0x10, next as int)
    &&& r.factory + 7 <= u64::MAX
    &&& -0x8000_0000 <= r.object - (r.factory + 7) < 0x8000_0000
    &&& stands32(mem, r.factory + 3, (r.object - (r.factory + 7)) % 0x1_0000_0000)
    &&& stands_text(mem, r.name_at as int, r.name)
    &&& encode_utf8(r.name).len() <= 128
}

/// The addresses of a list of registrations.
pub open spec fn registration_addresses(list: Seq<RegistrationImage>) -> Seq<u64> {
    Seq::new(list.len(), |i: int| list[i].at)
}

/// Registrations stand linked to each other, the last to `tail`.
pub open spec fn registrations_stand(
    mem: Map<int, u8>,
    list: Seq<RegistrationImage>,
    tail: u64,
) -> bool {
    &&& forall|k: int|
        0 <= k < list.len() ==> registration_stands(
            mem,
            #[trigger] list[k],
            if k + 1 < list.len() {
                list[k + 1].at
            } else {
                tail
            },
        )
    &&& forall|j: int, k: int|
        0 <= j < k < list.len() ==> (#[trigger] list[j]).at != (#[trigger] list[k]).at
}

proof fn lemma_registration(mem: Map<int, u8>, r: RegistrationImage, next: u64)
    requires
        registration_stands(mem, r, next),
    ensures
        reg_next(mem, r.at) == next,
        reg_name(mem, r.at) == r.name,
        reg_object(mem, r.at) == Some(r.object),
{
    lemma_heads(mem, r.at as int, 0x18, 0x00, r.factory as int);
    lemma_heads(mem, r.at as int, 0x18, 0x08, r.name_at as int);
    lemma_heads(mem, r.at as int, 0x18, 0x10, next as int);
    lemma_text(mem, r.name_at as int, r.name, 128);
    let distance = r.object - (r.factory + 7);
    lemma_loads(mem, r.factory + 3, distance % 0x1_0000_0000);
    if distance < 0 {
        assert(distance % 0x1_0000_0000 == distance + 0x1_0000_0000);
    }
    let field = r.factory + 3;
    assert(ldi32(mem, field) == signed32(ld32(mem, field) as int));
    assert(reg_factory(mem, r.at) == r.factory);
}

proof fn lemma_registration_chain(
    mem: Map<int, u8>,
    list: Seq<RegistrationImage>,
    tail: u64,
    k: int,
)
    requires
        registrations_stand(mem, list, tail),
        0 <= k <= list.len(),
        list.len() <= 16384,
        tail == 0 || registration_addresses(list).contains(tail),
    ensures
        registrations(
            mem,
            if k < list.len() {
                list[k].at
            } else {
                tail
            },
            registration_addresses(list).subrange(0, k),
        ) == (if tail == 0 {
            Ok::<Seq<u64>, InterfaceError>(
                registration_addresses(list).subrange(k, list.len() as int),
            )
        } else {
            Err(InterfaceError::Cycle(tail))
        }),
    decreases list.len() - k,
{
    let all = registration_addresses(list);
    let seen = all.subrange(0, k);
    if k < list.len() {
        let r = list[k];
        let next = if k + 1 < list.len() {
            list[k + 1].at
        } else {
            tail
        };
        assert(registration_stands(mem, r, next));
        lemma_registration(mem, r, next);
        assert(!seen.contains(r.at)) by {
            if seen.contains(r.at) {
                let j = choose|j: int| 0 <= j < seen.len() && seen[j] == r.at;
                assert(list[j].at != list[k].at);
            }
        }
        lemma_registration_chain(mem, list, tail, k + 1);
        assert(seen.push(r.at) =~= all.subrange(0, k + 1));
        assert(all.subrange(k, list.len() as int) =~= seq![r.at] + all.subrange(
            k + 1,
            list.len() as int,
        ));
    } else {
        assert(seen =~= all);
        assert(all.subrange(k, list.len() as int) =~= Seq::<u64>::empty());
    }
}

/// A list of up to 16384 registrations that ends is read to its end, in the order
/// of its links; one that comes back to a registration is refused with it.
pub proof fn lemma_registrations_listed(
    mem: Map<int, u8>,
    list: Seq<RegistrationImage>,
    tail: u64,
)
    requires
        registrations_stand(mem, list, tail),
        0 < list.len() <= 16384,
        tail == 0 || registration_addresses(list).contains(tail),
    ensures
        registrations(mem, list[0].at, Seq::empty()) == (if tail == 0 {
            Ok::<Seq<u64>, InterfaceError>(registration_addresses(list))
        } else {
            Err(InterfaceError::Cycle(tail))
        }),
{
    lemma_registration_chain(mem, list, tail, 0);
    let all = registration_addresses(list);
    assert(all.subrange(0, 0) =~= Seq::<u64>::empty());
    assert(all.subrange(0, list.len() as int) =~= all);
}

/// Registrations with names of their own are in the map with the offset of the
/// object that their factory refers to, and nothing else is.
pub proof fn lemma_interfaces_mapped(
    mem: Map<int, u8>,
    list: Seq<RegistrationImage>,
    tail: u64,
    base: u64,
    n: int,
)
    requires
        0 <= n <= list.len(),
        registrations_stand(mem, list, tail),
        forall|k: int| 0 <= k < list.len() ==> base <= (#[trigger] list[k]).object,
        forall|j: int, k: int|
            0 <= j < k < list.len() ==> (#[trigger] list[j]).name != (#[trigger] list[k]).name,
    ensures
        forall|k: int|
            0 <= k < n ==> interface_map(
                mem,
                registration_addresses(list).subrange(0, n),
                base,
            ).contains_key((#[trigger] list[k]).name) && interface_map(
                mem,
                registration_addresses(list).subrange(0, n),
                base,
            )[list[k].name] == list[k].object - base,
        forall|name: Seq<char>| #[trigger]
            interface_map(
                mem,
                registration_addresses(list).subrange(0, n),
                base,
            ).contains_key(name) ==> exists|k: int|
                0 <= k < n && (#[trigger] list[k]).name == name,
    decreases n,
{
    let all = registration_addresses(list);
    if n > 0 {
        lemma_interfaces_mapped(mem, list, tail, base, n - 1);
        let nodes = all.subrange(0, n);
        let r = list[n - 1];
        assert(nodes.drop_last() =~= all.subrange(0, n - 1));
        assert(nodes.last() == r.at);
        let next = if n < list.len() {
            list[n].at
        } else {
            tail
        };
        assert(registration_stands(mem, r, next));
        lemma_registration(mem, r, next);
        let before = interface_map(mem, all.subrange(0, n - 1), base);
        let now = interface_map(mem, nodes, base);
        assert(now == before.insert(r.name, (r.object - base) as u64));
        assert forall|k: int| 0 <= k < n implies now.contains_key((#[trigger] list[k]).name)
            && now[list[k].name] == list[k].object - base by {
            if k < n - 1 {
                assert(list[k].name != list[n - 1].name);
            }
        }
        assert forall|name: Seq<char>| #[trigger] now.contains_key(name) implies exists|k: int|
            0 <= k < n && (#[trigger] list[k]).name == name by {
            if name == r.name {
                assert(list[n - 1].name == name);
            } else {
                assert(before.contains_key(name));
            }
        }
    } else {
        assert(all.subrange(0, 0) =~= Seq::<u64>::empty());
    }
}

/// The list of a module's interfaces begins where the global says that the first
/// instruction of its exported `CreateInterface` refers to.
pub proof fn lemma_list_head(
    mem: Map<int, u8>,
    module: ModuleImage,
    rva: u32,
    list: u64,
    head: u64,
)
    requires
        exported(module.bytes@, "CreateInterface"@) == Some(rva),
        module.base + rva + 7 <= u64::MAX,
        -0x8000_0000 <= list - (module.base + rva + 7) < 0x8000_0000,
        stands32(mem, module.base + rva + 3, (list - (module.base + rva + 7)) % 0x1_0000_0000),
        stands64(mem, list as int, head as int),
    ensures
        list_head_of(mem, module) == Some(head),
{
    let field = module.base + rva + 3;
    let disp = list - (module.base + rva + 7);
    lemma_loads(mem, field, disp % 0x1_0000_0000);
    lemma_loads(mem, list as int, head as int);
    if disp < 0 {
        assert(disp % 0x1_0000_0000 == disp + 0x1_0000_0000);
    }
    assert(ldi32(mem, field) == signed32(ld32(mem, field) as int));
    assert(ldi32(mem, field) == disp);
    assert(rel32(mem, module.base + rva, 3) == Some(list));
}

/// A module without the export, or whose list cannot be read or is empty, has no
/// interfaces; any other has those of its list, under its name in lower case, and the
/// later of two modules of one name counts.
pub proof fn lemma_modules_mapped(
    mem: Map<int, u8>,
    modules: Seq<ModuleImage>,
    n: nat,
    k: int,
    name: Seq<char>,
)
    requires
        n <= modules.len(),
    ensures
        0 <= k < n && lower_text(modules[k].name@) == name && listed_interfaces(
            mem,
            list_head_of(mem, modules[k]),
            modules[k].base,
        ) is Some && (forall|j: int|
            k < j < n ==> lower_text((#[trigger] modules[j]).name@) != name || listed_interfaces(
                mem,
                list_head_of(mem, modules[j]),
                modules[j].base,
            ) is None) ==> modules_map(mem, modules, n).contains_key(name) && modules_map(
            mem,
            modules,
            n,
        )[name] == listed_interfaces(mem, list_head_of(mem, modules[k]), modules[k].base)->0,
        (forall|j: int|
            0 <= j < n ==> lower_text((#[trigger] modules[j]).name@) != name || listed_interfaces(
                mem,
                list_head_of(mem, modules[j]),
                modules[j].base,
            ) is None) ==> !modules_map(mem, modules, n).contains_key(name),
    decreases n,
{
    if n > 0 {
        lemma_modules_mapped(mem, modules, (n - 1) as nat, k, name);
        assert(lower_text(modules[n - 1].name@) == name || lower_text(modules[n - 1].name@)
            != name);
    }
}

/// A registration whose object stands below the module's base is passed over.
pub proof fn lemma_low_object(
    mem: Map<int, u8>,
    nodes: Seq<u64>,
    base: u64,
    r: RegistrationImage,
    next: u64,
)
    requires
        registration_stands(mem, r, next),
        r.object < base,
    ensures
        interface_map(mem, nodes.push(r.at), base) == interface_map(mem, nodes, base),
{
    lemma_registration(mem, r, next);
    assert(nodes.push(r.at).drop_last() =~= nodes);
}

} // verus!
