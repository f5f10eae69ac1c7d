//! The modules of a process as they were when it was attached to.

use crate::text::{eq_ignore_case, lower_text};
use vstd::prelude::*;

verus! {

/// A loaded module.
#[derive(Debug)]
pub struct ModuleInfo {
    pub address: u64,
    pub base: u64,
    pub size: u64,
    pub name: String,
    pub path: String,
    /// A number for the architecture of its code.
    pub arch: u32,
}

/// A process.
#[derive(Debug)]
pub struct ProcessInfo {
    pub pid: u32,
    pub name: String,
    pub path: String,
}

/// A process and its modules.
#[derive(Debug)]
pub struct ProcessSnapshot {
    pub info: ProcessInfo,
    pub modules: Vec<ModuleInfo>,
}

/// What a view of a process's memory can do.
#[derive(Clone, Copy, Debug, PartialEq, Eq, Structural)]
pub struct ViewMetadata {
    pub max_address: u64,
    pub real_size: u64,
    pub readonly: bool,
    pub little_endian: bool,
    pub arch_bits: u8,
}

/// The views here read the whole address space of a 64-bit process, and write
/// nothing.
pub fn readonly_metadata() -> (metadata: ViewMetadata)
    ensures
        metadata == (ViewMetadata {
            max_address: u64::MAX,
            real_size: 0,
            readonly: true,
            little_endian: true,
            arch_bits: 64,
        }),
{
    ViewMetadata {
        max_address: u64::MAX,
        real_size: 0,
        readonly: true,
        little_endian: true,
        arch_bits: 64,
    }
}

/// The address that stands for none.
pub const INVALID_ADDRESS: u64 = 0xFFFF_FFFF_FFFF_FFFF;

/// The addresses of the first `n` modules of an architecture, or of all where
/// none is asked for.
pub open spec fn addresses(modules: Seq<ModuleInfo>, arch: Option<u32>, n: nat) -> Seq<(u64, u32)>
    decreases n,
{
    if n == 0 {
        Seq::empty()
    } else {
        let before = addresses(modules, arch, (n - 1) as nat);
        let module = modules[n - 1];
        if arch is None || arch == Some(module.arch) {
            before.push((module.address, module.arch))
        } else {
            before
        }
    }
}

/// The first of the modules from `i` on with this name, whatever its case.
pub open spec fn named_from(modules: Seq<ModuleInfo>, name: Seq<char>, i: int) -> Option<int>
    decreases modules.len() - i,
{
    if i >= modules.len() {
        None
    } else if lower_text(modules[i].name@) == lower_text(name) {
        Some(i)
    } else {
        named_from(modules, name, i + 1)
    }
}

/// The first of the modules from `i` on at this address, of this architecture.
pub open spec fn placed_from(modules: Seq<ModuleInfo>, address: u64, arch: u32, i: int) -> Option<int>
    decreases modules.len() - i,
{
    if i >= modules.len() {
        None
    } else if modules[i].address == address && modules[i].arch == arch {
        Some(i)
    } else {
        placed_from(modules, address, arch, i + 1)
    }
}

/// The part of a module that lies between two addresses, as place and length.
pub open spec fn overlap(module: ModuleInfo, start: u64, limit: u64) -> Option<(u64, u64)> {
    let end = module.base + module.size;
    let from = if module.base > start {
        module.base as int
    } else {
        start as int
    };
    let to = if end < limit {
        end
    } else {
        limit as int
    };
    if end <= u64::MAX && from < to {
        Some((from as u64, (to - from) as u64))
    } else {
        None
    }
}

/// The parts of the first `n` modules that lie between two addresses.
pub open spec fn overlaps(modules: Seq<ModuleInfo>, start: u64, limit: u64, n: nat) -> Seq<(u64, u64)>
    decreases n,
{
    if n == 0 {
        Seq::empty()
    } else {
        let before = overlaps(modules, start, limit, (n - 1) as nat);
        match overlap(modules[n - 1], start, limit) {
            Some(part) => before.push(part),
            None => before,
        }
    }
}

/// The end of a range: a null or invalid address stands for that of the address
/// space.
pub open spec fn range_limit(end: u64) -> u64 {
    if end == 0 {
        u64::MAX
    } else {
        end
    }
}

impl ProcessSnapshot {
    pub fn new(info: ProcessInfo, modules: Vec<ModuleInfo>) -> (snapshot: Self)
        ensures
            snapshot.info == info,
            snapshot.modules == modules,
    {
        ProcessSnapshot { info, modules }
    }

    pub fn info(&self) -> (info: &ProcessInfo)
        ensures
            *info == self.info,
    {
        &self.info
    }

    /// Address and architecture of the modules of an architecture, or of all.
    pub fn module_address_list_callback(&self, target_arch: Option<u32>) -> (list: Vec<(u64, u32)>)
        ensures
            list@ == addresses(self.modules@, target_arch, self.modules@.len()),
    {
        let mut list: Vec<(u64, u32)> = Vec::new();
        let mut i: usize = 0;
        while i < self.modules.len()
            invariant
                i <= self.modules@.len(),
                list@ == addresses(self.modules@, target_arch, i as nat),
            decreases self.modules@.len() - i,
        {
            let module = &self.modules[i];
            let wanted = match target_arch {
                Some(arch) => arch == module.arch,
                None => true,
            };
            if wanted {
                list.push((module.address, module.arch));
            }
            i = i + 1;
        }
        list
    }

    /// The module at an address, of an architecture.
    pub fn module_by_address(&self, address: u64, arch: u32) -> (module: Option<&ModuleInfo>)
        ensures
            module == (match placed_from(self.modules@, address, arch, 0) {
                Some(i) => Some(&self.modules@[i]),
                None => None,
            }),
    {
        let mut i: usize = 0;
        while i < self.modules.len()
            invariant
                i <= self.modules@.len(),
                placed_from(self.modules@, address, arch, 0) == placed_from(
                    self.modules@,
                    address,
                    arch,
                    i as int,
                ),
            decreases self.modules@.len() - i,
        {
            if self.modules[i].address == address && self.modules[i].arch == arch {
                return Some(&self.modules[i]);
            }
            i = i + 1;
        }
        None
    }

    /// The first module with this name, whatever its case.
    pub fn module_by_name(&self, name: &str) -> (module: Option<&ModuleInfo>)
        ensures
            module == (match named_from(self.modules@, name@, 0) {
                Some(i) => Some(&self.modules@[i]),
                None => None,
            }),
    {
        let mut i: usize = 0;
        while i < self.modules.len()
            invariant
                i <= self.modules@.len(),
                named_from(self.modules@, name@, 0) == named_from(self.modules@, name@, i as int),
            decreases self.modules@.len() - i,
        {
            if eq_ignore_case(self.modules[i].name.as_str(), name) {
                return Some(&self.modules[i]);
            }
            i = i + 1;
        }
        None
    }

    /// The address of the module that has the process's name, else of the first
    /// one.
    pub fn primary_module_address(&self) -> (address: Option<u64>)
        ensures
            address == (match named_from(self.modules@, self.info.name@, 0) {
                Some(i) => Some(self.modules@[i].address),
                None => if self.modules@.len() > 0 {
                    Some(self.modules@[0].address)
                } else {
                    None
                },
            }),
    {
        match self.module_by_name(self.info.name.as_str()) {
            Some(module) => Some(module.address),
            None => if self.modules.len() > 0 {
                Some(self.modules[0].address)
            } else {
                None
            },
        }
    }

    /// The mapped parts between two addresses.
    pub fn mapped_mem_range(&self, start: u64, end: u64) -> (list: Vec<(u64, u64)>)
        ensures
            list@ == overlaps(self.modules@, start, range_limit(end), self.modules@.len()),
    {
        let limit: u64 = if end == 0 || end == INVALID_ADDRESS {
            u64::MAX
        } else {
            end
        };
        let mut list: Vec<(u64, u64)> = Vec::new();
        let mut i: usize = 0;
        while i < self.modules.len()
            invariant
                i <= self.modules@.len(),
                limit == range_limit(end),
                list@ == overlaps(self.modules@, start, limit, i as nat),
            decreases self.modules@.len() - i,
        {
            let module = &self.modules[i];
            match module.base.checked_add(module.size) {
                Some(module_end) => {
                    let from: u64 = if module.base > start {
                        module.base
                    } else {
                        start
                    };
                    let to: u64 = if module_end < limit {
                        module_end
                    } else {
                        limit
                    };
                    if from < to {
                        list.push((from, to - from));
                    }
                },
                None => {},
            }
            i = i + 1;
        }
        list
    }
}

/// The path of the first module that has a process's name, whatever its case;
/// empty where there is none.
pub fn exe_path(modules: &Vec<ModuleInfo>, process_name: &str) -> (path: String)
    ensures
        path@ == (match named_from(modules@, process_name@, 0) {
            Some(i) => modules@[i].path@,
            None => Seq::empty(),
        }),
{
    let mut i: usize = 0;
    while i < modules.len()
        invariant
            i <= modules@.len(),
            named_from(modules@, process_name@, 0) == named_from(modules@, process_name@, i as int),
        decreases modules@.len() - i,
    {
        if eq_ignore_case(modules[i].name.as_str(), process_name) {
            return modules[i].path.clone();
        }
        i = i + 1;
    }
    String::new()
}

/// Every mapped part lies between the two addresses and in the module it is of.
pub proof fn lemma_overlap_inside(module: ModuleInfo, start: u64, limit: u64)
    ensures
        overlap(module, start, limit) matches Some((from, len)) ==> {
            &&& start <= from
            &&& from + len <= limit
            &&& module.base <= from
            &&& from + len <= module.base + module.size
            &&& len > 0
        },
{
}

/// Every address that lies both in a module and between the two addresses is in
/// the mapped part.
pub proof fn lemma_overlap_whole(module: ModuleInfo, start: u64, limit: u64, a: int)
    requires
        start <= a < limit,
        module.base <= a < module.base + module.size,
        module.base + module.size <= u64::MAX,
    ensures
        overlap(module, start, limit) matches Some((from, len)) && from <= a < from + len,
{
}

/// The modules of an architecture are listed in their order, or all of them where
/// none is asked for.
pub proof fn lemma_addresses(modules: Seq<ModuleInfo>, arch: Option<u32>, n: nat)
    requires
        n <= modules.len(),
    ensures
        addresses(modules, arch, n) == modules.subrange(0, n as int).filter(
            |m: ModuleInfo| arch is None || m.arch == arch->0,
        ).map_values(|m: ModuleInfo| (m.address, m.arch)),
    decreases n,
{
    reveal(Seq::filter);
    let keep = |m: ModuleInfo| arch is None || m.arch == arch->0;
    let place = |m: ModuleInfo| (m.address, m.arch);
    let part = modules.subrange(0, n as int);
    if n > 0 {
        lemma_addresses(modules, arch, (n - 1) as nat);
        let before = modules.subrange(0, n - 1);
        assert(part.drop_last() =~= before);
        assert(part.last() == modules[n - 1]);
        assert(before.filter(keep).push(part.last()).map_values(place) =~= before.filter(
            keep,
        ).map_values(place).push(place(part.last())));
    } else {
        assert(addresses(modules, arch, n) =~= part.filter(keep).map_values(place));
    }
}

/// The module that a name finds is the first that has it, whatever its case.
pub proof fn lemma_named(modules: Seq<ModuleInfo>, name: Seq<char>, k: int, i: int)
    requires
        0 <= k <= i < modules.len(),
        lower_text(modules[i].name@) == lower_text(name),
        forall|j: int| k <= j < i ==> lower_text((#[trigger] modules[j]).name@) != lower_text(name),
    ensures
        named_from(modules, name, k) == Some(i),
    decreases i - k,
{
    if k < i {
        assert(lower_text(modules[k].name@) != lower_text(name));
        lemma_named(modules, name, k + 1, i);
    }
}

/// The module that an address finds is the first at it of the architecture.
pub proof fn lemma_placed(modules: Seq<ModuleInfo>, address: u64, arch: u32, k: int, i: int)
    requires
        0 <= k <= i < modules.len(),
        modules[i].address == address,
        modules[i].arch == arch,
        forall|j: int|
            k <= j < i ==> (#[trigger] modules[j]).address != address || modules[j].arch != arch,
    ensures
        placed_from(modules, address, arch, k) == Some(i),
    decreases i - k,
{
    if k < i {
        assert(modules[k].address != address || modules[k].arch != arch);
        lemma_placed(modules, address, arch, k + 1, i);
    }
}

/// An address lies in one of the ranges.
pub open spec fn in_ranges(ranges: Seq<(u64, u64)>, a: int) -> bool {
    exists|j: int|
        0 <= j < ranges.len() && (#[trigger] ranges[j]).0 <= a && a < ranges[j].0 + ranges[j].1
}

/// An address lies in one of the first `n` modules, none of which counts that leaves
/// the address space.
pub open spec fn in_modules(modules: Seq<ModuleInfo>, n: int, a: int) -> bool {
    exists|i: int|
        0 <= i < n && (#[trigger] modules[i]).base <= a && a < modules[i].base + modules[i].size
            && modules[i].base + modules[i].size <= u64::MAX
}

proof fn lemma_ranges_of(modules: Seq<ModuleInfo>, start: u64, limit: u64, n: nat, a: int)
    requires
        n <= modules.len(),
    ensures
        in_ranges(overlaps(modules, start, limit, n), a) <==> start <= a < limit && in_modules(
            modules,
            n as int,
            a,
        ),
    decreases n,
{
    if n > 0 {
        let before = overlaps(modules, start, limit, (n - 1) as nat);
        let all = overlaps(modules, start, limit, n);
        let last = modules[n - 1];
        lemma_ranges_of(modules, start, limit, (n - 1) as nat, a);
        let in_last = last.base <= a && a < last.base + last.size && last.base + last.size
            <= u64::MAX;
        assert(in_modules(modules, n as int, a) <==> in_modules(modules, n - 1, a) || in_last) by {
            if in_modules(modules, n - 1, a) {
                let i = choose|i: int|
                    0 <= i < n - 1 && (#[trigger] modules[i]).base <= a && a < modules[i].base
                        + modules[i].size && modules[i].base + modules[i].size <= u64::MAX;
                assert(modules[i].base <= a);
            }
            if in_last {
                assert(modules[n - 1].base <= a);
            }
        }
        assert(in_ranges(all, a) <==> in_ranges(before, a) || start <= a < limit && in_last) by {
            if in_ranges(before, a) {
                let j = choose|j: int|
                    0 <= j < before.len() && (#[trigger] before[j]).0 <= a && a < before[j].0
                        + before[j].1;
                assert(all[j] == before[j]);
            }
            if in_ranges(all, a) {
                let j = choose|j: int|
                    0 <= j < all.len() && (#[trigger] all[j]).0 <= a && a < all[j].0 + all[j].1;
                if j < before.len() {
                    assert(all[j] == before[j]);
                }
            }
            if start <= a < limit && in_last {
                assert(all[before.len() as int].0 <= a);
            }
        }
    }
}

/// The mapped ranges between two addresses hold the addresses there that lie in a
/// module, and no others. A null end stands for the last address.
pub proof fn lemma_mapped(modules: Seq<ModuleInfo>, start: u64, end: u64, a: int)
    ensures
        in_ranges(overlaps(modules, start, range_limit(end), modules.len()), a) <==> {
            &&& start <= a
            &&& end == 0 ==> a < u64::MAX
            &&& end != 0 ==> a < end
            &&& in_modules(modules, modules.len() as int, a)
        },
{
    lemma_ranges_of(modules, start, range_limit(end), modules.len(), a);
}

/// Modules that lie wholly between the two addresses are the mapped ranges, in their
/// order.
pub proof fn lemma_ranges_in_order(modules: Seq<ModuleInfo>, start: u64, limit: u64, n: nat)
    requires
        n <= modules.len(),
        forall|i: int|
            0 <= i < n ==> start <= (#[trigger] modules[i]).base < modules[i].base + modules[i].size
                <= limit,
    ensures
        overlaps(modules, start, limit, n) == Seq::new(
            n,
            |i: int| (modules[i].base, modules[i].size),
        ),
    decreases n,
{
    if n > 0 {
        lemma_ranges_in_order(modules, start, limit, (n - 1) as nat);
        assert(modules[n - 1].base >= start);
    }
    assert(overlaps(modules, start, limit, n) =~= Seq::new(
        n,
        |i: int| (modules[i].base, modules[i].size),
    ));
}

} // verus!
