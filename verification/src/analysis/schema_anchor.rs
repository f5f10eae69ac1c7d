//! Finds the schema system by describing it: a count of type scopes, an array
//! of scopes with real names, and a count of registrations.
//!
//! ```text
//! schema system:
//!   +0x190  scope count (i32)   +0x198  scope array   +0x280  registrations (i32)
//!
//! type scope:  +0x08  name char[256]
//! ```

use crate::analysis::global_anchor::{
    decides, first_slot, head32, head64, lemma_joined, pick, read_head,
};
use crate::analysis::module_data::{
    image_ranges, interned, writable_ranges, ModuleImage, ModuleRecord,
};
use crate::analysis::pe::{captured, find_code, is_image, is_pe64};
use crate::analysis::protobufs::{i32_in, lemma_number};
use crate::analysis::read::{
    i32_le_at, ld64, le8, plus, signed32, text_at, text_in, to_i32, u64_le_at, u64_va,
};
use crate::analysis::schemas::{intern_name_bytes, scope_name, validate_schema_system, SchemaError};
use crate::memory::{raw, readable, Memory};
use crate::memory::fake::{bytes4, bytes8};
use crate::memory::stored::{lemma_heads, lemma_loads, lemma_text, stands32, stands64, stands_text};
use crate::text::{holds_string, lemma_until_nul, stands_at, strings};
use vstd::prelude::*;
use vstd::slice::*;
use vstd::string::*;
use vstd::utf8::*;

verus! {

pub const TYPE_SCOPES_COUNT: usize = 0x190;

pub const TYPE_SCOPES_DATA: usize = 0x198;

pub const REGISTRATION_COUNT: usize = 0x280;

/// The bytes of the system that must stand in the section.
pub const SPAN: usize = 0x284;

pub const SCOPE_NAME: u64 = 0x08;

pub const MAX_SCOPES: i32 = 512;

pub const MAX_REGISTRATIONS: i32 = 1_000_000;

/// Scopes whose names are looked at.
pub const PROBE_SCOPES: usize = 8;

/// Different names that a system must show.
pub const MIN_SCOPES: usize = 2;

/// A name of one to 64 visible bytes.
pub open spec fn scope_text(name: Seq<char>) -> bool {
    let bytes = encode_utf8(name);
    &&& 1 <= bytes.len() <= 64
    &&& forall|i: int| 0 <= i < bytes.len() ==> 0x21 <= #[trigger] bytes[i] <= 0x7e
}

pub fn plausible_scope_name(name: &str) -> (ok: bool)
    ensures
        ok == scope_text(name@),
{
    let bytes = name.as_bytes();
    if bytes.len() < 1 || bytes.len() > 64 {
        return false;
    }
    let mut i: usize = 0;
    while i < bytes.len()
        invariant
            i <= bytes@.len(),
            bytes@ == encode_utf8(name@),
            forall|k: int| 0 <= k < i ==> 0x21 <= #[trigger] bytes@[k] <= 0x7e,
        decreases bytes@.len() - i,
    {
        if bytes[i] < 0x21 || bytes[i] > 0x7e {
            return false;
        }
        i = i + 1;
    }
    true
}

/// The different plausible names of the first `n` scopes of an array.
pub open spec fn scope_names(mem: Map<int, u8>, array: u64, n: int) -> Seq<Seq<char>>
    decreases n,
{
    if n <= 0 {
        Seq::empty()
    } else {
        let before = scope_names(mem, array, n - 1);
        let scope = ld64(mem, plus(array, 8 * (n - 1)) as int);
        let name = text_in(mem, plus(scope, SCOPE_NAME as int) as int, 64);
        if scope < 0x10000 || !scope_text(name) || before.contains(name) {
            before
        } else {
            before.push(name)
        }
    }
}

/// How many different plausible names the first scopes of an array have.
fn score_scopes(mem: &Memory, array: u64, count: i32) -> (score: usize)
    requires
        mem.wf(),
        count >= 1,
    ensures
        score == scope_names(
            mem@,
            array,
            if count < PROBE_SCOPES {
                count as int
            } else {
                PROBE_SCOPES as int
            },
        ).len(),
{
    let sampled: u64 = if (count as u64) < PROBE_SCOPES as u64 {
        count as u64
    } else {
        PROBE_SCOPES as u64
    };
    let mut names: Vec<String> = Vec::new();
    let mut i: u64 = 0;
    assert(strings(names@) =~= Seq::<Seq<char>>::empty());
    while i < sampled
        invariant
            mem.wf(),
            i <= sampled <= 8,
            strings(names@) == scope_names(mem@, array, i as int),
        decreases sampled - i,
    {
        let scope: u64 = u64_va(mem, array.wrapping_add(8 * i));
        if scope >= 0x10000 {
            let name = text_at(mem, scope.wrapping_add(SCOPE_NAME), 64);
            if plausible_scope_name(name.as_str()) && !holds_string(&names, name.as_str()) {
                let ghost before = strings(names@);
                let ghost text = name@;
                names.push(name);
                assert(strings(names@) =~= before.push(text));
            }
        }
        i = i + 1;
    }
    assert(strings(names@).len() == names@.len());
    names.len()
}

/// What the bytes at `offset` show of a schema system: its scope array and how
/// many different names its scopes have; none where they are not one.
pub open spec fn candidate_at(mem: Map<int, u8>, image: Seq<u8>, offset: int) -> Option<
    (u64, usize),
> {
    let count = i32_in(image, offset + TYPE_SCOPES_COUNT);
    let registrations = i32_in(image, offset + REGISTRATION_COUNT);
    let array = le8(image, offset + TYPE_SCOPES_DATA) as u64;
    if count is None || registrations is None || !(1 <= count->0 <= MAX_SCOPES) || !(1
        <= registrations->0 <= MAX_REGISTRATIONS) || array < 0x10000 {
        None
    } else {
        let score = scope_names(
            mem,
            array,
            if count->0 < PROBE_SCOPES {
                count->0 as int
            } else {
                PROBE_SCOPES as int
            },
        ).len();
        if score >= MIN_SCOPES {
            Some((array, score as usize))
        } else {
            None
        }
    }
}

fn score_candidate(mem: &Memory, image: &[u8], offset: usize) -> (candidate: Option<(u64, usize)>)
    requires
        mem.wf(),
        offset + SPAN <= image@.len(),
    ensures
        candidate == candidate_at(mem@, image@, offset as int),
{
    let size: usize = image.len();
    assert(offset + SPAN <= size);
    let (count, registrations, array) = match (
        i32_le_at(image, offset + TYPE_SCOPES_COUNT),
        i32_le_at(image, offset + REGISTRATION_COUNT),
        u64_le_at(image, offset + TYPE_SCOPES_DATA),
    ) {
        (Some(c), Some(r), Some(a)) => (c, r, a),
        _ => {
            return None;
        },
    };
    if count < 1 || count > MAX_SCOPES || registrations < 1 || registrations > MAX_REGISTRATIONS
        || array < 0x10000 {
        return None;
    }
    let score: usize = score_scopes(mem, array, count);
    if score >= MIN_SCOPES {
        Some((array, score))
    } else {
        None
    }
}

/// A system can stand at an aligned offset of a range.
pub open spec fn fits_at(len: int, range: (u64, u64), offset: int) -> bool {
    &&& range.0 <= offset
    &&& offset % 8 == 0
    &&& offset + SPAN <= range.0 + range.1
    &&& offset + SPAN <= len
}

/// The candidates of a range from `offset` on, as address, scope array and
/// score.
pub open spec fn range_candidates(
    mem: Map<int, u8>,
    image: Seq<u8>,
    base: u64,
    range: (u64, u64),
    offset: int,
) -> Seq<(u64, u64, usize)>
    decreases image.len() - offset,
{
    if !fits_at(image.len() as int, range, offset) {
        Seq::empty()
    } else {
        let rest = range_candidates(mem, image, base, range, offset + 8);
        match candidate_at(mem, image, offset) {
            Some((array, score)) => seq![((base + offset) as u64, array, score)] + rest,
            None => rest,
        }
    }
}

/// The candidates of all ranges.
pub open spec fn candidates(
    mem: Map<int, u8>,
    image: Seq<u8>,
    base: u64,
    ranges: Seq<(u64, u64)>,
) -> Seq<(u64, u64, usize)>
    decreases ranges.len(),
{
    if ranges.len() == 0 {
        Seq::empty()
    } else {
        candidates(mem, image, base, ranges.drop_last()) + range_candidates(
            mem,
            image,
            base,
            ranges.last(),
            first_slot(ranges.last().0),
        )
    }
}

/// The address of the schema system in a module image: the candidate whose
/// scopes have the most different names. Nothing where two candidates with
/// different scope arrays have the most.
pub fn find_schema_system(mem: &Memory, image: &[u8], base: u64, ranges: &[(u64, u64)]) -> (found:
    Option<u64>)
    requires
        mem.wf(),
        base + image@.len() <= u64::MAX,
    ensures
        decides(candidates(mem@, image@, base, ranges@), found),
{
    let len: usize = image.len();
    let mut list: Vec<(u64, u64, usize)> = Vec::new();
    let mut r: usize = 0;
    assert(ranges@.subrange(0, 0) =~= Seq::<(u64, u64)>::empty());
    while r < ranges.len()
        invariant
            mem.wf(),
            len == image@.len(),
            base + len <= u64::MAX,
            r <= ranges@.len(),
            list@ == candidates(mem@, image@, base, ranges@.subrange(0, r as int)),
        decreases ranges@.len() - r,
    {
        let range = ranges[r];
        let ghost upto = ranges@.subrange(0, r + 1);
        assert(upto.drop_last() =~= ranges@.subrange(0, r as int));
        assert(upto.last() == range);
        let ghost goal = candidates(mem@, image@, base, upto);
        if len >= SPAN && range.0 <= (len - SPAN) as u64 {
            let rest: u64 = range.0 % 8;
            let first: u64 = if rest == 0 {
                range.0
            } else {
                range.0 - rest + 8
            };
            let mut offset: u64 = first;
            while offset <= (len - SPAN) as u64 && offset - range.0 <= range.1 && range.1 - (offset
                - range.0) >= SPAN as u64
                invariant
                    mem.wf(),
                    len == image@.len(),
                    base + len <= u64::MAX,
                    SPAN <= len,
                    range.0 <= offset,
                    offset % 8 == 0,
                    offset <= len + 8,
                    goal == list@ + range_candidates(mem@, image@, base, range, offset as int),
                decreases len + 8 - offset,
            {
                let ghost after = range_candidates(mem@, image@, base, range, offset + 8);
                let ghost was = list@;
                assert(fits_at(len as int, range, offset as int));
                match score_candidate(mem, image, offset as usize) {
                    Some((array, score)) => {
                        let va: u64 = base + offset;
                        list.push((va, array, score));
                        assert(was + (seq![(va, array, score)] + after) =~= list@ + after);
                    },
                    None => {},
                }
                offset = offset + 8;
            }
            assert(range_candidates(mem@, image@, base, range, offset as int) =~= Seq::<
                (u64, u64, usize),
            >::empty());
        } else {
            assert(range_candidates(mem@, image@, base, range, first_slot(range.0)) =~= Seq::<
                (u64, u64, usize),
            >::empty());
        }
        assert(goal =~= list@);
        r = r + 1;
    }
    assert(ranges@.subrange(0, r as int) =~= ranges@);
    pick(&list)
}

/// A schema system in use.
#[derive(Clone, Copy, Debug, PartialEq, Eq, Structural)]
pub struct SchemaSystem {
    pub address: u64,
    pub registration_count: i32,
    pub scope_count: i32,
    pub scope_array: u64,
}

/// Why no schema system was read.
#[derive(Clone, Copy, Debug, PartialEq, Eq, Structural)]
pub enum SchemaSystemError {
    /// The module is not a PE image.
    NotAnImage,
    /// Neither the module's code nor its data names one.
    NotFound,
    /// What the data names is not in use.
    Invalid(SchemaError),
}

/// The pattern of the code that loads the address of the schema system.
pub open spec fn schema_pattern() -> Seq<char> {
    "4c8d35${'} 0f2845"@
}

/// The schema system at an address, as memory has it.
pub open spec fn system_at(mem: Map<int, u8>, address: u64) -> SchemaSystem {
    let record = raw(mem, address as int, SPAN as nat);
    SchemaSystem {
        address,
        registration_count: signed32(head32(record, REGISTRATION_COUNT as int) as int) as i32,
        scope_count: signed32(head32(record, TYPE_SCOPES_COUNT as int) as int) as i32,
        scope_array: head64(record, TYPE_SCOPES_DATA as int),
    }
}

/// What the counts of a schema system say of it.
pub open spec fn system_verdict(system: SchemaSystem) -> Result<(), SchemaError> {
    if system.registration_count <= 0 || system.scope_count <= 0 {
        Err(SchemaError::NoRegistrations)
    } else if system.scope_count > 512 {
        Err(SchemaError::InvalidScopeCount(system.scope_count))
    } else {
        Ok(())
    }
}

/// The schema system that the code of a module names, where it is in use.
pub open spec fn system_in_code(mem: Map<int, u8>, image: Seq<u8>, base: u64) -> Option<
    SchemaSystem,
> {
    match captured(image, schema_pattern()) {
        Some(place) => if base + place <= u64::MAX && system_verdict(
            system_at(mem, (base + place) as u64),
        ) is Ok {
            Some(system_at(mem, (base + place) as u64))
        } else {
            None
        },
        None => None,
    }
}

fn read_system(mem: &Memory, address: u64) -> (system: SchemaSystem)
    requires
        mem.wf(),
    ensures
        system == system_at(mem@, address),
{
    let record = read_head(mem, address, SPAN);
    SchemaSystem {
        address,
        registration_count: to_i32(record.u32(REGISTRATION_COUNT as u64)),
        scope_count: to_i32(record.u32(TYPE_SCOPES_COUNT as u64)),
        scope_array: record.u64(TYPE_SCOPES_DATA as u64),
    }
}

/// What the address that the data of a module gives comes to.
pub open spec fn system_found(mem: Map<int, u8>, found: Option<u64>) -> Result<
    SchemaSystem,
    SchemaSystemError,
> {
    match found {
        Some(address) => match system_verdict(system_at(mem, address)) {
            Ok(_) => Ok(system_at(mem, address)),
            Err(error) => Err(SchemaSystemError::Invalid(error)),
        },
        None => Err(SchemaSystemError::NotFound),
    }
}

/// Reads the system at the address that a scan of a module's data gave.
pub fn read_found_system(mem: &Memory, found: Option<u64>) -> (system: Result<
    SchemaSystem,
    SchemaSystemError,
>)
    requires
        mem.wf(),
    ensures
        system == system_found(mem@, found),
{
    match found {
        Some(address) => {
            let system = read_system(mem, address);
            match validate_schema_system(system.registration_count, system.scope_count) {
                Ok(_) => Ok(system),
                Err(error) => Err(SchemaSystemError::Invalid(error)),
            }
        },
        None => Err(SchemaSystemError::NotFound),
    }
}

/// What a scan of a module's data comes to.
pub open spec fn system_in_data(
    mem: Map<int, u8>,
    image: Seq<u8>,
    base: u64,
    ranges: Seq<(u64, u64)>,
    system: Result<SchemaSystem, SchemaSystemError>,
) -> bool {
    exists|found: Option<u64>| #[trigger]
        decides(candidates(mem, image, base, ranges), found) && system == system_found(mem, found)
}

/// What the image of a module comes to: the system that its code names, where
/// that is in use, else the one that its data describes. Where the section
/// headers cannot be read, there is no data to look at.
pub open spec fn system_of(
    mem: Map<int, u8>,
    image: Seq<u8>,
    base: u64,
    system: Result<SchemaSystem, SchemaSystemError>,
) -> bool {
    if !is_pe64(image) {
        system == Err::<SchemaSystem, _>(SchemaSystemError::NotAnImage)
    } else {
        match (system_in_code(mem, image, base), image_ranges(image)) {
            (Some(named), _) => system == Ok::<_, SchemaSystemError>(named),
            (None, Some(ranges)) => system_in_data(mem, image, base, ranges, system),
            (None, None) => system == Err::<SchemaSystem, _>(SchemaSystemError::NotFound),
        }
    }
}

/// The schema system of a module.
pub fn read_schema_system(mem: &Memory, module: &ModuleImage) -> (system: Result<
    SchemaSystem,
    SchemaSystemError,
>)
    requires
        mem.wf(),
        module.base + module.bytes@.len() <= u64::MAX,
    ensures
        system_of(mem@, module.bytes@, module.base, system),
{
    let image = module.bytes.as_slice();
    if !is_image(image) {
        return Err(SchemaSystemError::NotAnImage);
    }
    match find_code(image, "4c8d35${'} 0f2845") {
        Some(place) => match module.base.checked_add(place as u64) {
            Some(address) => {
                let system = read_system(mem, address);
                if validate_schema_system(system.registration_count, system.scope_count).is_ok() {
                    return Ok(system);
                }
            },
            None => {},
        },
        None => {},
    }
    match writable_ranges(image) {
        Some(ranges) => {
            let found = find_schema_system(mem, image, module.base, ranges.as_slice());
            read_found_system(mem, found)
        },
        None => Err(SchemaSystemError::NotFound),
    }
}

/// The most scopes that are read.
pub const MAX_READ_SCOPES: usize = 512;

/// The bytes of a scope up to the end of its name.
pub const SCOPE_SPAN: usize = 0x108;

/// A type scope: where it stands, and the module it belongs to.
#[derive(Debug)]
pub struct ScopeHead {
    pub address: u64,
    pub module_name: String,
}

/// The name of the scope at an address, as the module list spells it.
pub open spec fn name_of_scope(mem: Map<int, u8>, modules: Seq<ModuleRecord>, scope: u64) -> Seq<
    char,
> {
    scope_name(
        raw(mem, scope as int, SCOPE_SPAN as nat).subrange(SCOPE_NAME as int, SCOPE_SPAN as int),
        modules,
    )
}

/// The first `n` scopes of an array that have a name.
pub open spec fn named_scopes(
    mem: Map<int, u8>,
    modules: Seq<ModuleRecord>,
    array: u64,
    n: nat,
) -> Seq<(u64, Seq<char>)>
    decreases n,
{
    if n == 0 {
        Seq::empty()
    } else {
        let before = named_scopes(mem, modules, array, (n - 1) as nat);
        let scope = ld64(mem, array + 8 * (n - 1));
        let name = name_of_scope(mem, modules, scope);
        if array + 8 * (n - 1) > u64::MAX || name.len() == 0 {
            before
        } else {
            before.push((scope, name))
        }
    }
}

/// How many scopes of a system are read.
pub open spec fn read_count(system: SchemaSystem) -> nat {
    if system.scope_count <= 0 {
        0
    } else if system.scope_count > MAX_READ_SCOPES {
        MAX_READ_SCOPES as nat
    } else {
        system.scope_count as nat
    }
}

/// The heads as pairs of address and name.
pub open spec fn head_pairs(list: Seq<ScopeHead>) -> Seq<(u64, Seq<char>)> {
    Seq::new(list.len(), |i: int| (list[i].address, list[i].module_name@))
}

/// The scopes of a system. One that has no name is left out.
pub fn read_raw_type_scopes(mem: &Memory, system: &SchemaSystem, modules: &Vec<ModuleRecord>) -> (scopes:
    Vec<ScopeHead>)
    requires
        mem.wf(),
    ensures
        head_pairs(scopes@) == named_scopes(
            mem@,
            modules@,
            system.scope_array,
            read_count(*system),
        ),
{
    let count: u64 = if system.scope_count <= 0 {
        0
    } else if system.scope_count > 512 {
        512
    } else {
        system.scope_count as u64
    };
    let mut scopes: Vec<ScopeHead> = Vec::new();
    let mut i: u64 = 0;
    assert(head_pairs(scopes@) =~= Seq::<(u64, Seq<char>)>::empty());
    while i < count
        invariant
            mem.wf(),
            i <= count <= 512,
            head_pairs(scopes@) == named_scopes(mem@, modules@, system.scope_array, i as nat),
        decreases count - i,
    {
        match system.scope_array.checked_add(8 * i) {
            Some(at) => {
                let scope: u64 = u64_va(mem, at);
                let record = mem.read_raw(scope, SCOPE_SPAN);
                let name = intern_name_bytes(
                    slice_subrange(record.as_slice(), SCOPE_NAME as usize, SCOPE_SPAN),
                    modules,
                );
                if !name.as_str().is_empty() {
                    let ghost before = head_pairs(scopes@);
                    let ghost pair = (scope, name@);
                    scopes.push(ScopeHead { address: scope, module_name: name });
                    assert(head_pairs(scopes@) =~= before.push(pair));
                }
            },
            None => {},
        }
        i = i + 1;
    }
    scopes
}

/// A schema system is read back from where it stands, and is in use exactly where
/// it has registrations and between one and 512 scopes.
pub proof fn lemma_system_read_back(
    mem: Map<int, u8>,
    address: u64,
    registrations: u32,
    scopes: u32,
    array: u64,
)
    requires
        readable(mem, address as int, 0x284),
        stands32(mem, address + 0x190, scopes as int),
        stands64(mem, address + 0x198, array as int),
        stands32(mem, address + 0x280, registrations as int),
    ensures
        ({
            let used = 1 <= registrations < 0x8000_0000 && 1 <= scopes < 0x8000_0000;
            match system_found(mem, Some(address)) {
                Ok(system) => used && scopes <= 512 && system.address == address
                    && system.registration_count == registrations && system.scope_count == scopes
                    && system.scope_array == array,
                Err(SchemaSystemError::Invalid(SchemaError::NoRegistrations)) => !used,
                Err(SchemaSystemError::Invalid(SchemaError::InvalidScopeCount(n))) => used && scopes
                    > 512 && n == scopes,
                Err(_) => false,
            }
        }),
{
    lemma_heads(mem, address as int, 0x284, 0x190, scopes as int);
    lemma_heads(mem, address as int, 0x284, 0x198, array as int);
    lemma_heads(mem, address as int, 0x284, 0x280, registrations as int);
}

/// A type scope: where it stands, and its name.
pub struct ScopeImage {
    pub at: u64,
    pub name: Seq<char>,
}

/// The scopes stand where an array of pointers says.
pub open spec fn scopes_stand(
    mem: Map<int, u8>,
    array: u64,
    scopes: Seq<ScopeImage>,
    longest: int,
) -> bool {
    &&& array + 8 * scopes.len() <= u64::MAX
    &&& forall|i: int|
        0 <= i < scopes.len() ==> {
            let s = #[trigger] scopes[i];
            &&& s.at + 0x108 <= u64::MAX
            &&& stands64(mem, array + 8 * i, s.at as int)
            &&& readable(mem, s.at as int, 8)
            &&& stands_text(mem, s.at + 8, s.name)
            &&& s.name.len() > 0
            &&& encode_utf8(s.name).len() <= longest
        }
}

proof fn lemma_scope_named(mem: Map<int, u8>, modules: Seq<ModuleRecord>, s: ScopeImage)
    requires
        readable(mem, s.at as int, 8),
        stands_text(mem, s.at + 8, s.name),
        encode_utf8(s.name).len() <= 256,
    ensures
        name_of_scope(mem, modules, s.at) == interned(modules, s.name),
{
    reveal(stands_text);
    let b = encode_utf8(s.name);
    let at = s.at as int;
    let r = raw(mem, at, 0x108).subrange(8, 0x108);
    let n = b.len() as int;
    assert forall|i: int| 0 <= i < n implies r[i] == b[i] by {
        assert(readable(mem, at, 8 + i + 1));
        assert(mem.contains_key(at + 8 + i));
        assert(b.push(0u8)[i] == b[i]);
    }
    if n < r.len() {
        assert(readable(mem, at, 8 + n + 1));
        assert(mem.contains_key(at + 8 + n));
        assert(b.push(0u8)[n] == 0);
    }
    lemma_until_nul(r, n);
    assert(r.subrange(0, n) =~= b);
    encode_utf8_decode_utf8(s.name);
    encode_utf8_valid_utf8(s.name);
}

/// The scopes of a system are those that its array points to, in order, each under
/// its name as the module list spells it.
pub proof fn lemma_scopes_listed(
    mem: Map<int, u8>,
    modules: Seq<ModuleRecord>,
    array: u64,
    scopes: Seq<ScopeImage>,
    n: nat,
)
    requires
        scopes_stand(mem, array, scopes, 256),
        forall|i: int|
            0 <= i < scopes.len() ==> interned(modules, (#[trigger] scopes[i]).name).len() > 0,
        n <= scopes.len(),
    ensures
        named_scopes(mem, modules, array, n).len() == n,
        forall|i: int|
            0 <= i < n ==> #[trigger] named_scopes(mem, modules, array, n)[i] == (
                scopes[i].at,
                interned(modules, scopes[i].name),
            ),
    decreases n,
{
    if n > 0 {
        lemma_scopes_listed(mem, modules, array, scopes, (n - 1) as nat);
        let s = scopes[n - 1];
        lemma_loads(mem, array + 8 * (n - 1), s.at as int);
        lemma_scope_named(mem, modules, s);
    }
}

/// Scopes with different visible names of at most 64 bytes are told apart by
/// these, in the order of the array.
pub proof fn lemma_scope_names(mem: Map<int, u8>, array: u64, scopes: Seq<ScopeImage>, n: int)
    requires
        scopes_stand(mem, array, scopes, 64),
        0 <= n <= scopes.len(),
        forall|i: int| 0 <= i < scopes.len() ==> (#[trigger] scopes[i]).at >= 0x1_0000,
        forall|i: int, k: int|
            0 <= i < scopes.len() && 0 <= k < encode_utf8(scopes[i].name).len() ==> 0x20
                < #[trigger] encode_utf8(scopes[i].name)[k] < 0x7F,
        forall|i: int, j: int|
            0 <= i < j < scopes.len() ==> (#[trigger] scopes[i]).name != (#[trigger] scopes[j]).name,
    ensures
        scope_names(mem, array, n) == Seq::new(n as nat, |i: int| scopes[i].name),
    decreases n,
{
    let want = Seq::new(n as nat, |i: int| scopes[i].name);
    if n > 0 {
        lemma_scope_names(mem, array, scopes, n - 1);
        let s = scopes[n - 1];
        lemma_loads(mem, array + 8 * (n - 1), s.at as int);
        lemma_text(mem, s.at + 8, s.name, 64);
        encode_utf8_decode_utf8(s.name);
        assert(encode_utf8(s.name).len() > 0) by {
            if encode_utf8(s.name).len() == 0 {
                assert(encode_utf8(s.name) =~= encode_utf8(Seq::<char>::empty()));
                encode_utf8_decode_utf8(Seq::<char>::empty());
            }
        }
        let before = scope_names(mem, array, n - 1);
        assert(!before.contains(s.name)) by {
            if before.contains(s.name) {
                let i = choose|i: int| 0 <= i < before.len() && before[i] == s.name;
                assert(scopes[i].name == s.name);
            }
        }
        assert(scope_names(mem, array, n) =~= want);
    } else {
        assert(want =~= Seq::empty());
    }
}

/// A scope at a low address, with an invisible byte in its name, or with a name
/// that came before, adds no name.
pub proof fn lemma_scope_passed(mem: Map<int, u8>, array: u64, n: int, s: ScopeImage, k: int)
    requires
        0 <= n,
        array + 8 * n + 8 <= u64::MAX,
        s.at + 0x108 <= u64::MAX,
        stands64(mem, array + 8 * n, s.at as int),
        stands_text(mem, s.at + 8, s.name),
        encode_utf8(s.name).len() <= 64,
        s.at < 0x1_0000 || scope_names(mem, array, n).contains(s.name) || s.name.len() == 0 || (0
            <= k < encode_utf8(s.name).len() && (encode_utf8(s.name)[k] <= 0x20 || encode_utf8(
            s.name,
        )[k] >= 0x7F)),
    ensures
        scope_names(mem, array, n + 1) == scope_names(mem, array, n),
{
    lemma_loads(mem, array + 8 * n, s.at as int);
    lemma_text(mem, s.at + 8, s.name, 64);
    if s.name.len() == 0 {
        assert(s.name =~= Seq::<char>::empty());
        assert(encode_utf8(s.name).len() == 0);
    }
}

/// What stands in a module's data is taken for a schema system exactly where it
/// has between one and 512 scopes, between one and a million registrations, an
/// array at no low address, and two different names among its first eight scopes;
/// it counts as many names as it shows.
pub proof fn lemma_candidate(
    mem: Map<int, u8>,
    image: Seq<u8>,
    offset: int,
    count: u32,
    registrations: u32,
    array: u64,
)
    requires
        0 <= offset,
        stands_at(image, bytes4(count as int), offset + 0x190),
        stands_at(image, bytes8(array as int), offset + 0x198),
        stands_at(image, bytes4(registrations as int), offset + 0x280),
    ensures
        ({
            let shown = scope_names(
                mem,
                array,
                if count < 8 {
                    count as int
                } else {
                    8
                },
            ).len();
            if 1 <= count <= 512 && 1 <= registrations <= 1_000_000 && array >= 0x1_0000 && shown
                >= 2 {
                candidate_at(mem, image, offset) == Some((array, shown as usize))
            } else {
                candidate_at(mem, image, offset) is None
            }
        }),
{
    lemma_number(image, offset + 0x190, count as int);
    lemma_number(image, offset + 0x198, array as int);
    lemma_number(image, offset + 0x280, registrations as int);
}

/// A system can stand at `offset`: a multiple of eight with all of the system in
/// one of the ranges.
pub open spec fn place_for_system(image: Seq<u8>, ranges: Seq<(u64, u64)>, offset: int) -> bool {
    &&& offset % 8 == 0
    &&& offset + 0x284 <= image.len()
    &&& exists|r: int|
        0 <= r < ranges.len() && (#[trigger] ranges[r]).0 <= offset && offset + 0x284
            <= ranges[r].0 + ranges[r].1
}

proof fn lemma_range_step(
    mem: Map<int, u8>,
    image: Seq<u8>,
    base: u64,
    range: (u64, u64),
    from: int,
    one: (u64, u64, usize),
)
    requires
        fits_at(image.len() as int, range, from),
        range_candidates(mem, image, base, range, from + 8).contains(one) || (candidate_at(
            mem,
            image,
            from,
        ) == Some((one.1, one.2)) && one.0 == (base + from) as u64),
    ensures
        range_candidates(mem, image, base, range, from).contains(one),
{
    let out = range_candidates(mem, image, base, range, from);
    let rest = range_candidates(mem, image, base, range, from + 8);
    if candidate_at(mem, image, from) is Some {
        let pair = candidate_at(mem, image, from)->0;
        assert(out == seq![((base + from) as u64, pair.0, pair.1)] + rest);
        if rest.contains(one) {
            let i = choose|i: int| 0 <= i < rest.len() && rest[i] == one;
            assert(out[i + 1] == one);
        } else {
            assert(out[0] == one);
        }
    } else {
        assert(out == rest);
    }
}

proof fn lemma_range_seen(
    mem: Map<int, u8>,
    image: Seq<u8>,
    base: u64,
    range: (u64, u64),
    from: int,
    offset: int,
    array: u64,
    score: usize,
)
    requires
        from % 8 == 0,
        offset % 8 == 0,
        range.0 <= from <= offset,
        offset + 0x284 <= range.0 + range.1,
        offset + 0x284 <= image.len(),
        candidate_at(mem, image, offset) == Some((array, score)),
    ensures
        range_candidates(mem, image, base, range, from).contains(
            ((base + offset) as u64, array, score),
        ),
    decreases image.len() - from,
{
    if from < offset {
        lemma_range_seen(mem, image, base, range, from + 8, offset, array, score);
    }
    assert(fits_at(image.len() as int, range, from));
    lemma_range_step(mem, image, base, range, from, ((base + offset) as u64, array, score));
}

proof fn lemma_range_only(
    mem: Map<int, u8>,
    image: Seq<u8>,
    base: u64,
    range: (u64, u64),
    from: int,
    i: int,
)
    requires
        range.0 <= from,
        from % 8 == 0,
        base + image.len() <= u64::MAX,
        0 <= i < range_candidates(mem, image, base, range, from).len(),
    ensures
        ({
            let one = range_candidates(mem, image, base, range, from)[i];
            let offset = one.0 - base;
            &&& offset % 8 == 0
            &&& from <= offset
            &&& offset + 0x284 <= range.0 + range.1
            &&& offset + 0x284 <= image.len()
            &&& candidate_at(mem, image, offset) == Some((one.1, one.2))
        }),
    decreases image.len() - from,
{
    let out = range_candidates(mem, image, base, range, from);
    let rest = range_candidates(mem, image, base, range, from + 8);
    if candidate_at(mem, image, from) is Some {
        if i > 0 {
            assert(out[i] == rest[i - 1]);
            lemma_range_only(mem, image, base, range, from + 8, i - 1);
        } else {
            assert(out[0].0 == base + from);
        }
    } else {
        lemma_range_only(mem, image, base, range, from + 8, i);
    }
}

/// All of a system at `offset` lies in a range.
pub open spec fn place_in(image: Seq<u8>, range: (u64, u64), offset: int) -> bool {
    &&& offset % 8 == 0
    &&& offset + 0x284 <= image.len()
    &&& range.0 <= offset
    &&& offset + 0x284 <= range.0 + range.1
}

proof fn lemma_place_split(image: Seq<u8>, ranges: Seq<(u64, u64)>, offset: int)
    requires
        ranges.len() > 0,
    ensures
        place_for_system(image, ranges, offset) <==> place_for_system(
            image,
            ranges.drop_last(),
            offset,
        ) || place_in(image, ranges.last(), offset),
        place_in(image, ranges.last(), offset) ==> first_slot(ranges.last().0) <= offset,
{
    let shorter = ranges.drop_last();
    if place_for_system(image, shorter, offset) {
        let r = choose|r: int|
            0 <= r < shorter.len() && (#[trigger] shorter[r]).0 <= offset && offset + 0x284
                <= shorter[r].0 + shorter[r].1;
        assert(ranges[r] == shorter[r]);
    }
    if place_in(image, ranges.last(), offset) {
        assert(ranges[ranges.len() - 1] == ranges.last());
    }
    if place_for_system(image, ranges, offset) {
        let r = choose|r: int|
            0 <= r < ranges.len() && (#[trigger] ranges[r]).0 <= offset && offset + 0x284
                <= ranges[r].0 + ranges[r].1;
        if r < shorter.len() {
            assert(shorter[r] == ranges[r]);
        }
    }
}

/// The candidates are what the places of the ranges show, and nothing else.
pub proof fn lemma_candidates_seen(
    mem: Map<int, u8>,
    image: Seq<u8>,
    base: u64,
    ranges: Seq<(u64, u64)>,
    offset: int,
    array: u64,
    score: usize,
)
    requires
        base + image.len() <= u64::MAX,
        0 <= offset < image.len(),
    ensures
        candidates(mem, image, base, ranges).contains(((base + offset) as u64, array, score))
            <==> place_for_system(image, ranges, offset) && candidate_at(mem, image, offset)
            == Some((array, score)),
    decreases ranges.len(),
{
    let one = ((base + offset) as u64, array, score);
    let all = candidates(mem, image, base, ranges);
    if ranges.len() > 0 {
        let shorter = ranges.drop_last();
        let range = ranges.last();
        let from = first_slot(range.0);
        let before = candidates(mem, image, base, shorter);
        let own = range_candidates(mem, image, base, range, from);
        lemma_candidates_seen(mem, image, base, shorter, offset, array, score);
        lemma_joined(before, own, one);
        lemma_place_split(image, ranges, offset);
        if place_in(image, range, offset) && candidate_at(mem, image, offset) == Some(
            (array, score),
        ) {
            lemma_range_seen(mem, image, base, range, from, offset, array, score);
        }
        if own.contains(one) {
            let i = choose|i: int| 0 <= i < own.len() && own[i] == one;
            lemma_range_only(mem, image, base, range, from, i);
        }
    } else {
        assert(all.len() == 0);
    }
}

} // verus!
