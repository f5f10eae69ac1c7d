//! Walks the manager of game events: every registered event with its number
//! and its typed fields.
//!
//! ```text
//! *g_pGameEventManager  ->  manager:
//!   +0x08  event count (u32)
//!   +0x10  descriptor array      (stride 88, by event number)
//!   +0xC4  info count (u32, low 31 bits)
//!   +0xC8  info array            (stride 32: name @+16)
//!
//! descriptor:
//!   +0x08  id (u32)   +0x0C  name index (u32, into the info array)
//!   +0x28  local (u8) +0x38  key count (u32)   +0x40  key array (stride 72)
//!
//! key:  +0x08 name   +0x38 description   +0x40 type (u32)
//! ```
//! Other builds have had other layouts, so the layout is chosen among a few
//! candidates by the event names found there. The one above is the fallback.

use crate::analysis::global_anchor;
use crate::analysis::convars::string_stands;
use crate::analysis::global_anchor::{
    find_global, finds, head32, head64, lemma_best_object_found, lemma_found_shows, module_finds,
    passing, ranges_find, Anchor, AnchorScan, Head,
};
use crate::analysis::module_data::ModuleImage;
use crate::analysis::read::{cstr, cstr_in, ld32, ld64, ld8, u32_va, u64_va, u8_va};
use crate::memory::{raw, readable, Memory};
use crate::memory::stored::{lemma_heads, lemma_loads, lemma_text, stands32, stands64, stands8};
use crate::order::{lemma_in_order, name_order, names_of, rearranged, sort_by_name, Named};
use crate::text::str_before;
use vstd::prelude::*;
use vstd::string::*;
use vstd::utf8::*;

verus! {

pub const MAX_EVENTS: u32 = 4096;

pub const MAX_KEYS: u32 = 512;

/// Where a manager and its records keep what the walk reads.
#[derive(Clone, Copy, Debug, PartialEq, Eq, Structural)]
pub struct EventLayout {
    pub manager_count: u64,
    pub manager_desc_base: u64,
    pub manager_info_flags: u64,
    pub manager_info_base: u64,
    pub desc_stride: u64,
    pub desc_id: u64,
    pub desc_name_idx: u64,
    pub desc_local: u64,
    pub desc_key_count: u64,
    pub desc_keys_base: u64,
    pub info_stride: u64,
    pub info_name: u64,
    pub key_stride: u64,
    pub key_name: u64,
    pub key_desc: u64,
    pub key_type: u64,
}

/// Candidate `i` of three; the first is the fallback.
pub open spec fn candidate(i: int) -> EventLayout {
    EventLayout {
        manager_count: if i == 1 {
            0x10
        } else {
            0x08
        },
        manager_desc_base: if i == 0 {
            0x10
        } else {
            0x18
        },
        manager_info_flags: if i == 1 {
            0xCC
        } else {
            0xC4
        },
        manager_info_base: if i == 1 {
            0xD0
        } else {
            0xC8
        },
        desc_stride: if i == 2 {
            96
        } else {
            88
        },
        desc_id: 0x08,
        desc_name_idx: 0x0C,
        desc_local: if i == 2 {
            0x2C
        } else {
            0x28
        },
        desc_key_count: if i == 2 {
            0x40
        } else {
            0x38
        },
        desc_keys_base: if i == 2 {
            0x48
        } else {
            0x40
        },
        info_stride: 32,
        info_name: 16,
        key_stride: 72,
        key_name: 0x08,
        key_desc: 0x38,
        key_type: 0x40,
    }
}

pub fn candidate_layout(i: usize) -> (layout: EventLayout)
    ensures
        layout == candidate(i as int),
{
    EventLayout {
        manager_count: if i == 1 {
            0x10
        } else {
            0x08
        },
        manager_desc_base: if i == 0 {
            0x10
        } else {
            0x18
        },
        manager_info_flags: if i == 1 {
            0xCC
        } else {
            0xC4
        },
        manager_info_base: if i == 1 {
            0xD0
        } else {
            0xC8
        },
        desc_stride: if i == 2 {
            96
        } else {
            88
        },
        desc_id: 0x08,
        desc_name_idx: 0x0C,
        desc_local: if i == 2 {
            0x2C
        } else {
            0x28
        },
        desc_key_count: if i == 2 {
            0x40
        } else {
            0x38
        },
        desc_keys_base: if i == 2 {
            0x48
        } else {
            0x40
        },
        info_stride: 32,
        info_name: 16,
        key_stride: 72,
        key_name: 0x08,
        key_desc: 0x38,
        key_type: 0x40,
    }
}

impl Default for EventLayout {
    fn default() -> (layout: Self)
        ensures
            layout == candidate(0),
    {
        candidate_layout(0)
    }
}

/// An address, unless it leaves the address space.
pub open spec fn address(a: int) -> Option<u64> {
    if 0 <= a <= u64::MAX {
        Some(a as u64)
    } else {
        None
    }
}

/// The address of a field of an array element.
pub fn indexed_addr(base: u64, stride: u64, index: u64, extra: u64) -> (at: Option<u64>)
    ensures
        at == address(base + stride * index + extra),
{
    assert(0 <= stride * index <= 0xFFFF_FFFF_FFFF_FFFF * 0xFFFF_FFFF_FFFF_FFFF)
        by (nonlinear_arith)
        requires
            0 <= stride <= 0xFFFF_FFFF_FFFF_FFFF,
            0 <= index <= 0xFFFF_FFFF_FFFF_FFFF,
    ;
    let delta: u128 = stride as u128 * index as u128;
    if delta > 0xFFFF_FFFF_FFFF_FFFF {
        return None;
    }
    match base.checked_add(delta as u64) {
        Some(elem) => elem.checked_add(extra),
        None => None,
    }
}

/// The counts and arrays of a manager.
#[derive(Clone, Copy, Debug)]
pub struct Tables {
    pub count: u32,
    pub desc_base: u64,
    pub info_size: u32,
    pub info_base: u64,
}

/// The low 31 bits of a count field.
pub open spec fn low31(x: u32) -> u32 {
    (x % 0x8000_0000) as u32
}

/// A name of one to 128 visible bytes.
pub open spec fn plausible(name: Seq<char>) -> bool {
    let bytes = encode_utf8(name);
    &&& 1 <= bytes.len() <= 128
    &&& forall|i: int| 0 <= i < bytes.len() ==> 0x21 <= #[trigger] bytes[i] <= 0x7e
}

pub fn plausible_name(name: &str) -> (ok: bool)
    ensures
        ok == plausible(name@),
{
    let bytes = name.as_bytes();
    if bytes.len() < 1 || bytes.len() > 128 {
        return false;
    }
    let mut i: usize = 0;
    while i < bytes.len()
        invariant
            i <= bytes@.len(),
            bytes@ == encode_utf8(name@),
            forall|k: int| 0 <= k < i ==> 0x21 <= #[trigger] bytes@[k] <= 0x7e,
        decreases bytes@.len() - i,
    {
        if bytes[i] < 0x21 || bytes[i] > 0x7e {
            return false;
        }
        i = i + 1;
    }
    true
}

/// The name of the event in descriptor `id`: that of the info record which the
/// descriptor names, and empty where it names none. `None` where an address on
/// the way leaves the address space.
pub open spec fn event_name(mem: Map<int, u8>, layout: EventLayout, tables: Tables, id: int) -> Option<
    Seq<char>,
> {
    match address(tables.desc_base + layout.desc_stride * id + layout.desc_name_idx) {
        None => None,
        Some(at) => {
            let index = ld32(mem, at as int);
            if tables.info_base != 0 && index < tables.info_size {
                match address(tables.info_base + layout.info_stride * index + layout.info_name) {
                    None => None,
                    Some(slot) => Some(cstr_in(mem, ld64(mem, slot as int))),
                }
            } else {
                Some(Seq::empty())
            }
        },
    }
}

fn read_event_name(mem: &Memory, layout: &EventLayout, tables: &Tables, id: u32) -> (name: Option<
    String,
>)
    requires
        mem.wf(),
    ensures
        match event_name(mem@, *layout, *tables, id as int) {
            Some(text) => name matches Some(n) && n@ == text,
            None => name is None,
        },
{
    match indexed_addr(tables.desc_base, layout.desc_stride, id as u64, layout.desc_name_idx) {
        None => None,
        Some(at) => {
            let index: u32 = u32_va(mem, at);
            if tables.info_base != 0 && index < tables.info_size {
                match indexed_addr(
                    tables.info_base,
                    layout.info_stride,
                    index as u64,
                    layout.info_name,
                ) {
                    None => None,
                    Some(slot) => {
                        let ptr: u64 = u64_va(mem, slot);
                        Some(cstr(mem, ptr))
                    },
                }
            } else {
                Some(String::new())
            }
        },
    }
}

/// How many of the first `n` descriptors have a plausible name.
pub open spec fn named_events(mem: Map<int, u8>, layout: EventLayout, tables: Tables, n: int) -> int
    decreases n,
{
    if n <= 0 {
        0
    } else {
        let name = event_name(mem, layout, tables, n - 1);
        named_events(mem, layout, tables, n - 1) + if name is Some && plausible(name->0) {
            1int
        } else {
            0int
        }
    }
}

/// The arrays that a manager with this layout holds; `None` where a field's
/// address leaves the address space.
pub open spec fn tables_in(mem: Map<int, u8>, manager: u64, layout: EventLayout) -> Option<Tables> {
    let count = address(manager + layout.manager_count);
    let desc = address(manager + layout.manager_desc_base);
    let flags = address(manager + layout.manager_info_flags);
    let info = address(manager + layout.manager_info_base);
    if count is None || desc is None || flags is None || info is None {
        None
    } else {
        Some(
            Tables {
                count: ld32(mem, count->0 as int),
                desc_base: ld64(mem, desc->0 as int),
                info_size: low31(ld32(mem, flags->0 as int)),
                info_base: ld64(mem, info->0 as int),
            },
        )
    }
}

/// The arrays are those of a manager in use.
pub open spec fn populated(tables: Tables) -> bool {
    &&& 1 <= tables.count <= MAX_EVENTS
    &&& tables.desc_base >= 0x10000
    &&& 1 <= tables.info_size <= 8192
    &&& tables.info_base >= 0x10000
}

/// How many of the first eight events have a plausible name under a layout.
#[verifier::opaque]
pub open spec fn layout_evidence(mem: Map<int, u8>, manager: u64, layout: EventLayout) -> int {
    match tables_in(mem, manager, layout) {
        None => 0,
        Some(tables) => if populated(tables) {
            named_events(
                mem,
                layout,
                tables,
                if tables.count < 8 {
                    tables.count as int
                } else {
                    8
                },
            )
        } else {
            0
        },
    }
}

/// How much evidence `manager` shows of an event manager with this layout.
pub fn score_layout(mem: &Memory, manager: u64, layout: EventLayout) -> (score: usize)
    requires
        mem.wf(),
    ensures
        score == layout_evidence(mem@, manager, layout),
{
    proof {
        reveal(layout_evidence);
    }
    let (count_at, desc_at, flags_at, info_at) = match (
        manager.checked_add(layout.manager_count),
        manager.checked_add(layout.manager_desc_base),
        manager.checked_add(layout.manager_info_flags),
        manager.checked_add(layout.manager_info_base),
    ) {
        (Some(c), Some(d), Some(f), Some(i)) => (c, d, f, i),
        _ => {
            return 0;
        },
    };
    let tables = Tables {
        count: u32_va(mem, count_at),
        desc_base: u64_va(mem, desc_at),
        info_size: u32_va(mem, flags_at) % 0x8000_0000,
        info_base: u64_va(mem, info_at),
    };
    if tables.count < 1 || tables.count > MAX_EVENTS || tables.desc_base < 0x10000
        || tables.info_size < 1 || tables.info_size > 8192 || tables.info_base < 0x10000 {
        return 0;
    }
    let limit: u32 = if tables.count < 8 {
        tables.count
    } else {
        8
    };
    let mut score: usize = 0;
    let mut id: u32 = 0;
    while id < limit
        invariant
            mem.wf(),
            id <= limit <= 8,
            score <= id,
            score == named_events(mem@, layout, tables, id as int),
        decreases limit - id,
    {
        match read_event_name(mem, &layout, &tables, id) {
            Some(name) => {
                if plausible_name(name.as_str()) {
                    score = score + 1;
                }
            },
            None => {},
        }
        id = id + 1;
    }
    score
}

/// The first of the first `n` candidates that shows the most evidence.
pub open spec fn best_candidate(mem: Map<int, u8>, manager: u64, n: int) -> int
    decreases n,
{
    if n <= 1 {
        0
    } else {
        let before = best_candidate(mem, manager, n - 1);
        if layout_evidence(mem, manager, candidate(n - 1)) > layout_evidence(
            mem,
            manager,
            candidate(before),
        ) {
            n - 1
        } else {
            before
        }
    }
}

/// No candidate shows more evidence than the best one, and none before it as
/// much.
pub proof fn lemma_best_candidate(mem: Map<int, u8>, manager: u64, n: int, j: int)
    requires
        0 <= j < n,
    ensures
        0 <= best_candidate(mem, manager, n) < n,
        layout_evidence(mem, manager, candidate(j)) <= layout_evidence(
            mem,
            manager,
            candidate(best_candidate(mem, manager, n)),
        ),
        j < best_candidate(mem, manager, n) ==> layout_evidence(mem, manager, candidate(j))
            < layout_evidence(mem, manager, candidate(best_candidate(mem, manager, n))),
    decreases n,
{
    if n > 1 {
        if j < n - 1 {
            lemma_best_candidate(mem, manager, n - 1, j);
        } else {
            lemma_best_candidate(mem, manager, n - 1, 0);
        }
    }
}

fn best_layout(mem: &Memory, manager: u64) -> (best: (EventLayout, usize))
    requires
        mem.wf(),
    ensures
        best.0 == candidate(best_candidate(mem@, manager, 3)),
        best.1 == layout_evidence(mem@, manager, best.0),
{
    let mut layout = candidate_layout(0);
    let mut score: usize = score_layout(mem, manager, layout);
    let mut k: usize = 1;
    while k < 3
        invariant
            mem.wf(),
            1 <= k <= 3,
            layout == candidate(best_candidate(mem@, manager, k as int)),
            score == layout_evidence(mem@, manager, layout),
        decreases 3 - k,
    {
        let other = candidate_layout(k);
        let evidence: usize = score_layout(mem, manager, other);
        if evidence > score {
            layout = other;
            score = evidence;
        }
        k = k + 1;
    }
    (layout, score)
}

/// The layout of a manager: the best-fitting one where at least two events
/// speak for it, else the fallback.
pub open spec fn detected(mem: Map<int, u8>, manager: u64) -> EventLayout {
    let best = candidate(best_candidate(mem, manager, 3));
    if layout_evidence(mem, manager, best) >= 2 {
        best
    } else {
        candidate(0)
    }
}

pub fn detect_layout(mem: &Memory, manager: u64) -> (layout: EventLayout)
    requires
        mem.wf(),
    ensures
        layout == detected(mem@, manager),
{
    let (best, score) = best_layout(mem, manager);
    if score >= 2 {
        best
    } else {
        EventLayout::default()
    }
}

/// The name of a field type.
pub open spec fn type_text(t: u32) -> Seq<char> {
    if t == 0 {
        "local"@
    } else if t == 1 {
        "string"@
    } else if t == 2 {
        "float"@
    } else if t == 3 {
        "int32"@
    } else if t == 4 {
        "int16"@
    } else if t == 5 {
        "byte"@
    } else if t == 6 {
        "bool"@
    } else if t == 7 {
        "uint64"@
    } else if t == 8 {
        "player_pawn"@
    } else if t == 9 {
        "player_controller"@
    } else {
        "unknown"@
    }
}

pub fn type_label(t: u32) -> (label: &'static str)
    ensures
        label@ == type_text(t),
{
    match t {
        0 => "local",
        1 => "string",
        2 => "float",
        3 => "int32",
        4 => "int16",
        5 => "byte",
        6 => "bool",
        7 => "uint64",
        8 => "player_pawn",
        9 => "player_controller",
        _ => "unknown",
    }
}

/// A field of an event.
#[derive(Debug)]
pub struct GameEventField {
    pub name: String,
    pub type_label: &'static str,
    pub description: String,
}

/// A game event.
#[derive(Debug)]
pub struct GameEvent {
    pub name: String,
    pub id: u32,
    pub local: bool,
    pub fields: Vec<GameEventField>,
}

pub struct FieldModel {
    pub name: Seq<char>,
    pub type_text: Seq<char>,
    pub description: Seq<char>,
}

pub struct EventModel {
    pub name: Seq<char>,
    pub id: u32,
    pub local: bool,
    pub fields: Seq<FieldModel>,
}

impl GameEventField {
    pub open spec fn model(&self) -> FieldModel {
        FieldModel {
            name: self.name@,
            type_text: self.type_label@,
            description: self.description@,
        }
    }
}

pub open spec fn field_models(fields: Seq<GameEventField>) -> Seq<FieldModel> {
    Seq::new(fields.len(), |i: int| fields[i].model())
}

impl GameEvent {
    pub open spec fn model(&self) -> EventModel {
        EventModel {
            name: self.name@,
            id: self.id,
            local: self.local,
            fields: field_models(self.fields@),
        }
    }
}

pub open spec fn event_models(events: Seq<GameEvent>) -> Seq<EventModel> {
    Seq::new(events.len(), |i: int| events[i].model())
}

impl Named for GameEvent {
    open spec fn name_text(&self) -> Seq<char> {
        self.name@
    }

    fn name_str(&self) -> (name: &str) {
        self.name.as_str()
    }
}

/// The field in key `k`; none where it has no name or where an address leaves
/// the address space.
pub open spec fn field_in(mem: Map<int, u8>, layout: EventLayout, keys: u64, k: int) -> Option<
    FieldModel,
> {
    let elem = keys + layout.key_stride * k;
    let name_at = address(elem + layout.key_name);
    let type_at = address(elem + layout.key_type);
    let desc_at = address(elem + layout.key_desc);
    if name_at is None || type_at is None || desc_at is None {
        None
    } else {
        let name = cstr_in(mem, ld64(mem, name_at->0 as int));
        if name.len() == 0 {
            None
        } else {
            Some(
                FieldModel {
                    name,
                    type_text: type_text(ld32(mem, type_at->0 as int)),
                    description: cstr_in(mem, ld64(mem, desc_at->0 as int)),
                },
            )
        }
    }
}

/// The fields in the first `n` keys.
pub open spec fn fields_in(mem: Map<int, u8>, layout: EventLayout, keys: u64, n: int) -> Seq<
    FieldModel,
>
    decreases n,
{
    if n <= 0 {
        Seq::empty()
    } else {
        let before = fields_in(mem, layout, keys, n - 1);
        match field_in(mem, layout, keys, n - 1) {
            Some(field) => before.push(field),
            None => before,
        }
    }
}

/// The event in descriptor `id`; none where it has no name or where an address
/// leaves the address space. Its fields are left out where there is no key
/// array or an implausible number of keys.
pub open spec fn event_in(mem: Map<int, u8>, layout: EventLayout, tables: Tables, id: int) -> Option<
    EventModel,
> {
    let desc = tables.desc_base + layout.desc_stride * id;
    let name = event_name(mem, layout, tables, id);
    let local_at = address(desc + layout.desc_local);
    let count_at = address(desc + layout.desc_key_count);
    let keys_at = address(desc + layout.desc_keys_base);
    if name is None || name->0.len() == 0 || local_at is None || count_at is None || keys_at is None {
        None
    } else {
        let count = ld32(mem, count_at->0 as int);
        let keys = ld64(mem, keys_at->0 as int);
        Some(
            EventModel {
                name: name->0,
                id: match address(desc + layout.desc_id) {
                    Some(at) => ld32(mem, at as int),
                    None => 0,
                },
                local: ld8(mem, local_at->0 as int) != 0,
                fields: if keys != 0 && count <= MAX_KEYS {
                    fields_in(mem, layout, keys, count as int)
                } else {
                    Seq::empty()
                },
            },
        )
    }
}

/// The events in the first `n` descriptors.
pub open spec fn events_in(mem: Map<int, u8>, layout: EventLayout, tables: Tables, n: int) -> Seq<
    EventModel,
>
    decreases n,
{
    if n <= 0 {
        Seq::empty()
    } else {
        let before = events_in(mem, layout, tables, n - 1);
        match event_in(mem, layout, tables, n - 1) {
            Some(event) => before.push(event),
            None => before,
        }
    }
}

fn read_field(mem: &Memory, layout: &EventLayout, keys: u64, k: u32) -> (field: Option<
    GameEventField,
>)
    requires
        mem.wf(),
    ensures
        match field_in(mem@, *layout, keys, k as int) {
            Some(model) => field matches Some(f) && f.model() == model,
            None => field is None,
        },
{
    match (
        indexed_addr(keys, layout.key_stride, k as u64, layout.key_name),
        indexed_addr(keys, layout.key_stride, k as u64, layout.key_type),
        indexed_addr(keys, layout.key_stride, k as u64, layout.key_desc),
    ) {
        (Some(name_at), Some(type_at), Some(desc_at)) => {
            let name_ptr: u64 = u64_va(mem, name_at);
            let name = cstr(mem, name_ptr);
            if name.as_str().is_empty() {
                return None;
            }
            let desc_ptr: u64 = u64_va(mem, desc_at);
            Some(
                GameEventField {
                    name,
                    type_label: type_label(u32_va(mem, type_at)),
                    description: cstr(mem, desc_ptr),
                },
            )
        },
        _ => None,
    }
}

fn read_fields(mem: &Memory, layout: &EventLayout, keys: u64, count: u32) -> (fields: Vec<
    GameEventField,
>)
    requires
        mem.wf(),
    ensures
        field_models(fields@) == fields_in(mem@, *layout, keys, count as int),
{
    let mut fields: Vec<GameEventField> = Vec::new();
    let mut k: u32 = 0;
    assert(field_models(fields@) =~= Seq::<FieldModel>::empty());
    while k < count
        invariant
            mem.wf(),
            k <= count,
            field_models(fields@) == fields_in(mem@, *layout, keys, k as int),
        decreases count - k,
    {
        match read_field(mem, layout, keys, k) {
            Some(field) => {
                let ghost before = field_models(fields@);
                let ghost model = field.model();
                fields.push(field);
                assert(field_models(fields@) =~= before.push(model));
            },
            None => {},
        }
        k = k + 1;
    }
    fields
}

fn read_event(mem: &Memory, layout: &EventLayout, tables: &Tables, id: u32) -> (event: Option<
    GameEvent,
>)
    requires
        mem.wf(),
    ensures
        match event_in(mem@, *layout, *tables, id as int) {
            Some(model) => event matches Some(e) && e.model() == model,
            None => event is None,
        },
{
    let name = match read_event_name(mem, layout, tables, id) {
        Some(n) => n,
        None => {
            return None;
        },
    };
    if name.as_str().is_empty() {
        return None;
    }
    let stride: u64 = layout.desc_stride;
    match (
        indexed_addr(tables.desc_base, stride, id as u64, layout.desc_local),
        indexed_addr(tables.desc_base, stride, id as u64, layout.desc_key_count),
        indexed_addr(tables.desc_base, stride, id as u64, layout.desc_keys_base),
    ) {
        (Some(local_at), Some(count_at), Some(keys_at)) => {
            let local = u8_va(mem, local_at) != 0;
            let count: u32 = u32_va(mem, count_at);
            let keys: u64 = u64_va(mem, keys_at);
            let fields: Vec<GameEventField> = if keys != 0 && count <= MAX_KEYS {
                read_fields(mem, layout, keys, count)
            } else {
                let none: Vec<GameEventField> = Vec::new();
                assert(field_models(none@) =~= Seq::<FieldModel>::empty());
                none
            };
            let event_id: u32 = match indexed_addr(
                tables.desc_base,
                stride,
                id as u64,
                layout.desc_id,
            ) {
                Some(at) => u32_va(mem, at),
                None => 0,
            };
            Some(GameEvent { name, id: event_id, local, fields })
        },
        _ => None,
    }
}

/// Why a manager could not be walked.
#[derive(Clone, Copy, Debug, PartialEq, Eq, Structural)]
pub enum GameEventError {
    /// The global is null.
    NullManager,
    /// The address of a field of the manager leaves the address space.
    AddressOverflow,
    /// The manager holds no array, or this implausible number of events.
    Unpopulated(u32),
}

/// The arrays that a walk goes by. The address of the info array counts only
/// where there is one.
pub open spec fn walked_tables(mem: Map<int, u8>, manager: u64, layout: EventLayout) -> Result<
    Tables,
    GameEventError,
> {
    let count = address(manager + layout.manager_count);
    let desc = address(manager + layout.manager_desc_base);
    let flags = address(manager + layout.manager_info_flags);
    let info = address(manager + layout.manager_info_base);
    if count is None || desc is None || flags is None {
        Err(GameEventError::AddressOverflow)
    } else {
        let n = ld32(mem, count->0 as int);
        let base = ld64(mem, desc->0 as int);
        let info_size = low31(ld32(mem, flags->0 as int));
        if info_size != 0 && info is None {
            Err(GameEventError::AddressOverflow)
        } else if base == 0 || n == 0 || n > MAX_EVENTS {
            Err(GameEventError::Unpopulated(n))
        } else {
            Ok(
                Tables {
                    count: n,
                    desc_base: base,
                    info_size,
                    info_base: if info_size != 0 {
                        ld64(mem, info->0 as int)
                    } else {
                        0
                    },
                },
            )
        }
    }
}

fn read_tables(mem: &Memory, manager: u64, layout: &EventLayout) -> (tables: Result<
    Tables,
    GameEventError,
>)
    requires
        mem.wf(),
    ensures
        tables == walked_tables(mem@, manager, *layout),
{
    let (count_at, desc_at, flags_at) = match (
        manager.checked_add(layout.manager_count),
        manager.checked_add(layout.manager_desc_base),
        manager.checked_add(layout.manager_info_flags),
    ) {
        (Some(c), Some(d), Some(f)) => (c, d, f),
        _ => {
            return Err(GameEventError::AddressOverflow);
        },
    };
    let count: u32 = u32_va(mem, count_at);
    let desc_base: u64 = u64_va(mem, desc_at);
    let info_size: u32 = u32_va(mem, flags_at) % 0x8000_0000;
    let info_base: u64 = if info_size != 0 {
        match manager.checked_add(layout.manager_info_base) {
            Some(info_at) => u64_va(mem, info_at),
            None => {
                return Err(GameEventError::AddressOverflow);
            },
        }
    } else {
        0
    };
    if desc_base == 0 || count == 0 || count > MAX_EVENTS {
        return Err(GameEventError::Unpopulated(count));
    }
    Ok(Tables { count, desc_base, info_size, info_base })
}

pub open spec fn model_names(models: Seq<EventModel>) -> Seq<Seq<char>> {
    Seq::new(models.len(), |i: int| models[i].name)
}

/// `events` holds what the models say, in the order of their names.
pub open spec fn events_sorted(events: Seq<GameEvent>, models: Seq<EventModel>) -> bool {
    exists|p: Seq<int>|
        #[trigger] name_order(model_names(models), p) && rearranged(models, event_models(events), p)
}

/// What a walk from a global comes to.
pub open spec fn walks_to(
    mem: Map<int, u8>,
    manager_global_va: u64,
    events: Result<Vec<GameEvent>, GameEventError>,
) -> bool {
    let manager = ld64(mem, manager_global_va as int);
    let layout = detected(mem, manager);
    if manager == 0 {
        events == Err::<Vec<GameEvent>, GameEventError>(GameEventError::NullManager)
    } else {
        match walked_tables(mem, manager, layout) {
            Err(error) => events == Err::<Vec<GameEvent>, GameEventError>(error),
            Ok(tables) => events matches Ok(list) && events_sorted(
                list@,
                events_in(mem, layout, tables, tables.count as int),
            ),
        }
    }
}

/// Walks the manager that the global at `manager_global_va` points at, and
/// returns its events in the order of their names.
pub fn walk(mem: &Memory, manager_global_va: u64) -> (events: Result<Vec<GameEvent>, GameEventError>)
    requires
        mem.wf(),
    ensures
        walks_to(mem@, manager_global_va, events),
{
    let manager: u64 = u64_va(mem, manager_global_va);
    if manager == 0 {
        return Err(GameEventError::NullManager);
    }
    let layout = detect_layout(mem, manager);
    let tables = match read_tables(mem, manager, &layout) {
        Ok(t) => t,
        Err(error) => {
            return Err(error);
        },
    };
    let mut events = read_events(mem, &layout, &tables);
    let ghost before = events@;
    let ghost found = events_in(mem@, layout, tables, tables.count as int);
    sort_by_name(&mut events);
    proof {
        assert(event_models(before) == found);
        assert forall|i: int| 0 <= i < before.len() implies (#[trigger] found[i]).name
            == before[i].name@ by {
            assert(event_models(before)[i] == before[i].model());
        }
        assert(names_of(before) =~= model_names(found));
        let p = choose|p: Seq<int>|
            #![trigger name_order(names_of(before), p)]
            name_order(names_of(before), p) && rearranged(before, events@, p);
        assert(name_order(model_names(found), p));
        let now = event_models(events@);
        assert forall|i: int| 0 <= i < p.len() implies #[trigger] now[i] == found[p[i]] by {
            assert(events@[i] == before[p[i]]);
            assert(event_models(before)[p[i]] == before[p[i]].model());
        }
    }
    Ok(events)
}

fn read_events(mem: &Memory, layout: &EventLayout, tables: &Tables) -> (events: Vec<GameEvent>)
    requires
        mem.wf(),
    ensures
        event_models(events@) == events_in(mem@, *layout, *tables, tables.count as int),
{
    let mut events: Vec<GameEvent> = Vec::new();
    let mut id: u32 = 0;
    assert(event_models(events@) =~= Seq::<EventModel>::empty());
    while id < tables.count
        invariant
            mem.wf(),
            id <= tables.count,
            event_models(events@) == events_in(mem@, *layout, *tables, id as int),
        decreases tables.count - id,
    {
        match read_event(mem, layout, tables, id) {
            Some(event) => {
                let ghost before = event_models(events@);
                let ghost model = event.model();
                events.push(event);
                assert(event_models(events@) =~= before.push(model));
            },
            None => {},
        }
        id = id + 1;
    }
    events
}

/// An event manager behind a global.
pub struct ManagerAnchor;

/// Under candidate `i` the head holds a plausible event count and two arrays.
pub open spec fn head_has_events(head: Seq<u8>, i: int) -> bool {
    let layout = candidate(i);
    populated(
        Tables {
            count: head32(head, layout.manager_count as int),
            desc_base: head64(head, layout.manager_desc_base as int),
            info_size: low31(head32(head, layout.manager_info_flags as int)),
            info_base: head64(head, layout.manager_info_base as int),
        },
    )
}

fn gate_candidate(head: &Head, i: usize) -> (passes: bool)
    ensures
        passes == head_has_events(head.bytes@, i as int),
{
    let layout = candidate_layout(i);
    let count: u32 = head.u32(layout.manager_count);
    let info_size: u32 = head.u32(layout.manager_info_flags) % 0x8000_0000;
    1 <= count && count <= MAX_EVENTS && head.u64(layout.manager_desc_base) >= 0x10000 && 1
        <= info_size && info_size <= 8192 && head.u64(layout.manager_info_base) >= 0x10000
}

impl Anchor for ManagerAnchor {
    open spec fn gates(&self, mem: Map<int, u8>, head: Seq<u8>) -> bool {
        head_has_events(head, 0) || head_has_events(head, 1) || head_has_events(head, 2)
    }

    open spec fn evidence(&self, mem: Map<int, u8>, object: u64) -> usize {
        layout_evidence(mem, object, candidate(best_candidate(mem, object, 3))) as usize
    }

    fn gate(&self, mem: &Memory, head: &Head) -> (passes: bool) {
        gate_candidate(head, 0) || gate_candidate(head, 1) || gate_candidate(head, 2)
    }

    fn score(&self, mem: &Memory, object: u64) -> (evidence: usize) {
        best_layout(mem, object).1
    }
}

/// What the scan for a manager demands: its head up to the furthest field of a
/// candidate, and names for half of the events that are looked at.
pub open spec fn manager_scan() -> AnchorScan {
    AnchorScan { head_span: 0xD8, min_evidence: 4, max_probes: 256 }
}

/// The global in a module image that points at the event manager.
pub fn find_manager_in(mem: &Memory, image: &[u8], base: u64, ranges: &[(u64, u64)]) -> (found:
    Option<u64>)
    requires
        mem.wf(),
    ensures
        ranges_find(&ManagerAnchor, mem@, image@, base, ranges@, manager_scan(), found),
{
    let scan = AnchorScan { head_span: 0xD8, min_evidence: 4, max_probes: 256 };
    find_global(mem, image, base, ranges, scan, &ManagerAnchor)
}

/// The global of a module that points at the event manager.
pub fn find_manager(mem: &Memory, module: &ModuleImage) -> (found: Option<u64>)
    requires
        mem.wf(),
    ensures
        module_finds(&ManagerAnchor, mem@, module.bytes@, module.base, manager_scan(), found),
{
    let scan = AnchorScan { head_span: 0xD8, min_evidence: 4, max_probes: 256 };
    global_anchor::find_in_module(mem, module, scan, &ManagerAnchor)
}

/// What a key of an event says.
pub struct KeyImage {
    pub name_at: u64,
    pub name: Seq<char>,
    pub description_at: u64,
    pub description: Seq<char>,
    pub type_id: u32,
}

/// A key stands at `at`.
pub open spec fn key_stands(mem: Map<int, u8>, layout: EventLayout, at: int, k: KeyImage) -> bool {
    &&& 0 <= at
    &&& at + layout.key_name <= u64::MAX
    &&& at + layout.key_type <= u64::MAX
    &&& at + layout.key_desc <= u64::MAX
    &&& k.name.len() > 0
    &&& stands64(mem, at + layout.key_name, k.name_at as int)
    &&& string_stands(mem, k.name_at, k.name)
    &&& stands64(mem, at + layout.key_desc, k.description_at as int)
    &&& string_stands(mem, k.description_at, k.description)
    &&& stands32(mem, at + layout.key_type, k.type_id as int)
}

/// A field that was read is the one of the key.
pub open spec fn is_key(model: FieldModel, k: KeyImage) -> bool {
    &&& model.name == k.name
    &&& model.description == k.description
    &&& model.type_text == type_text(k.type_id)
}

proof fn lemma_keys(
    mem: Map<int, u8>,
    layout: EventLayout,
    keys_at: u64,
    keys: Seq<KeyImage>,
    n: int,
)
    requires
        0 <= n <= keys.len(),
        forall|i: int|
            0 <= i < keys.len() ==> key_stands(
                mem,
                layout,
                keys_at + layout.key_stride * i,
                #[trigger] keys[i],
            ),
    ensures
        fields_in(mem, layout, keys_at, n).len() == n,
        forall|i: int|
            0 <= i < n ==> is_key(#[trigger] fields_in(mem, layout, keys_at, n)[i], keys[i]),
    decreases n,
{
    if n > 0 {
        lemma_keys(mem, layout, keys_at, keys, n - 1);
        let k = keys[n - 1];
        let at = keys_at + layout.key_stride * (n - 1);
        assert(key_stands(mem, layout, at, k));
        lemma_loads(mem, at + layout.key_name, k.name_at as int);
        lemma_loads(mem, at + layout.key_desc, k.description_at as int);
        lemma_loads(mem, at + layout.key_type, k.type_id as int);
        lemma_text(mem, k.name_at as int, k.name, 256);
        lemma_text(mem, k.description_at as int, k.description, 256);
        let before = fields_in(mem, layout, keys_at, n - 1);
        let now = fields_in(mem, layout, keys_at, n);
        assert forall|i: int| 0 <= i < n implies is_key(#[trigger] now[i], keys[i]) by {
            if i < n - 1 {
                assert(now[i] == before[i]);
            }
        }
    }
}

/// What an event's descriptor says, with the info record that it names.
pub struct EventImage {
    pub info_index: u32,
    pub name_at: u64,
    pub name: Seq<char>,
    pub id: u32,
    pub local: u8,
    pub keys_at: u64,
    pub keys: Seq<KeyImage>,
}

/// The descriptor of an event stands at `at`, its name in the info record that it
/// names, and its keys side by side at their address.
pub open spec fn event_stands(
    mem: Map<int, u8>,
    layout: EventLayout,
    tables: Tables,
    at: int,
    e: EventImage,
) -> bool {
    let info = tables.info_base + layout.info_stride * e.info_index + layout.info_name;
    &&& 0 <= at
    &&& at + layout.desc_id <= u64::MAX
    &&& at + layout.desc_name_idx <= u64::MAX
    &&& at + layout.desc_local <= u64::MAX
    &&& at + layout.desc_key_count <= u64::MAX
    &&& at + layout.desc_keys_base <= u64::MAX
    &&& stands32(mem, at + layout.desc_id, e.id as int)
    &&& stands32(mem, at + layout.desc_name_idx, e.info_index as int)
    &&& tables.info_base != 0
    &&& e.info_index < tables.info_size
    &&& 0 <= info <= u64::MAX
    &&& stands64(mem, info, e.name_at as int)
    &&& e.name.len() > 0
    &&& string_stands(mem, e.name_at, e.name)
    &&& stands8(mem, at + layout.desc_local, e.local as int)
    &&& e.keys.len() <= 512
    &&& stands32(mem, at + layout.desc_key_count, e.keys.len() as int)
    &&& e.keys_at != 0
    &&& stands64(mem, at + layout.desc_keys_base, e.keys_at as int)
    &&& forall|i: int|
        0 <= i < e.keys.len() ==> key_stands(
            mem,
            layout,
            e.keys_at + layout.key_stride * i,
            #[trigger] e.keys[i],
        )
}

/// An event that was read is the one of the descriptor, with its keys in order.
pub open spec fn is_event(model: EventModel, e: EventImage) -> bool {
    &&& model.name == e.name
    &&& model.id == e.id
    &&& model.local == (e.local != 0)
    &&& model.fields.len() == e.keys.len()
    &&& forall|i: int|
        0 <= i < e.keys.len() ==> is_key(#[trigger] model.fields[i], e.keys[i])
}

proof fn lemma_event(
    mem: Map<int, u8>,
    layout: EventLayout,
    tables: Tables,
    id: int,
    e: EventImage,
)
    requires
        event_stands(mem, layout, tables, tables.desc_base + layout.desc_stride * id, e),
    ensures
        event_in(mem, layout, tables, id) matches Some(model) && is_event(model, e),
{
    let at = tables.desc_base + layout.desc_stride * id;
    let info = tables.info_base + layout.info_stride * e.info_index + layout.info_name;
    lemma_loads(mem, at + layout.desc_id, e.id as int);
    lemma_loads(mem, at + layout.desc_name_idx, e.info_index as int);
    lemma_loads(mem, info, e.name_at as int);
    lemma_loads(mem, at + layout.desc_local, e.local as int);
    lemma_loads(mem, at + layout.desc_key_count, e.keys.len() as int);
    lemma_loads(mem, at + layout.desc_keys_base, e.keys_at as int);
    lemma_text(mem, e.name_at as int, e.name, 256);
    lemma_keys(mem, layout, e.keys_at, e.keys, e.keys.len() as int);
    assert(event_name(mem, layout, tables, id) == Some(e.name));
}

/// Events whose descriptors stand side by side are read back, all of them and in
/// their order.
pub proof fn lemma_events_read_back(
    mem: Map<int, u8>,
    layout: EventLayout,
    tables: Tables,
    events: Seq<EventImage>,
    n: int,
)
    requires
        0 <= n <= events.len(),
        forall|i: int|
            0 <= i < events.len() ==> event_stands(
                mem,
                layout,
                tables,
                tables.desc_base + layout.desc_stride * i,
                #[trigger] events[i],
            ),
    ensures
        events_in(mem, layout, tables, n).len() == n,
        forall|i: int|
            0 <= i < n ==> is_event(#[trigger] events_in(mem, layout, tables, n)[i], events[i]),
    decreases n,
{
    if n > 0 {
        lemma_events_read_back(mem, layout, tables, events, n - 1);
        let e = events[n - 1];
        assert(event_stands(
            mem,
            layout,
            tables,
            tables.desc_base + layout.desc_stride * (n - 1),
            e,
        ));
        lemma_event(mem, layout, tables, n - 1, e);
        let before = events_in(mem, layout, tables, n - 1);
        let now = events_in(mem, layout, tables, n);
        assert forall|i: int| 0 <= i < n implies is_event(#[trigger] now[i], events[i]) by {
            if i < n - 1 {
                assert(now[i] == before[i]);
            }
        }
    }
}

/// A manager's counts and arrays are the ones that stand in it; of the info count
/// the highest bit is not one of the number. A manager without events, or with
/// more than 4096, is refused with its count.
pub proof fn lemma_tables_read_back(
    mem: Map<int, u8>,
    manager: u64,
    layout: EventLayout,
    count: u32,
    desc_base: u64,
    info_size: u32,
    marked: bool,
    info_base: u64,
)
    requires
        manager + layout.manager_count <= u64::MAX,
        manager + layout.manager_desc_base <= u64::MAX,
        manager + layout.manager_info_flags <= u64::MAX,
        manager + layout.manager_info_base <= u64::MAX,
        desc_base != 0,
        0 < info_size < 0x8000_0000,
        stands32(mem, manager + layout.manager_count, count as int),
        stands64(mem, manager + layout.manager_desc_base, desc_base as int),
        stands32(
            mem,
            manager + layout.manager_info_flags,
            if marked {
                info_size + 0x8000_0000
            } else {
                info_size as int
            },
        ),
        stands64(mem, manager + layout.manager_info_base, info_base as int),
    ensures
        1 <= count <= 4096 ==> (walked_tables(mem, manager, layout) matches Ok(tables)
            && tables.count == count && tables.desc_base == desc_base && tables.info_size
            == info_size && tables.info_base == info_base),
        count == 0 || count > 4096 ==> walked_tables(mem, manager, layout) == Err::<
            Tables,
            GameEventError,
        >(GameEventError::Unpopulated(count)),
{
    lemma_loads(mem, manager + layout.manager_count, count as int);
    lemma_loads(mem, manager + layout.manager_desc_base, desc_base as int);
    lemma_loads(
        mem,
        manager + layout.manager_info_flags,
        if marked {
            info_size + 0x8000_0000
        } else {
            info_size as int
        },
    );
    lemma_loads(mem, manager + layout.manager_info_base, info_base as int);
}

/// A manager that fewer than two events speak for under any layout has that of
/// today's builds.
pub proof fn lemma_fallback_layout(mem: Map<int, u8>, manager: u64)
    requires
        forall|j: int| 0 <= j < 3 ==> #[trigger] layout_evidence(mem, manager, candidate(j)) < 2,
    ensures
        detected(mem, manager).manager_count == 0x08,
        detected(mem, manager).manager_desc_base == 0x10,
        detected(mem, manager).manager_info_flags == 0xC4,
        detected(mem, manager).manager_info_base == 0xC8,
        detected(mem, manager).desc_stride == 88,
        detected(mem, manager).info_stride == 32,
        detected(mem, manager).key_stride == 72,
{
    lemma_best_candidate(mem, manager, 3, 0);
    assert(layout_evidence(mem, manager, candidate(best_candidate(mem, manager, 3))) < 2);
}

/// A layout that two or more events speak for, more than for every candidate
/// before it and no fewer than for every other, is the one that is used.
pub proof fn lemma_best_layout_used(mem: Map<int, u8>, manager: u64, k: int)
    requires
        0 <= k < 3,
        layout_evidence(mem, manager, candidate(k)) >= 2,
        forall|j: int|
            0 <= j < k ==> #[trigger] layout_evidence(mem, manager, candidate(j))
                < layout_evidence(mem, manager, candidate(k)),
        forall|j: int|
            0 <= j < 3 ==> #[trigger] layout_evidence(mem, manager, candidate(j))
                <= layout_evidence(mem, manager, candidate(k)),
    ensures
        detected(mem, manager) == candidate(k),
{
    let best = best_candidate(mem, manager, 3);
    lemma_best_candidate(mem, manager, 3, k);
    assert(layout_evidence(mem, manager, candidate(best)) <= layout_evidence(
        mem,
        manager,
        candidate(k),
    ));
}

/// Of candidates with objects of their own, of which at most 256 pass the quick
/// test, the one that passes it and shows evidence of 4 or more, and more than
/// every other that passes, is taken for the event manager.
pub proof fn lemma_manager_found(
    mem: Map<int, u8>,
    slots: Seq<(u64, u64)>,
    best: (u64, u64),
    found: Option<u64>,
)
    requires
        slots.len() <= 0x2_0000,
        passing(&ManagerAnchor, mem, slots, 0xD8).len() <= 256,
        forall|i: int, j: int|
            0 <= i < j < slots.len() ==> (#[trigger] slots[i]).1 != (#[trigger] slots[j]).1,
        slots.contains(best),
        ManagerAnchor.gates(mem, raw(mem, best.1 as int, 0xD8)),
        ManagerAnchor.evidence(mem, best.1) >= 4,
        forall|i: int|
            0 <= i < slots.len() && (#[trigger] slots[i]).1 != best.1 && ManagerAnchor.gates(
                mem,
                raw(mem, slots[i].1 as int, 0xD8),
            ) ==> ManagerAnchor.evidence(mem, slots[i].1) < ManagerAnchor.evidence(mem, best.1),
        finds(&ManagerAnchor, mem, slots, manager_scan(), found),
    ensures
        found == Some(best.0),
{
    lemma_best_object_found(&ManagerAnchor, mem, slots, manager_scan(), best, found);
}

/// What is taken for the event manager passes the quick test and shows evidence of
/// 4 or more, and at most 256 candidates pass the test.
pub proof fn lemma_manager_shows(mem: Map<int, u8>, slots: Seq<(u64, u64)>, slot: u64)
    requires
        finds(&ManagerAnchor, mem, slots, manager_scan(), Some(slot)),
    ensures
        passing(&ManagerAnchor, mem, slots, 0xD8).len() <= 256,
        exists|i: int|
            0 <= i < slots.len() && (#[trigger] slots[i]).0 == slot && ManagerAnchor.gates(
                mem,
                raw(mem, slots[i].1 as int, 0xD8),
            ) && ManagerAnchor.evidence(mem, slots[i].1) >= 4,
{
    lemma_found_shows(&ManagerAnchor, mem, slots, manager_scan(), slot);
}

/// An object whose counts and arrays stand where one of the three layouts has
/// them, and are those of a manager in use, passes the quick test.
pub proof fn lemma_manager_passes(
    mem: Map<int, u8>,
    at: u64,
    k: int,
    count: u32,
    desc_base: u64,
    info_size: u32,
    info_base: u64,
)
    requires
        0 <= k < 3,
        readable(mem, at as int, 0xD8),
        stands32(mem, at + candidate(k).manager_count, count as int),
        stands64(mem, at + candidate(k).manager_desc_base, desc_base as int),
        stands32(mem, at + candidate(k).manager_info_flags, info_size as int),
        stands64(mem, at + candidate(k).manager_info_base, info_base as int),
        1 <= count <= 4096,
        desc_base >= 0x1_0000,
        1 <= info_size <= 8192,
        info_base >= 0x1_0000,
    ensures
        ManagerAnchor.gates(mem, raw(mem, at as int, 0xD8)),
{
    let layout = candidate(k);
    lemma_heads(mem, at as int, 0xD8, layout.manager_count as int, count as int);
    lemma_heads(mem, at as int, 0xD8, layout.manager_desc_base as int, desc_base as int);
    lemma_heads(mem, at as int, 0xD8, layout.manager_info_flags as int, info_size as int);
    lemma_heads(mem, at as int, 0xD8, layout.manager_info_base as int, info_base as int);
    assert(head_has_events(raw(mem, at as int, 0xD8), k));
}

/// An object without events at either place of the count does not pass it.
pub proof fn lemma_empty_manager_fails(mem: Map<int, u8>, at: u64, a: u32, b: u32)
    requires
        readable(mem, at as int, 0xD8),
        stands32(mem, at + 0x08, a as int),
        stands32(mem, at + 0x10, b as int),
        a == 0 || a > 4096,
        b == 0 || b > 4096,
    ensures
        !ManagerAnchor.gates(mem, raw(mem, at as int, 0xD8)),
{
    lemma_heads(mem, at as int, 0xD8, 0x08, a as int);
    lemma_heads(mem, at as int, 0xD8, 0x10, b as int);
}

/// The layouts that are tried: today's, one whose manager begins eight bytes
/// later, and one with longer descriptors.
pub proof fn lemma_layouts_tried(layout: EventLayout)
    ensures
        (exists|k: int| 0 <= k < 3 && #[trigger] candidate(k) == layout) <==> {
            let l = layout;
            &&& l.desc_id == 8 && l.desc_name_idx == 12
            &&& l.info_stride == 32 && l.info_name == 16
            &&& l.key_stride == 72 && l.key_name == 8 && l.key_desc == 56 && l.key_type == 64
            &&& l.desc_keys_base == l.desc_key_count + 8
            &&& l.manager_info_base == l.manager_info_flags + 4
            &&& if l.desc_stride == 88 {
                &&& l.desc_local == 40 && l.desc_key_count == 56
                &&& l.manager_desc_base == l.manager_count + 8
                &&& l.manager_info_flags == l.manager_count + 188
                &&& l.manager_count == 8 || l.manager_count == 16
            } else {
                &&& l.desc_stride == 96
                &&& l.desc_local == 44 && l.desc_key_count == 64
                &&& l.manager_count == 8 && l.manager_desc_base == 24 && l.manager_info_flags == 196
            }
        },
{
    let l = layout;
    let a = candidate(0);
    let b = candidate(1);
    let c = candidate(2);
    if l.desc_stride == 96 {
        if l == c {
            assert(candidate(2) == l);
        }
    } else if l.manager_count == 16 {
        if l == b {
            assert(candidate(1) == l);
        }
    } else if l == a {
        assert(candidate(0) == l);
    }
    assert forall|k: int| 0 <= k < 3 && #[trigger] candidate(k) == l implies l == a || l == b || l
        == c by {}
}

/// A manager in use counts, of its first eight events, those with visible names;
/// any other counts none.
pub proof fn lemma_evidence_counted(
    mem: Map<int, u8>,
    manager: u64,
    layout: EventLayout,
    tables: Tables,
    events: Seq<EventImage>,
    shown: Set<int>,
)
    requires
        manager + layout.manager_count <= u64::MAX,
        manager + layout.manager_desc_base <= u64::MAX,
        manager + layout.manager_info_flags <= u64::MAX,
        manager + layout.manager_info_base <= u64::MAX,
        stands32(mem, manager + layout.manager_count, tables.count as int),
        stands64(mem, manager + layout.manager_desc_base, tables.desc_base as int),
        stands32(mem, manager + layout.manager_info_flags, tables.info_size as int),
        stands64(mem, manager + layout.manager_info_base, tables.info_base as int),
        tables.info_size < 0x8000_0000,
        events.len() == if tables.count < 8 {
            tables.count as int
        } else {
            8
        },
        forall|i: int|
            0 <= i < events.len() ==> event_stands(
                mem,
                layout,
                tables,
                tables.desc_base + layout.desc_stride * i,
                #[trigger] events[i],
            ),
        shown.finite(),
        forall|i: int| #[trigger] shown.contains(i) ==> 0 <= i < events.len(),
        forall|i: int|
            0 <= i < events.len() ==> (#[trigger] shown.contains(i) <==> visible(events[i].name)),
    ensures
        layout_evidence(mem, manager, layout) == if 1 <= tables.count <= 4096 && tables.desc_base
            >= 0x1_0000 && 1 <= tables.info_size <= 8192 && tables.info_base >= 0x1_0000 {
            shown.len() as int
        } else {
            0
        },
{
    reveal(layout_evidence);
    lemma_loads(mem, manager + layout.manager_count, tables.count as int);
    lemma_loads(mem, manager + layout.manager_desc_base, tables.desc_base as int);
    lemma_loads(mem, manager + layout.manager_info_flags, tables.info_size as int);
    lemma_loads(mem, manager + layout.manager_info_base, tables.info_base as int);
    lemma_shown_counted(mem, layout, tables, events, shown, events.len() as int);
}

/// A name of one to 128 bytes of ASCII without blanks or controls.
pub open spec fn visible(name: Seq<char>) -> bool {
    &&& 1 <= encode_utf8(name).len() <= 128
    &&& forall|i: int|
        0 <= i < encode_utf8(name).len() ==> 0x20 < #[trigger] encode_utf8(name)[i] < 0x7F
}

proof fn lemma_shown_counted(
    mem: Map<int, u8>,
    layout: EventLayout,
    tables: Tables,
    events: Seq<EventImage>,
    shown: Set<int>,
    n: int,
)
    requires
        0 <= n <= events.len(),
        forall|i: int|
            0 <= i < events.len() ==> event_stands(
                mem,
                layout,
                tables,
                tables.desc_base + layout.desc_stride * i,
                #[trigger] events[i],
            ),
        shown.finite(),
        forall|i: int| #[trigger] shown.contains(i) ==> 0 <= i < n,
        forall|i: int|
            0 <= i < n ==> (#[trigger] shown.contains(i) <==> visible(events[i].name)),
    ensures
        named_events(mem, layout, tables, n) == shown.len(),
    decreases n,
{
    if n > 0 {
        let e = events[n - 1];
        let at = tables.desc_base + layout.desc_stride * (n - 1);
        let info = tables.info_base + layout.info_stride * e.info_index + layout.info_name;
        assert(event_stands(mem, layout, tables, at, e));
        lemma_loads(mem, at + layout.desc_name_idx, e.info_index as int);
        lemma_loads(mem, info, e.name_at as int);
        lemma_text(mem, e.name_at as int, e.name, 256);
        assert(event_name(mem, layout, tables, n - 1) == Some(e.name));
        assert(shown.contains(n - 1) <==> visible(e.name));
        lemma_shown_counted(mem, layout, tables, events, shown.remove(n - 1), n - 1);
        if !shown.contains(n - 1) {
            assert(shown.remove(n - 1) =~= shown);
        }
    } else {
        assert(shown =~= Set::empty());
    }
}

/// Each type of an event's field has a name of its own; a number above them is
/// unknown.
pub proof fn lemma_type_named(t: u32)
    ensures
        type_text(t) == "local"@ <==> t == 0,
        type_text(t) == "string"@ <==> t == 1,
        type_text(t) == "float"@ <==> t == 2,
        type_text(t) == "int32"@ <==> t == 3,
        type_text(t) == "int16"@ <==> t == 4,
        type_text(t) == "byte"@ <==> t == 5,
        type_text(t) == "bool"@ <==> t == 6,
        type_text(t) == "uint64"@ <==> t == 7,
        type_text(t) == "player_pawn"@ <==> t == 8,
        type_text(t) == "player_controller"@ <==> t == 9,
        type_text(t) == "unknown"@ <==> t > 9,
{
    reveal_strlit("local");
    reveal_strlit("string");
    reveal_strlit("float");
    reveal_strlit("int32");
    reveal_strlit("int16");
    reveal_strlit("byte");
    reveal_strlit("bool");
    reveal_strlit("uint64");
    reveal_strlit("player_pawn");
    reveal_strlit("player_controller");
    reveal_strlit("unknown");
    assert("local"@.len() == 5);
    assert("string"@.len() == 6);
    assert("float"@.len() == 5);
    assert("int32"@.len() == 5);
    assert("int16"@.len() == 5);
    assert("byte"@.len() == 4);
    assert("bool"@.len() == 4);
    assert("uint64"@.len() == 6);
    assert("player_pawn"@.len() == 11);
    assert("player_controller"@.len() == 17);
    assert("unknown"@.len() == 7);
    assert("local"@[0] != "float"@[0]);
    assert("local"@[0] != "int32"@[0]);
    assert("local"@[0] != "int16"@[0]);
    assert("float"@[0] != "int32"@[0]);
    assert("float"@[0] != "int16"@[0]);
    assert("int32"@[3] != "int16"@[3]);
    assert("string"@[0] != "uint64"@[0]);
    assert("byte"@[1] != "bool"@[1]);
}

/// A walk from a null global is refused; any other is refused as the manager's counts
/// are, or gives the events of the manager that the global points at, in the order of
/// their names.
pub proof fn lemma_walked(
    mem: Map<int, u8>,
    global: u64,
    manager: u64,
    events: Result<Vec<GameEvent>, GameEventError>,
    i: int,
    j: int,
)
    requires
        walks_to(mem, global, events),
        stands64(mem, global as int, manager as int),
    ensures
        manager == 0 ==> events == Err::<Vec<GameEvent>, GameEventError>(
            GameEventError::NullManager,
        ),
        manager != 0 ==> match walked_tables(mem, manager, detected(mem, manager)) {
            Err(error) => events == Err::<Vec<GameEvent>, GameEventError>(error),
            Ok(tables) => {
                let found = events_in(mem, detected(mem, manager), tables, tables.count as int);
                let list = events->Ok_0@;
                &&& events is Ok
                &&& list.len() == found.len()
                &&& 0 <= i < j < list.len() ==> !str_before(list[j].name@, list[i].name@)
                &&& 0 <= i < list.len() ==> found.contains(list[i].model())
            },
        },
{
    lemma_loads(mem, global as int, manager as int);
    if manager != 0 {
        match walked_tables(mem, manager, detected(mem, manager)) {
            Ok(tables) => {
                let found = events_in(mem, detected(mem, manager), tables, tables.count as int);
                let list = events->Ok_0@;
                let p = choose|p: Seq<int>|
                    #[trigger] name_order(model_names(found), p) && rearranged(
                        found,
                        event_models(list),
                        p,
                    );
                assert(event_models(list).len() == list.len());
                if 0 <= i < list.len() {
                    assert(event_models(list)[i] == found[p[i]]);
                }
                if 0 <= i < j < list.len() {
                    lemma_in_order(model_names(found), p, i, j);
                    assert(event_models(list)[j] == found[p[j]]);
                }
            },
            Err(_) => {},
        }
    }
}

} // verus!
