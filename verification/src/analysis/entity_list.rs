//! The chunked list of entities.
//!
//! The list is an array of chunk pointers; a chunk is an array of identities,
//! each with the entity's object and its designer name. Its place and shape
//! have differed between builds, so the layout is chosen among a few candidates
//! by the live identities found there.

use crate::analysis::convars;
use crate::analysis::convars::{plausible, printable_name};
use crate::analysis::gameevents::{address, indexed_addr};
use crate::analysis::read::{cstr, cstr_in, ld64, u64_va};
use crate::memory::Memory;
use crate::memory::stored::{lemma_loads, lemma_text, stands64, stands_text};
use vstd::prelude::*;
use vstd::string::*;
use vstd::utf8::*;

verus! {

pub const SLOT_INDEX_MASK: u32 = 0x1FF;

pub const HANDLE_INDEX_MASK: u32 = 0x7FFF;

pub const MAX_ENTITY_INDEX: u32 = 0x8000;

/// Where the list keeps its chunks, and a chunk its identities.
#[derive(Clone, Copy, Debug, PartialEq, Eq, Structural)]
pub struct EntityListLayout {
    pub chunk_array_base: u64,
    pub chunk_ptr_stride: u64,
    pub chunk_entry_stride: u64,
    pub identity_instance: u64,
    pub identity_designer_name: u64,
}

/// Candidate `i` of seven; the first is the fallback.
pub open spec fn candidate(i: int) -> EntityListLayout {
    EntityListLayout {
        chunk_array_base: if i == 1 {
            0x18
        } else if i == 2 {
            0x08
        } else {
            0x10
        },
        chunk_ptr_stride: 0x8,
        chunk_entry_stride: if i == 3 {
            0x68
        } else if i == 4 {
            0x78
        } else {
            0x70
        },
        identity_instance: 0x00,
        identity_designer_name: if i == 5 {
            0x18
        } else if i == 6 {
            0x28
        } else {
            0x20
        },
    }
}

pub fn candidate_layout(i: usize) -> (layout: EntityListLayout)
    ensures
        layout == candidate(i as int),
{
    EntityListLayout {
        chunk_array_base: if i == 1 {
            0x18
        } else if i == 2 {
            0x08
        } else {
            0x10
        },
        chunk_ptr_stride: 0x8,
        chunk_entry_stride: if i == 3 {
            0x68
        } else if i == 4 {
            0x78
        } else {
            0x70
        },
        identity_instance: 0x00,
        identity_designer_name: if i == 5 {
            0x18
        } else if i == 6 {
            0x28
        } else {
            0x20
        },
    }
}

impl Default for EntityListLayout {
    fn default() -> (layout: Self)
        ensures
            layout == candidate(0),
    {
        candidate_layout(0)
    }
}

/// Whether a designer name is short printable text.
pub fn plausible_name(name: &str) -> (ok: bool)
    ensures
        ok == plausible(name@),
{
    convars::plausible_name(name)
}

/// The slot of chunk `c`.
pub open spec fn chunk_slot(list: u64, layout: EntityListLayout, c: int) -> Option<u64> {
    address(list + layout.chunk_array_base + layout.chunk_ptr_stride * c)
}

/// Slot `s` of a chunk holds a live identity: an object and a plausible name.
pub open spec fn live_at(mem: Map<int, u8>, chunk: u64, layout: EntityListLayout, s: int) -> bool {
    let ident = chunk + layout.chunk_entry_stride * s;
    let inst = address(ident + layout.identity_instance);
    let name = address(ident + layout.identity_designer_name);
    &&& inst is Some
    &&& name is Some
    &&& ld64(mem, inst->0 as int) >= 0x10000
    &&& plausible(cstr_in(mem, ld64(mem, name->0 as int)))
}

/// Place `k` of the probe, slot `k % 32` of chunk `k / 32`, holds a live
/// identity.
pub open spec fn probe_hits(mem: Map<int, u8>, list: u64, layout: EntityListLayout, k: int) -> bool {
    match chunk_slot(list, layout, k / 32) {
        Some(at) => {
            let chunk = ld64(mem, at as int);
            chunk >= 0x10000 && live_at(mem, chunk, layout, k % 32)
        },
        None => false,
    }
}

/// How many of the first `n` places of the probe hold a live identity.
pub open spec fn hits(mem: Map<int, u8>, list: u64, layout: EntityListLayout, n: int) -> int
    decreases n,
{
    if n <= 0 {
        0
    } else {
        hits(mem, list, layout, n - 1) + if probe_hits(mem, list, layout, n - 1) {
            1int
        } else {
            0int
        }
    }
}

/// How many live identities a layout finds in the first slots of the first
/// eight chunks, at most sixteen; none where the first chunk is missing.
#[verifier::opaque]
pub open spec fn layout_evidence(mem: Map<int, u8>, list: u64, layout: EntityListLayout) -> int {
    match address(list + layout.chunk_array_base) {
        Some(first) => if list < 0x10000 || ld64(mem, first as int) < 0x10000 {
            0
        } else {
            let n = hits(mem, list, layout, 256);
            if n < 16 {
                n
            } else {
                16
            }
        },
        None => 0,
    }
}

proof fn lemma_hits_up(mem: Map<int, u8>, list: u64, layout: EntityListLayout, n: int, m: int)
    requires
        0 <= n <= m,
    ensures
        0 <= hits(mem, list, layout, n) <= hits(mem, list, layout, m),
        hits(mem, list, layout, n) <= n,
    decreases m,
{
    if n < m {
        lemma_hits_up(mem, list, layout, n, m - 1);
    } else if n > 0 {
        lemma_hits_up(mem, list, layout, n - 1, n - 1);
    }
}

fn is_live(mem: &Memory, chunk: u64, layout: &EntityListLayout, s: u64) -> (live: bool)
    requires
        mem.wf(),
    ensures
        live == live_at(mem@, chunk, *layout, s as int),
{
    match (
        indexed_addr(chunk, layout.chunk_entry_stride, s, layout.identity_instance),
        indexed_addr(chunk, layout.chunk_entry_stride, s, layout.identity_designer_name),
    ) {
        (Some(inst_at), Some(name_at)) => {
            let inst: u64 = u64_va(mem, inst_at);
            let name_ptr: u64 = u64_va(mem, name_at);
            inst >= 0x10000 && plausible_name(cstr(mem, name_ptr).as_str())
        },
        _ => false,
    }
}

fn read_chunk(mem: &Memory, list: u64, layout: &EntityListLayout, c: u64) -> (chunk: Option<u64>)
    requires
        mem.wf(),
    ensures
        chunk == (match chunk_slot(list, *layout, c as int) {
            Some(at) => Some(ld64(mem@, at as int)),
            None => None,
        }),
{
    match indexed_addr(list, layout.chunk_ptr_stride, c, layout.chunk_array_base) {
        Some(at) => Some(u64_va(mem, at)),
        None => None,
    }
}

fn count_hits(mem: &Memory, list: u64, layout: &EntityListLayout) -> (count: usize)
    requires
        mem.wf(),
    ensures
        count == (if hits(mem@, list, *layout, 256) < 16 {
            hits(mem@, list, *layout, 256)
        } else {
            16
        }),
{
    let mut score: usize = 0;
    let mut k: u64 = 0;
    while k < 256
        invariant
            mem.wf(),
            k <= 256,
            score == hits(mem@, list, *layout, k as int),
            score < 16,
        ensures
            score == hits(mem@, list, *layout, 256),
            score < 16,
        decreases 256 - k,
    {
        let found = match read_chunk(mem, list, layout, k / 32) {
            Some(chunk) => chunk >= 0x10000 && is_live(mem, chunk, layout, k % 32),
            None => false,
        };
        k = k + 1;
        if found {
            score = score + 1;
            if score >= 16 {
                proof {
                    lemma_hits_up(mem@, list, *layout, k as int, 256);
                }
                return 16;
            }
        }
    }
    score
}

/// How much evidence `list` shows of an entity list with this layout.
pub fn score_layout(mem: &Memory, list: u64, layout: EntityListLayout) -> (score: usize)
    requires
        mem.wf(),
    ensures
        score == layout_evidence(mem@, list, layout),
{
    proof {
        reveal(layout_evidence);
    }
    if list < 0x10000 {
        return 0;
    }
    match list.checked_add(layout.chunk_array_base) {
        Some(first) => if u64_va(mem, first) < 0x10000 {
            return 0;
        },
        None => {
            return 0;
        },
    }
    count_hits(mem, list, &layout)
}

/// The first of the first `n` candidates that shows the most evidence.
pub open spec fn best_candidate(mem: Map<int, u8>, list: u64, n: int) -> int
    decreases n,
{
    if n <= 1 {
        0
    } else {
        let before = best_candidate(mem, list, n - 1);
        if layout_evidence(mem, list, candidate(n - 1)) > layout_evidence(
            mem,
            list,
            candidate(before),
        ) {
            n - 1
        } else {
            before
        }
    }
}

/// No candidate shows more evidence than the best one, and none before it as
/// much.
pub proof fn lemma_best_candidate(mem: Map<int, u8>, list: u64, n: int, j: int)
    requires
        0 <= j < n,
    ensures
        0 <= best_candidate(mem, list, n) < n,
        layout_evidence(mem, list, candidate(j)) <= layout_evidence(
            mem,
            list,
            candidate(best_candidate(mem, list, n)),
        ),
        j < best_candidate(mem, list, n) ==> layout_evidence(mem, list, candidate(j))
            < layout_evidence(mem, list, candidate(best_candidate(mem, list, n))),
    decreases n,
{
    if n > 1 {
        if j < n - 1 {
            lemma_best_candidate(mem, list, n - 1, j);
        } else {
            lemma_best_candidate(mem, list, n - 1, 0);
        }
    }
}

fn best_layout(mem: &Memory, list: u64) -> (best: (EntityListLayout, usize))
    requires
        mem.wf(),
    ensures
        best.0 == candidate(best_candidate(mem@, list, 7)),
        best.1 == layout_evidence(mem@, list, best.0),
{
    let mut layout = candidate_layout(0);
    let mut score: usize = score_layout(mem, list, layout);
    let mut k: usize = 1;
    while k < 7
        invariant
            mem.wf(),
            1 <= k <= 7,
            layout == candidate(best_candidate(mem@, list, k as int)),
            score == layout_evidence(mem@, list, layout),
        decreases 7 - k,
    {
        let other = candidate_layout(k);
        let evidence: usize = score_layout(mem, list, other);
        if evidence > score {
            layout = other;
            score = evidence;
        }
        k = k + 1;
    }
    (layout, score)
}

/// The layout of a list: the best-fitting one where at least two identities
/// speak for it, else the fallback.
pub open spec fn detected(mem: Map<int, u8>, list: u64) -> EntityListLayout {
    let best = candidate(best_candidate(mem, list, 7));
    if layout_evidence(mem, list, best) >= 2 {
        best
    } else {
        candidate(0)
    }
}

pub fn detect_layout(mem: &Memory, list: u64) -> (layout: EntityListLayout)
    requires
        mem.wf(),
    ensures
        layout == detected(mem@, list),
{
    let (best, score) = best_layout(mem, list);
    if score >= 2 {
        best
    } else {
        EntityListLayout::default()
    }
}

/// The evidence of the best-fitting layout.
pub open spec fn list_evidence(mem: Map<int, u8>, list: u64) -> usize {
    layout_evidence(mem, list, candidate(best_candidate(mem, list, 7))) as usize
}

/// How well `list` fits any of the layouts: whether it is a list at all.
pub fn score_list(mem: &Memory, list: u64) -> (score: usize)
    requires
        mem.wf(),
    ensures
        score == list_evidence(mem@, list),
{
    best_layout(mem, list).1
}

/// A live entity as the list names it.
#[derive(Debug)]
pub struct LiveEntity {
    pub index: u32,
    /// The designer name, such as `weapon_ak47`.
    pub classname: String,
    /// The entity's object.
    pub instance: u64,
}

pub struct EntityModel {
    pub index: u32,
    pub classname: Seq<char>,
    pub instance: u64,
}

impl LiveEntity {
    pub open spec fn model(&self) -> EntityModel {
        EntityModel { index: self.index, classname: self.classname@, instance: self.instance }
    }
}

pub open spec fn entity_models(list: Seq<LiveEntity>) -> Seq<EntityModel> {
    Seq::new(list.len(), |i: int| list[i].model())
}

/// Where chunk `c` stands; zero where the list has none, or no place for its
/// pointer in the address space.
pub open spec fn chunk_pointer(mem: Map<int, u8>, list: u64, layout: EntityListLayout, c: int) -> u64 {
    match chunk_slot(list, layout, c) {
        Some(at) => ld64(mem, at as int),
        None => 0,
    }
}

/// The entity at `index`: the one that the index's slot in its chunk names,
/// where there is an object and a name.
pub open spec fn entity_at(mem: Map<int, u8>, list: u64, layout: EntityListLayout, index: int) -> Option<
    EntityModel,
> {
    let chunk = chunk_pointer(mem, list, layout, index / 0x200);
    let ident = chunk + layout.chunk_entry_stride * (index % 0x200);
    let inst_at = address(ident + layout.identity_instance);
    let name_at = address(ident + layout.identity_designer_name);
    if chunk == 0 || inst_at is None || name_at is None {
        None
    } else {
        let instance = ld64(mem, inst_at->0 as int);
        let classname = cstr_in(mem, ld64(mem, name_at->0 as int));
        if instance == 0 || classname.len() == 0 {
            None
        } else {
            Some(EntityModel { index: index as u32, classname, instance })
        }
    }
}

/// The entities at the first `n` indices.
pub open spec fn entities_in(mem: Map<int, u8>, list: u64, layout: EntityListLayout, n: int) -> Seq<
    EntityModel,
>
    decreases n,
{
    if n <= 0 {
        Seq::empty()
    } else {
        let before = entities_in(mem, list, layout, n - 1);
        match entity_at(mem, list, layout, n - 1) {
            Some(entity) => before.push(entity),
            None => before,
        }
    }
}

/// The entities of a list stand in ascending order of their indices, each below
/// the limit.
pub proof fn lemma_index_order(
    mem: Map<int, u8>,
    list: u64,
    layout: EntityListLayout,
    n: int,
)
    requires
        0 <= n <= MAX_ENTITY_INDEX,
    ensures
        forall|i: int|
            0 <= i < entities_in(mem, list, layout, n).len() ==> (#[trigger] entities_in(
                mem,
                list,
                layout,
                n,
            )[i]).index < n,
        forall|i: int, j: int|
            0 <= i < j < entities_in(mem, list, layout, n).len() ==> (#[trigger] entities_in(
                mem,
                list,
                layout,
                n,
            )[i]).index < (#[trigger] entities_in(mem, list, layout, n)[j]).index,
    decreases n,
{
    if n > 0 {
        lemma_index_order(mem, list, layout, n - 1);
        let before = entities_in(mem, list, layout, n - 1);
        let all = entities_in(mem, list, layout, n);
        assert forall|i: int| 0 <= i < all.len() implies (#[trigger] all[i]).index < n by {
            if i < before.len() {
                assert(all[i] == before[i]);
            }
        }
        assert forall|i: int, j: int| 0 <= i < j < all.len() implies (#[trigger] all[i]).index < (
        #[trigger] all[j]).index by {
            assert(all[i] == before[i]);
            if j < before.len() {
                assert(all[j] == before[j]);
            }
        }
    }
}

fn read_entity(mem: &Memory, chunk: u64, layout: &EntityListLayout, index: u32) -> (entity: Option<
    LiveEntity,
>)
    requires
        mem.wf(),
    ensures
        ({
            let ident = chunk + layout.chunk_entry_stride * (index as int % 0x200);
            let inst_at = address(ident + layout.identity_instance);
            let name_at = address(ident + layout.identity_designer_name);
            let instance = ld64(mem@, inst_at->0 as int);
            let classname = cstr_in(mem@, ld64(mem@, name_at->0 as int));
            if inst_at is None || name_at is None || instance == 0 || classname.len() == 0 {
                entity is None
            } else {
                entity matches Some(e) && e.model() == (EntityModel { index, classname, instance })
            }
        }),
{
    let s: u64 = (index % 0x200) as u64;
    match (
        indexed_addr(chunk, layout.chunk_entry_stride, s, layout.identity_instance),
        indexed_addr(chunk, layout.chunk_entry_stride, s, layout.identity_designer_name),
    ) {
        (Some(inst_at), Some(name_at)) => {
            let instance: u64 = u64_va(mem, inst_at);
            if instance == 0 {
                return None;
            }
            let name_ptr: u64 = u64_va(mem, name_at);
            let classname = cstr(mem, name_ptr);
            if classname.as_str().is_empty() {
                return None;
            }
            Some(LiveEntity { index, classname, instance })
        },
        _ => None,
    }
}

/// Every live entity of a list, in index order.
pub fn live_entities(mem: &Memory, list: u64, layout: EntityListLayout) -> (entities: Vec<
    LiveEntity,
>)
    requires
        mem.wf(),
    ensures
        entity_models(entities@) == entities_in(mem@, list, layout, MAX_ENTITY_INDEX as int),
{
    let mut out: Vec<LiveEntity> = Vec::new();
    let mut chunk: u64 = 0;
    let mut index: u32 = 0;
    assert(entity_models(out@) =~= Seq::<EntityModel>::empty());
    while index < MAX_ENTITY_INDEX
        invariant
            mem.wf(),
            index <= MAX_ENTITY_INDEX,
            index > 0 ==> chunk == chunk_pointer(mem@, list, layout, (index - 1) / 0x200),
            entity_models(out@) == entities_in(mem@, list, layout, index as int),
        decreases MAX_ENTITY_INDEX - index,
    {
        let c: u32 = index / 0x200;
        if index % 0x200 == 0 {
            chunk = match read_chunk(mem, list, &layout, c as u64) {
                Some(pointer) => pointer,
                None => 0,
            };
        }
        assert(chunk == chunk_pointer(mem@, list, layout, c as int)) by {
            if index % 0x200 != 0 {
                assert((index - 1) / 0x200 == c);
            }
        }
        if chunk != 0 {
            match read_entity(mem, chunk, &layout, index) {
                Some(entity) => {
                    let ghost before = entity_models(out@);
                    let ghost model = entity.model();
                    out.push(entity);
                    assert(entity_models(out@) =~= before.push(model));
                },
                None => {},
            }
        }
        index = index + 1;
    }
    out
}

/// An entity stands at `index`: its chunk is the one of 512 that holds the index,
/// and in it the slot of the index points at the entity's object and its name.
pub open spec fn entity_stands(
    mem: Map<int, u8>,
    list: u64,
    layout: EntityListLayout,
    index: int,
    chunk: u64,
    instance: u64,
    name_at: u64,
    name: Seq<char>,
) -> bool {
    let slot = list + layout.chunk_array_base + layout.chunk_ptr_stride * (index / 512);
    let ident = chunk + layout.chunk_entry_stride * (index % 512);
    &&& 0 <= index < 0x8000
    &&& 0 < chunk
    &&& 0 <= slot <= u64::MAX
    &&& stands64(mem, slot, chunk as int)
    &&& 0 <= ident
    &&& ident + layout.identity_instance <= u64::MAX
    &&& ident + layout.identity_designer_name <= u64::MAX
    &&& stands64(mem, ident + layout.identity_instance, instance as int)
    &&& stands64(mem, ident + layout.identity_designer_name, name_at as int)
    &&& name_at != 0
    &&& stands_text(mem, name_at as int, name)
    &&& encode_utf8(name).len() <= 256
}

/// An entity with an object and a name is read back from its index; one without
/// an object is none.
pub proof fn lemma_entity_read_back(
    mem: Map<int, u8>,
    list: u64,
    layout: EntityListLayout,
    index: int,
    chunk: u64,
    instance: u64,
    name_at: u64,
    name: Seq<char>,
)
    requires
        entity_stands(mem, list, layout, index, chunk, instance, name_at, name),
    ensures
        instance != 0 && name.len() > 0 ==> entity_at(mem, list, layout, index) == Some(
            EntityModel { index: index as u32, classname: name, instance },
        ),
        instance == 0 || name.len() == 0 ==> entity_at(mem, list, layout, index) is None,
{
    let slot = list + layout.chunk_array_base + layout.chunk_ptr_stride * (index / 512);
    let ident = chunk + layout.chunk_entry_stride * (index % 512);
    lemma_loads(mem, slot, chunk as int);
    lemma_loads(mem, ident + layout.identity_instance, instance as int);
    lemma_loads(mem, ident + layout.identity_designer_name, name_at as int);
    lemma_text(mem, name_at as int, name, 256);
    assert(chunk_pointer(mem, list, layout, index / 512) == chunk);
}

/// The entities of a list are those at its indices: each index with an entity
/// has it in the list, and every one in the list is that of its index.
pub proof fn lemma_entities_listed(
    mem: Map<int, u8>,
    list: u64,
    layout: EntityListLayout,
    n: int,
)
    requires
        0 <= n <= 0x8000,
    ensures
        forall|index: int|
            0 <= index < n && (#[trigger] entity_at(mem, list, layout, index)) is Some
                ==> entities_in(mem, list, layout, n).contains(
                entity_at(mem, list, layout, index)->0,
            ),
        forall|k: int|
            0 <= k < entities_in(mem, list, layout, n).len() ==> entity_at(
                mem,
                list,
                layout,
                (#[trigger] entities_in(mem, list, layout, n)[k]).index as int,
            ) == Some(entities_in(mem, list, layout, n)[k]),
    decreases n,
{
    if n > 0 {
        lemma_entities_listed(mem, list, layout, n - 1);
        let before = entities_in(mem, list, layout, n - 1);
        let all = entities_in(mem, list, layout, n);
        assert forall|index: int|
            0 <= index < n && (#[trigger] entity_at(
                mem,
                list,
                layout,
                index,
            )) is Some implies all.contains(entity_at(mem, list, layout, index)->0) by {
            let e = entity_at(mem, list, layout, index)->0;
            if index == n - 1 {
                assert(all[before.len() as int] == e);
            } else {
                let k = choose|k: int| 0 <= k < before.len() && before[k] == e;
                assert(all[k] == e);
            }
        }
        assert forall|k: int| 0 <= k < all.len() implies entity_at(
            mem,
            list,
            layout,
            (#[trigger] all[k]).index as int,
        ) == Some(all[k]) by {
            if k < before.len() {
                assert(all[k] == before[k]);
            }
        }
    }
}

/// A list that fewer than two identities speak for under any layout has that of
/// today's builds.
pub proof fn lemma_fallback_layout(mem: Map<int, u8>, list: u64)
    requires
        forall|j: int| 0 <= j < 7 ==> #[trigger] layout_evidence(mem, list, candidate(j)) < 2,
    ensures
        detected(mem, list).chunk_array_base == 0x10,
        detected(mem, list).chunk_ptr_stride == 8,
        detected(mem, list).chunk_entry_stride == 0x70,
        detected(mem, list).identity_instance == 0,
        detected(mem, list).identity_designer_name == 0x20,
{
    lemma_best_candidate(mem, list, 7, 0);
    assert(layout_evidence(mem, list, candidate(best_candidate(mem, list, 7))) < 2);
}

/// A layout that two or more identities speak for, more than for every candidate
/// before it and no fewer than for every other, is the one that is used.
pub proof fn lemma_best_layout_used(mem: Map<int, u8>, list: u64, k: int)
    requires
        0 <= k < 7,
        layout_evidence(mem, list, candidate(k)) >= 2,
        forall|j: int|
            0 <= j < k ==> #[trigger] layout_evidence(mem, list, candidate(j)) < layout_evidence(
                mem,
                list,
                candidate(k),
            ),
        forall|j: int|
            0 <= j < 7 ==> #[trigger] layout_evidence(mem, list, candidate(j)) <= layout_evidence(
                mem,
                list,
                candidate(k),
            ),
    ensures
        detected(mem, list) == candidate(k),
{
    let best = best_candidate(mem, list, 7);
    lemma_best_candidate(mem, list, 7, k);
    assert(layout_evidence(mem, list, candidate(best)) <= layout_evidence(mem, list, candidate(k)));
}

/// The layouts that are tried: today's, and those that differ from it in the place
/// of the chunks, the size of an identity or the place of its name.
pub proof fn lemma_layouts_tried(layout: EntityListLayout)
    ensures
        (exists|k: int| 0 <= k < 7 && #[trigger] candidate(k) == layout) <==> {
            let l = layout;
            &&& l.chunk_ptr_stride == 8 && l.identity_instance == 0
            &&& {
                ||| l.chunk_entry_stride == 112 && l.identity_designer_name == 32 && (
                l.chunk_array_base == 8 || l.chunk_array_base == 16 || l.chunk_array_base == 24)
                ||| l.chunk_array_base == 16 && l.identity_designer_name == 32 && (
                l.chunk_entry_stride == 104 || l.chunk_entry_stride == 120)
                ||| l.chunk_array_base == 16 && l.chunk_entry_stride == 112 && (
                l.identity_designer_name == 24 || l.identity_designer_name == 40)
            }
        },
{
    let l = layout;
    let k: int = if l.chunk_array_base == 24 {
        1
    } else if l.chunk_array_base == 8 {
        2
    } else if l.chunk_entry_stride == 104 {
        3
    } else if l.chunk_entry_stride == 120 {
        4
    } else if l.identity_designer_name == 24 {
        5
    } else if l.identity_designer_name == 40 {
        6
    } else {
        0
    };
    if candidate(k) == l {
        assert(0 <= k < 7);
    }
}

/// Slot `k % 32` of chunk `k / 32` holds an identity with an object and a name of
/// one to 128 bytes of printable ASCII.
pub open spec fn identity_shown(
    mem: Map<int, u8>,
    list: u64,
    layout: EntityListLayout,
    k: int,
) -> bool {
    exists|chunk: u64, instance: u64, name_at: u64, name: Seq<char>|
        #![trigger entity_stands(mem, list, layout, k / 32 * 512 + k % 32, chunk, instance, name_at, name)]
        entity_stands(
            mem,
            list,
            layout,
            k / 32 * 512 + k % 32,
            chunk,
            instance,
            name_at,
            name,
        ) && chunk >= 0x1_0000 && instance >= 0x1_0000 && printable_name(name)
}

/// Slot `k % 32` of chunk `k / 32` holds an identity without an object, or with a
/// name that is not printable.
pub open spec fn identity_blank(
    mem: Map<int, u8>,
    list: u64,
    layout: EntityListLayout,
    k: int,
) -> bool {
    exists|chunk: u64, instance: u64, name_at: u64, name: Seq<char>|
        #![trigger entity_stands(mem, list, layout, k / 32 * 512 + k % 32, chunk, instance, name_at, name)]
        entity_stands(
            mem,
            list,
            layout,
            k / 32 * 512 + k % 32,
            chunk,
            instance,
            name_at,
            name,
        ) && (instance < 0x1_0000 || !printable_name(name))
}

proof fn lemma_place_probed(mem: Map<int, u8>, list: u64, layout: EntityListLayout, k: int)
    requires
        0 <= k < 256,
    ensures
        identity_shown(mem, list, layout, k) ==> probe_hits(mem, list, layout, k),
        identity_blank(mem, list, layout, k) ==> !probe_hits(mem, list, layout, k),
{
    let index = k / 32 * 512 + k % 32;
    assert(index / 512 == k / 32 && index % 512 == k % 32);
    assert forall|chunk: u64, instance: u64, name_at: u64, name: Seq<char>| #[trigger]
        entity_stands(
            mem,
            list,
            layout,
            index,
            chunk,
            instance,
            name_at,
            name,
        ) implies probe_hits(mem, list, layout, k) == (chunk >= 0x1_0000 && instance >= 0x1_0000
        && printable_name(name)) by {
        let slot = list + layout.chunk_array_base + layout.chunk_ptr_stride * (k / 32);
        let ident = chunk + layout.chunk_entry_stride * (k % 32);
        lemma_loads(mem, slot, chunk as int);
        lemma_loads(mem, ident + layout.identity_instance, instance as int);
        lemma_loads(mem, ident + layout.identity_designer_name, name_at as int);
        lemma_text(mem, name_at as int, name, 256);
        assert(plausible(name) <==> printable_name(name));
    }
}

proof fn lemma_hits_counted(
    mem: Map<int, u8>,
    list: u64,
    layout: EntityListLayout,
    shown: Set<int>,
    n: int,
)
    requires
        0 <= n <= 256,
        shown.finite(),
        forall|k: int| #[trigger] shown.contains(k) ==> 0 <= k < n,
        forall|k: int|
            0 <= k < n ==> if #[trigger] shown.contains(k) {
                identity_shown(mem, list, layout, k)
            } else {
                identity_blank(mem, list, layout, k)
            },
    ensures
        hits(mem, list, layout, n) == shown.len(),
    decreases n,
{
    if n > 0 {
        assert(shown.contains(n - 1) || !shown.contains(n - 1));
        lemma_place_probed(mem, list, layout, n - 1);
        lemma_hits_counted(mem, list, layout, shown.remove(n - 1), n - 1);
        if !shown.contains(n - 1) {
            assert(shown.remove(n - 1) =~= shown);
        }
    } else {
        assert(shown =~= Set::empty());
    }
}

/// The evidence of a list: the identities with an object and a printable name in
/// the first 32 slots of the first eight chunks, sixteen at most.
pub proof fn lemma_evidence_counted(
    mem: Map<int, u8>,
    list: u64,
    layout: EntityListLayout,
    first: u64,
    shown: Set<int>,
)
    requires
        list >= 0x1_0000,
        list + layout.chunk_array_base <= u64::MAX,
        stands64(mem, list + layout.chunk_array_base, first as int),
        first >= 0x1_0000,
        shown.finite(),
        forall|k: int| #[trigger] shown.contains(k) ==> 0 <= k < 256,
        forall|k: int|
            0 <= k < 256 ==> if #[trigger] shown.contains(k) {
                identity_shown(mem, list, layout, k)
            } else {
                identity_blank(mem, list, layout, k)
            },
    ensures
        layout_evidence(mem, list, layout) == if shown.len() < 16 {
            shown.len() as int
        } else {
            16
        },
{
    reveal(layout_evidence);
    lemma_loads(mem, list + layout.chunk_array_base, first as int);
    lemma_hits_counted(mem, list, layout, shown, 256);
}

/// A list at a low address, or without a first chunk, shows no evidence.
pub proof fn lemma_no_evidence(
    mem: Map<int, u8>,
    list: u64,
    layout: EntityListLayout,
    first: u64,
)
    requires
        list + layout.chunk_array_base <= u64::MAX,
        stands64(mem, list + layout.chunk_array_base, first as int),
        list < 0x1_0000 || first < 0x1_0000,
    ensures
        layout_evidence(mem, list, layout) == 0,
{
    reveal(layout_evidence);
    lemma_loads(mem, list + layout.chunk_array_base, first as int);
}

/// The masks take an index apart as the list does: every index is its own handle index,
/// and what the slot mask leaves of it is its place among the 512 of its chunk.
pub proof fn lemma_index_masked(index: u32)
    requires
        index < MAX_ENTITY_INDEX,
    ensures
        index & HANDLE_INDEX_MASK == index,
        index & SLOT_INDEX_MASK == index % 512,
{
    assert(index < 0x8000 ==> index & 0x7FFF == index && index & 0x1FF == index % 512)
        by (bit_vector);
}

/// A handle gives the same index whatever stands above it.
pub proof fn lemma_handle_masked(handle: u32)
    ensures
        handle & HANDLE_INDEX_MASK == handle % MAX_ENTITY_INDEX,
{
    assert(handle & 0x7FFF == handle % 0x8000) by (bit_vector);
}

} // verus!
