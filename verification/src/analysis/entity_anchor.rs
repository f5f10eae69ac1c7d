//! Finds the entity system by describing its list.

use crate::analysis::{entity_list, global_anchor};
use crate::analysis::convars::plausible;
use crate::analysis::entity_list::{
    candidate, candidate_layout, list_evidence, score_list, EntityListLayout,
};
use crate::analysis::global_anchor::{
    find_global, finds, head64, lemma_best_object_found, lemma_found_shows, module_finds, passing,
    ranges_find, read_head, Anchor, AnchorScan, Head,
};
use crate::analysis::module_data::ModuleImage;
use crate::analysis::read::{text_at, text_in};
use crate::memory::{raw, readable, Memory};
use crate::memory::stored::{lemma_heads, lemma_text, stands64, stands_text};
use vstd::prelude::*;
use vstd::string::*;
use vstd::utf8::*;

verus! {

/// Bytes of an identity that the quick test reads.
pub const IDENTITY_SPAN: usize = 0x30;

/// An entity system behind a global.
pub struct EntitySystemAnchor;

/// Under a layout the first chunk exists, and its first identity is live and
/// has a printable name.
pub open spec fn head_has_identity(mem: Map<int, u8>, head: Seq<u8>, layout: EntityListLayout) -> bool {
    let chunk = head64(head, layout.chunk_array_base as int);
    let identity = raw(mem, chunk as int, IDENTITY_SPAN as nat);
    let name = head64(identity, layout.identity_designer_name as int);
    &&& chunk >= 0x10000
    &&& head64(identity, layout.identity_instance as int) >= 0x10000
    &&& name >= 0x10000
    &&& plausible(text_in(mem, name as int, 128))
}

/// One of the first `n` layouts finds a live identity.
pub open spec fn any_identity(mem: Map<int, u8>, head: Seq<u8>, n: int) -> bool {
    exists|i: int| 0 <= i < n && #[trigger] head_has_identity(mem, head, candidate(i))
}

fn identity_is_live(mem: &Memory, head: &Head, layout: &EntityListLayout) -> (live: bool)
    requires
        mem.wf(),
    ensures
        live == head_has_identity(mem@, head.bytes@, *layout),
{
    let chunk: u64 = head.u64(layout.chunk_array_base);
    if chunk < 0x10000 {
        return false;
    }
    let identity = read_head(mem, chunk, IDENTITY_SPAN);
    if identity.u64(layout.identity_instance) < 0x10000 {
        return false;
    }
    let name: u64 = identity.u64(layout.identity_designer_name);
    if name < 0x10000 {
        return false;
    }
    entity_list::plausible_name(text_at(mem, name, 128).as_str())
}

impl Anchor for EntitySystemAnchor {
    open spec fn gates(&self, mem: Map<int, u8>, head: Seq<u8>) -> bool {
        any_identity(mem, head, 7)
    }

    open spec fn evidence(&self, mem: Map<int, u8>, object: u64) -> usize {
        list_evidence(mem, object)
    }

    fn gate(&self, mem: &Memory, head: &Head) -> (passes: bool) {
        let mut i: usize = 0;
        while i < 7
            invariant
                mem.wf(),
                i <= 7,
                !any_identity(mem@, head.bytes@, i as int),
            decreases 7 - i,
        {
            let layout = candidate_layout(i);
            if identity_is_live(mem, head, &layout) {
                assert(head_has_identity(mem@, head.bytes@, candidate(i as int)));
                return true;
            }
            i = i + 1;
        }
        false
    }

    fn score(&self, mem: &Memory, object: u64) -> (evidence: usize) {
        score_list(mem, object)
    }
}

/// What the scan demands: the head up to the chunk array, half a probe of live
/// identities, and few full scorings, which are costly.
pub open spec fn entity_scan() -> AnchorScan {
    AnchorScan { head_span: 0x20, min_evidence: 8, max_probes: 64 }
}

/// The global in a module image that points at the entity system.
pub fn find_entity_system(mem: &Memory, image: &[u8], base: u64, ranges: &[(u64, u64)]) -> (found:
    Option<u64>)
    requires
        mem.wf(),
    ensures
        ranges_find(&EntitySystemAnchor, mem@, image@, base, ranges@, entity_scan(), found),
{
    let scan = AnchorScan { head_span: 0x20, min_evidence: 8, max_probes: 64 };
    find_global(mem, image, base, ranges, scan, &EntitySystemAnchor)
}

/// The global of a module that points at the entity system.
pub fn find_in_module(mem: &Memory, module: &ModuleImage) -> (found: Option<u64>)
    requires
        mem.wf(),
    ensures
        module_finds(&EntitySystemAnchor, mem@, module.bytes@, module.base, entity_scan(), found),
{
    let scan = AnchorScan { head_span: 0x20, min_evidence: 8, max_probes: 64 };
    global_anchor::find_in_module(mem, module, scan, &EntitySystemAnchor)
}

/// Of candidates with objects of their own, of which at most 64 pass the quick
/// test, the one that passes it and shows evidence of 8 or more, and more than
/// every other that passes, is taken for the entity system.
pub proof fn lemma_entity_system_found(
    mem: Map<int, u8>,
    slots: Seq<(u64, u64)>,
    best: (u64, u64),
    found: Option<u64>,
)
    requires
        slots.len() <= 0x2_0000,
        passing(&EntitySystemAnchor, mem, slots, 0x20).len() <= 64,
        forall|i: int, j: int|
            0 <= i < j < slots.len() ==> (#[trigger] slots[i]).1 != (#[trigger] slots[j]).1,
        slots.contains(best),
        EntitySystemAnchor.gates(mem, raw(mem, best.1 as int, 0x20)),
        EntitySystemAnchor.evidence(mem, best.1) >= 8,
        forall|i: int|
            0 <= i < slots.len() && (#[trigger] slots[i]).1 != best.1 && EntitySystemAnchor.gates(
                mem,
                raw(mem, slots[i].1 as int, 0x20),
            ) ==> EntitySystemAnchor.evidence(mem, slots[i].1) < EntitySystemAnchor.evidence(mem, best.1),
        finds(&EntitySystemAnchor, mem, slots, entity_scan(), found),
    ensures
        found == Some(best.0),
{
    lemma_best_object_found(&EntitySystemAnchor, mem, slots, entity_scan(), best, found);
}

/// What is taken for the entity system passes the quick test and shows evidence of
/// 8 or more, and at most 64 candidates pass the test.
pub proof fn lemma_entity_system_shows(mem: Map<int, u8>, slots: Seq<(u64, u64)>, slot: u64)
    requires
        finds(&EntitySystemAnchor, mem, slots, entity_scan(), Some(slot)),
    ensures
        passing(&EntitySystemAnchor, mem, slots, 0x20).len() <= 64,
        exists|i: int|
            0 <= i < slots.len() && (#[trigger] slots[i]).0 == slot && EntitySystemAnchor.gates(
                mem,
                raw(mem, slots[i].1 as int, 0x20),
            ) && EntitySystemAnchor.evidence(mem, slots[i].1) >= 8,
{
    lemma_found_shows(&EntitySystemAnchor, mem, slots, entity_scan(), slot);
}

/// A list whose first chunk, which one of the three places for the array names,
/// begins with an identity that has an object and a printable name, passes the
/// quick test.
pub proof fn lemma_live_list_passes(
    mem: Map<int, u8>,
    list: u64,
    place: int,
    chunk: u64,
    instance: u64,
    name_at: u64,
    name: Seq<char>,
)
    requires
        place == 0x08 || place == 0x10 || place == 0x18,
        readable(mem, list as int, 0x20),
        stands64(mem, list + place, chunk as int),
        chunk >= 0x1_0000,
        readable(mem, chunk as int, 0x30),
        stands64(mem, chunk as int, instance as int),
        instance >= 0x1_0000,
        stands64(mem, chunk + 0x20, name_at as int),
        name_at >= 0x1_0000,
        stands_text(mem, name_at as int, name),
        1 <= encode_utf8(name).len() <= 128,
        forall|i: int|
            0 <= i < encode_utf8(name).len() ==> 0x20 <= #[trigger] encode_utf8(name)[i] <= 0x7E,
    ensures
        EntitySystemAnchor.gates(mem, raw(mem, list as int, 0x20)),
{
    let k: int = if place == 0x10 {
        0
    } else if place == 0x18 {
        1
    } else {
        2
    };
    lemma_heads(mem, list as int, 0x20, place, chunk as int);
    lemma_heads(mem, chunk as int, 0x30, 0, instance as int);
    lemma_heads(mem, chunk as int, 0x30, 0x20, name_at as int);
    lemma_text(mem, name_at as int, name, 128);
    assert(head_has_identity(mem, raw(mem, list as int, 0x20), candidate(k)));
}

/// A list without a first chunk at any of the three places does not pass it.
pub proof fn lemma_empty_list_fails(mem: Map<int, u8>, list: u64, a: u64, b: u64, c: u64)
    requires
        readable(mem, list as int, 0x20),
        stands64(mem, list + 0x08, a as int),
        stands64(mem, list + 0x10, b as int),
        stands64(mem, list + 0x18, c as int),
        a < 0x1_0000 && b < 0x1_0000 && c < 0x1_0000,
    ensures
        !EntitySystemAnchor.gates(mem, raw(mem, list as int, 0x20)),
{
    lemma_heads(mem, list as int, 0x20, 0x08, a as int);
    lemma_heads(mem, list as int, 0x20, 0x10, b as int);
    lemma_heads(mem, list as int, 0x20, 0x18, c as int);
}

} // verus!
