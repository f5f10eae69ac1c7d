//! Walks the registry of console variables and commands.
//!
//! ```text
//! *g_pCVar  ->  registry:
//!   +0x50  convar list base    +0x58  head index (u16)
//!          element = { info* @+0, u16 next @+10 }            (stride 16)
//!   +0x108 command list base   +0x110 head index (u16)
//!          element = { name @+0, description @+8, u32 flags @+0x10,
//!                      u16 next @+0x32 }                      (stride 56)
//!
//! convar info:
//!   +0x00 name   +0x20 description   +0x28 type (u16)
//!   +0x30 flags (u32)   +0x58 value
//! ```
//! The lists have stood elsewhere in other builds, so the layout is chosen
//! among a few candidates by the list data found there. The one above is the
//! fallback.

use crate::analysis::global_anchor;
use crate::analysis::global_anchor::{
    find_global, finds, head16, head64, lemma_best_object_found, lemma_found_shows, module_finds,
    passing, ranges_find, Anchor, AnchorScan, Head,
};
use crate::analysis::module_data::ModuleImage;
use crate::analysis::read::{
    cstr_at, cstr_in, ld16, ld32, ld64, ld8, le2, le4, le8, plus, signed16, signed32, to_i16,
    to_i32, u16_va, u32_va, u64_va, u8_va,
};
use crate::analysis::wire::signed64;
use crate::memory::{copies, raw, readable, Memory};
use crate::memory::stored::{
    lemma_copied, lemma_heads, lemma_loads, lemma_text, stands16, stands32, stands64, stands_text,
};
use crate::order::{lemma_in_order, name_order, names_of, rearranged, sort_by_name, AddrSet, Named};
use crate::text::{
    decimal, decimal_text, digits_value, hex_padded, hex_value, lemma_decimal_value,
    lemma_hex_padded_value, lemma_hex_width, lemma_signed_decimal_value, pow16, push_decimal,
    push_hex_padded, signed_decimal, signed_decimal_text, signed_value, str_before,
};
use vstd::prelude::*;
use vstd::string::*;
use vstd::utf8::*;

verus! {

/// The index that ends a list.
pub const LIST_END: u16 = 0xFFFF;

/// The most elements that a walk visits.
pub const MAX_WALK: usize = 200_000;

pub const CVI_NAME: u64 = 0x00;

pub const CVI_DESC: u64 = 0x20;

pub const CVI_TYPE: u64 = 0x28;

pub const CVI_FLAGS: u64 = 0x30;

pub const CVI_VALUE: u64 = 0x58;

pub const CC_NAME: u64 = 0x00;

pub const CC_DESC: u64 = 0x08;

pub const CC_FLAGS: u64 = 0x10;

/// Where the two lists stand in a registry, and the shape of their elements.
#[derive(Clone, Copy, Debug, PartialEq, Eq, Structural)]
pub struct RegistryLayout {
    pub cv_base: u64,
    pub cv_head: u64,
    pub cv_stride: u64,
    pub cv_next: u64,
    pub cc_base: u64,
    pub cc_head: u64,
    pub cc_stride: u64,
    pub cc_next: u64,
}

/// A candidate for where a list stands: its base, its head, the stride of its
/// elements and the place of the next index in one.
pub type ListLayout = (u64, u64, u64, u64);

pub open spec fn cv_layout(i: int) -> ListLayout {
    if i == 0 {
        (0x50, 0x58, 16, 10)
    } else if i == 1 {
        (0x48, 0x50, 16, 10)
    } else if i == 2 {
        (0x58, 0x60, 16, 10)
    } else {
        (0x50, 0x58, 24, 0x12)
    }
}

pub open spec fn cc_layout(i: int) -> ListLayout {
    if i == 0 {
        (0x108, 0x110, 56, 0x32)
    } else if i == 1 {
        (0x100, 0x108, 56, 0x32)
    } else if i == 2 {
        (0x110, 0x118, 56, 0x32)
    } else {
        (0x108, 0x110, 64, 0x3A)
    }
}

/// Candidate `i` of four for the convar list.
pub fn cv_candidate(i: usize) -> (layout: ListLayout)
    ensures
        layout == cv_layout(i as int),
{
    if i == 0 {
        (0x50, 0x58, 16, 10)
    } else if i == 1 {
        (0x48, 0x50, 16, 10)
    } else if i == 2 {
        (0x58, 0x60, 16, 10)
    } else {
        (0x50, 0x58, 24, 0x12)
    }
}

/// Candidate `i` of four for the command list.
pub fn cc_candidate(i: usize) -> (layout: ListLayout)
    ensures
        layout == cc_layout(i as int),
{
    if i == 0 {
        (0x108, 0x110, 56, 0x32)
    } else if i == 1 {
        (0x100, 0x108, 56, 0x32)
    } else if i == 2 {
        (0x110, 0x118, 56, 0x32)
    } else {
        (0x108, 0x110, 64, 0x3A)
    }
}

/// Candidate `k` of sixteen for both lists.
pub open spec fn candidate(k: int) -> RegistryLayout {
    let cv = cv_layout(k / 4);
    let cc = cc_layout(k % 4);
    RegistryLayout {
        cv_base: cv.0,
        cv_head: cv.1,
        cv_stride: cv.2,
        cv_next: cv.3,
        cc_base: cc.0,
        cc_head: cc.1,
        cc_stride: cc.2,
        cc_next: cc.3,
    }
}

pub fn candidate_layout(k: usize) -> (layout: RegistryLayout)
    ensures
        layout == candidate(k as int),
{
    let cv = cv_candidate(k / 4);
    let cc = cc_candidate(k % 4);
    RegistryLayout {
        cv_base: cv.0,
        cv_head: cv.1,
        cv_stride: cv.2,
        cv_next: cv.3,
        cc_base: cc.0,
        cc_head: cc.1,
        cc_stride: cc.2,
        cc_next: cc.3,
    }
}

impl Default for RegistryLayout {
    fn default() -> (layout: Self)
        ensures
            layout == candidate(0),
    {
        candidate_layout(0)
    }
}

/// A byte that a name may hold: printable ASCII.
pub open spec fn printable(b: u8) -> bool {
    0x20 <= b <= 0x7e
}

/// A name of one to 128 printable bytes.
pub open spec fn plausible(name: Seq<char>) -> bool {
    let bytes = encode_utf8(name);
    &&& 1 <= bytes.len() <= 128
    &&& forall|i: int| 0 <= i < bytes.len() ==> printable(#[trigger] bytes[i])
}

pub fn plausible_name(name: &str) -> (ok: bool)
    ensures
        ok == plausible(name@),
{
    let bytes = name.as_bytes();
    if bytes.len() < 1 || bytes.len() > 128 {
        return false;
    }
    let mut i: usize = 0;
    while i < bytes.len()
        invariant
            i <= bytes@.len(),
            bytes@ == encode_utf8(name@),
            forall|k: int| 0 <= k < i ==> printable(#[trigger] bytes@[k]),
        decreases bytes@.len() - i,
    {
        if bytes[i] < 0x20 || bytes[i] > 0x7e {
            assert(!printable(bytes@[i as int]));
            return false;
        }
        i = i + 1;
    }
    true
}

/// The smaller of a sum and the highest address.
pub open spec fn sat_plus(a: u64, b: int) -> u64 {
    if a + b > u64::MAX {
        u64::MAX
    } else {
        (a + b) as u64
    }
}

/// The evidence of the convar list from element `idx` on, over at most `fuel`
/// elements: two for each with a plausible name and a known type, and one where
/// the list ends or comes back to an element seen before.
pub open spec fn cv_evidence(
    mem: Map<int, u8>,
    base: u64,
    stride: u64,
    next: u64,
    idx: u16,
    seen: Set<u64>,
    fuel: nat,
) -> int
    decreases fuel,
{
    if fuel == 0 {
        0
    } else if idx == LIST_END || seen.contains(idx as u64) {
        1
    } else {
        let elem = sat_plus(base, stride * idx);
        let data = ld64(mem, elem as int);
        let after = ld16(mem, plus(elem, next as int) as int);
        if data < 0x10000 || !plausible(cstr_in(mem, ld64(mem, plus(data, CVI_NAME as int) as int)))
            || ld16(mem, plus(data, CVI_TYPE as int) as int) > 14 {
            0
        } else if after == LIST_END {
            3
        } else if after >= 0x8000 {
            2
        } else {
            2 + cv_evidence(
                mem,
                base,
                stride,
                next,
                after,
                seen.insert(idx as u64),
                (fuel - 1) as nat,
            )
        }
    }
}

/// The evidence of the command list from element `idx` on, over at most `fuel`
/// elements: two for each with a plausible name, one more where its flags are
/// not all ones, and one where the list ends or comes back to an element seen
/// before.
pub open spec fn cc_evidence(
    mem: Map<int, u8>,
    base: u64,
    stride: u64,
    next: u64,
    idx: u16,
    seen: Set<u64>,
    fuel: nat,
) -> int
    decreases fuel,
{
    if fuel == 0 {
        0
    } else if idx == LIST_END || seen.contains(idx as u64) {
        1
    } else {
        let elem = sat_plus(base, stride * idx);
        let after = ld16(mem, plus(elem, next as int) as int);
        if !plausible(cstr_in(mem, ld64(mem, plus(elem, CC_NAME as int) as int))) {
            0
        } else {
            let own: int = if ld32(mem, plus(elem, CC_FLAGS as int) as int) != u32::MAX {
                3
            } else {
                2
            };
            if after == LIST_END {
                own + 1
            } else if after >= 0x8000 {
                own
            } else {
                own + cc_evidence(
                    mem,
                    base,
                    stride,
                    next,
                    after,
                    seen.insert(idx as u64),
                    (fuel - 1) as nat,
                )
            }
        }
    }
}

/// A list can be walked: its base is a pointer and its head an index.
pub open spec fn walkable(base: u64, head: u16) -> bool {
    base >= 0x10000 && head < 0x8000
}

/// How much evidence an object shows of a registry with this layout.
#[verifier::opaque]
pub open spec fn layout_evidence(mem: Map<int, u8>, inst: u64, layout: RegistryLayout) -> int {
    let cv_base = ld64(mem, plus(inst, layout.cv_base as int) as int);
    let cv_head = ld16(mem, plus(inst, layout.cv_head as int) as int);
    let cc_base = ld64(mem, plus(inst, layout.cc_base as int) as int);
    let cc_head = ld16(mem, plus(inst, layout.cc_head as int) as int);
    let cv = if walkable(cv_base, cv_head) {
        cv_evidence(mem, cv_base, layout.cv_stride, layout.cv_next, cv_head, Set::empty(), 8)
    } else {
        0
    };
    let cc = if walkable(cc_base, cc_head) {
        cc_evidence(mem, cc_base, layout.cc_stride, layout.cc_next, cc_head, Set::empty(), 8)
    } else {
        0
    };
    cv + cc
}

fn offset(base: u64, k: u64) -> (sum: u64)
    ensures
        sum == plus(base, k as int),
{
    base.wrapping_add(k)
}

fn element(base: u64, stride: u64, idx: u16) -> (elem: u64)
    ensures
        elem == sat_plus(base, stride * idx),
{
    assert(0 <= stride * idx <= 0xFFFF_FFFF_FFFF_FFFF * 0xFFFF) by (nonlinear_arith)
        requires
            0 <= stride <= 0xFFFF_FFFF_FFFF_FFFF,
            0 <= idx <= 0xFFFF,
    ;
    let sum: u128 = base as u128 + stride as u128 * idx as u128;
    if sum > 0xFFFF_FFFF_FFFF_FFFF {
        u64::MAX
    } else {
        sum as u64
    }
}

fn score_convars(mem: &Memory, base: u64, stride: u64, next: u64, head: u16) -> (score: usize)
    requires
        mem.wf(),
    ensures
        score == cv_evidence(mem@, base, stride, next, head, Set::empty(), 8),
        score <= 24,
{
    let mut score: usize = 0;
    let mut idx: u16 = head;
    let mut seen = AddrSet::new();
    let mut left: usize = 8;
    let ghost total = cv_evidence(mem@, base, stride, next, head, Set::empty(), 8);
    while left > 0
        invariant
            mem.wf(),
                left <= 8,
            score <= 2 * (8 - left),
            total == score + cv_evidence(mem@, base, stride, next, idx, seen@, left as nat),
            total == cv_evidence(mem@, base, stride, next, head, Set::empty(), 8),
        decreases left,
    {
        if idx == LIST_END || !seen.insert(idx as u64) {
            return score + 1;
        }
        let elem: u64 = element(base, stride, idx);
        let data: u64 = u64_va(mem, elem);
        if data < 0x10000 {
            return score;
        }
        let name = cstr_at(mem, offset(data, CVI_NAME));
        let type_id: u16 = u16_va(mem, offset(data, CVI_TYPE));
        if !plausible_name(name.as_str()) || type_id > 14 {
            return score;
        }
        score = score + 2;
        let after: u16 = u16_va(mem, offset(elem, next));
        if after == LIST_END {
            return score + 1;
        }
        if after >= 0x8000 {
            return score;
        }
        idx = after;
        left = left - 1;
    }
    score
}

fn score_commands(mem: &Memory, base: u64, stride: u64, next: u64, head: u16) -> (score: usize)
    requires
        mem.wf(),
    ensures
        score == cc_evidence(mem@, base, stride, next, head, Set::empty(), 8),
        score <= 32,
{
    let mut score: usize = 0;
    let mut idx: u16 = head;
    let mut seen = AddrSet::new();
    let mut left: usize = 8;
    let ghost total = cc_evidence(mem@, base, stride, next, head, Set::empty(), 8);
    while left > 0
        invariant
            mem.wf(),
                left <= 8,
            score <= 3 * (8 - left),
            total == score + cc_evidence(mem@, base, stride, next, idx, seen@, left as nat),
            total == cc_evidence(mem@, base, stride, next, head, Set::empty(), 8),
        decreases left,
    {
        if idx == LIST_END || !seen.insert(idx as u64) {
            return score + 1;
        }
        let elem: u64 = element(base, stride, idx);
        let name = cstr_at(mem, offset(elem, CC_NAME));
        if !plausible_name(name.as_str()) {
            return score;
        }
        score = score + 2;
        if u32_va(mem, offset(elem, CC_FLAGS)) != 0xFFFF_FFFF {
            score = score + 1;
        }
        let after: u16 = u16_va(mem, offset(elem, next));
        if after == LIST_END {
            return score + 1;
        }
        if after >= 0x8000 {
            return score;
        }
        idx = after;
        left = left - 1;
    }
    score
}

/// How much evidence `inst` shows of a registry with this layout.
pub fn score_layout(mem: &Memory, inst: u64, layout: RegistryLayout) -> (score: usize)
    requires
        mem.wf(),
    ensures
        score == layout_evidence(mem@, inst, layout),
{
    proof {
        reveal(layout_evidence);
    }
    let cv_base: u64 = u64_va(mem, offset(inst, layout.cv_base));
    let cv_head: u16 = u16_va(mem, offset(inst, layout.cv_head));
    let cv: usize = if cv_base >= 0x10000 && cv_head < 0x8000 {
        score_convars(mem, cv_base, layout.cv_stride, layout.cv_next, cv_head)
    } else {
        0
    };
    let cc_base: u64 = u64_va(mem, offset(inst, layout.cc_base));
    let cc_head: u16 = u16_va(mem, offset(inst, layout.cc_head));
    let cc: usize = if cc_base >= 0x10000 && cc_head < 0x8000 {
        score_commands(mem, cc_base, layout.cc_stride, layout.cc_next, cc_head)
    } else {
        0
    };
    cv + cc
}

/// The first of the first `n` candidates that shows the most evidence.
pub open spec fn best_candidate(mem: Map<int, u8>, inst: u64, n: int) -> int
    decreases n,
{
    if n <= 1 {
        0
    } else {
        let before = best_candidate(mem, inst, n - 1);
        if layout_evidence(mem, inst, candidate(n - 1)) > layout_evidence(
            mem,
            inst,
            candidate(before),
        ) {
            n - 1
        } else {
            before
        }
    }
}

/// No candidate shows more evidence than the best one, and none before it as
/// much.
pub proof fn lemma_best_candidate(mem: Map<int, u8>, inst: u64, n: int, j: int)
    requires
        0 <= j < n,
    ensures
        0 <= best_candidate(mem, inst, n) < n,
        layout_evidence(mem, inst, candidate(j)) <= layout_evidence(
            mem,
            inst,
            candidate(best_candidate(mem, inst, n)),
        ),
        j < best_candidate(mem, inst, n) ==> layout_evidence(mem, inst, candidate(j))
            < layout_evidence(mem, inst, candidate(best_candidate(mem, inst, n))),
    decreases n,
{
    if n > 1 {
        if j < n - 1 {
            lemma_best_candidate(mem, inst, n - 1, j);
        } else {
            lemma_best_candidate(mem, inst, n - 1, 0);
        }
    }
}

/// The best-fitting layout for `inst`, and its evidence.
pub fn best_layout(mem: &Memory, inst: u64) -> (best: (RegistryLayout, usize))
    requires
        mem.wf(),
    ensures
        best.0 == candidate(best_candidate(mem@, inst, 16)),
        best.1 == layout_evidence(mem@, inst, best.0),
{
    let mut layout = candidate_layout(0);
    let mut score: usize = score_layout(mem, inst, layout);
    let mut k: usize = 1;
    while k < 16
        invariant
            mem.wf(),
            1 <= k <= 16,
            layout == candidate(best_candidate(mem@, inst, k as int)),
            score == layout_evidence(mem@, inst, layout),
        decreases 16 - k,
    {
        let other = candidate_layout(k);
        let evidence: usize = score_layout(mem, inst, other);
        if evidence > score {
            layout = other;
            score = evidence;
        }
        k = k + 1;
    }
    (layout, score)
}

/// The layout of a registry: the best-fitting one where it shows enough
/// evidence, else the fallback.
pub open spec fn detected(mem: Map<int, u8>, inst: u64) -> RegistryLayout {
    let best = candidate(best_candidate(mem, inst, 16));
    if layout_evidence(mem, inst, best) >= 8 {
        best
    } else {
        candidate(0)
    }
}

pub fn detect_layout(mem: &Memory, inst: u64) -> (layout: RegistryLayout)
    requires
        mem.wf(),
    ensures
        layout == detected(mem@, inst),
{
    let (best, score) = best_layout(mem, inst);
    if score >= 8 {
        best
    } else {
        RegistryLayout::default()
    }
}

/// The flags of convars and commands, by number.
pub open spec fn fcvar(i: int) -> (u32, Seq<char>) {
    if i == 0 {
        (0x00000001, "FCVAR_LINKED_CONCOMMAND"@)
    } else if i == 1 {
        (0x00000002, "FCVAR_DEVELOPMENTONLY"@)
    } else if i == 2 {
        (0x00000004, "FCVAR_GAMEDLL"@)
    } else if i == 3 {
        (0x00000008, "FCVAR_CLIENTDLL"@)
    } else if i == 4 {
        (0x00000020, "FCVAR_PROTECTED"@)
    } else if i == 5 {
        (0x00000040, "FCVAR_SPONLY"@)
    } else if i == 6 {
        (0x00000080, "FCVAR_ARCHIVE"@)
    } else if i == 7 {
        (0x00000100, "FCVAR_NOTIFY"@)
    } else if i == 8 {
        (0x00000200, "FCVAR_USERINFO"@)
    } else if i == 9 {
        (0x00000800, "FCVAR_UNLOGGED"@)
    } else if i == 10 {
        (0x00002000, "FCVAR_REPLICATED"@)
    } else if i == 11 {
        (0x00004000, "FCVAR_CHEAT"@)
    } else if i == 12 {
        (0x00008000, "FCVAR_PER_USER"@)
    } else if i == 13 {
        (0x00010000, "FCVAR_DEMO"@)
    } else if i == 14 {
        (0x00020000, "FCVAR_DONTRECORD"@)
    } else if i == 15 {
        (0x00080000, "FCVAR_RELEASE"@)
    } else if i == 16 {
        (0x00100000, "FCVAR_MENUBAR_ITEM"@)
    } else if i == 17 {
        (0x00800000, "FCVAR_VCONSOLE_FUZZY_MATCHING"@)
    } else if i == 18 {
        (0x01000000, "FCVAR_SERVER_CAN_EXECUTE"@)
    } else if i == 19 {
        (0x04000000, "FCVAR_SERVER_CANNOT_QUERY"@)
    } else if i == 20 {
        (0x08000000, "FCVAR_VCONSOLE_SET_FOCUS"@)
    } else if i == 21 {
        (0x10000000, "FCVAR_CLIENTCMD_CAN_EXECUTE"@)
    } else {
        (0x20000000, "FCVAR_EXECUTE_PER_TICK"@)
    }
}

fn fcvar_flag(i: usize) -> (flag: (u32, &'static str))
    ensures
        flag.0 == fcvar(i as int).0,
        flag.1@ == fcvar(i as int).1,
{
    if i == 0 {
        (0x00000001, "FCVAR_LINKED_CONCOMMAND")
    } else if i == 1 {
        (0x00000002, "FCVAR_DEVELOPMENTONLY")
    } else if i == 2 {
        (0x00000004, "FCVAR_GAMEDLL")
    } else if i == 3 {
        (0x00000008, "FCVAR_CLIENTDLL")
    } else if i == 4 {
        (0x00000020, "FCVAR_PROTECTED")
    } else if i == 5 {
        (0x00000040, "FCVAR_SPONLY")
    } else if i == 6 {
        (0x00000080, "FCVAR_ARCHIVE")
    } else if i == 7 {
        (0x00000100, "FCVAR_NOTIFY")
    } else if i == 8 {
        (0x00000200, "FCVAR_USERINFO")
    } else if i == 9 {
        (0x00000800, "FCVAR_UNLOGGED")
    } else if i == 10 {
        (0x00002000, "FCVAR_REPLICATED")
    } else if i == 11 {
        (0x00004000, "FCVAR_CHEAT")
    } else if i == 12 {
        (0x00008000, "FCVAR_PER_USER")
    } else if i == 13 {
        (0x00010000, "FCVAR_DEMO")
    } else if i == 14 {
        (0x00020000, "FCVAR_DONTRECORD")
    } else if i == 15 {
        (0x00080000, "FCVAR_RELEASE")
    } else if i == 16 {
        (0x00100000, "FCVAR_MENUBAR_ITEM")
    } else if i == 17 {
        (0x00800000, "FCVAR_VCONSOLE_FUZZY_MATCHING")
    } else if i == 18 {
        (0x01000000, "FCVAR_SERVER_CAN_EXECUTE")
    } else if i == 19 {
        (0x04000000, "FCVAR_SERVER_CANNOT_QUERY")
    } else if i == 20 {
        (0x08000000, "FCVAR_VCONSOLE_SET_FOCUS")
    } else if i == 21 {
        (0x10000000, "FCVAR_CLIENTCMD_CAN_EXECUTE")
    } else {
        (0x20000000, "FCVAR_EXECUTE_PER_TICK")
    }
}

/// The names of the set flags among the first `n`, in order.
pub open spec fn flags_named(flags: u32, n: nat) -> Seq<Seq<char>>
    decreases n,
{
    if n == 0 {
        Seq::empty()
    } else {
        let before = flags_named(flags, (n - 1) as nat);
        if flags & fcvar(n - 1).0 != 0 {
            before.push(fcvar(n - 1).1)
        } else {
            before
        }
    }
}

/// The texts of a list of strings.
pub open spec fn texts(list: Seq<&'static str>) -> Seq<Seq<char>> {
    Seq::new(list.len(), |i: int| list[i]@)
}

/// The names of the flags that are set.
pub fn decode_flags(flags: u32) -> (names: Vec<&'static str>)
    ensures
        texts(names@) == flags_named(flags, 23),
{
    let mut names: Vec<&'static str> = Vec::new();
    let mut i: usize = 0;
    assert(texts(names@) =~= Seq::<Seq<char>>::empty());
    while i < 23
        invariant
            i <= 23,
            texts(names@) == flags_named(flags, i as nat),
        decreases 23 - i,
    {
        let (mask, name) = fcvar_flag(i);
        if flags & mask != 0 {
            let ghost before = texts(names@);
            names.push(name);
            assert(texts(names@) =~= before.push(name@));
        }
        i = i + 1;
    }
    names
}

/// The name of a convar type.
pub open spec fn type_text(t: u16) -> Seq<char> {
    if t == 0 {
        "bool"@
    } else if t == 1 {
        "int16"@
    } else if t == 2 {
        "uint16"@
    } else if t == 3 {
        "int32"@
    } else if t == 4 {
        "uint32"@
    } else if t == 5 {
        "int64"@
    } else if t == 6 {
        "uint64"@
    } else if t == 7 {
        "float32"@
    } else if t == 8 {
        "float64"@
    } else if t == 9 {
        "string"@
    } else if t == 10 {
        "color"@
    } else if t == 11 {
        "vector2"@
    } else if t == 12 {
        "vector3"@
    } else if t == 13 {
        "vector4"@
    } else if t == 14 {
        "qangle"@
    } else {
        "unknown"@
    }
}

pub fn type_label(t: u16) -> (label: &'static str)
    ensures
        label@ == type_text(t),
{
    match t {
        0 => "bool",
        1 => "int16",
        2 => "uint16",
        3 => "int32",
        4 => "uint32",
        5 => "int64",
        6 => "uint64",
        7 => "float32",
        8 => "float64",
        9 => "string",
        10 => "color",
        11 => "vector2",
        12 => "vector3",
        13 => "vector4",
        14 => "qangle",
        _ => "unknown",
    }
}

/// The value of a convar. Floating-point values are kept as the bits of their
/// IEEE 754 form; every other value is kept as its text.
#[derive(Debug)]
pub enum ConVarValue {
    Text(String),
    Float32(u32),
    Float64(u64),
    Vector(Vec<u32>),
}

pub enum ValueModel {
    Text(Seq<char>),
    Float32(u32),
    Float64(u64),
    Vector(Seq<u32>),
}

impl ConVarValue {
    pub open spec fn model(&self) -> ValueModel {
        match self {
            ConVarValue::Text(t) => ValueModel::Text(t@),
            ConVarValue::Float32(bits) => ValueModel::Float32(*bits),
            ConVarValue::Float64(bits) => ValueModel::Float64(*bits),
            ConVarValue::Vector(list) => ValueModel::Vector(list@),
        }
    }
}

/// The four bytes of a colour in decimal.
pub open spec fn color_text(c: u32) -> Seq<char> {
    decimal((c % 0x100) as nat) + " "@ + decimal((c / 0x100 % 0x100) as nat) + " "@ + decimal(
        (c / 0x1_0000 % 0x100) as nat,
    ) + " "@ + decimal((c / 0x100_0000) as nat)
}

/// The value of type `t` at `va`; a type that is not known is shown as its
/// eight raw bytes.
pub open spec fn value_in(mem: Map<int, u8>, va: u64, t: u16) -> ValueModel {
    let at = va as int;
    if t == 0 {
        ValueModel::Text(
            if ld8(mem, at) != 0 {
                "true"@
            } else {
                "false"@
            },
        )
    } else if t == 1 {
        ValueModel::Text(signed_decimal(signed16(ld16(mem, at) as int)))
    } else if t == 2 {
        ValueModel::Text(decimal(ld16(mem, at) as nat))
    } else if t == 3 {
        ValueModel::Text(signed_decimal(signed32(ld32(mem, at) as int)))
    } else if t == 4 {
        ValueModel::Text(decimal(ld32(mem, at) as nat))
    } else if t == 5 {
        ValueModel::Text(signed_decimal(signed64(ld64(mem, at) as int)))
    } else if t == 6 {
        ValueModel::Text(decimal(ld64(mem, at) as nat))
    } else if t == 7 {
        ValueModel::Float32(ld32(mem, at))
    } else if t == 8 {
        ValueModel::Float64(ld64(mem, at))
    } else if t == 9 {
        ValueModel::Text(cstr_in(mem, ld64(mem, at)))
    } else if t == 10 {
        ValueModel::Text(color_text(ld32(mem, at)))
    } else if t == 11 {
        ValueModel::Vector(floats_in(mem, va, 2))
    } else if t == 12 || t == 14 {
        ValueModel::Vector(floats_in(mem, va, 3))
    } else if t == 13 {
        ValueModel::Vector(floats_in(mem, va, 4))
    } else {
        ValueModel::Text("0x"@ + hex_padded(ld64(mem, at) as nat, 16))
    }
}

/// The bits of the `n` single-precision numbers at `va`.
pub open spec fn floats_in(mem: Map<int, u8>, va: u64, n: nat) -> Seq<u32> {
    Seq::new(n, |i: int| ld32(mem, plus(va, 4 * i) as int))
}

fn read_vec(mem: &Memory, va: u64, n: u64) -> (list: Vec<u32>)
    requires
        mem.wf(),
        n <= 4,
    ensures
        list@ == floats_in(mem@, va, n as nat),
{
    let mut list: Vec<u32> = Vec::new();
    let mut i: u64 = 0;
    while i < n
        invariant
            mem.wf(),
            i <= n <= 4,
            list@ == floats_in(mem@, va, i as nat),
        decreases n - i,
    {
        list.push(u32_va(mem, offset(va, 4 * i)));
        i = i + 1;
        assert(list@ =~= floats_in(mem@, va, i as nat));
    }
    list
}

fn decimal_of(n: u64) -> (text: String)
    ensures
        text@ == decimal(n as nat),
{
    decimal_text(n)
}

fn color_of(c: u32) -> (text: String)
    ensures
        text@ == color_text(c),
{
    let mut out = decimal_of((c % 0x100) as u64);
    out.append(" ");
    push_decimal(&mut out, (c / 0x100 % 0x100) as u64);
    out.append(" ");
    push_decimal(&mut out, (c / 0x1_0000 % 0x100) as u64);
    out.append(" ");
    push_decimal(&mut out, (c / 0x100_0000) as u64);
    out
}

fn as_i64(v: u64) -> (x: i64)
    ensures
        x == signed64(v as int),
{
    if v < 0x8000_0000_0000_0000 {
        v as i64
    } else {
        (v - 0x8000_0000_0000_0000) as i64 + i64::MIN
    }
}

/// Decodes the value of type `type_id` at `va`.
pub fn decode_value(mem: &Memory, va: u64, type_id: u16) -> (value: ConVarValue)
    requires
        mem.wf(),
    ensures
        value.model() == value_in(mem@, va, type_id),
{
    match type_id {
        0 => ConVarValue::Text(
            if u8_va(mem, va) != 0 {
                "true".to_owned()
            } else {
                "false".to_owned()
            },
        ),
        1 => ConVarValue::Text(signed_decimal_text(to_i16(u16_va(mem, va)) as i64)),
        2 => ConVarValue::Text(decimal_of(u16_va(mem, va) as u64)),
        3 => ConVarValue::Text(signed_decimal_text(to_i32(u32_va(mem, va)) as i64)),
        4 => ConVarValue::Text(decimal_of(u32_va(mem, va) as u64)),
        5 => ConVarValue::Text(signed_decimal_text(as_i64(u64_va(mem, va)))),
        6 => ConVarValue::Text(decimal_of(u64_va(mem, va))),
        7 => ConVarValue::Float32(u32_va(mem, va)),
        8 => ConVarValue::Float64(u64_va(mem, va)),
        9 => ConVarValue::Text(cstr_at(mem, va)),
        10 => ConVarValue::Text(color_of(u32_va(mem, va))),
        11 => ConVarValue::Vector(read_vec(mem, va, 2)),
        12 => ConVarValue::Vector(read_vec(mem, va, 3)),
        13 => ConVarValue::Vector(read_vec(mem, va, 4)),
        14 => ConVarValue::Vector(read_vec(mem, va, 3)),
        _ => {
            let mut out = "0x".to_owned();
            push_hex_padded(&mut out, u64_va(mem, va), 16);
            ConVarValue::Text(out)
        },
    }
}

/// A console variable with its value.
#[derive(Debug)]
pub struct ConVar {
    pub name: String,
    pub value: ConVarValue,
    pub type_id: u16,
    pub type_label: &'static str,
    pub flags: u32,
    pub flag_names: Vec<&'static str>,
    pub description: String,
    /// Where its info stands.
    pub address: u64,
}

/// A console command.
#[derive(Debug)]
pub struct ConCommand {
    pub name: String,
    pub flags: u32,
    pub flag_names: Vec<&'static str>,
    pub description: String,
    /// Where its list element stands.
    pub address: u64,
}

pub struct ConVarModel {
    pub name: Seq<char>,
    pub value: ValueModel,
    pub type_id: u16,
    pub flags: u32,
    pub description: Seq<char>,
    pub address: u64,
}

pub struct ConCommandModel {
    pub name: Seq<char>,
    pub flags: u32,
    pub description: Seq<char>,
    pub address: u64,
}

impl ConVar {
    pub open spec fn is(&self, model: ConVarModel) -> bool {
        &&& self.name@ == model.name
        &&& self.value.model() == model.value
        &&& self.type_id == model.type_id
        &&& self.type_label@ == type_text(model.type_id)
        &&& self.flags == model.flags
        &&& texts(self.flag_names@) == flags_named(model.flags, 23)
        &&& self.description@ == model.description
        &&& self.address == model.address
    }
}

impl ConCommand {
    pub open spec fn is(&self, model: ConCommandModel) -> bool {
        &&& self.name@ == model.name
        &&& self.flags == model.flags
        &&& texts(self.flag_names@) == flags_named(model.flags, 23)
        &&& self.description@ == model.description
        &&& self.address == model.address
    }
}

impl Named for ConVar {
    open spec fn name_text(&self) -> Seq<char> {
        self.name@
    }

    fn name_str(&self) -> (name: &str) {
        self.name.as_str()
    }
}

impl Named for ConCommand {
    open spec fn name_text(&self) -> Seq<char> {
        self.name@
    }

    fn name_str(&self) -> (name: &str) {
        self.name.as_str()
    }
}

/// The string whose pointer stands in an object.
pub open spec fn text_field(mem: Map<int, u8>, object: u64, at: u64) -> Seq<char> {
    cstr_in(mem, ld64(mem, plus(object, at as int) as int))
}

/// The convar whose info stands at `data`; none where it has no name.
pub open spec fn convar_in(mem: Map<int, u8>, data: u64) -> Option<ConVarModel> {
    let name = text_field(mem, data, CVI_NAME);
    let type_id = ld16(mem, plus(data, CVI_TYPE as int) as int);
    if name.len() == 0 {
        None
    } else {
        Some(
            ConVarModel {
                name,
                value: value_in(mem, plus(data, CVI_VALUE as int), type_id),
                type_id,
                flags: ld32(mem, plus(data, CVI_FLAGS as int) as int),
                description: text_field(mem, data, CVI_DESC),
                address: data,
            },
        )
    }
}

/// The command whose element stands at `elem`; none where it has no name.
pub open spec fn concommand_in(mem: Map<int, u8>, elem: u64) -> Option<ConCommandModel> {
    let name = text_field(mem, elem, CC_NAME);
    if name.len() == 0 {
        None
    } else {
        Some(
            ConCommandModel {
                name,
                flags: ld32(mem, plus(elem, CC_FLAGS as int) as int),
                description: text_field(mem, elem, CC_DESC),
                address: elem,
            },
        )
    }
}

/// Reads the convar whose info stands at `data_va`.
pub fn read_convar(mem: &Memory, data_va: u64) -> (convar: Option<ConVar>)
    requires
        mem.wf(),
    ensures
        match convar_in(mem@, data_va) {
            Some(model) => convar matches Some(c) && c.is(model),
            None => convar is None,
        },
{
    let name = cstr_at(mem, offset(data_va, CVI_NAME));
    if name.as_str().is_empty() {
        return None;
    }
    let description = cstr_at(mem, offset(data_va, CVI_DESC));
    let type_id: u16 = u16_va(mem, offset(data_va, CVI_TYPE));
    let flags: u32 = u32_va(mem, offset(data_va, CVI_FLAGS));
    Some(
        ConVar {
            name,
            value: decode_value(mem, offset(data_va, CVI_VALUE), type_id),
            type_id,
            type_label: type_label(type_id),
            flags,
            flag_names: decode_flags(flags),
            description,
            address: data_va,
        },
    )
}

/// Reads the command whose element stands at `elem_va`.
pub fn read_concommand(mem: &Memory, elem_va: u64) -> (command: Option<ConCommand>)
    requires
        mem.wf(),
    ensures
        match concommand_in(mem@, elem_va) {
            Some(model) => command matches Some(c) && c.is(model),
            None => command is None,
        },
{
    let name = cstr_at(mem, offset(elem_va, CC_NAME));
    if name.as_str().is_empty() {
        return None;
    }
    let description = cstr_at(mem, offset(elem_va, CC_DESC));
    let flags: u32 = u32_va(mem, offset(elem_va, CC_FLAGS));
    Some(
        ConCommand {
            name,
            flags,
            flag_names: decode_flags(flags),
            description,
            address: elem_va,
        },
    )
}

/// The indices that a walk visits from `idx` on: it ends at the end of the
/// list, at an index that it has seen, and after `fuel` elements.
pub open spec fn chain(
    mem: Map<int, u8>,
    base: u64,
    stride: u64,
    next: u64,
    idx: u16,
    seen: Set<u64>,
    fuel: nat,
) -> Seq<u16>
    decreases fuel,
{
    if idx == LIST_END || fuel == 0 || seen.contains(idx as u64) {
        Seq::empty()
    } else {
        seq![idx] + chain(
            mem,
            base,
            stride,
            next,
            ld16(mem, plus(plus(base, stride * idx), next as int) as int),
            seen.insert(idx as u64),
            (fuel - 1) as nat,
        )
    }
}

/// A walk visits no element twice.
pub proof fn lemma_chain_distinct(
    mem: Map<int, u8>,
    base: u64,
    stride: u64,
    next: u64,
    idx: u16,
    seen: Set<u64>,
    fuel: nat,
)
    ensures
        forall|i: int|
            0 <= i < chain(mem, base, stride, next, idx, seen, fuel).len() ==> !seen.contains(
                (#[trigger] chain(mem, base, stride, next, idx, seen, fuel)[i]) as u64,
            ),
        forall|i: int, j: int|
            0 <= i < j < chain(mem, base, stride, next, idx, seen, fuel).len()
                ==> #[trigger] chain(mem, base, stride, next, idx, seen, fuel)[i]
                != #[trigger] chain(mem, base, stride, next, idx, seen, fuel)[j],
    decreases fuel,
{
    if !(idx == LIST_END || fuel == 0 || seen.contains(idx as u64)) {
        let after = ld16(mem, plus(plus(base, stride * idx), next as int) as int);
        let more = seen.insert(idx as u64);
        lemma_chain_distinct(mem, base, stride, next, after, more, (fuel - 1) as nat);
        let all = chain(mem, base, stride, next, idx, seen, fuel);
        let rest = chain(mem, base, stride, next, after, more, (fuel - 1) as nat);
        assert forall|i: int| 0 <= i < all.len() implies !seen.contains((#[trigger] all[i]) as u64) by {
            if i > 0 {
                assert(all[i] == rest[i - 1]);
                assert(!more.contains(rest[i - 1] as u64));
            }
        }
        assert forall|i: int, j: int| 0 <= i < j < all.len() implies #[trigger] all[i]
            != #[trigger] all[j] by {
            assert(all[j] == rest[j - 1]);
            if i > 0 {
                assert(all[i] == rest[i - 1]);
            } else {
                assert(!more.contains(rest[j - 1] as u64));
            }
        }
    }
}

/// The convars of the visited elements that point at one.
pub open spec fn convars_at(mem: Map<int, u8>, base: u64, stride: u64, list: Seq<u16>) -> Seq<
    ConVarModel,
>
    decreases list.len(),
{
    if list.len() == 0 {
        Seq::empty()
    } else {
        let before = convars_at(mem, base, stride, list.drop_last());
        let data = ld64(mem, plus(base, stride * list.last()) as int);
        if data == 0 {
            before
        } else {
            match convar_in(mem, data) {
                Some(model) => before.push(model),
                None => before,
            }
        }
    }
}

/// The commands of the visited elements.
pub open spec fn commands_at(mem: Map<int, u8>, base: u64, stride: u64, list: Seq<u16>) -> Seq<
    ConCommandModel,
>
    decreases list.len(),
{
    if list.len() == 0 {
        Seq::empty()
    } else {
        let before = commands_at(mem, base, stride, list.drop_last());
        match concommand_in(mem, plus(base, stride * list.last())) {
            Some(model) => before.push(model),
            None => before,
        }
    }
}

/// The convars of a registry, in list order.
pub open spec fn registry_convars(mem: Map<int, u8>, inst: u64, layout: RegistryLayout) -> Seq<
    ConVarModel,
> {
    let base = ld64(mem, plus(inst, layout.cv_base as int) as int);
    let head = ld16(mem, plus(inst, layout.cv_head as int) as int);
    if base == 0 {
        Seq::empty()
    } else {
        convars_at(
            mem,
            base,
            layout.cv_stride,
            chain(
                mem,
                base,
                layout.cv_stride,
                layout.cv_next,
                head,
                Set::empty(),
                MAX_WALK as nat,
            ),
        )
    }
}

/// The commands of a registry, in list order.
pub open spec fn registry_commands(mem: Map<int, u8>, inst: u64, layout: RegistryLayout) -> Seq<
    ConCommandModel,
> {
    let base = ld64(mem, plus(inst, layout.cc_base as int) as int);
    let head = ld16(mem, plus(inst, layout.cc_head as int) as int);
    if base == 0 {
        Seq::empty()
    } else {
        commands_at(
            mem,
            base,
            layout.cc_stride,
            chain(
                mem,
                base,
                layout.cc_stride,
                layout.cc_next,
                head,
                Set::empty(),
                MAX_WALK as nat,
            ),
        )
    }
}

pub open spec fn convars_are(list: Seq<ConVar>, models: Seq<ConVarModel>) -> bool {
    &&& list.len() == models.len()
    &&& forall|i: int| 0 <= i < list.len() ==> (#[trigger] list[i]).is(models[i])
}

pub open spec fn commands_are(list: Seq<ConCommand>, models: Seq<ConCommandModel>) -> bool {
    &&& list.len() == models.len()
    &&& forall|i: int| 0 <= i < list.len() ==> (#[trigger] list[i]).is(models[i])
}

fn list_element(base: u64, stride: u64, idx: u16) -> (elem: u64)
    requires
        stride <= 64,
    ensures
        elem == plus(base, stride * idx),
{
    assert(stride * idx <= 64 * 0xFFFF) by (nonlinear_arith)
        requires
            stride <= 64,
            idx <= 0xFFFF,
    ;
    base.wrapping_add(stride * idx as u64)
}

fn walk_convars(mem: &Memory, base: u64, stride: u64, next: u64, head: u16) -> (list: Vec<ConVar>)
    requires
        mem.wf(),
        stride <= 64,
    ensures
        convars_are(
            list@,
            convars_at(
                mem@,
                base,
                stride,
                chain(mem@, base, stride, next, head, Set::empty(), MAX_WALK as nat),
            ),
        ),
{
    let mut list: Vec<ConVar> = Vec::new();
    let mut idx: u16 = head;
    let mut seen = AddrSet::new();
    let mut left: usize = MAX_WALK;
    let ghost all = chain(mem@, base, stride, next, head, Set::empty(), MAX_WALK as nat);
    let ghost mut visited: Seq<u16> = Seq::empty();
    assert(visited + all =~= all);
    while idx != LIST_END && left > 0
        invariant
            mem.wf(),
            stride <= 64,
            left <= MAX_WALK,
            all == visited + chain(mem@, base, stride, next, idx, seen@, left as nat),
            convars_are(list@, convars_at(mem@, base, stride, visited)),
        ensures
            all =~= visited,
            convars_are(list@, convars_at(mem@, base, stride, visited)),
        decreases left,
    {
        if !seen.insert(idx as u64) {
            break ;
        }
        let elem: u64 = list_element(base, stride, idx);
        let data: u64 = u64_va(mem, elem);
        let after: u16 = u16_va(mem, offset(elem, next));
        let ghost was = visited;
        proof {
            visited = visited.push(idx);
            assert(visited.drop_last() =~= was);
            let rest = chain(mem@, base, stride, next, after, seen@, (left - 1) as nat);
            assert(was + (seq![idx] + rest) =~= visited + rest);
        }
        if data != 0 {
            match read_convar(mem, data) {
                Some(convar) => {
                    list.push(convar);
                },
                None => {},
            }
        }
        idx = after;
        left = left - 1;
    }
    list
}

fn walk_commands(mem: &Memory, base: u64, stride: u64, next: u64, head: u16) -> (list: Vec<
    ConCommand,
>)
    requires
        mem.wf(),
        stride <= 64,
    ensures
        commands_are(
            list@,
            commands_at(
                mem@,
                base,
                stride,
                chain(mem@, base, stride, next, head, Set::empty(), MAX_WALK as nat),
            ),
        ),
{
    let mut list: Vec<ConCommand> = Vec::new();
    let mut idx: u16 = head;
    let mut seen = AddrSet::new();
    let mut left: usize = MAX_WALK;
    let ghost all = chain(mem@, base, stride, next, head, Set::empty(), MAX_WALK as nat);
    let ghost mut visited: Seq<u16> = Seq::empty();
    assert(visited + all =~= all);
    while idx != LIST_END && left > 0
        invariant
            mem.wf(),
            stride <= 64,
            left <= MAX_WALK,
            all == visited + chain(mem@, base, stride, next, idx, seen@, left as nat),
            commands_are(list@, commands_at(mem@, base, stride, visited)),
        ensures
            all =~= visited,
            commands_are(list@, commands_at(mem@, base, stride, visited)),
        decreases left,
    {
        if !seen.insert(idx as u64) {
            break ;
        }
        let elem: u64 = list_element(base, stride, idx);
        let after: u16 = u16_va(mem, offset(elem, next));
        let ghost was = visited;
        proof {
            visited = visited.push(idx);
            assert(visited.drop_last() =~= was);
            let rest = chain(mem@, base, stride, next, after, seen@, (left - 1) as nat);
            assert(was + (seq![idx] + rest) =~= visited + rest);
        }
        match read_concommand(mem, elem) {
            Some(command) => {
                list.push(command);
            },
            None => {},
        }
        idx = after;
        left = left - 1;
    }
    list
}

/// What a registry holds.
#[derive(Debug)]
pub struct ConVarsDump {
    pub convars: Vec<ConVar>,
    pub commands: Vec<ConCommand>,
    pub registry_layout: RegistryLayout,
}

/// Why a registry could not be walked.
#[derive(Clone, Copy, Debug, PartialEq, Eq, Structural)]
pub enum ConVarError {
    /// The global at this address is null.
    NullRegistry(u64),
}

/// The names of a list of models.
pub open spec fn convar_names(models: Seq<ConVarModel>) -> Seq<Seq<char>> {
    Seq::new(models.len(), |i: int| models[i].name)
}

pub open spec fn command_names(models: Seq<ConCommandModel>) -> Seq<Seq<char>> {
    Seq::new(models.len(), |i: int| models[i].name)
}

/// `list` holds what the models say, in the order of their names.
pub open spec fn convars_sorted(list: Seq<ConVar>, models: Seq<ConVarModel>) -> bool {
    exists|p: Seq<int>|
        #[trigger] name_order(convar_names(models), p) && list.len() == p.len() && forall|i: int|
            0 <= i < p.len() ==> (#[trigger] list[i]).is(models[p[i]])
}

/// `list` holds what the models say, in the order of their names.
pub open spec fn commands_sorted(list: Seq<ConCommand>, models: Seq<ConCommandModel>) -> bool {
    exists|p: Seq<int>|
        #[trigger] name_order(command_names(models), p) && list.len() == p.len() && forall|i: int|
            0 <= i < p.len() ==> (#[trigger] list[i]).is(models[p[i]])
}

/// What a walk from a global comes to.
pub open spec fn walks_to(
    mem: Map<int, u8>,
    registry_global_va: u64,
    dump: Result<ConVarsDump, ConVarError>,
) -> bool {
    let inst = ld64(mem, registry_global_va as int);
    let layout = detected(mem, inst);
    if inst == 0 {
        dump == Err::<ConVarsDump, ConVarError>(
            ConVarError::NullRegistry(registry_global_va),
        )
    } else {
        &&& dump is Ok
        &&& dump->Ok_0.registry_layout == layout
        &&& convars_sorted(
            dump->Ok_0.convars@,
            registry_convars(mem, inst, layout),
        )
        &&& commands_sorted(
            dump->Ok_0.commands@,
            registry_commands(mem, inst, layout),
        )
    }
}

/// Walks the registry that the global at `registry_global_va` points at, and
/// returns its convars and commands in the order of their names.
pub fn walk(mem: &Memory, registry_global_va: u64) -> (dump: Result<ConVarsDump, ConVarError>)
    requires
        mem.wf(),
    ensures
        walks_to(mem@, registry_global_va, dump),
{
    let inst: u64 = u64_va(mem, registry_global_va);
    if inst == 0 {
        return Err(ConVarError::NullRegistry(registry_global_va));
    }
    let layout = detect_layout(mem, inst);
    let cv_base: u64 = u64_va(mem, offset(inst, layout.cv_base));
    let cv_head: u16 = u16_va(mem, offset(inst, layout.cv_head));
    let mut convars: Vec<ConVar> = if cv_base != 0 {
        walk_convars(mem, cv_base, layout.cv_stride, layout.cv_next, cv_head)
    } else {
        Vec::new()
    };
    let cc_base: u64 = u64_va(mem, offset(inst, layout.cc_base));
    let cc_head: u16 = u16_va(mem, offset(inst, layout.cc_head));
    let mut commands: Vec<ConCommand> = if cc_base != 0 {
        walk_commands(mem, cc_base, layout.cc_stride, layout.cc_next, cc_head)
    } else {
        Vec::new()
    };
    let ghost found = registry_convars(mem@, inst, layout);
    let ghost found_commands = registry_commands(mem@, inst, layout);
    let ghost before = convars@;
    let ghost before_commands = commands@;
    assert(convars_are(before, found));
    assert(commands_are(before_commands, found_commands));
    sort_by_name(&mut convars);
    sort_by_name(&mut commands);
    proof {
        assert(names_of(before) =~= convar_names(found));
        let p = choose|p: Seq<int>|
            #![trigger name_order(names_of(before), p)]
            name_order(names_of(before), p) && rearranged(before, convars@, p);
        assert(name_order(convar_names(found), p));
        assert forall|i: int| 0 <= i < p.len() implies (#[trigger] convars@[i]).is(found[p[i]]) by {
            assert(before[p[i]].is(found[p[i]]));
        }
        assert(names_of(before_commands) =~= command_names(found_commands));
        let q = choose|q: Seq<int>|
            #![trigger name_order(names_of(before_commands), q)]
            name_order(names_of(before_commands), q) && rearranged(before_commands, commands@, q);
        assert(name_order(command_names(found_commands), q));
        assert forall|i: int| 0 <= i < q.len() implies (#[trigger] commands@[i]).is(
            found_commands[q[i]],
        ) by {
            assert(before_commands[q[i]].is(found_commands[q[i]]));
        }
    }
    Ok(ConVarsDump { convars, commands, registry_layout: layout })
}

/// A registry behind a global.
pub struct RegistryAnchor;

/// Under candidate `i` the head holds a convar list whose first element names
/// a convar of a known type.
pub open spec fn head_has_convars(mem: Map<int, u8>, head: Seq<u8>, i: int) -> bool {
    let (at_base, at_head, stride, _) = cv_layout(i);
    let base = head64(head, at_base as int);
    let index = head16(head, at_head as int);
    let data = ld64(mem, sat_plus(base, stride * index) as int);
    &&& walkable(base, index)
    &&& data >= 0x10000
    &&& plausible(text_field(mem, data, CVI_NAME))
    &&& ld16(mem, plus(data, CVI_TYPE as int) as int) <= 14
}

fn gate_candidate(mem: &Memory, head: &Head, i: usize) -> (passes: bool)
    requires
        mem.wf(),
    ensures
        passes == head_has_convars(mem@, head.bytes@, i as int),
{
    let (at_base, at_head, stride, _) = cv_candidate(i);
    let base: u64 = head.u64(at_base);
    let index: u16 = head.u16(at_head);
    if base < 0x10000 || index >= 0x8000 {
        return false;
    }
    let elem: u64 = element(base, stride, index);
    let data: u64 = u64_va(mem, elem);
    if data < 0x10000 {
        return false;
    }
    let name = cstr_at(mem, offset(data, CVI_NAME));
    plausible_name(name.as_str()) && u16_va(mem, offset(data, CVI_TYPE)) <= 14
}

impl Anchor for RegistryAnchor {
    open spec fn gates(&self, mem: Map<int, u8>, head: Seq<u8>) -> bool {
        head_has_convars(mem, head, 0) || head_has_convars(mem, head, 1) || head_has_convars(
            mem,
            head,
            2,
        ) || head_has_convars(mem, head, 3)
    }

    open spec fn evidence(&self, mem: Map<int, u8>, object: u64) -> usize {
        layout_evidence(mem, object, candidate(best_candidate(mem, object, 16))) as usize
    }

    fn gate(&self, mem: &Memory, head: &Head) -> (passes: bool) {
        gate_candidate(mem, head, 0) || gate_candidate(mem, head, 1) || gate_candidate(mem, head, 2)
            || gate_candidate(mem, head, 3)
    }

    fn score(&self, mem: &Memory, object: u64) -> (evidence: usize) {
        best_layout(mem, object).1
    }
}

/// What the scan for a registry demands: its head up to the furthest field of
/// a candidate, and the evidence of about six good elements.
pub open spec fn registry_scan() -> AnchorScan {
    AnchorScan { head_span: 0x120, min_evidence: 12, max_probes: 128 }
}

/// The global in a module image that points at the registry.
pub fn find_registry_in(mem: &Memory, image: &[u8], base: u64, ranges: &[(u64, u64)]) -> (found:
    Option<u64>)
    requires
        mem.wf(),
    ensures
        ranges_find(&RegistryAnchor, mem@, image@, base, ranges@, registry_scan(), found),
{
    let scan = AnchorScan { head_span: 0x120, min_evidence: 12, max_probes: 128 };
    find_global(mem, image, base, ranges, scan, &RegistryAnchor)
}

/// The global of a module that points at the registry.
pub fn find_registry(mem: &Memory, module: &ModuleImage) -> (found: Option<u64>)
    requires
        mem.wf(),
    ensures
        module_finds(&RegistryAnchor, mem@, module.bytes@, module.base, registry_scan(), found),
{
    let scan = AnchorScan { head_span: 0x120, min_evidence: 12, max_probes: 128 };
    global_anchor::find_in_module(mem, module, scan, &RegistryAnchor)
}

/// Of a value of the boolean type the text is `false` exactly where the byte is
/// zero, and `true` exactly where it is not.
pub proof fn lemma_bool_text(mem: Map<int, u8>, va: u64, byte: u8)
    requires
        mem.contains_key(va as int),
        mem[va as int] == byte,
    ensures
        value_in(mem, va, 0) == ValueModel::Text("false"@) <==> byte == 0,
        value_in(mem, va, 0) == ValueModel::Text("true"@) <==> byte != 0,
{
    lemma_loads(mem, va as int, byte as int);
    reveal_strlit("false");
    reveal_strlit("true");
    assert("false"@.len() != "true"@.len());
}

/// Of a 16-bit type the text says the number that stands there, with its sign
/// where the type has one.
pub proof fn lemma_short_text(mem: Map<int, u8>, va: u64, x: int)
    ensures
        -0x8000 <= x < 0x8000 && stands16(mem, va as int, x % 0x1_0000) ==> (value_in(mem, va, 1)
            matches ValueModel::Text(t) && signed_value(t) == x),
        stands16(mem, va as int, x) ==> (value_in(mem, va, 2) matches ValueModel::Text(t)
            && digits_value(t) == x),
{
    lemma_loads(mem, va as int, x);
    lemma_loads(mem, va as int, x % 0x1_0000);
    lemma_signed_decimal_value(x);
    if x >= 0 {
        lemma_decimal_value(x as nat);
    }
    if -0x8000 <= x < 0x8000 {
        assert(signed16(x % 0x1_0000) == x);
    }
}

/// Of a 32-bit integer type the text says the number that stands there, with its
/// sign where the type has one.
pub proof fn lemma_word_text(mem: Map<int, u8>, va: u64, x: int)
    ensures
        -0x8000_0000 <= x < 0x8000_0000 && stands32(mem, va as int, x % 0x1_0000_0000) ==> (
        value_in(mem, va, 3) matches ValueModel::Text(t) && signed_value(t) == x),
        stands32(mem, va as int, x) ==> (value_in(mem, va, 4) matches ValueModel::Text(t)
            && digits_value(t) == x),
{
    lemma_loads(mem, va as int, x);
    lemma_loads(mem, va as int, x % 0x1_0000_0000);
    lemma_signed_decimal_value(x);
    if x >= 0 {
        lemma_decimal_value(x as nat);
    }
    if -0x8000_0000 <= x < 0x8000_0000 {
        assert(signed32(x % 0x1_0000_0000) == x);
    }
}

/// Of a 64-bit integer type the text says the number that stands there, with its
/// sign where the type has one.
pub proof fn lemma_long_text(mem: Map<int, u8>, va: u64, x: int)
    ensures
        -0x8000_0000_0000_0000 <= x < 0x8000_0000_0000_0000 && stands64(
            mem,
            va as int,
            x % 0x1_0000_0000_0000_0000,
        ) ==> (value_in(mem, va, 5) matches ValueModel::Text(t) && signed_value(t) == x),
        stands64(mem, va as int, x) ==> (value_in(mem, va, 6) matches ValueModel::Text(t)
            && digits_value(t) == x),
{
    lemma_loads(mem, va as int, x);
    lemma_loads(mem, va as int, x % 0x1_0000_0000_0000_0000);
    lemma_signed_decimal_value(x);
    if x >= 0 {
        lemma_decimal_value(x as nat);
    }
    if -0x8000_0000_0000_0000 <= x < 0x8000_0000_0000_0000 {
        assert(signed64(x % 0x1_0000_0000_0000_0000) == x);
    }
}

/// Of the other types the value is what stands there: the bits of a
/// floating-point number, the text that a pointer leads to, and the bits of each
/// number of a vector, which are two, three or four side by side.
pub proof fn lemma_value_read_back(mem: Map<int, u8>, va: u64, x: int, text: Seq<char>)
    ensures
        stands32(mem, va as int, x) ==> value_in(mem, va, 7) == ValueModel::Float32(x as u32),
        stands64(mem, va as int, x) ==> value_in(mem, va, 8) == ValueModel::Float64(x as u64),
        stands64(mem, va as int, x) && x != 0 && stands_text(mem, x, text) && encode_utf8(
            text,
        ).len() <= 256 ==> value_in(mem, va, 9) == ValueModel::Text(text),
        stands64(mem, va as int, x) ==> forall|t: u16|
            t > 14 ==> ((#[trigger] value_in(mem, va, t)) matches ValueModel::Text(shown)
                && shown.len() == 18 && hex_value(shown.subrange(2, 18)) == x),
{
    reveal(stands32);
    reveal(stands64);
    lemma_loads(mem, va as int, x);
    if stands64(mem, va as int, x) {
        if x != 0 && stands_text(mem, x, text) && encode_utf8(text).len() <= 256 {
            lemma_text(mem, x, text, 256);
        }
        assert(x < pow16(16)) by {
            reveal_with_fuel(pow16, 17);
        }
        let digits = hex_padded(x as nat, 16);
        lemma_hex_padded_value(x as nat, 16);
        lemma_hex_width(x as nat, 16);
        reveal_strlit("0x");
        assert(("0x"@ + digits).subrange(2, 18) =~= digits);
    }
}

/// The numbers that a vector of each type has.
pub open spec fn vector_size(t: u16) -> int {
    if t == 11 {
        2
    } else if t == 12 || t == 14 {
        3
    } else {
        4
    }
}

/// Of a vector the value is the bits of its numbers, which stand side by side.
pub proof fn lemma_vector_read_back(mem: Map<int, u8>, va: u64, t: u16, list: Seq<u32>)
    requires
        11 <= t <= 14,
        list.len() == vector_size(t),
        va + 16 <= 0x1_0000_0000_0000_0000,
        forall|i: int|
            0 <= i < list.len() ==> stands32(mem, va + 4 * i, #[trigger] list[i] as int),
    ensures
        value_in(mem, va, t) == ValueModel::Vector(list),
{
    let got = floats_in(mem, va, list.len());
    assert forall|i: int| 0 <= i < list.len() implies got[i] == list[i] by {
        assert(stands32(mem, va + 4 * i, list[i] as int));
        lemma_loads(mem, va + 4 * i, list[i] as int);
        assert(plus(va, 4 * i) == va + 4 * i);
    }
    assert(got =~= list);
}

proof fn lemma_parts(a: nat, x: Seq<char>, b: nat, y: Seq<char>)
    requires
        decimal(a) + " "@ + x == decimal(b) + " "@ + y,
    ensures
        a == b,
        x == y,
{
    reveal_strlit(" ");
    lemma_decimal_value(a);
    lemma_decimal_value(b);
    let (p, q) = (decimal(a), decimal(b));
    let (s, t) = (p + " "@ + x, q + " "@ + y);
    if p.len() < q.len() {
        assert(s[p.len() as int] == ' ');
        assert(t[p.len() as int] == q[p.len() as int]);
    } else if q.len() < p.len() {
        assert(t[q.len() as int] == ' ');
        assert(s[q.len() as int] == p[q.len() as int]);
    }
    assert(p =~= s.subrange(0, p.len() as int));
    assert(q =~= t.subrange(0, q.len() as int));
    assert(x =~= s.subrange(p.len() as int + 1, s.len() as int));
    assert(y =~= t.subrange(q.len() as int + 1, t.len() as int));
}

spec fn color_rest(c: u32, k: int) -> Seq<char> {
    let last = decimal((c / 0x100_0000) as nat);
    let two = decimal((c / 0x1_0000 % 0x100) as nat) + " "@ + last;
    if k == 3 {
        last
    } else if k == 2 {
        two
    } else {
        decimal((c / 0x100 % 0x100) as nat) + " "@ + two
    }
}

proof fn lemma_color_apart(c: u32)
    ensures
        color_text(c) == decimal((c % 0x100) as nat) + " "@ + color_rest(c, 1),
        color_rest(c, 1) == decimal((c / 0x100 % 0x100) as nat) + " "@ + color_rest(c, 2),
        color_rest(c, 2) == decimal((c / 0x1_0000 % 0x100) as nat) + " "@ + color_rest(c, 3),
        c == c % 0x100 + 0x100 * (c / 0x100 % 0x100) + 0x1_0000 * (c / 0x1_0000 % 0x100)
            + 0x100_0000 * (c / 0x100_0000),
{
    let (p, q, r, s) = (
        decimal((c % 0x100) as nat),
        decimal((c / 0x100 % 0x100) as nat),
        decimal((c / 0x1_0000 % 0x100) as nat),
        decimal((c / 0x100_0000) as nat),
    );
    lemma_regroup(p, q, r, s, " "@);
}

proof fn lemma_regroup(p: Seq<char>, q: Seq<char>, r: Seq<char>, s: Seq<char>, gap: Seq<char>)
    ensures
        p + gap + q + gap + r + gap + s == p + gap + (q + gap + (r + gap + s)),
{
    assert(p + gap + q + gap + r + gap + s =~= p + gap + (q + gap + (r + gap + s)));
}

/// The text of a colour tells it from every other, and says its four bytes in
/// order with a space between them.
pub proof fn lemma_color_text(a: u32, b: u32)
    ensures
        color_text(a) == color_text(b) ==> a == b,
{
    if color_text(a) == color_text(b) {
        lemma_color_apart(a);
        lemma_color_apart(b);
        let x1 = color_rest(a, 1);
        let y1 = color_rest(b, 1);
        lemma_parts((a % 0x100) as nat, x1, (b % 0x100) as nat, y1);
        lemma_parts(
            (a / 0x100 % 0x100) as nat,
            color_rest(a, 2),
            (b / 0x100 % 0x100) as nat,
            color_rest(b, 2),
        );
        lemma_parts(
            (a / 0x1_0000 % 0x100) as nat,
            color_rest(a, 3),
            (b / 0x1_0000 % 0x100) as nat,
            color_rest(b, 3),
        );
        lemma_decimal_value((a / 0x100_0000) as nat);
        lemma_decimal_value((b / 0x100_0000) as nat);
    }
}

/// The bytes that a value of a type takes: one for a boolean, and for a string
/// the eight of its pointer.
pub open spec fn value_width(t: u16) -> int {
    if t == 0 {
        1
    } else if t == 1 || t == 2 {
        2
    } else if t == 3 || t == 4 || t == 7 || t == 10 {
        4
    } else if t == 12 || t == 14 {
        12
    } else if t == 13 {
        16
    } else {
        8
    }
}

proof fn lemma_same_bytes(a: Seq<u8>, x: int, b: Seq<u8>, y: int)
    ensures
        le2(a, x) == le2(b, y) ==> a[x] == b[y] && a[x + 1] == b[y + 1],
        le4(a, x) == le4(b, y) ==> a[x] == b[y] && a[x + 1] == b[y + 1] && a[x + 2] == b[y + 2]
            && a[x + 3] == b[y + 3],
{
    if le2(a, x) == le2(b, y) {
        lemma_low_byte(a[x] as int, a[x + 1] as int, b[y] as int, b[y + 1] as int);
    }
    if le4(a, x) == le4(b, y) {
        let a2 = a[x + 2] + 0x100 * a[x + 3];
        let b2 = b[y + 2] + 0x100 * b[y + 3];
        let a1 = a[x + 1] + 0x100 * a2;
        let b1 = b[y + 1] + 0x100 * b2;
        lemma_low_byte(a[x] as int, a1, b[y] as int, b1);
        lemma_low_byte(a[x + 1] as int, a2, b[y + 1] as int, b2);
        lemma_low_byte(a[x + 2] as int, a[x + 3] as int, b[y + 2] as int, b[y + 3] as int);
    }
}

proof fn lemma_low_byte(p: int, r: int, q: int, s: int)
    requires
        p + 0x100 * r == q + 0x100 * s,
        0 <= p < 0x100,
        0 <= q < 0x100,
    ensures
        p == q,
        r == s,
{
}

proof fn lemma_halves(p: int, r: int, q: int, s: int)
    requires
        p + 0x1_0000_0000 * r == q + 0x1_0000_0000 * s,
        0 <= p < 0x1_0000_0000,
        0 <= q < 0x1_0000_0000,
    ensures
        p == q,
        r == s,
{
}

proof fn lemma_same_words(a: Seq<u8>, x: int, b: Seq<u8>, y: int)
    requires
        le8(a, x) == le8(b, y),
    ensures
        forall|k: int| 0 <= k < 8 ==> a[#[trigger] (x + k)] == b[y + k],
{
    lemma_halves(le4(a, x), le4(a, x + 4), le4(b, y), le4(b, y + 4));
    lemma_same_bytes(a, x, b, y);
    lemma_same_bytes(a, x + 4, b, y + 4);
    assert forall|k: int| 0 <= k < 8 implies a[#[trigger] (x + k)] == b[y + k] by {
        if k == 0 {
        } else if k == 1 {
        } else if k == 2 {
        } else if k == 3 {
        } else if k == 4 {
            assert(x + k == x + 4);
        } else if k == 5 {
            assert(x + k == x + 4 + 1);
        } else if k == 6 {
            assert(x + k == x + 4 + 2);
        } else {
            assert(x + k == x + 4 + 3);
        }
    }
}

/// Decoding loses nothing: of every type but the boolean and the string, whose
/// value is not all of its bytes, two memories whose values differ in a byte give
/// different decoded values.
pub proof fn lemma_decoding_tells(
    one: Map<int, u8>,
    two: Map<int, u8>,
    va: u64,
    t: u16,
    a: Seq<u8>,
    b: Seq<u8>,
)
    requires
        t != 0,
        t != 9,
        a.len() == value_width(t),
        b.len() == value_width(t),
        va + 16 <= 0x1_0000_0000_0000_0000,
        copies(one, va as int, a),
        copies(two, va as int, b),
        value_in(one, va, t) == value_in(two, va, t),
    ensures
        a == b,
{
    let at = va as int;
    lemma_copied(one, at, a);
    lemma_copied(two, at, b);
    if t == 1 || t == 2 {
        lemma_signed_decimal_value(signed16(ld16(one, at) as int));
        lemma_signed_decimal_value(signed16(ld16(two, at) as int));
        lemma_decimal_value(ld16(one, at) as nat);
        lemma_decimal_value(ld16(two, at) as nat);
        lemma_same_bytes(a, 0, b, 0);
    } else if t == 3 || t == 4 || t == 7 || t == 10 {
        lemma_signed_decimal_value(signed32(ld32(one, at) as int));
        lemma_signed_decimal_value(signed32(ld32(two, at) as int));
        lemma_decimal_value(ld32(one, at) as nat);
        lemma_decimal_value(ld32(two, at) as nat);
        lemma_color_text(ld32(one, at), ld32(two, at));
        assert(ld32(one, at) == ld32(two, at));
        lemma_same_bytes(a, 0, b, 0);
    } else if 11 <= t <= 14 {
        let n = vector_size(t);
        assert(a.len() == 4 * n);
        assert forall|k: int| 0 <= k < a.len() implies a[k] == b[k] by {
            let i = k / 4;
            assert(0 <= i < n);
            assert(plus(va, 4 * i) == va + 4 * i);
            let (p, q) = (a.subrange(4 * i, 4 * i + 4), b.subrange(4 * i, 4 * i + 4));
            assert(copies(one, at + 4 * i, p));
            assert(copies(two, at + 4 * i, q));
            lemma_copied(one, at + 4 * i, p);
            lemma_copied(two, at + 4 * i, q);
            assert(floats_in(one, va, n as nat)[i] == floats_in(two, va, n as nat)[i]);
            lemma_same_bytes(p, 0, q, 0);
            assert(p[k - 4 * i] == q[k - 4 * i]);
        }
    } else {
        let (x, y) = (ld64(one, at) as nat, ld64(two, at) as nat);
        lemma_signed_decimal_value(signed64(x as int));
        lemma_signed_decimal_value(signed64(y as int));
        lemma_decimal_value(x);
        lemma_decimal_value(y);
        assert(x < pow16(16) && y < pow16(16)) by {
            reveal_with_fuel(pow16, 17);
        }
        lemma_hex_padded_value(x, 16);
        lemma_hex_padded_value(y, 16);
        let (p, q) = (hex_padded(x, 16), hex_padded(y, 16));
        assert(("0x"@ + p).subrange("0x"@.len() as int, ("0x"@ + p).len() as int) =~= p);
        assert(("0x"@ + q).subrange("0x"@.len() as int, ("0x"@ + q).len() as int) =~= q);
        assert(x == y);
        lemma_same_words(a, 0, b, 0);
        assert forall|k: int| 0 <= k < 8 implies a[k] == b[k] by {
            assert(a[0 + k] == b[0 + k]);
        }
    }
    assert(a =~= b);
}

/// Of a colour the text says its four bytes in the order in which they stand.
pub proof fn lemma_color_read_back(mem: Map<int, u8>, va: u64, r: u8, g: u8, b: u8, a: u8)
    requires
        copies(mem, va as int, seq![r, g, b, a]),
    ensures
        value_in(mem, va, 10) == ValueModel::Text(
            decimal(r as nat) + " "@ + decimal(g as nat) + " "@ + decimal(b as nat) + " "@ + decimal(
                a as nat,
            ),
        ),
{
    lemma_copied(mem, va as int, seq![r, g, b, a]);
    let c = ld32(mem, va as int);
    assert(c == r + 0x100 * g + 0x1_0000 * b + 0x100_0000 * a);
    lemma_four_bytes(c, r, g, b, a);
}

proof fn lemma_four_bytes(c: u32, r: u8, g: u8, b: u8, a: u8)
    requires
        c == r + 0x100 * g + 0x1_0000 * b + 0x100_0000 * a,
    ensures
        c % 0x100 == r,
        c / 0x100 % 0x100 == g,
        c / 0x1_0000 % 0x100 == b,
        c / 0x100_0000 == a,
{
    assert(c / 0x100 == g + 0x100 * b + 0x1_0000 * a);
    assert(c / 0x1_0000 == b + 0x100 * a);
}

/// A registry's lists link elements by index: element `indices[k]` names the
/// index of the next one, and the last names the end.
pub open spec fn links_stand(
    mem: Map<int, u8>,
    base: int,
    stride: int,
    next: int,
    indices: Seq<u16>,
) -> bool {
    &&& forall|k: int| 0 <= k < indices.len() ==> #[trigger] indices[k] != 0xFFFF
    &&& forall|j: int, k: int|
        0 <= j < k < indices.len() ==> #[trigger] indices[j] != #[trigger] indices[k]
    &&& forall|k: int|
        0 <= k < indices.len() ==> stands16(
            mem,
            base + stride * (#[trigger] indices[k]) + next,
            if k + 1 < indices.len() {
                indices[k + 1] as int
            } else {
                0xFFFF
            },
        )
}

proof fn lemma_links(
    mem: Map<int, u8>,
    base: u64,
    stride: u64,
    next: u64,
    indices: Seq<u16>,
    k: int,
    seen: Set<u64>,
    fuel: nat,
)
    requires
        links_stand(mem, base as int, stride as int, next as int, indices),
        base + 64 * 0x1_0000 + 64 <= u64::MAX,
        stride <= 64,
        next <= 64,
        0 <= k <= indices.len(),
        indices.len() - k <= fuel,
        forall|j: int| k <= j < indices.len() ==> !seen.contains((#[trigger] indices[j]) as u64),
    ensures
        chain(
            mem,
            base,
            stride,
            next,
            if k < indices.len() {
                indices[k]
            } else {
                0xFFFF
            },
            seen,
            fuel,
        ) == indices.subrange(k, indices.len() as int),
    decreases indices.len() - k,
{
    if k < indices.len() {
        let idx = indices[k];
        assert(0 <= stride * idx <= 64 * 0xFFFF) by (nonlinear_arith)
            requires
                0 <= stride <= 64,
                0 <= idx <= 0xFFFF,
        ;
        let after = if k + 1 < indices.len() {
            indices[k + 1]
        } else {
            0xFFFF
        };
        let at = base + stride * idx + next;
        assert(stands16(mem, at, after as int));
        lemma_loads(mem, at, after as int);
        assert(plus(plus(base, stride * idx), next as int) == at);
        assert forall|j: int| k + 1 <= j < indices.len() implies !seen.insert(
            idx as u64,
        ).contains((#[trigger] indices[j]) as u64) by {
            assert(indices[k] != indices[j]);
        }
        lemma_links(
            mem,
            base,
            stride,
            next,
            indices,
            k + 1,
            seen.insert(idx as u64),
            (fuel - 1) as nat,
        );
        assert(indices.subrange(k, indices.len() as int) =~= seq![idx] + indices.subrange(
            k + 1,
            indices.len() as int,
        ));
    } else {
        assert(indices.subrange(k, indices.len() as int) =~= Seq::<u16>::empty());
    }
}

/// What the info of a convar says, besides its value.
pub struct ConVarImage {
    pub data: u64,
    pub name_at: u64,
    pub name: Seq<char>,
    pub description_at: u64,
    pub description: Seq<char>,
    pub type_id: u16,
    pub flags: u32,
}

/// A string that a walker reads in full stands at `at`.
pub open spec fn string_stands(mem: Map<int, u8>, at: u64, text: Seq<char>) -> bool {
    at != 0 && stands_text(mem, at as int, text) && encode_utf8(text).len() <= 256
}

/// The info of a convar stands where it says.
pub open spec fn convar_stands(mem: Map<int, u8>, c: ConVarImage) -> bool {
    &&& 0 < c.data
    &&& c.data + 0x100 <= u64::MAX
    &&& c.name.len() > 0
    &&& stands64(mem, c.data as int, c.name_at as int)
    &&& string_stands(mem, c.name_at, c.name)
    &&& stands64(mem, c.data + 0x20, c.description_at as int)
    &&& string_stands(mem, c.description_at, c.description)
    &&& stands16(mem, c.data + 0x28, c.type_id as int)
    &&& stands32(mem, c.data + 0x30, c.flags as int)
}

/// A convar that was read is the one of the info, and its value is the one at
/// 0x58 of it.
pub open spec fn is_convar(mem: Map<int, u8>, model: ConVarModel, c: ConVarImage) -> bool {
    &&& model.name == c.name
    &&& model.description == c.description
    &&& model.type_id == c.type_id
    &&& model.flags == c.flags
    &&& model.address == c.data
    &&& model.value == value_in(mem, (c.data + 0x58) as u64, c.type_id)
}

/// The info of a convar is read back.
pub proof fn lemma_convar_read_back(mem: Map<int, u8>, c: ConVarImage)
    requires
        convar_stands(mem, c),
    ensures
        convar_in(mem, c.data) matches Some(model) && is_convar(mem, model, c),
{
    lemma_loads(mem, c.data as int, c.name_at as int);
    lemma_loads(mem, c.data + 0x20, c.description_at as int);
    lemma_loads(mem, c.data + 0x28, c.type_id as int);
    lemma_loads(mem, c.data + 0x30, c.flags as int);
    lemma_text(mem, c.name_at as int, c.name, 256);
    lemma_text(mem, c.description_at as int, c.description, 256);
}

proof fn lemma_listed_convars(
    mem: Map<int, u8>,
    base: u64,
    stride: u64,
    indices: Seq<u16>,
    list: Seq<ConVarImage>,
)
    requires
        indices.len() == list.len(),
        base + 64 * 0x1_0000 + 64 <= u64::MAX,
        stride <= 64,
        forall|k: int|
            0 <= k < list.len() ==> stands64(
                mem,
                base + stride * indices[k],
                (#[trigger] list[k]).data as int,
            ) && convar_stands(mem, list[k]),
    ensures
        convars_at(mem, base, stride, indices).len() == list.len(),
        forall|k: int|
            0 <= k < list.len() ==> is_convar(
                mem,
                #[trigger] convars_at(mem, base, stride, indices)[k],
                list[k],
            ),
    decreases list.len(),
{
    if list.len() > 0 {
        let n = list.len() - 1;
        let before = indices.drop_last();
        let shorter = list.drop_last();
        assert forall|k: int| 0 <= k < shorter.len() implies stands64(
            mem,
            base + stride * before[k],
            (#[trigger] shorter[k]).data as int,
        ) && convar_stands(mem, shorter[k]) by {
            assert(shorter[k] == list[k] && before[k] == indices[k]);
        }
        lemma_listed_convars(mem, base, stride, before, shorter);
        let c = list[n];
        let idx = indices[n];
        assert(0 <= stride * idx <= 64 * 0xFFFF) by (nonlinear_arith)
            requires
                0 <= stride <= 64,
                0 <= idx <= 0xFFFF,
        ;
        assert(stands64(mem, base + stride * idx, c.data as int) && convar_stands(mem, c));
        lemma_loads(mem, base + stride * idx, c.data as int);
        lemma_convar_read_back(mem, c);
        let was = convars_at(mem, base, stride, before);
        let now = convars_at(mem, base, stride, indices);
        assert forall|k: int| 0 <= k < list.len() implies is_convar(mem, #[trigger] now[k], list[k]) by {
            if k < n {
                assert(now[k] == was[k]);
                assert(shorter[k] == list[k]);
            }
        }
    }
}

/// A registry whose convar list links elements that point at infos has exactly
/// these convars, in the order of the links.
pub proof fn lemma_convars_read_back(
    mem: Map<int, u8>,
    inst: u64,
    layout: RegistryLayout,
    base: u64,
    indices: Seq<u16>,
    list: Seq<ConVarImage>,
)
    requires
        inst + layout.cv_base <= u64::MAX,
        inst + layout.cv_head <= u64::MAX,
        stands64(mem, inst + layout.cv_base, base as int),
        stands16(
            mem,
            inst + layout.cv_head,
            if indices.len() > 0 {
                indices[0] as int
            } else {
                0xFFFF
            },
        ),
        base != 0,
        base + 64 * 0x1_0000 + 64 <= u64::MAX,
        layout.cv_stride <= 64,
        layout.cv_next <= 64,
        indices.len() == list.len(),
        indices.len() < 0x1_0000,
        links_stand(
            mem,
            base as int,
            layout.cv_stride as int,
            layout.cv_next as int,
            indices,
        ),
        forall|k: int|
            0 <= k < list.len() ==> stands64(
                mem,
                base + layout.cv_stride * indices[k],
                (#[trigger] list[k]).data as int,
            ) && convar_stands(mem, list[k]),
    ensures
        registry_convars(mem, inst, layout).len() == list.len(),
        forall|k: int|
            0 <= k < list.len() ==> is_convar(
                mem,
                #[trigger] registry_convars(mem, inst, layout)[k],
                list[k],
            ),
{
    let head: u16 = if indices.len() > 0 {
        indices[0]
    } else {
        0xFFFF
    };
    lemma_loads(mem, inst + layout.cv_base, base as int);
    lemma_loads(mem, inst + layout.cv_head, head as int);
    lemma_links(
        mem,
        base,
        layout.cv_stride,
        layout.cv_next,
        indices,
        0,
        Set::empty(),
        MAX_WALK as nat,
    );
    assert(indices.subrange(0, indices.len() as int) =~= indices);
    lemma_listed_convars(mem, base, layout.cv_stride, indices, list);
}

/// What the element of a command says.
pub struct CommandImage {
    pub name_at: u64,
    pub name: Seq<char>,
    pub description_at: u64,
    pub description: Seq<char>,
    pub flags: u32,
}

/// The element of a command stands at `at`.
pub open spec fn command_stands(mem: Map<int, u8>, at: int, c: CommandImage) -> bool {
    &&& c.name.len() > 0
    &&& stands64(mem, at, c.name_at as int)
    &&& string_stands(mem, c.name_at, c.name)
    &&& stands64(mem, at + 0x08, c.description_at as int)
    &&& string_stands(mem, c.description_at, c.description)
    &&& stands32(mem, at + 0x10, c.flags as int)
}

/// A command that was read is the one of the element at `at`.
pub open spec fn is_command(model: ConCommandModel, at: int, c: CommandImage) -> bool {
    &&& model.name == c.name
    &&& model.description == c.description
    &&& model.flags == c.flags
    &&& model.address == at
}

/// A command is read back from its element.
pub proof fn lemma_command_read_back(mem: Map<int, u8>, at: u64, c: CommandImage)
    requires
        at + 0x40 <= u64::MAX,
        command_stands(mem, at as int, c),
    ensures
        concommand_in(mem, at) is Some,
        is_command(concommand_in(mem, at)->0, at as int, c),
{
    lemma_loads(mem, at as int, c.name_at as int);
    lemma_loads(mem, at + 0x08, c.description_at as int);
    lemma_loads(mem, at + 0x10, c.flags as int);
    lemma_text(mem, c.name_at as int, c.name, 256);
    lemma_text(mem, c.description_at as int, c.description, 256);
}

proof fn lemma_listed_commands(
    mem: Map<int, u8>,
    base: u64,
    stride: u64,
    indices: Seq<u16>,
    list: Seq<CommandImage>,
)
    requires
        indices.len() == list.len(),
        base + 64 * 0x1_0000 + 64 <= u64::MAX,
        stride <= 64,
        forall|k: int|
            0 <= k < list.len() ==> command_stands(
                mem,
                base + stride * indices[k],
                #[trigger] list[k],
            ),
    ensures
        commands_at(mem, base, stride, indices).len() == list.len(),
        forall|k: int|
            0 <= k < list.len() ==> is_command(
                #[trigger] commands_at(mem, base, stride, indices)[k],
                base + stride * indices[k],
                list[k],
            ),
    decreases list.len(),
{
    if list.len() > 0 {
        let n = list.len() - 1;
        let before = indices.drop_last();
        let shorter = list.drop_last();
        assert forall|k: int| 0 <= k < shorter.len() implies command_stands(
            mem,
            base + stride * before[k],
            #[trigger] shorter[k],
        ) by {
            assert(shorter[k] == list[k] && before[k] == indices[k]);
        }
        lemma_listed_commands(mem, base, stride, before, shorter);
        let c = list[n];
        let idx = indices[n];
        assert(0 <= stride * idx <= 64 * 0xFFFF) by (nonlinear_arith)
            requires
                0 <= stride <= 64,
                0 <= idx <= 0xFFFF,
        ;
        let at = base + stride * idx;
        assert(command_stands(mem, at, c));
        lemma_command_read_back(mem, at as u64, c);
        let was = commands_at(mem, base, stride, before);
        let now = commands_at(mem, base, stride, indices);
        assert forall|k: int| 0 <= k < list.len() implies is_command(
            #[trigger] now[k],
            base + stride * indices[k],
            list[k],
        ) by {
            if k < n {
                assert(now[k] == was[k]);
                assert(shorter[k] == list[k] && before[k] == indices[k]);
            }
        }
    }
}

/// A registry whose command list links elements has exactly these commands, in
/// the order of the links.
pub proof fn lemma_commands_read_back(
    mem: Map<int, u8>,
    inst: u64,
    layout: RegistryLayout,
    base: u64,
    indices: Seq<u16>,
    list: Seq<CommandImage>,
)
    requires
        inst + layout.cc_base <= u64::MAX,
        inst + layout.cc_head <= u64::MAX,
        stands64(mem, inst + layout.cc_base, base as int),
        stands16(
            mem,
            inst + layout.cc_head,
            if indices.len() > 0 {
                indices[0] as int
            } else {
                0xFFFF
            },
        ),
        base != 0,
        base + 64 * 0x1_0000 + 64 <= u64::MAX,
        layout.cc_stride <= 64,
        layout.cc_next <= 64,
        indices.len() == list.len(),
        indices.len() < 0x1_0000,
        links_stand(
            mem,
            base as int,
            layout.cc_stride as int,
            layout.cc_next as int,
            indices,
        ),
        forall|k: int|
            0 <= k < list.len() ==> command_stands(
                mem,
                base + layout.cc_stride * indices[k],
                #[trigger] list[k],
            ),
    ensures
        registry_commands(mem, inst, layout).len() == list.len(),
        forall|k: int|
            0 <= k < list.len() ==> is_command(
                #[trigger] registry_commands(mem, inst, layout)[k],
                base + layout.cc_stride * indices[k],
                list[k],
            ),
{
    let head: u16 = if indices.len() > 0 {
        indices[0]
    } else {
        0xFFFF
    };
    lemma_loads(mem, inst + layout.cc_base, base as int);
    lemma_loads(mem, inst + layout.cc_head, head as int);
    lemma_links(
        mem,
        base,
        layout.cc_stride,
        layout.cc_next,
        indices,
        0,
        Set::empty(),
        MAX_WALK as nat,
    );
    assert(indices.subrange(0, indices.len() as int) =~= indices);
    lemma_listed_commands(mem, base, layout.cc_stride, indices, list);
}

/// A registry that shows too little evidence of any layout has the one of
/// today's builds.
pub proof fn lemma_fallback_layout(mem: Map<int, u8>, inst: u64)
    requires
        forall|j: int| 0 <= j < 16 ==> #[trigger] layout_evidence(mem, inst, candidate(j)) < 8,
    ensures
        detected(mem, inst).cv_base == 0x50,
        detected(mem, inst).cv_head == 0x58,
        detected(mem, inst).cv_stride == 16,
        detected(mem, inst).cv_next == 10,
        detected(mem, inst).cc_base == 0x108,
        detected(mem, inst).cc_head == 0x110,
        detected(mem, inst).cc_stride == 56,
        detected(mem, inst).cc_next == 0x32,
{
    lemma_best_candidate(mem, inst, 16, 0);
    assert(layout_evidence(mem, inst, candidate(best_candidate(mem, inst, 16))) < 8);
}

/// A layout that shows evidence of eight or more, more than every candidate
/// before it and no less than every other, is the one that is used.
pub proof fn lemma_best_layout_used(mem: Map<int, u8>, inst: u64, k: int)
    requires
        0 <= k < 16,
        layout_evidence(mem, inst, candidate(k)) >= 8,
        forall|j: int|
            0 <= j < k ==> #[trigger] layout_evidence(mem, inst, candidate(j)) < layout_evidence(
                mem,
                inst,
                candidate(k),
            ),
        forall|j: int|
            0 <= j < 16 ==> #[trigger] layout_evidence(mem, inst, candidate(j)) <= layout_evidence(
                mem,
                inst,
                candidate(k),
            ),
    ensures
        detected(mem, inst) == candidate(k),
{
    let best = best_candidate(mem, inst, 16);
    lemma_best_candidate(mem, inst, 16, k);
    assert(layout_evidence(mem, inst, candidate(best)) <= layout_evidence(mem, inst, candidate(k)));
}

/// Of candidates with objects of their own, of which at most 128 pass the quick
/// test, the one that passes it and shows evidence of 12 or more, and more than
/// every other that passes, is taken for the registry.
pub proof fn lemma_registry_found(
    mem: Map<int, u8>,
    slots: Seq<(u64, u64)>,
    best: (u64, u64),
    found: Option<u64>,
)
    requires
        slots.len() <= 0x2_0000,
        passing(&RegistryAnchor, mem, slots, 0x120).len() <= 128,
        forall|i: int, j: int|
            0 <= i < j < slots.len() ==> (#[trigger] slots[i]).1 != (#[trigger] slots[j]).1,
        slots.contains(best),
        RegistryAnchor.gates(mem, raw(mem, best.1 as int, 0x120)),
        RegistryAnchor.evidence(mem, best.1) >= 12,
        forall|i: int|
            0 <= i < slots.len() && (#[trigger] slots[i]).1 != best.1 && RegistryAnchor.gates(
                mem,
                raw(mem, slots[i].1 as int, 0x120),
            ) ==> RegistryAnchor.evidence(mem, slots[i].1) < RegistryAnchor.evidence(mem, best.1),
        finds(&RegistryAnchor, mem, slots, registry_scan(), found),
    ensures
        found == Some(best.0),
{
    lemma_best_object_found(&RegistryAnchor, mem, slots, registry_scan(), best, found);
}

/// What is taken for the registry passes the quick test and shows evidence of
/// 12 or more, and at most 128 candidates pass the test.
pub proof fn lemma_registry_shows(mem: Map<int, u8>, slots: Seq<(u64, u64)>, slot: u64)
    requires
        finds(&RegistryAnchor, mem, slots, registry_scan(), Some(slot)),
    ensures
        passing(&RegistryAnchor, mem, slots, 0x120).len() <= 128,
        exists|i: int|
            0 <= i < slots.len() && (#[trigger] slots[i]).0 == slot && RegistryAnchor.gates(
                mem,
                raw(mem, slots[i].1 as int, 0x120),
            ) && RegistryAnchor.evidence(mem, slots[i].1) >= 12,
{
    lemma_found_shows(&RegistryAnchor, mem, slots, registry_scan(), slot);
}

/// The lists of a registry that are tried: each of four places and strides for
/// the convars with each of four for the commands.
pub proof fn lemma_layouts_tried(layout: RegistryLayout)
    ensures
        (exists|k: int| 0 <= k < 16 && #[trigger] candidate(k) == layout) <==> {
            let l = layout;
            &&& l.cv_head == l.cv_base + 8
            &&& l.cc_head == l.cc_base + 8
            &&& l.cv_stride == 16 && l.cv_next == 10 && (l.cv_base == 0x48 || l.cv_base == 0x50
                || l.cv_base == 0x58) || l.cv_stride == 24 && l.cv_next == 18 && l.cv_base == 0x50
            &&& l.cc_stride == 56 && l.cc_next == 50 && (l.cc_base == 0x100 || l.cc_base == 0x108
                || l.cc_base == 0x110) || l.cc_stride == 64 && l.cc_next == 58 && l.cc_base == 0x108
        },
{
    let l = layout;
    let i: int = if l.cv_stride == 24 {
        3
    } else if l.cv_base == 0x48 {
        1
    } else if l.cv_base == 0x58 {
        2
    } else {
        0
    };
    let j: int = if l.cc_stride == 64 {
        3
    } else if l.cc_base == 0x100 {
        1
    } else if l.cc_base == 0x110 {
        2
    } else {
        0
    };
    assert((4 * i + j) / 4 == i && (4 * i + j) % 4 == j);
    if l.cv_head == l.cv_base + 8 && l.cc_head == l.cc_base + 8 {
        if candidate(4 * i + j) == l {
            assert(0 <= 4 * i + j < 16);
        }
    }
}

/// A name of one to 128 bytes of printable ASCII.
pub open spec fn printable_name(name: Seq<char>) -> bool {
    &&& 1 <= encode_utf8(name).len() <= 128
    &&& forall|i: int|
        0 <= i < encode_utf8(name).len() ==> 0x20 <= #[trigger] encode_utf8(name)[i] < 0x7F
}

proof fn lemma_cv_evidence(
    mem: Map<int, u8>,
    base: u64,
    stride: u64,
    next: u64,
    indices: Seq<u16>,
    list: Seq<ConVarImage>,
    k: int,
    seen: Set<u64>,
    fuel: nat,
)
    requires
        indices.len() == list.len(),
        base + 64 * 0x1_0000 + 64 <= u64::MAX,
        stride <= 64,
        next <= 64,
        links_stand(mem, base as int, stride as int, next as int, indices),
        forall|j: int| 0 <= j < indices.len() ==> #[trigger] indices[j] < 0x8000,
        forall|j: int|
            0 <= j < list.len() ==> stands64(
                mem,
                base + stride * indices[j],
                (#[trigger] list[j]).data as int,
            ) && convar_stands(mem, list[j]) && list[j].data >= 0x1_0000 && printable_name(
                list[j].name,
            ) && list[j].type_id <= 14,
        0 <= k < indices.len(),
        forall|j: int| k <= j < indices.len() ==> !seen.contains((#[trigger] indices[j]) as u64),
    ensures
        cv_evidence(mem, base, stride, next, indices[k], seen, fuel) == if indices.len() - k
            <= fuel {
            2 * (indices.len() - k) + 1
        } else {
            2 * fuel as int
        },
    decreases indices.len() - k,
{
    if fuel > 0 {
        let idx = indices[k];
        let c = list[k];
        assert(0 <= stride * idx <= 64 * 0xFFFF) by (nonlinear_arith)
            requires
                0 <= stride <= 64,
                0 <= idx <= 0xFFFF,
        ;
        let after = if k + 1 < indices.len() {
            indices[k + 1]
        } else {
            0xFFFF
        };
        let at = base + stride * idx;
        assert(stands64(mem, at, c.data as int) && convar_stands(mem, c));
        lemma_loads(mem, at, c.data as int);
        lemma_loads(mem, c.data as int, c.name_at as int);
        lemma_loads(mem, c.data + 0x28, c.type_id as int);
        lemma_text(mem, c.name_at as int, c.name, 256);
        assert(stands16(mem, at + next, after as int));
        lemma_loads(mem, at + next, after as int);
        assert(plausible(c.name));
        if k + 1 < indices.len() {
            assert forall|j: int| k + 1 <= j < indices.len() implies !seen.insert(
                idx as u64,
            ).contains((#[trigger] indices[j]) as u64) by {
                assert(indices[k] != indices[j]);
            }
            lemma_cv_evidence(
                mem,
                base,
                stride,
                next,
                indices,
                list,
                k + 1,
                seen.insert(idx as u64),
                (fuel - 1) as nat,
            );
        }
    }
}

proof fn lemma_cc_evidence(
    mem: Map<int, u8>,
    base: u64,
    stride: u64,
    next: u64,
    indices: Seq<u16>,
    list: Seq<CommandImage>,
    k: int,
    seen: Set<u64>,
    fuel: nat,
)
    requires
        indices.len() == list.len(),
        base + 64 * 0x1_0000 + 128 <= u64::MAX,
        stride <= 64,
        next <= 64,
        links_stand(mem, base as int, stride as int, next as int, indices),
        forall|j: int| 0 <= j < indices.len() ==> #[trigger] indices[j] < 0x8000,
        forall|j: int|
            0 <= j < list.len() ==> command_stands(
                mem,
                base + stride * indices[j],
                #[trigger] list[j],
            ) && printable_name(list[j].name) && list[j].flags != 0xFFFF_FFFF,
        0 <= k < indices.len(),
        forall|j: int| k <= j < indices.len() ==> !seen.contains((#[trigger] indices[j]) as u64),
    ensures
        cc_evidence(mem, base, stride, next, indices[k], seen, fuel) == if indices.len() - k
            <= fuel {
            3 * (indices.len() - k) + 1
        } else {
            3 * fuel as int
        },
    decreases indices.len() - k,
{
    if fuel > 0 {
        let idx = indices[k];
        let c = list[k];
        assert(0 <= stride * idx <= 64 * 0xFFFF) by (nonlinear_arith)
            requires
                0 <= stride <= 64,
                0 <= idx <= 0xFFFF,
        ;
        let after = if k + 1 < indices.len() {
            indices[k + 1]
        } else {
            0xFFFF
        };
        let at = base + stride * idx;
        assert(command_stands(mem, at, c));
        lemma_loads(mem, at, c.name_at as int);
        lemma_loads(mem, at + 0x10, c.flags as int);
        lemma_text(mem, c.name_at as int, c.name, 256);
        assert(stands16(mem, at + next, after as int));
        lemma_loads(mem, at + next, after as int);
        assert(plausible(c.name));
        if k + 1 < indices.len() {
            assert forall|j: int| k + 1 <= j < indices.len() implies !seen.insert(
                idx as u64,
            ).contains((#[trigger] indices[j]) as u64) by {
                assert(indices[k] != indices[j]);
            }
            lemma_cc_evidence(
                mem,
                base,
                stride,
                next,
                indices,
                list,
                k + 1,
                seen.insert(idx as u64),
                (fuel - 1) as nat,
            );
        }
    }
}

/// The evidence of a registry: two for each of the first eight convars and three
/// for each of the first eight commands, and one for each list that ends by then.
/// An empty list shows none.
pub proof fn lemma_evidence_counted(
    mem: Map<int, u8>,
    inst: u64,
    layout: RegistryLayout,
    cv_base: u64,
    cv_indices: Seq<u16>,
    convars: Seq<ConVarImage>,
    cc_base: u64,
    cc_indices: Seq<u16>,
    commands: Seq<CommandImage>,
)
    requires
        inst + layout.cv_base <= u64::MAX,
        inst + layout.cv_head <= u64::MAX,
        inst + layout.cc_base <= u64::MAX,
        inst + layout.cc_head <= u64::MAX,
        stands64(mem, inst + layout.cv_base, cv_base as int),
        stands16(
            mem,
            inst + layout.cv_head,
            if cv_indices.len() > 0 {
                cv_indices[0] as int
            } else {
                0xFFFF
            },
        ),
        stands64(mem, inst + layout.cc_base, cc_base as int),
        stands16(
            mem,
            inst + layout.cc_head,
            if cc_indices.len() > 0 {
                cc_indices[0] as int
            } else {
                0xFFFF
            },
        ),
        0x1_0000 <= cv_base,
        cv_base + 64 * 0x1_0000 + 64 <= u64::MAX,
        0x1_0000 <= cc_base,
        cc_base + 64 * 0x1_0000 + 128 <= u64::MAX,
        layout.cv_stride <= 64 && layout.cv_next <= 64,
        layout.cc_stride <= 64 && layout.cc_next <= 64,
        cv_indices.len() == convars.len(),
        cc_indices.len() == commands.len(),
        links_stand(
            mem,
            cv_base as int,
            layout.cv_stride as int,
            layout.cv_next as int,
            cv_indices,
        ),
        links_stand(
            mem,
            cc_base as int,
            layout.cc_stride as int,
            layout.cc_next as int,
            cc_indices,
        ),
        forall|j: int| 0 <= j < cv_indices.len() ==> #[trigger] cv_indices[j] < 0x8000,
        forall|j: int| 0 <= j < cc_indices.len() ==> #[trigger] cc_indices[j] < 0x8000,
        forall|j: int|
            0 <= j < convars.len() ==> stands64(
                mem,
                cv_base + layout.cv_stride * cv_indices[j],
                (#[trigger] convars[j]).data as int,
            ) && convar_stands(mem, convars[j]) && convars[j].data >= 0x1_0000 && printable_name(
                convars[j].name,
            ) && convars[j].type_id <= 14,
        forall|j: int|
            0 <= j < commands.len() ==> command_stands(
                mem,
                cc_base + layout.cc_stride * cc_indices[j],
                #[trigger] commands[j],
            ) && printable_name(commands[j].name) && commands[j].flags != 0xFFFF_FFFF,
    ensures
        ({
            let n = convars.len();
            let m = commands.len();
            layout_evidence(mem, inst, layout) == (if n == 0 {
                0
            } else if n <= 8 {
                2 * n + 1
            } else {
                16
            }) + (if m == 0 {
                0
            } else if m <= 8 {
                3 * m + 1
            } else {
                24
            })
        }),
{
    reveal(layout_evidence);
    let cv_head: u16 = if cv_indices.len() > 0 {
        cv_indices[0]
    } else {
        0xFFFF
    };
    let cc_head: u16 = if cc_indices.len() > 0 {
        cc_indices[0]
    } else {
        0xFFFF
    };
    lemma_loads(mem, inst + layout.cv_base, cv_base as int);
    lemma_loads(mem, inst + layout.cv_head, cv_head as int);
    lemma_loads(mem, inst + layout.cc_base, cc_base as int);
    lemma_loads(mem, inst + layout.cc_head, cc_head as int);
    if convars.len() > 0 {
        lemma_cv_evidence(
            mem,
            cv_base,
            layout.cv_stride,
            layout.cv_next,
            cv_indices,
            convars,
            0,
            Set::empty(),
            8,
        );
    }
    if commands.len() > 0 {
        lemma_cc_evidence(
            mem,
            cc_base,
            layout.cc_stride,
            layout.cc_next,
            cc_indices,
            commands,
            0,
            Set::empty(),
            8,
        );
    }
}

/// A first convar of no known type, or with an unprintable name, shows no evidence
/// of a list.
pub proof fn lemma_bad_convar(
    mem: Map<int, u8>,
    base: u64,
    stride: u64,
    next: u64,
    idx: u16,
    c: ConVarImage,
    fuel: nat,
)
    requires
        base + 64 * 0x1_0000 + 64 <= u64::MAX,
        stride <= 64,
        idx < 0x8000,
        fuel > 0,
        stands64(mem, base + stride * idx, c.data as int),
        convar_stands(mem, c),
        c.type_id > 14 || !printable_name(c.name) || c.data < 0x1_0000,
    ensures
        cv_evidence(mem, base, stride, next, idx, Set::empty(), fuel) == 0,
{
    assert(0 <= stride * idx <= 64 * 0xFFFF) by (nonlinear_arith)
        requires
            0 <= stride <= 64,
            0 <= idx <= 0xFFFF,
    ;
    let at = base + stride * idx;
    lemma_loads(mem, at, c.data as int);
    lemma_loads(mem, c.data as int, c.name_at as int);
    lemma_loads(mem, c.data + 0x28, c.type_id as int);
    lemma_text(mem, c.name_at as int, c.name, 256);
    assert(plausible(c.name) ==> printable_name(c.name));
}

/// An object passes the quick test where the first convar of its list, at one of
/// the four places, has a printable name and a known type.
pub proof fn lemma_registry_passes(
    mem: Map<int, u8>,
    at: u64,
    k: int,
    base: u64,
    index: u16,
    c: ConVarImage,
)
    requires
        0 <= k < 16,
        readable(mem, at as int, 0x120),
        stands64(mem, at + candidate(k).cv_base, base as int),
        stands16(mem, at + candidate(k).cv_head, index as int),
        base >= 0x1_0000,
        base + 64 * 0x1_0000 + 64 <= u64::MAX,
        index < 0x8000,
        stands64(mem, base + candidate(k).cv_stride * index, c.data as int),
        convar_stands(mem, c),
        c.data >= 0x1_0000,
        printable_name(c.name),
        c.type_id <= 14,
    ensures
        RegistryAnchor.gates(mem, raw(mem, at as int, 0x120)),
{
    let i = k / 4;
    let (at_base, at_head, stride, _) = cv_layout(i);
    lemma_heads(mem, at as int, 0x120, at_base as int, base as int);
    lemma_heads(mem, at as int, 0x120, at_head as int, index as int);
    assert(0 <= stride * index <= 64 * 0xFFFF) by (nonlinear_arith)
        requires
            0 <= stride <= 64,
            0 <= index <= 0xFFFF,
    ;
    lemma_loads(mem, base + stride * index, c.data as int);
    lemma_loads(mem, c.data as int, c.name_at as int);
    lemma_loads(mem, c.data + 0x28, c.type_id as int);
    lemma_text(mem, c.name_at as int, c.name, 256);
    assert(plausible(c.name));
    assert(head_has_convars(mem, raw(mem, at as int, 0x120), i));
}

/// Each type of a convar has a name of its own; a number above them is unknown.
pub proof fn lemma_type_named(t: u16)
    ensures
        type_text(t) == "bool"@ <==> t == 0,
        type_text(t) == "int16"@ <==> t == 1,
        type_text(t) == "uint16"@ <==> t == 2,
        type_text(t) == "int32"@ <==> t == 3,
        type_text(t) == "uint32"@ <==> t == 4,
        type_text(t) == "int64"@ <==> t == 5,
        type_text(t) == "uint64"@ <==> t == 6,
        type_text(t) == "float32"@ <==> t == 7,
        type_text(t) == "float64"@ <==> t == 8,
        type_text(t) == "string"@ <==> t == 9,
        type_text(t) == "color"@ <==> t == 10,
        type_text(t) == "vector2"@ <==> t == 11,
        type_text(t) == "vector3"@ <==> t == 12,
        type_text(t) == "vector4"@ <==> t == 13,
        type_text(t) == "qangle"@ <==> t == 14,
        type_text(t) == "unknown"@ <==> t > 14,
{
    reveal_strlit("bool");
    reveal_strlit("int16");
    reveal_strlit("uint16");
    reveal_strlit("int32");
    reveal_strlit("uint32");
    reveal_strlit("int64");
    reveal_strlit("uint64");
    reveal_strlit("float32");
    reveal_strlit("float64");
    reveal_strlit("string");
    reveal_strlit("color");
    reveal_strlit("vector2");
    reveal_strlit("vector3");
    reveal_strlit("vector4");
    reveal_strlit("qangle");
    reveal_strlit("unknown");
    assert("bool"@.len() == 4);
    assert("int16"@.len() == 5);
    assert("uint16"@.len() == 6);
    assert("int32"@.len() == 5);
    assert("uint32"@.len() == 6);
    assert("int64"@.len() == 5);
    assert("uint64"@.len() == 6);
    assert("float32"@.len() == 7);
    assert("float64"@.len() == 7);
    assert("string"@.len() == 6);
    assert("color"@.len() == 5);
    assert("vector2"@.len() == 7);
    assert("vector3"@.len() == 7);
    assert("vector4"@.len() == 7);
    assert("qangle"@.len() == 6);
    assert("unknown"@.len() == 7);
    assert("int16"@[3] != "int32"@[3]);
    assert("int16"@[3] != "int64"@[3]);
    assert("int16"@[0] != "color"@[0]);
    assert("int32"@[3] != "int64"@[3]);
    assert("int32"@[0] != "color"@[0]);
    assert("int64"@[0] != "color"@[0]);
    assert("uint16"@[4] != "uint32"@[4]);
    assert("uint16"@[4] != "uint64"@[4]);
    assert("uint16"@[0] != "string"@[0]);
    assert("uint16"@[0] != "qangle"@[0]);
    assert("uint32"@[4] != "uint64"@[4]);
    assert("uint32"@[0] != "string"@[0]);
    assert("uint32"@[0] != "qangle"@[0]);
    assert("uint64"@[0] != "string"@[0]);
    assert("uint64"@[0] != "qangle"@[0]);
    assert("string"@[0] != "qangle"@[0]);
    assert("float32"@[5] != "float64"@[5]);
    assert("float32"@[0] != "vector2"@[0]);
    assert("float32"@[0] != "vector3"@[0]);
    assert("float32"@[0] != "vector4"@[0]);
    assert("float32"@[0] != "unknown"@[0]);
    assert("float64"@[0] != "vector2"@[0]);
    assert("float64"@[0] != "vector3"@[0]);
    assert("float64"@[0] != "vector4"@[0]);
    assert("float64"@[0] != "unknown"@[0]);
    assert("vector2"@[6] != "vector3"@[6]);
    assert("vector2"@[6] != "vector4"@[6]);
    assert("vector2"@[0] != "unknown"@[0]);
    assert("vector3"@[6] != "vector4"@[6]);
    assert("vector3"@[0] != "unknown"@[0]);
    assert("vector4"@[0] != "unknown"@[0]);
}

proof fn lemma_flag_named(flags: u32, i: int, n: nat)
    requires
        0 <= i < n,
        flags & fcvar(i).0 != 0,
    ensures
        flags_named(flags, n).contains(fcvar(i).1),
    decreases n,
{
    let now = flags_named(flags, n);
    let before = flags_named(flags, (n - 1) as nat);
    if i == n - 1 {
        assert(now[before.len() as int] == fcvar(i).1);
    } else {
        lemma_flag_named(flags, i, (n - 1) as nat);
        let k = choose|k: int| 0 <= k < before.len() && before[k] == fcvar(i).1;
        assert(now[k] == fcvar(i).1);
    }
}

/// One where a bit is set, else none.
pub open spec fn set_in(flags: u32, mask: u32) -> int {
    if flags & mask != 0 {
        1
    } else {
        0
    }
}

proof fn lemma_flag_counted(flags: u32, i: int, mask: u32)
    requires
        0 <= i,
        fcvar(i).0 == mask,
    ensures
        flags_named(flags, (i + 1) as nat).len() == flags_named(flags, i as nat).len() + set_in(
            flags,
            mask,
        ),
{
}

/// Each flag that is set is named.
pub proof fn lemma_flags_named(flags: u32)
    ensures
        flags & 0x00000001 != 0 ==> flags_named(flags, 23).contains("FCVAR_LINKED_CONCOMMAND"@),
        flags & 0x00000002 != 0 ==> flags_named(flags, 23).contains("FCVAR_DEVELOPMENTONLY"@),
        flags & 0x00000004 != 0 ==> flags_named(flags, 23).contains("FCVAR_GAMEDLL"@),
        flags & 0x00000008 != 0 ==> flags_named(flags, 23).contains("FCVAR_CLIENTDLL"@),
        flags & 0x00000020 != 0 ==> flags_named(flags, 23).contains("FCVAR_PROTECTED"@),
        flags & 0x00000040 != 0 ==> flags_named(flags, 23).contains("FCVAR_SPONLY"@),
        flags & 0x00000080 != 0 ==> flags_named(flags, 23).contains("FCVAR_ARCHIVE"@),
        flags & 0x00000100 != 0 ==> flags_named(flags, 23).contains("FCVAR_NOTIFY"@),
        flags & 0x00000200 != 0 ==> flags_named(flags, 23).contains("FCVAR_USERINFO"@),
        flags & 0x00000800 != 0 ==> flags_named(flags, 23).contains("FCVAR_UNLOGGED"@),
        flags & 0x00002000 != 0 ==> flags_named(flags, 23).contains("FCVAR_REPLICATED"@),
        flags & 0x00004000 != 0 ==> flags_named(flags, 23).contains("FCVAR_CHEAT"@),
        flags & 0x00008000 != 0 ==> flags_named(flags, 23).contains("FCVAR_PER_USER"@),
        flags & 0x00010000 != 0 ==> flags_named(flags, 23).contains("FCVAR_DEMO"@),
        flags & 0x00020000 != 0 ==> flags_named(flags, 23).contains("FCVAR_DONTRECORD"@),
        flags & 0x00080000 != 0 ==> flags_named(flags, 23).contains("FCVAR_RELEASE"@),
        flags & 0x00100000 != 0 ==> flags_named(flags, 23).contains("FCVAR_MENUBAR_ITEM"@),
        flags & 0x00800000 != 0 ==> flags_named(flags, 23).contains("FCVAR_VCONSOLE_FUZZY_MATCHING"@),
        flags & 0x01000000 != 0 ==> flags_named(flags, 23).contains("FCVAR_SERVER_CAN_EXECUTE"@),
        flags & 0x04000000 != 0 ==> flags_named(flags, 23).contains("FCVAR_SERVER_CANNOT_QUERY"@),
        flags & 0x08000000 != 0 ==> flags_named(flags, 23).contains("FCVAR_VCONSOLE_SET_FOCUS"@),
        flags & 0x10000000 != 0 ==> flags_named(flags, 23).contains("FCVAR_CLIENTCMD_CAN_EXECUTE"@),
        flags & 0x20000000 != 0 ==> flags_named(flags, 23).contains("FCVAR_EXECUTE_PER_TICK"@),
{
    if flags & 0x00000001 != 0 {
        lemma_flag_named(flags, 0, 23);
    }
    if flags & 0x00000002 != 0 {
        lemma_flag_named(flags, 1, 23);
    }
    if flags & 0x00000004 != 0 {
        lemma_flag_named(flags, 2, 23);
    }
    if flags & 0x00000008 != 0 {
        lemma_flag_named(flags, 3, 23);
    }
    if flags & 0x00000020 != 0 {
        lemma_flag_named(flags, 4, 23);
    }
    if flags & 0x00000040 != 0 {
        lemma_flag_named(flags, 5, 23);
    }
    if flags & 0x00000080 != 0 {
        lemma_flag_named(flags, 6, 23);
    }
    if flags & 0x00000100 != 0 {
        lemma_flag_named(flags, 7, 23);
    }
    if flags & 0x00000200 != 0 {
        lemma_flag_named(flags, 8, 23);
    }
    if flags & 0x00000800 != 0 {
        lemma_flag_named(flags, 9, 23);
    }
    if flags & 0x00002000 != 0 {
        lemma_flag_named(flags, 10, 23);
    }
    if flags & 0x00004000 != 0 {
        lemma_flag_named(flags, 11, 23);
    }
    if flags & 0x00008000 != 0 {
        lemma_flag_named(flags, 12, 23);
    }
    if flags & 0x00010000 != 0 {
        lemma_flag_named(flags, 13, 23);
    }
    if flags & 0x00020000 != 0 {
        lemma_flag_named(flags, 14, 23);
    }
    if flags & 0x00080000 != 0 {
        lemma_flag_named(flags, 15, 23);
    }
    if flags & 0x00100000 != 0 {
        lemma_flag_named(flags, 16, 23);
    }
    if flags & 0x00800000 != 0 {
        lemma_flag_named(flags, 17, 23);
    }
    if flags & 0x01000000 != 0 {
        lemma_flag_named(flags, 18, 23);
    }
    if flags & 0x04000000 != 0 {
        lemma_flag_named(flags, 19, 23);
    }
    if flags & 0x08000000 != 0 {
        lemma_flag_named(flags, 20, 23);
    }
    if flags & 0x10000000 != 0 {
        lemma_flag_named(flags, 21, 23);
    }
    if flags & 0x20000000 != 0 {
        lemma_flag_named(flags, 22, 23);
    }
}

/// There are as many names as flags that are set: those that have no name are
/// passed over.
pub proof fn lemma_flags_counted(flags: u32)
    ensures
        flags_named(flags, 23).len() == set_in(flags, 0x00000001) + set_in(flags, 0x00000002) + set_in(flags, 0x00000004) + set_in(flags, 0x00000008) + set_in(flags, 0x00000020) + set_in(flags, 0x00000040) + set_in(flags, 0x00000080) + set_in(flags, 0x00000100) + set_in(flags, 0x00000200) + set_in(flags, 0x00000800) + set_in(flags, 0x00002000) + set_in(flags, 0x00004000) + set_in(flags, 0x00008000) + set_in(flags, 0x00010000) + set_in(flags, 0x00020000) + set_in(flags, 0x00080000) + set_in(flags, 0x00100000) + set_in(flags, 0x00800000) + set_in(flags, 0x01000000) + set_in(flags, 0x04000000) + set_in(flags, 0x08000000) + set_in(flags, 0x10000000) + set_in(flags, 0x20000000),
{
    lemma_flag_counted(flags, 0, 0x00000001);
    lemma_flag_counted(flags, 1, 0x00000002);
    lemma_flag_counted(flags, 2, 0x00000004);
    lemma_flag_counted(flags, 3, 0x00000008);
    lemma_flag_counted(flags, 4, 0x00000020);
    lemma_flag_counted(flags, 5, 0x00000040);
    lemma_flag_counted(flags, 6, 0x00000080);
    lemma_flag_counted(flags, 7, 0x00000100);
    lemma_flag_counted(flags, 8, 0x00000200);
    lemma_flag_counted(flags, 9, 0x00000800);
    lemma_flag_counted(flags, 10, 0x00002000);
    lemma_flag_counted(flags, 11, 0x00004000);
    lemma_flag_counted(flags, 12, 0x00008000);
    lemma_flag_counted(flags, 13, 0x00010000);
    lemma_flag_counted(flags, 14, 0x00020000);
    lemma_flag_counted(flags, 15, 0x00080000);
    lemma_flag_counted(flags, 16, 0x00100000);
    lemma_flag_counted(flags, 17, 0x00800000);
    lemma_flag_counted(flags, 18, 0x01000000);
    lemma_flag_counted(flags, 19, 0x04000000);
    lemma_flag_counted(flags, 20, 0x08000000);
    lemma_flag_counted(flags, 21, 0x10000000);
    lemma_flag_counted(flags, 22, 0x20000000);
}

/// A walk from a null global is refused with the global's address; any other gives the
/// convars and commands of the registry that the global points at, each list as long as
/// the registry's, in the order of the names, and made of what the registry holds.
pub proof fn lemma_walked(
    mem: Map<int, u8>,
    global: u64,
    inst: u64,
    dump: Result<ConVarsDump, ConVarError>,
    i: int,
    j: int,
)
    requires
        walks_to(mem, global, dump),
        stands64(mem, global as int, inst as int),
    ensures
        inst == 0 <==> dump is Err,
        inst == 0 ==> dump == Err::<ConVarsDump, ConVarError>(ConVarError::NullRegistry(global)),
        inst != 0 ==> {
            let out = dump->Ok_0;
            let layout = detected(mem, inst);
            let convars = registry_convars(mem, inst, layout);
            let commands = registry_commands(mem, inst, layout);
            &&& out.registry_layout == layout
            &&& out.convars@.len() == convars.len()
            &&& out.commands@.len() == commands.len()
            &&& 0 <= i < j < convars.len() ==> !str_before(
                out.convars@[j].name@,
                out.convars@[i].name@,
            )
            &&& 0 <= i < j < commands.len() ==> !str_before(
                out.commands@[j].name@,
                out.commands@[i].name@,
            )
            &&& 0 <= i < convars.len() ==> exists|k: int|
                0 <= k < convars.len() && out.convars@[i].is(#[trigger] convars[k])
            &&& 0 <= i < commands.len() ==> exists|k: int|
                0 <= k < commands.len() && out.commands@[i].is(#[trigger] commands[k])
        },
{
    lemma_loads(mem, global as int, inst as int);
    if inst != 0 {
        let out = dump->Ok_0;
        let layout = detected(mem, inst);
        let convars = registry_convars(mem, inst, layout);
        let commands = registry_commands(mem, inst, layout);
        let p = choose|p: Seq<int>|
            #[trigger] name_order(convar_names(convars), p) && out.convars@.len() == p.len()
                && forall|i: int|
                0 <= i < p.len() ==> (#[trigger] out.convars@[i]).is(convars[p[i]]);
        let q = choose|p: Seq<int>|
            #[trigger] name_order(command_names(commands), p) && out.commands@.len() == p.len()
                && forall|i: int|
                0 <= i < p.len() ==> (#[trigger] out.commands@[i]).is(commands[p[i]]);
        if 0 <= i < j < convars.len() {
            lemma_in_order(convar_names(convars), p, i, j);
            assert(out.convars@[i].is(convars[p[i]]) && out.convars@[j].is(convars[p[j]]));
        }
        if 0 <= i < j < commands.len() {
            lemma_in_order(command_names(commands), q, i, j);
            assert(out.commands@[i].is(commands[q[i]]) && out.commands@[j].is(commands[q[j]]));
        }
        if 0 <= i < convars.len() {
            assert(out.convars@[i].is(convars[p[i]]));
        }
        if 0 <= i < commands.len() {
            assert(out.commands@[i].is(commands[q[i]]));
        }
    }
}

} // verus!
