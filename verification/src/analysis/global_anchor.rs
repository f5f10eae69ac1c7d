//! Finds a module's globals by describing the object that they point at.
//!
//! The scan takes every aligned slot of the writable data as a candidate
//! pointer and keeps the target with the best evidence. Several globals that
//! point at one object are aliases, of which the first counts. Two different
//! objects with equal evidence are rivals, and then nothing is returned: a
//! wrong anchor is worse than a missing one. The work is bounded in targets
//! and in candidates that are scored in full.
//!
//! [`find_publishing_global`] asks the question in the other direction: which
//! global names an object that was found by other means.

use crate::analysis::module_data::{image_ranges, writable_ranges, ModuleImage};
use crate::analysis::protobufs::capped;
use crate::analysis::read::{le2, le4, le8, u16_le_at, u32_le_at, u64_le_at};
use crate::memory::{raw, Memory};
use crate::order::{rearranged, AddrSet};
use vstd::prelude::*;

verus! {

/// Distinct pointers that one scan follows. Where the data holds more, the scan
/// finds nothing.
pub const MAX_TARGETS: usize = 0x2_0000;

/// The end of user-mode addresses; a kernel pointer is not the object.
pub const USER_SPACE_END: u64 = 0x0000_8000_0000_0000;

/// Slots that [`globals_holding`] reports at most: two are already too many to
/// name one.
pub const MAX_ALIASES: usize = 8;

/// How much evidence a scan demands, and how much work it may spend on it.
#[derive(Clone, Copy, Debug)]
pub struct AnchorScan {
    /// Bytes of a candidate that are read for the quick test.
    pub head_span: usize,
    /// Evidence that a candidate must show.
    pub min_evidence: usize,
    /// Candidates that may be scored in full. Where more pass the quick test, the
    /// scan finds nothing.
    pub max_probes: usize,
}

/// The first bytes of a candidate object. Fields behind its end are null.
#[derive(Debug)]
pub struct Head {
    pub bytes: Vec<u8>,
}

/// The 64-bit field of a head at `at`.
pub open spec fn head64(head: Seq<u8>, at: int) -> u64 {
    if at + 8 <= head.len() {
        le8(head, at) as u64
    } else {
        0
    }
}

/// The 32-bit field of a head at `at`.
pub open spec fn head32(head: Seq<u8>, at: int) -> u32 {
    if at + 4 <= head.len() {
        le4(head, at) as u32
    } else {
        0
    }
}

/// The 16-bit field of a head at `at`.
pub open spec fn head16(head: Seq<u8>, at: int) -> u16 {
    if at + 2 <= head.len() {
        le2(head, at) as u16
    } else {
        0
    }
}

/// The byte of a head at `at`.
pub open spec fn head8(head: Seq<u8>, at: int) -> u8 {
    if at < head.len() {
        head[at]
    } else {
        0
    }
}

impl Head {
    pub fn u8(&self, at: u64) -> (value: u8)
        ensures
            value == head8(self.bytes@, at as int),
    {
        if at < self.bytes.len() as u64 {
            self.bytes[at as usize]
        } else {
            0
        }
    }

    pub fn is_empty(&self) -> (empty: bool)
        ensures
            empty == (self.bytes@.len() == 0),
    {
        self.bytes.len() == 0
    }

    pub fn u64(&self, at: u64) -> (value: u64)
        ensures
            value == head64(self.bytes@, at as int),
    {
        if at > self.bytes.len() as u64 {
            return 0;
        }
        match u64_le_at(self.bytes.as_slice(), at as usize) {
            Some(v) => v,
            None => 0,
        }
    }

    pub fn u32(&self, at: u64) -> (value: u32)
        ensures
            value == head32(self.bytes@, at as int),
    {
        if at > self.bytes.len() as u64 {
            return 0;
        }
        match u32_le_at(self.bytes.as_slice(), at as usize) {
            Some(v) => v,
            None => 0,
        }
    }

    pub fn u16(&self, at: u64) -> (value: u16)
        ensures
            value == head16(self.bytes@, at as int),
    {
        if at > self.bytes.len() as u64 {
            return 0;
        }
        match u16_le_at(self.bytes.as_slice(), at as usize) {
            Some(v) => v,
            None => 0,
        }
    }
}

/// The head of the object at `va`.
pub fn read_head(mem: &Memory, va: u64, len: usize) -> (head: Head)
    requires
        mem.wf(),
    ensures
        head.bytes@ == raw(mem@, va as int, len as nat),
{
    Head { bytes: mem.read_raw(va, len) }
}

/// What an object is recognised by: a cheap test of its head, and the evidence
/// that it shows in full.
pub trait Anchor {
    /// Whether a head passes the test; every head does where nothing else is
    /// said.
    open spec fn gates(&self, mem: Map<int, u8>, head: Seq<u8>) -> bool {
        true
    }

    /// The evidence that an object shows; none where nothing else is said.
    open spec fn evidence(&self, mem: Map<int, u8>, object: u64) -> usize {
        0
    }

    fn gate(&self, mem: &Memory, head: &Head) -> (passes: bool)
        requires
            mem.wf(),
        ensures
            passes == self.gates(mem@, head.bytes@),
    ;

    fn score(&self, mem: &Memory, object: u64) -> (evidence: usize)
        requires
            mem.wf(),
        ensures
            evidence == self.evidence(mem@, object),
    ;
}

/// An offset into the image that begins a scanned slot: aligned, and with its
/// eight bytes inside one of the ranges.
pub open spec fn slot_in(len: int, range: (u64, u64), offset: int) -> bool {
    let (rva, size) = range;
    &&& rva <= offset
    &&& offset % 8 == 0
    &&& offset + 8 <= rva + size
    &&& offset + 8 <= len
}

/// A qword that can be the address of an object: in user space, aligned, and
/// not in the image itself.
pub open spec fn is_target(len: int, base: u64, target: u64) -> bool {
    &&& 0x10000 <= target < USER_SPACE_END
    &&& target % 8 == 0
    &&& !(base <= target < base + len)
}

/// The first aligned offset of a range.
pub open spec fn first_slot(rva: u64) -> int {
    if rva % 8 == 0 {
        rva as int
    } else {
        rva - rva % 8 + 8
    }
}

/// The pointers that a range holds from `offset` on, each with the address of
/// its slot, in address order. A slot past the address space holds none.
pub open spec fn range_pointers(image: Seq<u8>, base: u64, range: (u64, u64), offset: int) -> Seq<
    (u64, u64),
>
    decreases image.len() - offset,
{
    if !slot_in(image.len() as int, range, offset) {
        Seq::empty()
    } else {
        let target = le8(image, offset) as u64;
        let rest = range_pointers(image, base, range, offset + 8);
        if is_target(image.len() as int, base, target) && base + offset <= u64::MAX {
            seq![((base + offset) as u64, target)] + rest
        } else {
            rest
        }
    }
}

/// The pointers of all ranges, in the order of the ranges.
pub open spec fn all_pointers(image: Seq<u8>, base: u64, ranges: Seq<(u64, u64)>) -> Seq<
    (u64, u64),
>
    decreases ranges.len(),
{
    if ranges.len() == 0 {
        Seq::empty()
    } else {
        all_pointers(image, base, ranges.drop_last()) + range_pointers(
            image,
            base,
            ranges.last(),
            first_slot(ranges.last().0),
        )
    }
}

/// The targets of a list of pointers.
pub open spec fn targets(list: Seq<(u64, u64)>) -> Set<u64> {
    Set::new(|t: u64| exists|i: int| 0 <= i < list.len() && (#[trigger] list[i]).1 == t)
}

/// The pointers whose target did not occur before.
pub open spec fn distinct(list: Seq<(u64, u64)>) -> Seq<(u64, u64)>
    decreases list.len(),
{
    if list.len() == 0 {
        Seq::empty()
    } else {
        let before = distinct(list.drop_last());
        if targets(before).contains(list.last().1) {
            before
        } else {
            before.push(list.last())
        }
    }
}

/// `p` lists each of the numbers below `n` once.
pub open spec fn permutation(p: Seq<int>, n: int) -> bool {
    &&& p.len() == n
    &&& forall|i: int| 0 <= i < p.len() ==> 0 <= #[trigger] p[i] < n
    &&& forall|i: int, j: int| 0 <= i < j < p.len() ==> #[trigger] p[i] != #[trigger] p[j]
}

/// By slot, and by target where the slots are the same.
pub open spec fn not_after(a: (u64, u64), b: (u64, u64)) -> bool {
    a.0 < b.0 || (a.0 == b.0 && a.1 <= b.1)
}

/// `sorted` holds the pointers of `list` in the order of their slots.
pub open spec fn by_address(list: Seq<(u64, u64)>, sorted: Seq<(u64, u64)>) -> bool {
    &&& exists|p: Seq<int>|
        #![trigger permutation(p, list.len() as int)]
        permutation(p, list.len() as int) && rearranged(list, sorted, p)
    &&& forall|i: int, j: int|
        0 <= i < j < sorted.len() ==> not_after(#[trigger] sorted[i], #[trigger] sorted[j])
}

fn sort_slots(list: &mut Vec<(u64, u64)>)
    ensures
        by_address(old(list)@, final(list)@),
{
    let ghost was = list@;
    let size: usize = list.len();
    let ghost mut p: Seq<int> = Seq::new(size as nat, |i: int| i);
    let mut i: usize = 0;
    while i < size
        invariant
            i <= size,
            size == list@.len(),
            size == was.len(),
            permutation(p, size as int),
            rearranged(was, list@, p),
            forall|a: int, b: int|
                0 <= a < b < i ==> not_after(#[trigger] list@[a], #[trigger] list@[b]),
        decreases size - i,
    {
        let mut k: usize = i;
        while k > 0 && (list[i].0 < list[k - 1].0 || (list[i].0 == list[k - 1].0 && list[i].1
            < list[k - 1].1))
            invariant
                k <= i,
                i < size,
                size == list@.len(),
                forall|m: int| k <= m < i ==> !not_after(#[trigger] list@[m], list@[i as int]),
            decreases k,
        {
            k = k - 1;
        }
        let ghost before = list@;
        let ghost q = p;
        if k < i {
            let item = list.remove(i);
            list.insert(k, item);
        }
        proof {
            p = q.remove(i as int).insert(k as int, q[i as int]);
            assert(list@ =~= before.remove(i as int).insert(k as int, before[i as int]));
            assert forall|m: int| 0 <= m < size implies #[trigger] list@[m] == was[p[m]] by {
                if m < k || m > i {
                    assert(p[m] == q[m] && list@[m] == before[m]);
                } else if m > k {
                    assert(p[m] == q[m - 1] && list@[m] == before[m - 1]);
                    assert(before[m - 1] == was[q[m - 1]]);
                } else {
                    assert(before[i as int] == was[q[i as int]]);
                }
            }
            assert forall|m: int| 0 <= m < size implies 0 <= #[trigger] p[m] < size by {
                let o = place_before(m, k as int, i as int);
                assert(p[m] == q[o]);
            }
            assert forall|m: int, n: int| 0 <= m < n < size implies #[trigger] p[m] != #[trigger] p[n] by {
                let o = place_before(m, k as int, i as int);
                let r = place_before(n, k as int, i as int);
                assert(p[m] == q[o] && p[n] == q[r]);
                assert(o != r);
                if o < r {
                    assert(q[o] != q[r]);
                } else {
                    assert(q[r] != q[o]);
                }
            }
            assert forall|a: int, b: int| 0 <= a < b < i + 1 implies not_after(
                #[trigger] list@[a],
                #[trigger] list@[b],
            ) by {
                let qa = if a < k { a } else { a - 1 };
                let qb = if b < k { b } else { b - 1 };
                if a != k && b != k {
                    assert(list@[a] == before[qa] && list@[b] == before[qb]);
                } else if a == k {
                    assert(list@[b] == before[b - 1]);
                } else {
                    assert(list@[a] == before[a]);
                    if a < k - 1 {
                        assert(not_after(before[a], before[k - 1]));
                    }
                }
            }
        }
        i = i + 1;
    }
}

/// Where the item at `m` stood before the one at `i` was moved down to `k`.
spec fn place_before(m: int, k: int, i: int) -> int {
    if m < k || m > i {
        m
    } else if m == k {
        i
    } else {
        m - 1
    }
}

proof fn lemma_targets_push(list: Seq<(u64, u64)>, item: (u64, u64))
    ensures
        targets(list.push(item)) == targets(list).insert(item.1),
{
    let now = list.push(item);
    assert forall|t: u64| targets(now).contains(t) == targets(list).insert(item.1).contains(t) by {
        if targets(list).contains(t) {
            let i = choose|i: int| 0 <= i < list.len() && (#[trigger] list[i]).1 == t;
            assert(now[i].1 == t);
        }
        assert(now[list.len() as int].1 == item.1);
        if targets(now).contains(t) {
            let i = choose|i: int| 0 <= i < now.len() && (#[trigger] now[i]).1 == t;
            if i < list.len() {
                assert(list[i].1 == t);
            }
        }
    }
    assert(targets(now) =~= targets(list).insert(item.1));
}

/// Each target occurs once among the distinct pointers: several globals that
/// hold one object are one candidate.
pub proof fn lemma_aliases_collapse(list: Seq<(u64, u64)>, i: int, j: int)
    requires
        0 <= i < j < distinct(list).len(),
    ensures
        distinct(list)[i].1 != distinct(list)[j].1,
    decreases list.len(),
{
    let before = distinct(list.drop_last());
    if j < before.len() {
        lemma_aliases_collapse(list.drop_last(), i, j);
    } else {
        assert(before[i].1 == distinct(list)[i].1);
    }
}

fn start_of(rva: u64, len: usize) -> (offset: Option<usize>)
    ensures
        match offset {
            Some(o) => o == first_slot(rva) && o + 8 <= len,
            None => first_slot(rva) + 8 > len,
        },
{
    if len < 8 || rva > (len - 8) as u64 {
        return None;
    }
    let rest: u64 = rva % 8;
    let first: u64 = if rest == 0 {
        rva
    } else {
        rva - rest + 8
    };
    if first > (len - 8) as u64 {
        return None;
    }
    Some(first as usize)
}

proof fn lemma_no_slot(image: Seq<u8>, base: u64, range: (u64, u64), offset: int)
    requires
        !slot_in(image.len() as int, range, offset),
    ensures
        range_pointers(image, base, range, offset) == Seq::<(u64, u64)>::empty(),
{
}

/// Each distinct pointer of the writable data with the first global that holds
/// it, in the order of the globals.
pub fn candidate_slots(image: &[u8], base: u64, ranges: &[(u64, u64)]) -> (slots: Vec<(u64, u64)>)
    ensures
        by_address(distinct(all_pointers(image@, base, ranges@)), slots@),
{
    let len: usize = image.len();
    let mut slots: Vec<(u64, u64)> = Vec::new();
    let mut seen = AddrSet::new();
    let ghost mut done: Seq<(u64, u64)> = Seq::empty();
    let mut r: usize = 0;
    assert(ranges@.subrange(0, 0) =~= Seq::<(u64, u64)>::empty());
    assert(targets(slots@) =~= Set::<u64>::empty());
    while r < ranges.len()
        invariant
            len == image@.len(),
            r <= ranges@.len(),
            done == all_pointers(image@, base, ranges@.subrange(0, r as int)),
            slots@ == distinct(done),
            seen@ == targets(slots@),
        decreases ranges@.len() - r,
    {
        let range = ranges[r];
        let ghost upto = ranges@.subrange(0, r + 1);
        assert(upto.drop_last() =~= ranges@.subrange(0, r as int));
        assert(upto.last() == range);
        let ghost goal = all_pointers(image@, base, upto);
        let ghost first = first_slot(range.0);
        assert(goal == done + range_pointers(image@, base, range, first));
        match start_of(range.0, len) {
            Some(start) => {
                let mut offset: usize = start;
                while offset <= len - 8 && (offset as u64) - range.0 <= range.1 && range.1 - (
                offset as u64 - range.0) >= 8
                    invariant
                        len == image@.len(),
                        8 <= len,
                        range.0 <= offset,
                        offset % 8 == 0,
                        offset <= len,
                        slots@ == distinct(done),
                        seen@ == targets(slots@),
                        goal == done + range_pointers(image@, base, range, offset as int),
                    decreases len - offset,
                {
                    let ghost rest = range_pointers(image@, base, range, offset + 8);
                    assert(slot_in(len as int, range, offset as int));
                    match u64_le_at(image, offset) {
                        Some(target) => {
                            if 0x10000 <= target && target < USER_SPACE_END && target % 8 == 0 && !(
                            base <= target && target - base < len as u64) {
                                match base.checked_add(offset as u64) {
                                    Some(slot) => {
                                        let ghost was = done;
                                        proof {
                                            done = done.push((slot, target));
                                            assert(done.drop_last() =~= was);
                                            assert(was + (seq![(slot, target)] + rest) =~= done
                                                + rest);
                                            lemma_targets_push(slots@, (slot, target));
                                        }
                                        if seen.insert(target) {
                                            slots.push((slot, target));
                                        } else {
                                            assert(seen@ =~= targets(slots@));
                                        }
                                    },
                                    None => {},
                                }
                            }
                        },
                        None => {},
                    }
                    offset = offset + 8;
                }
                proof {
                    lemma_no_slot(image@, base, range, offset as int);
                }
            },
            None => {
                proof {
                    lemma_no_slot(image@, base, range, first);
                }
            },
        }
        assert(goal =~= done);
        r = r + 1;
    }
    assert(ranges@.subrange(0, r as int) =~= ranges@);
    sort_slots(&mut slots);
    slots
}

/// The candidates that pass the quick test.
pub open spec fn passing<A: Anchor>(
    anchor: &A,
    mem: Map<int, u8>,
    slots: Seq<(u64, u64)>,
    span: nat,
) -> Seq<(u64, u64)>
    decreases slots.len(),
{
    if slots.len() == 0 {
        Seq::empty()
    } else {
        let before = passing(anchor, mem, slots.drop_last(), span);
        if span > 0 && anchor.gates(mem, raw(mem, slots.last().1 as int, span)) {
            before.push(slots.last())
        } else {
            before
        }
    }
}

/// The candidates that show enough evidence, each with it.
pub open spec fn strong<A: Anchor>(
    anchor: &A,
    mem: Map<int, u8>,
    slots: Seq<(u64, u64)>,
    min: usize,
) -> Seq<(u64, u64, usize)>
    decreases slots.len(),
{
    if slots.len() == 0 {
        Seq::empty()
    } else {
        let before = strong(anchor, mem, slots.drop_last(), min);
        let (slot, object) = slots.last();
        if anchor.evidence(mem, object) >= min {
            before.push((slot, object, anchor.evidence(mem, object)))
        } else {
            before
        }
    }
}

/// The contenders of a scan, as slot, object and evidence: those that pass the
/// quick test and show enough evidence.
pub open spec fn contenders<A: Anchor>(
    anchor: &A,
    mem: Map<int, u8>,
    slots: Seq<(u64, u64)>,
    scan: AnchorScan,
) -> Seq<(u64, u64, usize)> {
    strong(
        anchor,
        mem,
        passing(anchor, mem, slots, scan.head_span as nat),
        scan.min_evidence,
    )
}

/// There are more candidates than the scan may follow, or more of them pass the
/// quick test than it may score.
pub open spec fn runs_out<A: Anchor>(
    anchor: &A,
    mem: Map<int, u8>,
    slots: Seq<(u64, u64)>,
    scan: AnchorScan,
) -> bool {
    slots.len() > MAX_TARGETS || passing(anchor, mem, slots, scan.head_span as nat).len()
        > scan.max_probes
}

/// Contender `k` is the first that shows the most evidence.
pub open spec fn is_top(list: Seq<(u64, u64, usize)>, k: int) -> bool {
    &&& 0 <= k < list.len()
    &&& forall|j: int| 0 <= j < list.len() ==> (#[trigger] list[j]).2 <= list[k].2
    &&& forall|j: int| 0 <= j < k ==> (#[trigger] list[j]).2 < list[k].2
}

/// Another object shows as much evidence as contender `k`.
pub open spec fn has_rival(list: Seq<(u64, u64, usize)>, k: int) -> bool {
    exists|j: int|
        0 <= j < list.len() && (#[trigger] list[j]).1 != list[k].1 && list[j].2 == list[k].2
}

/// Contender `k` wins: it shows the most evidence, and no other object as much.
pub open spec fn wins(list: Seq<(u64, u64, usize)>, k: int) -> bool {
    is_top(list, k) && !has_rival(list, k)
}

/// The slot of the contender that wins, or nothing where none does.
pub open spec fn decides(list: Seq<(u64, u64, usize)>, found: Option<u64>) -> bool {
    match found {
        Some(slot) => exists|k: int| #[trigger] wins(list, k) && list[k].0 == slot,
        None => forall|k: int| !#[trigger] wins(list, k),
    }
}

/// What a scan over the candidates `slots` finds: the global of the winner. A
/// scan that runs out finds nothing: it does not report the best of what it
/// happened to reach.
pub open spec fn finds<A: Anchor>(
    anchor: &A,
    mem: Map<int, u8>,
    slots: Seq<(u64, u64)>,
    scan: AnchorScan,
    found: Option<u64>,
) -> bool {
    if runs_out(anchor, mem, slots, scan) {
        found is None
    } else {
        decides(contenders(anchor, mem, slots, scan), found)
    }
}

/// Where two different objects show the most evidence, nothing wins.
pub proof fn lemma_rivals_decline(list: Seq<(u64, u64, usize)>, a: int, b: int)
    requires
        0 <= a < list.len(),
        0 <= b < list.len(),
        list[a].1 != list[b].1,
        list[a].2 == list[b].2,
        forall|j: int| 0 <= j < list.len() ==> (#[trigger] list[j]).2 <= list[a].2,
    ensures
        decides(list, None),
{
    assert forall|k: int| !#[trigger] wins(list, k) by {
        if is_top(list, k) {
            let j = if list[a].1 != list[k].1 { a } else { b };
            assert(list[j].1 != list[k].1);
        }
    }
}

/// A contender that shows strictly more evidence than every other wins,
/// whatever ties there are below it.
pub proof fn lemma_better_evidence_wins(list: Seq<(u64, u64, usize)>, k: int)
    requires
        0 <= k < list.len(),
        forall|j: int| 0 <= j < list.len() && j != k ==> (#[trigger] list[j]).2 < list[k].2,
    ensures
        decides(list, Some(list[k].0)),
{
    assert(wins(list, k));
}

/// What a list of contenders decides is unique.
pub proof fn lemma_decides_once(
    list: Seq<(u64, u64, usize)>,
    a: Option<u64>,
    b: Option<u64>,
)
    requires
        decides(list, a),
        decides(list, b),
    ensures
        a == b,
{
    if a is Some && b is Some {
        let i = choose|k: int| #[trigger] wins(list, k) && list[k].0 == a->0;
        let j = choose|k: int| #[trigger] wins(list, k) && list[k].0 == b->0;
        lemma_one_top(list, i, j);
    }
}

proof fn lemma_one_top(list: Seq<(u64, u64, usize)>, i: int, j: int)
    requires
        is_top(list, i),
        is_top(list, j),
    ensures
        i == j,
{
    if i < j {
        assert(list[i].2 < list[j].2);
    } else if j < i {
        assert(list[j].2 < list[i].2);
    }
}

/// Picks the slot of the contender that wins.
pub fn pick(list: &Vec<(u64, u64, usize)>) -> (found: Option<u64>)
    ensures
        decides(list@, found),
{
    if list.len() == 0 {
        return None;
    }
    let mut top: usize = 0;
    let mut ambiguous: bool = false;
    let mut i: usize = 1;
    assert(list@.subrange(0, 1) =~= seq![list@[0]]);
    assert(!has_rival(list@.subrange(0, 1), 0));
    while i < list.len()
        invariant
            1 <= i <= list@.len(),
            top < i,
            is_top(list@.subrange(0, i as int), top as int),
            ambiguous == has_rival(list@.subrange(0, i as int), top as int),
        decreases list@.len() - i,
    {
        let ghost head = list@.subrange(0, i as int);
        let ghost next = list@.subrange(0, i + 1);
        assert(next =~= head.push(list@[i as int]));
        let evidence: usize = list[i].2;
        let best: usize = list[top].2;
        assert(head[top as int] == list@[top as int]);
        if evidence > best {
            proof {
                assert forall|j: int| 0 <= j < i implies (#[trigger] next[j]).2 < next[i as int].2 by {
                    assert(next[j] == head[j]);
                }
            }
            top = i;
            ambiguous = false;
        } else {
            proof {
                assert forall|j: int| 0 <= j < i implies (#[trigger] next[j]) == head[j] by {}
                if has_rival(head, top as int) {
                    let j = choose|j: int|
                        0 <= j < head.len() && (#[trigger] head[j]).1 != head[top as int].1
                            && head[j].2 == head[top as int].2;
                    assert(next[j].1 != next[top as int].1);
                    assert(has_rival(next, top as int));
                }
                if has_rival(next, top as int) && !has_rival(head, top as int) {
                    let j = choose|j: int|
                        0 <= j < next.len() && (#[trigger] next[j]).1 != next[top as int].1
                            && next[j].2 == next[top as int].2;
                    if j < i {
                        assert(head[j].1 != head[top as int].1);
                    }
                }
                assert forall|j: int| 0 <= j < next.len() implies (#[trigger] next[j]).2
                    <= next[top as int].2 by {
                    if j < i {
                        assert(head[j].2 <= head[top as int].2);
                    }
                }
                assert forall|j: int| 0 <= j < top implies (#[trigger] next[j]).2
                    < next[top as int].2 by {
                    assert(head[j].2 < head[top as int].2);
                }
            }
            if evidence == best && list[i].1 != list[top].1 {
                assert(next[i as int].1 != next[top as int].1);
                ambiguous = true;
            }
        }
        i = i + 1;
    }
    assert(list@.subrange(0, i as int) =~= list@);
    if ambiguous {
        proof {
            assert forall|k: int| !#[trigger] wins(list@, k) by {
                if is_top(list@, k) {
                    lemma_one_top(list@, k, top as int);
                }
            }
        }
        None
    } else {
        assert(wins(list@, top as int));
        Some(list[top].0)
    }
}

proof fn lemma_capped_push<T>(list: Seq<T>, item: T, n: int)
    requires
        0 <= n,
    ensures
        capped(list.push(item), n) == (if list.len() < n {
            capped(list, n).push(item)
        } else {
            capped(list, n)
        }),
{
    assert(capped(list.push(item), n) =~= (if list.len() < n {
        capped(list, n).push(item)
    } else {
        capped(list, n)
    }));
}

/// What a scan of the ranges of an image finds.
pub open spec fn ranges_find<A: Anchor>(
    anchor: &A,
    mem: Map<int, u8>,
    image: Seq<u8>,
    base: u64,
    ranges: Seq<(u64, u64)>,
    scan: AnchorScan,
    found: Option<u64>,
) -> bool {
    exists|slots: Seq<(u64, u64)>|
        #[trigger] by_address(distinct(all_pointers(image, base, ranges)), slots) && finds(
            anchor,
            mem,
            slots,
            scan,
            found,
        )
}

/// The global of the object that shows the most evidence; nothing where no
/// object shows enough, or where two show the same.
pub fn find_global<A: Anchor>(
    mem: &Memory,
    image: &[u8],
    base: u64,
    ranges: &[(u64, u64)],
    scan: AnchorScan,
    anchor: &A,
) -> (found: Option<u64>)
    requires
        mem.wf(),
    ensures
        ranges_find(anchor, mem@, image@, base, ranges@, scan, found),
{
    let slots = candidate_slots(image, base, ranges);
    find_among(mem, &slots, scan, anchor)
}

proof fn lemma_passing_grows<A: Anchor>(
    anchor: &A,
    mem: Map<int, u8>,
    slots: Seq<(u64, u64)>,
    span: nat,
    n: int,
)
    requires
        0 <= n <= slots.len(),
    ensures
        passing(anchor, mem, slots.subrange(0, n), span).len() <= passing(
            anchor,
            mem,
            slots,
            span,
        ).len(),
    decreases slots.len(),
{
    if n < slots.len() {
        let head = slots.drop_last();
        lemma_passing_grows(anchor, mem, head, span, n);
        assert(head.subrange(0, n) =~= slots.subrange(0, n));
    } else {
        assert(slots.subrange(0, n) =~= slots);
    }
}

fn find_among<A: Anchor>(
    mem: &Memory,
    slots: &Vec<(u64, u64)>,
    scan: AnchorScan,
    anchor: &A,
) -> (found: Option<u64>)
    requires
        mem.wf(),
    ensures
        finds(anchor, mem@, slots@, scan, found),
{
    if slots.len() > MAX_TARGETS {
        return None;
    }
    let mut list: Vec<(u64, u64, usize)> = Vec::new();
    let mut probes: usize = 0;
    let ghost span = scan.head_span as nat;
    let ghost mut passed: Seq<(u64, u64)> = Seq::empty();
    let mut i: usize = 0;
    assert(slots@.subrange(0, 0) =~= Seq::<(u64, u64)>::empty());
    while i < slots.len()
        invariant
            mem.wf(),
            i <= slots@.len(),
            span == scan.head_span,
            passed == passing(anchor, mem@, slots@.subrange(0, i as int), span),
            probes == passed.len(),
            probes <= scan.max_probes,
            list@ == strong(anchor, mem@, passed, scan.min_evidence),
        decreases slots@.len() - i,
    {
        let (slot, object) = slots[i];
        let ghost upto = slots@.subrange(0, i + 1);
        let ghost was = passed;
        proof {
            assert(upto.drop_last() =~= slots@.subrange(0, i as int));
            assert(upto.last() == slots@[i as int]);
            passed = passing(anchor, mem@, upto, span);
        }
        if scan.head_span > 0 {
            let head = read_head(mem, object, scan.head_span);
            if anchor.gate(mem, &head) {
                if probes >= scan.max_probes {
                    proof {
                        lemma_passing_grows(anchor, mem@, slots@, span, i + 1);
                    }
                    return None;
                }
                probes = probes + 1;
                let evidence: usize = anchor.score(mem, object);
                proof {
                    assert(passed == was.push((slot, object)));
                    assert(passed.drop_last() =~= was);
                }
                if evidence >= scan.min_evidence {
                    list.push((slot, object, evidence));
                }
            }
        }
        i = i + 1;
    }
    assert(slots@.subrange(0, i as int) =~= slots@);
    pick(&list)
}

/// The slots of a range from `offset` on that hold `object`, in address order.
pub open spec fn range_holding(
    image: Seq<u8>,
    base: u64,
    range: (u64, u64),
    offset: int,
    object: u64,
) -> Seq<u64>
    decreases image.len() - offset,
{
    if !slot_in(image.len() as int, range, offset) {
        Seq::empty()
    } else {
        let rest = range_holding(image, base, range, offset + 8, object);
        if le8(image, offset) == object && base + offset <= u64::MAX {
            seq![(base + offset) as u64] + rest
        } else {
            rest
        }
    }
}

/// The slots of all ranges that hold `object`, in the order of the ranges.
pub open spec fn slots_holding(
    image: Seq<u8>,
    base: u64,
    ranges: Seq<(u64, u64)>,
    object: u64,
) -> Seq<u64>
    decreases ranges.len(),
{
    if ranges.len() == 0 {
        Seq::empty()
    } else {
        slots_holding(image, base, ranges.drop_last(), object) + range_holding(
            image,
            base,
            ranges.last(),
            first_slot(ranges.last().0),
            object,
        )
    }
}

/// The slots in the writable data that hold `object`, the first `MAX_ALIASES`
/// of them.
pub fn globals_holding(image: &[u8], base: u64, ranges: &[(u64, u64)], object: u64) -> (slots: Vec<
    u64,
>)
    ensures
        slots@ == capped(slots_holding(image@, base, ranges@, object), MAX_ALIASES as int),
{
    let len: usize = image.len();
    let mut slots: Vec<u64> = Vec::new();
    let ghost mut done: Seq<u64> = Seq::empty();
    let mut r: usize = 0;
    assert(ranges@.subrange(0, 0) =~= Seq::<(u64, u64)>::empty());
    while r < ranges.len()
        invariant
            len == image@.len(),
            r <= ranges@.len(),
            done == slots_holding(image@, base, ranges@.subrange(0, r as int), object),
            slots@ == capped(done, MAX_ALIASES as int),
        decreases ranges@.len() - r,
    {
        let range = ranges[r];
        let ghost upto = ranges@.subrange(0, r + 1);
        assert(upto.drop_last() =~= ranges@.subrange(0, r as int));
        assert(upto.last() == range);
        let ghost goal = slots_holding(image@, base, upto, object);
        let ghost first = first_slot(range.0);
        match start_of(range.0, len) {
            Some(start) => {
                let mut offset: usize = start;
                while offset <= len - 8 && (offset as u64) - range.0 <= range.1 && range.1 - (
                offset as u64 - range.0) >= 8
                    invariant
                        len == image@.len(),
                        8 <= len,
                        range.0 <= offset,
                        offset % 8 == 0,
                        offset <= len,
                        slots@ == capped(done, MAX_ALIASES as int),
                        goal == done + range_holding(image@, base, range, offset as int, object),
                    decreases len - offset,
                {
                    let ghost rest = range_holding(image@, base, range, offset + 8, object);
                    assert(slot_in(len as int, range, offset as int));
                    match u64_le_at(image, offset) {
                        Some(value) => {
                            if value == object {
                                match base.checked_add(offset as u64) {
                                    Some(slot) => {
                                        let ghost was = done;
                                        proof {
                                            done = done.push(slot);
                                            assert(was + (seq![slot] + rest) =~= done + rest);
                                            lemma_capped_push(was, slot, MAX_ALIASES as int);
                                        }
                                        if slots.len() < MAX_ALIASES {
                                            slots.push(slot);
                                        }
                                    },
                                    None => {},
                                }
                            }
                        },
                        None => {},
                    }
                    offset = offset + 8;
                }
                assert(range_holding(image@, base, range, offset as int, object) =~= Seq::<
                    u64,
                >::empty());
            },
            None => {
                assert(range_holding(image@, base, range, first, object) =~= Seq::<u64>::empty());
            },
        }
        assert(goal =~= done);
        r = r + 1;
    }
    assert(ranges@.subrange(0, r as int) =~= ranges@);
    slots
}

/// The global that publishes `object`: the only slot that holds it, or none
/// where there are several.
pub fn find_publishing_global(
    image: &[u8],
    base: u64,
    ranges: &[(u64, u64)],
    object: u64,
) -> (slot: Option<u64>)
    ensures
        slot == ({
            let all = slots_holding(image@, base, ranges@, object);
            if all.len() == 1 {
                Some(all[0])
            } else {
                None
            }
        }),
{
    let slots = globals_holding(image, base, ranges, object);
    if slots.len() == 1 {
        Some(slots[0])
    } else {
        None
    }
}

/// The aligned qwords of a range from `offset` on, each with the address of its
/// slot.
pub open spec fn range_qwords(image: Seq<u8>, base: u64, range: (u64, u64), offset: int) -> Seq<
    (u64, u64),
>
    decreases image.len() - offset,
{
    if !slot_in(image.len() as int, range, offset) {
        Seq::empty()
    } else {
        seq![((base + offset) as u64, le8(image, offset) as u64)] + range_qwords(
            image,
            base,
            range,
            offset + 8,
        )
    }
}

/// The aligned qwords of all ranges, in the order of the ranges.
pub open spec fn all_qwords(image: Seq<u8>, base: u64, ranges: Seq<(u64, u64)>) -> Seq<(u64, u64)>
    decreases ranges.len(),
{
    if ranges.len() == 0 {
        Seq::empty()
    } else {
        all_qwords(image, base, ranges.drop_last()) + range_qwords(
            image,
            base,
            ranges.last(),
            first_slot(ranges.last().0),
        )
    }
}

/// The aligned qwords of the ranges, each with the address of its slot.
pub fn qwords(image: &[u8], base: u64, ranges: &[(u64, u64)]) -> (list: Vec<(u64, u64)>)
    requires
        base + image@.len() <= u64::MAX,
    ensures
        list@ == all_qwords(image@, base, ranges@),
{
    let len: usize = image.len();
    let mut list: Vec<(u64, u64)> = Vec::new();
    let mut r: usize = 0;
    assert(ranges@.subrange(0, 0) =~= Seq::<(u64, u64)>::empty());
    while r < ranges.len()
        invariant
            len == image@.len(),
            base + len <= u64::MAX,
            r <= ranges@.len(),
            list@ == all_qwords(image@, base, ranges@.subrange(0, r as int)),
        decreases ranges@.len() - r,
    {
        let range = ranges[r];
        let ghost upto = ranges@.subrange(0, r + 1);
        assert(upto.drop_last() =~= ranges@.subrange(0, r as int));
        assert(upto.last() == range);
        let ghost goal = all_qwords(image@, base, upto);
        let ghost first = first_slot(range.0);
        match start_of(range.0, len) {
            Some(start) => {
                let mut offset: usize = start;
                while offset <= len - 8 && (offset as u64) - range.0 <= range.1 && range.1 - (
                offset as u64 - range.0) >= 8
                    invariant
                        len == image@.len(),
                        base + len <= u64::MAX,
                        8 <= len,
                        range.0 <= offset,
                        offset % 8 == 0,
                        offset <= len,
                        goal == list@ + range_qwords(image@, base, range, offset as int),
                    decreases len - offset,
                {
                    let ghost rest = range_qwords(image@, base, range, offset + 8);
                    let ghost was = list@;
                    assert(slot_in(len as int, range, offset as int));
                    match u64_le_at(image, offset) {
                        Some(value) => {
                            let slot: u64 = base + offset as u64;
                            list.push((slot, value));
                            assert(was + (seq![(slot, value)] + rest) =~= list@ + rest);
                        },
                        None => {},
                    }
                    offset = offset + 8;
                }
                assert(range_qwords(image@, base, range, offset as int) =~= Seq::<
                    (u64, u64),
                >::empty());
            },
            None => {
                assert(range_qwords(image@, base, range, first) =~= Seq::<(u64, u64)>::empty());
            },
        }
        assert(goal =~= list@);
        r = r + 1;
    }
    assert(ranges@.subrange(0, r as int) =~= ranges@);
    list
}

/// What a scan of a module image finds; nothing where it is not a PE image.
pub open spec fn module_finds<A: Anchor>(
    anchor: &A,
    mem: Map<int, u8>,
    image: Seq<u8>,
    base: u64,
    scan: AnchorScan,
    found: Option<u64>,
) -> bool {
    match image_ranges(image) {
        Some(ranges) => ranges_find(anchor, mem, image, base, ranges, scan, found),
        None => found is None,
    }
}

/// The global of a module that points at the object which the anchor
/// describes.
pub fn find_in_module<A: Anchor>(
    mem: &Memory,
    module: &ModuleImage,
    scan: AnchorScan,
    anchor: &A,
) -> (found: Option<u64>)
    requires
        mem.wf(),
    ensures
        module_finds(anchor, mem@, module.bytes@, module.base, scan, found),
{
    let image = module.bytes.as_slice();
    match writable_ranges(image) {
        Some(ranges) => {
            let found = find_global(mem, image, module.base, ranges.as_slice(), scan, anchor);
            found
        },
        None => None,
    }
}

/// A slot stands at an offset of one of the ranges: eight bytes, aligned to
/// eight, that lie in the range and in the image.
pub open spec fn slot_stands(len: int, ranges: Seq<(u64, u64)>, offset: int) -> bool {
    exists|r: int|
        0 <= r < ranges.len() && (#[trigger] ranges[r]).0 <= offset && offset + 8 <= ranges[r].0
            + ranges[r].1 && offset % 8 == 0 && offset + 8 <= len
}

proof fn lemma_slot_range(len: int, range: (u64, u64), from: int, offset: int)
    requires
        from % 8 == 0,
        range.0 <= from <= offset,
        slot_in(len, range, offset),
    ensures
        slot_in(len, range, from),
{
}

proof fn lemma_range_pointers(
    image: Seq<u8>,
    base: u64,
    range: (u64, u64),
    from: int,
    p: (u64, u64),
)
    requires
        from % 8 == 0,
        range.0 <= from,
    ensures
        range_pointers(image, base, range, from).contains(p) <==> exists|offset: int|
            from <= offset && #[trigger] slot_in(image.len() as int, range, offset) && p.0 == base
                + offset && p.1 == le8(image, offset) && is_target(
                image.len() as int,
                base,
                p.1,
            ),
    decreases image.len() - from,
{
    let len = image.len() as int;
    let all = range_pointers(image, base, range, from);
    if slot_in(len, range, from) {
        lemma_range_pointers(image, base, range, from + 8, p);
        let rest = range_pointers(image, base, range, from + 8);
        let target = le8(image, from) as u64;
        let own = ((base + from) as u64, target);
        assert(0 <= le8(image, from) <= u64::MAX) by {
            assert(0 <= le4(image, from) < 0x1_0000_0000);
            assert(0 <= le4(image, from + 4) < 0x1_0000_0000);
        }
        let takes = is_target(len, base, target) && base + from <= u64::MAX;
        if all.contains(p) {
            let k = choose|k: int| 0 <= k < all.len() && all[k] == p;
            if takes && k == 0 {
                assert(slot_in(len, range, from));
            } else if takes {
                assert(rest[k - 1] == p);
            } else {
                assert(rest[k] == p);
            }
        }
        if exists|offset: int|
            from <= offset && #[trigger] slot_in(len, range, offset) && p.0 == base + offset && p.1
                == le8(image, offset) && is_target(len, base, p.1) {
            let offset = choose|offset: int|
                from <= offset && #[trigger] slot_in(len, range, offset) && p.0 == base + offset
                    && p.1 == le8(image, offset) && is_target(len, base, p.1);
            if offset == from {
                assert(takes && own == p);
                assert(all[0] == p);
            } else {
                assert(offset >= from + 8);
                assert(slot_in(len, range, offset));
                assert(rest.contains(p));
                let k = choose|k: int| 0 <= k < rest.len() && rest[k] == p;
                if takes {
                    assert(all[k + 1] == p);
                } else {
                    assert(all[k] == p);
                }
            }
        }
    } else {
        assert(all =~= Seq::<(u64, u64)>::empty());
        assert forall|offset: int| from <= offset implies !#[trigger] slot_in(
            len,
            range,
            offset,
        ) by {
            if slot_in(len, range, offset) {
                lemma_slot_range(len, range, from, offset);
            }
        }
    }
}

/// The pointers of the ranges are exactly the aligned qwords in them that are
/// user-space addresses, aligned to eight and outside the image, each with the
/// address of its slot.
pub proof fn lemma_pointers_listed(
    image: Seq<u8>,
    base: u64,
    ranges: Seq<(u64, u64)>,
    slot: u64,
    target: u64,
)
    ensures
        all_pointers(image, base, ranges).contains((slot, target)) <==> slot_stands(
            image.len() as int,
            ranges,
            slot - base,
        ) && le8(image, slot - base) == target && 0x10000 <= target < 0x8000_0000_0000 && target % 8
            == 0 && !(base <= target < base + image.len()),
    decreases ranges.len(),
{
    let len = image.len() as int;
    let p = (slot, target);
    let all = all_pointers(image, base, ranges);
    if ranges.len() > 0 {
        let before = ranges.drop_last();
        let last = ranges.last();
        lemma_pointers_listed(image, base, before, slot, target);
        lemma_range_pointers(image, base, last, first_slot(last.0), p);
        let a = all_pointers(image, base, before);
        let b = range_pointers(image, base, last, first_slot(last.0));
        lemma_joined(a, b, p);
        let offset = slot - base;
        lemma_slot_split(len, ranges, offset);
        if b.contains(p) {
            let o = choose|o: int|
                first_slot(last.0) <= o && #[trigger] slot_in(len, last, o) && p.0 == base + o
                    && p.1 == le8(image, o) && is_target(len, base, p.1);
            assert(o == offset);
        }
    }
}

/// Two lists one behind the other hold what either of them holds.
pub proof fn lemma_joined<T>(a: Seq<T>, b: Seq<T>, x: T)
    ensures
        (a + b).contains(x) <==> a.contains(x) || b.contains(x),
{
    let all = a + b;
    if all.contains(x) {
        let k = choose|k: int| 0 <= k < all.len() && all[k] == x;
        if k < a.len() {
            assert(a[k] == x);
        } else {
            assert(b[k - a.len()] == x);
        }
    }
    if a.contains(x) {
        let k = choose|k: int| 0 <= k < a.len() && a[k] == x;
        assert(all[k] == x);
    }
    if b.contains(x) {
        let k = choose|k: int| 0 <= k < b.len() && b[k] == x;
        assert(all[k + a.len()] == x);
    }
}

proof fn lemma_slot_split(len: int, ranges: Seq<(u64, u64)>, offset: int)
    requires
        ranges.len() > 0,
    ensures
        slot_stands(len, ranges, offset) <==> slot_stands(len, ranges.drop_last(), offset)
            || slot_in(len, ranges.last(), offset),
        slot_in(len, ranges.last(), offset) ==> first_slot(ranges.last().0) <= offset,
{
    let before = ranges.drop_last();
    let last = ranges.last();
    if slot_stands(len, before, offset) {
        let r = choose|r: int|
            0 <= r < before.len() && (#[trigger] before[r]).0 <= offset && offset + 8
                <= before[r].0 + before[r].1 && offset % 8 == 0 && offset + 8 <= len;
        assert(ranges[r] == before[r]);
    }
    if slot_in(len, last, offset) {
        assert(ranges[ranges.len() - 1] == last);
    }
    if slot_stands(len, ranges, offset) && !slot_stands(len, before, offset) {
        let r = choose|r: int|
            0 <= r < ranges.len() && (#[trigger] ranges[r]).0 <= offset && offset + 8
                <= ranges[r].0 + ranges[r].1 && offset % 8 == 0 && offset + 8 <= len;
        if r < before.len() {
            assert(before[r] == ranges[r]);
        }
    }
}

proof fn lemma_range_holding(
    image: Seq<u8>,
    base: u64,
    range: (u64, u64),
    from: int,
    object: u64,
    slot: u64,
)
    requires
        from % 8 == 0,
        range.0 <= from,
    ensures
        range_holding(image, base, range, from, object).contains(slot) <==> exists|offset: int|
            from <= offset && #[trigger] slot_in(image.len() as int, range, offset) && slot == base
                + offset && le8(image, offset) == object,
    decreases image.len() - from,
{
    let len = image.len() as int;
    let all = range_holding(image, base, range, from, object);
    if slot_in(len, range, from) {
        lemma_range_holding(image, base, range, from + 8, object, slot);
        let rest = range_holding(image, base, range, from + 8, object);
        let takes = le8(image, from) == object && base + from <= u64::MAX;
        if all.contains(slot) {
            let k = choose|k: int| 0 <= k < all.len() && all[k] == slot;
            if takes && k == 0 {
                assert(slot_in(len, range, from));
            } else if takes {
                assert(rest[k - 1] == slot);
            } else {
                assert(rest[k] == slot);
            }
        }
        if exists|offset: int|
            from <= offset && #[trigger] slot_in(len, range, offset) && slot == base + offset && le8(
                image,
                offset,
            ) == object {
            let offset = choose|offset: int|
                from <= offset && #[trigger] slot_in(len, range, offset) && slot == base + offset
                    && le8(image, offset) == object;
            if offset == from {
                assert(all[0] == slot);
            } else {
                assert(offset >= from + 8);
                assert(slot_in(len, range, offset));
                assert(rest.contains(slot));
                let k = choose|k: int| 0 <= k < rest.len() && rest[k] == slot;
                if takes {
                    assert(all[k + 1] == slot);
                } else {
                    assert(all[k] == slot);
                }
            }
        }
    } else {
        assert(all =~= Seq::<u64>::empty());
        assert forall|offset: int| from <= offset implies !#[trigger] slot_in(
            len,
            range,
            offset,
        ) by {
            if slot_in(len, range, offset) {
                lemma_slot_range(len, range, from, offset);
            }
        }
    }
}

/// The globals that hold an object are exactly the aligned slots of the ranges
/// whose eight bytes are its address.
pub proof fn lemma_holders_listed(
    image: Seq<u8>,
    base: u64,
    ranges: Seq<(u64, u64)>,
    object: u64,
    slot: u64,
)
    ensures
        slots_holding(image, base, ranges, object).contains(slot) <==> slot_stands(
            image.len() as int,
            ranges,
            slot - base,
        ) && le8(image, slot - base) == object,
    decreases ranges.len(),
{
    let len = image.len() as int;
    let all = slots_holding(image, base, ranges, object);
    let offset = slot - base;
    if ranges.len() > 0 {
        let before = ranges.drop_last();
        let last = ranges.last();
        lemma_holders_listed(image, base, before, object, slot);
        lemma_range_holding(image, base, last, first_slot(last.0), object, slot);
        let a = slots_holding(image, base, before, object);
        let b = range_holding(image, base, last, first_slot(last.0), object);
        lemma_joined(a, b, slot);
        lemma_slot_split(len, ranges, offset);
        if b.contains(slot) {
            let o = choose|o: int|
                first_slot(last.0) <= o && #[trigger] slot_in(len, last, o) && slot == base + o
                    && le8(image, o) == object;
            assert(o == offset);
        }
    }
}

proof fn lemma_contenders<A: Anchor>(
    anchor: &A,
    mem: Map<int, u8>,
    slots: Seq<(u64, u64)>,
    span: nat,
    item: (u64, u64),
)
    requires
        span > 0,
    ensures
        passing(anchor, mem, slots, span).contains(item) <==> slots.contains(item) && anchor.gates(
            mem,
            raw(mem, item.1 as int, span),
        ),
    decreases slots.len(),
{
    if slots.len() > 0 {
        let before = slots.drop_last();
        let last = slots.last();
        lemma_contenders(anchor, mem, before, span, item);
        let was = passing(anchor, mem, before, span);
        let now = passing(anchor, mem, slots, span);
        let takes = anchor.gates(mem, raw(mem, last.1 as int, span));
        if now.contains(item) {
            let k = choose|k: int| 0 <= k < now.len() && now[k] == item;
            if takes && k == was.len() {
                assert(slots[slots.len() - 1] == item);
            } else {
                assert(was[k] == item);
                let j = choose|j: int| 0 <= j < before.len() && before[j] == item;
                assert(slots[j] == item);
            }
        }
        if slots.contains(item) && anchor.gates(mem, raw(mem, item.1 as int, span)) {
            let j = choose|j: int| 0 <= j < slots.len() && slots[j] == item;
            if j < before.len() {
                assert(before[j] == item);
                let k = choose|k: int| 0 <= k < was.len() && was[k] == item;
                assert(now[k] == item);
            } else {
                assert(now[was.len() as int] == item);
            }
        }
    }
}

proof fn lemma_strong<A: Anchor>(
    anchor: &A,
    mem: Map<int, u8>,
    slots: Seq<(u64, u64)>,
    min: usize,
    c: (u64, u64, usize),
)
    ensures
        strong(anchor, mem, slots, min).contains(c) <==> slots.contains((c.0, c.1)) && c.2
            == anchor.evidence(mem, c.1) && c.2 >= min,
    decreases slots.len(),
{
    if slots.len() > 0 {
        let before = slots.drop_last();
        let last = slots.last();
        let item = (c.0, c.1);
        lemma_strong(anchor, mem, before, min, c);
        let was = strong(anchor, mem, before, min);
        let now = strong(anchor, mem, slots, min);
        let takes = anchor.evidence(mem, last.1) >= min;
        if now.contains(c) {
            let k = choose|k: int| 0 <= k < now.len() && now[k] == c;
            if takes && k == was.len() {
                assert(slots[slots.len() - 1] == item);
            } else {
                assert(was[k] == c);
                let j = choose|j: int| 0 <= j < before.len() && before[j] == item;
                assert(slots[j] == item);
            }
        }
        if slots.contains(item) && c.2 == anchor.evidence(mem, c.1) && c.2 >= min {
            let j = choose|j: int| 0 <= j < slots.len() && slots[j] == item;
            if j < before.len() {
                assert(before[j] == item);
                let k = choose|k: int| 0 <= k < was.len() && was[k] == c;
                assert(now[k] == c);
            } else {
                assert(now[was.len() as int] == c);
            }
        }
    }
}

/// Of candidates with objects of their own, the one that passes the quick test
/// and shows enough evidence, and more than every other that passes, is found; a
/// scan that finds a global finds that of a candidate which does.
pub proof fn lemma_best_object_found<A: Anchor>(
    anchor: &A,
    mem: Map<int, u8>,
    slots: Seq<(u64, u64)>,
    scan: AnchorScan,
    best: (u64, u64),
    found: Option<u64>,
)
    requires
        scan.head_span > 0,
        slots.len() <= 0x2_0000,
        passing(anchor, mem, slots, scan.head_span as nat).len() <= scan.max_probes,
        forall|i: int, j: int|
            0 <= i < j < slots.len() ==> (#[trigger] slots[i]).1 != (#[trigger] slots[j]).1,
        slots.contains(best),
        anchor.gates(mem, raw(mem, best.1 as int, scan.head_span as nat)),
        anchor.evidence(mem, best.1) >= scan.min_evidence,
        forall|i: int|
            0 <= i < slots.len() && (#[trigger] slots[i]).1 != best.1 && anchor.gates(
                mem,
                raw(mem, slots[i].1 as int, scan.head_span as nat),
            ) ==> anchor.evidence(mem, slots[i].1) < anchor.evidence(mem, best.1),
        finds(anchor, mem, slots, scan, found),
    ensures
        found == Some(best.0),
{
    let span = scan.head_span as nat;
    let list = contenders(anchor, mem, slots, scan);
    let pass = passing(anchor, mem, slots, span);
    let top = (best.0, best.1, anchor.evidence(mem, best.1));
    lemma_contenders(anchor, mem, slots, span, best);
    lemma_strong(anchor, mem, pass, scan.min_evidence, top);
    assert(list.contains(top));
    assert forall|j: int| 0 <= j < list.len() implies (#[trigger] list[j]).2 <= top.2 && (list[j].2
        == top.2 ==> list[j] == top) by {
        let c = list[j];
        assert(list.contains(c));
        lemma_strong(anchor, mem, pass, scan.min_evidence, c);
        lemma_contenders(anchor, mem, slots, span, (c.0, c.1));
        let i = choose|i: int| 0 <= i < slots.len() && slots[i] == (c.0, c.1);
        assert(slots[i].1 == c.1);
        if c.1 == best.1 {
            let b = choose|b: int| 0 <= b < slots.len() && slots[b] == best;
            if i < b {
                assert(slots[i].1 != slots[b].1);
            } else if b < i {
                assert(slots[b].1 != slots[i].1);
            }
        }
    }
    match found {
        Some(slot) => {
            let k = choose|k: int| #[trigger] wins(list, k) && list[k].0 == slot;
            let t = choose|t: int| 0 <= t < list.len() && list[t] == top;
            assert(list[t].2 <= list[k].2);
            assert(list[k].2 <= top.2);
        },
        None => {
            lemma_first_top(list, top);
        },
    }
}

proof fn lemma_first_top(list: Seq<(u64, u64, usize)>, top: (u64, u64, usize))
    requires
        list.contains(top),
        forall|j: int|
            0 <= j < list.len() ==> (#[trigger] list[j]).2 <= top.2 && (list[j].2 == top.2
                ==> list[j] == top),
    ensures
        exists|k: int| #[trigger] wins(list, k),
{
    let t = choose|t: int| 0 <= t < list.len() && list[t] == top;
    lemma_lowest_top(list, top, t);
}

proof fn lemma_lowest_top(list: Seq<(u64, u64, usize)>, top: (u64, u64, usize), t: int)
    requires
        0 <= t < list.len(),
        list[t] == top,
        forall|j: int|
            0 <= j < list.len() ==> (#[trigger] list[j]).2 <= top.2 && (list[j].2 == top.2
                ==> list[j] == top),
    ensures
        exists|k: int| #[trigger] wins(list, k),
    decreases t,
{
    if exists|j: int| 0 <= j < t && #[trigger] list[j] == top {
        let j = choose|j: int| 0 <= j < t && #[trigger] list[j] == top;
        lemma_lowest_top(list, top, j);
    } else {
        assert(is_top(list, t)) by {
            assert forall|j: int| 0 <= j < t implies (#[trigger] list[j]).2 < list[t].2 by {
                assert(list[j] != top);
            }
        }
        assert(!has_rival(list, t));
        assert(wins(list, t));
    }
}

/// What a scan finds is the global of a candidate that passes the quick test and
/// shows enough evidence, and no more candidates pass than it may score.
pub proof fn lemma_found_shows<A: Anchor>(
    anchor: &A,
    mem: Map<int, u8>,
    slots: Seq<(u64, u64)>,
    scan: AnchorScan,
    slot: u64,
)
    requires
        scan.head_span > 0,
        finds(anchor, mem, slots, scan, Some(slot)),
    ensures
        slots.len() <= 0x2_0000,
        passing(anchor, mem, slots, scan.head_span as nat).len() <= scan.max_probes,
        exists|i: int|
            0 <= i < slots.len() && (#[trigger] slots[i]).0 == slot && anchor.gates(
                mem,
                raw(mem, slots[i].1 as int, scan.head_span as nat),
            ) && anchor.evidence(mem, slots[i].1) >= scan.min_evidence,
{
    let span = scan.head_span as nat;
    let list = contenders(anchor, mem, slots, scan);
    let pass = passing(anchor, mem, slots, span);
    let k = choose|k: int| #[trigger] wins(list, k) && list[k].0 == slot;
    let c = list[k];
    assert(list.contains(c));
    lemma_strong(anchor, mem, pass, scan.min_evidence, c);
    lemma_contenders(anchor, mem, slots, span, (c.0, c.1));
    let i = choose|i: int| 0 <= i < slots.len() && slots[i] == (c.0, c.1);
    assert(slots[i].0 == slot);
}

/// Of the slots that hold an object the first eight are reported, in their order, and all
/// of them where there are no more.
pub proof fn lemma_first_aliases(all: Seq<u64>, i: int)
    ensures
        all.len() <= 8 ==> capped(all, MAX_ALIASES as int) == all,
        all.len() > 8 ==> capped(all, MAX_ALIASES as int).len() == 8,
        0 <= i < all.len() && i < 8 ==> capped(all, MAX_ALIASES as int)[i] == all[i],
{
}

} // verus!
