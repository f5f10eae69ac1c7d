use std::cell::Cell;

use cs2_dumper::analysis::global_anchor::{
    find_global, find_publishing_global, globals_holding, pick, read_head, Anchor, AnchorScan, Head,
    MAX_TARGETS,
};
use cs2_dumper::analysis::read::u64_va;
use cs2_dumper::memory::fake::FakeMemory;
use cs2_dumper::memory::Memory;

const BASE: u64 = 0x0000_7FFA_1000_0000;
const DATA_RVA: u64 = 0x1000;
const DATA_SIZE: u64 = 0x2000;

/// What the quick test recognises.
const MAGIC: u64 = 0x0BAD_C0DE_0BAD_C0DE;

fn image() -> Vec<u8> {
    vec![0u8; (DATA_RVA + DATA_SIZE) as usize]
}

fn place(image: &mut [u8], rva: u64, target: u64) {
    image[rva as usize..][..8].copy_from_slice(&target.to_le_bytes());
}

/// An object the quick test can recognise, carrying its own evidence.
fn object(mem: &mut FakeMemory, magic: u64, evidence: usize) -> u64 {
    let object = mem.allocate(0x20);
    mem.put_u64(object, magic);
    mem.put_u64(object + 8, evidence as u64);
    object
}

/// Scores an object by the evidence that it carries, and counts the scorings.
struct Carried<'a> {
    scored: &'a Cell<usize>,
}

impl<'a> Anchor for Carried<'a> {
    fn gate(&self, _mem: &Memory, head: &Head) -> bool {
        head.u64(0) == MAGIC
    }

    fn score(&self, mem: &Memory, object: u64) -> usize {
        self.scored.set(self.scored.get() + 1);
        u64_va(mem, object.saturating_add(8)) as usize
    }
}

/// Scores every object alike, and counts the scorings.
struct Constant<'a> {
    scored: &'a Cell<usize>,
}

impl<'a> Anchor for Constant<'a> {
    fn gate(&self, _mem: &Memory, head: &Head) -> bool {
        head.u64(0) == MAGIC
    }

    fn score(&self, _mem: &Memory, _object: u64) -> usize {
        self.scored.set(self.scored.get() + 1);
        99
    }
}

/// The probe budget is what stops a missing signature from turning into a
/// hang, and it is spent in address order: a scan that runs out gives up
/// rather than reporting the best of what it happened to reach.
#[test]
fn the_probe_budget_bounds_the_scan_and_declines_when_it_runs_out() {
    let mut mem = FakeMemory::new();
    let weak: Vec<u64> = (0..4).map(|_| object(&mut mem, MAGIC, 1)).collect();
    let strong = object(&mut mem, MAGIC, 5);
    let mut image = image();
    for (index, object) in weak.iter().enumerate() {
        place(&mut image, DATA_RVA + 0x100 * index as u64, *object);
    }
    place(&mut image, DATA_RVA + 0x800, strong);

    let scan = |max_probes| AnchorScan {
        head_span: 0x20,
        min_evidence: 5,
        max_probes,
    };
    let scored = Cell::new(0usize);
    let anchor = Carried { scored: &scored };
    let ranges = [(DATA_RVA, DATA_SIZE)];

    assert_eq!(
        find_global(mem.memory(), &image, BASE, &ranges, scan(2), &anchor),
        None,
        "the strong candidate is past the budget and must not be guessed at"
    );
    assert_eq!(
        scored.get(),
        2,
        "the budget caps full scorings, not quick tests"
    );

    assert_eq!(
        find_global(mem.memory(), &image, BASE, &ranges, scan(8), &anchor),
        Some(BASE + DATA_RVA + 0x800)
    );
}

/// A pointer that the quick test rejects, and one leading nowhere at all, never
/// reach the scorer.
#[test]
fn rejected_and_unreadable_targets_are_never_scored() {
    let mut mem = FakeMemory::new();
    let other = object(&mut mem, 0xDEAD_BEEF, 99);
    let mut image = image();
    place(&mut image, DATA_RVA + 0x100, other);
    // Never mapped, so reading its head fails outright.
    place(&mut image, DATA_RVA + 0x200, 0x0000_7FF0_0000_0000);

    let scored = Cell::new(0usize);
    let scan = AnchorScan {
        head_span: 0x20,
        min_evidence: 1,
        max_probes: 64,
    };
    let found = find_global(
        mem.memory(),
        &image,
        BASE,
        &[(DATA_RVA, DATA_SIZE)],
        scan,
        &Constant { scored: &scored },
    );

    assert_eq!(found, None);
    assert_eq!(scored.get(), 0);
}

/// The inverse direction: an object located some other way is named by the
/// one global that holds it, and a second holder makes the name a guess.
#[test]
fn a_uniquely_published_object_is_named_by_its_global() {
    const OBJECT: u64 = 0x0000_01F2_3456_7890;
    let ranges = [(DATA_RVA, DATA_SIZE)];
    let mut image = image();
    place(&mut image, DATA_RVA + 0x120, OBJECT);
    // A neighbouring global holding something else must not interfere.
    place(&mut image, DATA_RVA + 0x128, OBJECT + 8);

    assert_eq!(
        find_publishing_global(&image, BASE, &ranges, OBJECT),
        Some(BASE + DATA_RVA + 0x120)
    );

    // A copy of the pointer elsewhere in the section: both slots read alike
    // from here, so the scan cannot promise which one a consumer should
    // dereference.
    place(&mut image, DATA_RVA + 0x900, OBJECT);
    assert_eq!(globals_holding(&image, BASE, &ranges, OBJECT).len(), 2);
    assert_eq!(find_publishing_global(&image, BASE, &ranges, OBJECT), None);
}

/// An object the module never points at yields nothing, and a null one is
/// not "found" in the zero-filled data either.
#[test]
fn an_unpublished_object_yields_no_global() {
    let ranges = [(DATA_RVA, DATA_SIZE)];
    let image = image();

    assert_eq!(
        find_publishing_global(&image, BASE, &ranges, 0x0000_01F2_3456_7890),
        None
    );
    assert_eq!(
        find_publishing_global(&image, BASE, &ranges, 0),
        None
    );
}

#[test]
fn the_better_candidate_settles_an_earlier_tie() {
    assert_eq!(pick(&vec![(1, 10, 3), (2, 20, 3)]), None);
    assert_eq!(pick(&vec![(1, 10, 3), (2, 10, 3)]), Some(1));
    assert_eq!(pick(&vec![(1, 10, 3), (2, 20, 3), (3, 30, 4)]), Some(3));
    assert_eq!(pick(&Vec::new()), None);
}

#[test]
fn a_scan_that_runs_out_reports_nothing_of_what_it_reached() {
    let mut mem = FakeMemory::new();
    let strong = object(&mut mem, MAGIC, 9);
    let weak = object(&mut mem, MAGIC, 1);
    let mut image = image();
    place(&mut image, DATA_RVA + 0x100, strong);
    place(&mut image, DATA_RVA + 0x200, weak);
    let ranges = [(DATA_RVA, DATA_SIZE)];
    let scored = Cell::new(0usize);
    let anchor = Carried { scored: &scored };
    let scan = |max_probes| AnchorScan { head_span: 0x20, min_evidence: 5, max_probes };
    assert_eq!(find_global(mem.memory(), &image, BASE, &ranges, scan(1), &anchor), None);
    assert_eq!(
        find_global(mem.memory(), &image, BASE, &ranges, scan(2), &anchor),
        Some(BASE + DATA_RVA + 0x100)
    );
}

#[test]
fn fields_behind_the_head_are_null() {
    let mut mem = FakeMemory::new();
    let at = mem.allocate(0x10);
    mem.put_u64(at, 0x1122_3344_5566_7788);
    let head = read_head(mem.memory(), at, 8);
    assert_eq!(head.u64(0), 0x1122_3344_5566_7788);
    assert_eq!(head.u8(7), 0x11);
    assert_eq!(head.u16(0), 0x7788);
    assert_eq!(head.u32(4), 0x1122_3344);
    assert_eq!(head.u64(1), 0);
}

/// Past its limit of targets the scan gives up.
#[test]
fn a_scan_with_too_many_targets_finds_nothing() {
    let mut mem = FakeMemory::new();
    let strong = object(&mut mem, MAGIC, 9);
    let scored = Cell::new(0usize);
    let anchor = Carried { scored: &scored };
    let scan = AnchorScan { head_span: 0x20, min_evidence: 5, max_probes: 8 };
    let size = 8 * (MAX_TARGETS as u64 + 1);
    let mut image = vec![0u8; size as usize];
    place(&mut image, 0, strong);
    for slot in 1..MAX_TARGETS as u64 {
        place(&mut image, 8 * slot, 0x0000_1000_0000_0000 + 8 * slot);
    }
    let found = find_global(mem.memory(), &image, BASE, &[(0, size)], scan, &anchor);
    assert_eq!(found, Some(BASE));
    place(&mut image, 8 * MAX_TARGETS as u64, 0x0000_2000_0000_0000);
    let found = find_global(mem.memory(), &image, BASE, &[(0, size)], scan, &anchor);
    assert_eq!(found, None);
}
