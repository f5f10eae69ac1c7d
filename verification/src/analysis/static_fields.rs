//! The static fields of schema classes.
//!
//! Where a class binding keeps them has moved between builds. A few layouts are
//! tried on a sample of bindings, and one is accepted only where it validates
//! broadly and clearly better than the others; else no static fields are
//! reported.
//!
//! ```text
//! class binding:
//!   +0x26 or +0x28  count (i16)      +0x38 or +0x50  array
//!
//! entry (stride 0x18 or 0x20):
//!   +0x00  name   +0x08  type   +0x10  instance
//! ```

use crate::analysis::convars::printable;
use crate::analysis::gameevents::{address, indexed_addr};
use crate::analysis::read::{cstr, cstr_in, i16_va, ld16, ld64, signed16, u64_va};
use crate::memory::Memory;
use crate::memory::stored::{lemma_loads, lemma_text, stands16, stands64, stands_text};
use crate::text::{lemma_without_spaces, remove_spaces, without_spaces};
use vstd::prelude::*;
use vstd::string::*;
use vstd::utf8::*;

verus! {

/// A static member of a class. Its address is not kept: it changes with every
/// launch.
#[derive(Debug)]
pub struct StaticField {
    pub name: String,
    pub field_type: String,
    pub index: u16,
}

pub struct StaticFieldModel {
    pub name: Seq<char>,
    pub field_type: Seq<char>,
    pub index: u16,
}

impl StaticField {
    pub open spec fn model(&self) -> StaticFieldModel {
        StaticFieldModel {
            name: self.name@,
            field_type: self.field_type@,
            index: self.index,
        }
    }
}

pub open spec fn static_models(list: Seq<StaticField>) -> Seq<StaticFieldModel> {
    Seq::new(list.len(), |i: int| list[i].model())
}

#[derive(Clone, Copy, Debug, PartialEq, Eq, Structural)]
pub struct StaticFieldLayout {
    /// Where a binding keeps the number of its static fields.
    pub count: u64,
    /// Where a binding keeps the pointer to them.
    pub array: u64,
    pub stride: u64,
    pub entry_name: u64,
    pub entry_type: u64,
    pub entry_instance: u64,
}

/// Candidate `i` of five.
pub open spec fn candidate(i: int) -> StaticFieldLayout {
    StaticFieldLayout {
        count: if i == 1 || i == 3 {
            0x28
        } else {
            0x26
        },
        array: if i == 3 {
            0x50
        } else {
            0x38
        },
        stride: if i == 2 {
            0x20
        } else {
            0x18
        },
        entry_name: 0x00,
        entry_type: if i == 4 {
            0x10
        } else {
            0x08
        },
        entry_instance: if i == 4 {
            0x08
        } else {
            0x10
        },
    }
}

pub fn candidate_layout(i: usize) -> (layout: StaticFieldLayout)
    ensures
        layout == candidate(i as int),
{
    StaticFieldLayout {
        count: if i == 1 || i == 3 {
            0x28
        } else {
            0x26
        },
        array: if i == 3 {
            0x50
        } else {
            0x38
        },
        stride: if i == 2 {
            0x20
        } else {
            0x18
        },
        entry_name: 0x00,
        entry_type: if i == 4 {
            0x10
        } else {
            0x08
        },
        entry_instance: if i == 4 {
            0x08
        } else {
            0x10
        },
    }
}

/// Where a type keeps its name.
pub const TYPE_NAME: u64 = 0x08;

/// No class has more static fields.
pub const MAX_STATIC_FIELDS: i16 = 1024;

/// Entries of a class that are looked at.
pub const PROBE_ENTRIES: i16 = 8;

/// Valid entries that a layout must show.
pub const MIN_EVIDENCE: usize = 16;

/// How many times as much evidence the winner shows as any other.
pub const DOMINANCE: usize = 2;

/// A letter or `_`.
pub open spec fn ident_start(b: u8) -> bool {
    0x41 <= b <= 0x5a || 0x61 <= b <= 0x7a || b == 0x5f
}

/// A letter, a digit or `_`.
pub open spec fn ident_part(b: u8) -> bool {
    ident_start(b) || 0x30 <= b <= 0x39
}

/// An identifier of at most 128 bytes.
pub open spec fn identifier(name: Seq<char>) -> bool {
    let bytes = encode_utf8(name);
    &&& 1 <= bytes.len() <= 128
    &&& ident_start(bytes[0])
    &&& forall|i: int| 1 <= i < bytes.len() ==> ident_part(#[trigger] bytes[i])
}

/// Printable text of one to 256 bytes.
pub open spec fn type_text(name: Seq<char>) -> bool {
    let bytes = encode_utf8(name);
    &&& 1 <= bytes.len() <= 256
    &&& forall|i: int| 0 <= i < bytes.len() ==> printable(#[trigger] bytes[i])
}

fn starts_ident(b: u8) -> (ok: bool)
    ensures
        ok == ident_start(b),
{
    (0x41 <= b && b <= 0x5a) || (0x61 <= b && b <= 0x7a) || b == 0x5f
}

pub fn plausible_ident(name: &str) -> (ok: bool)
    ensures
        ok == identifier(name@),
{
    let bytes = name.as_bytes();
    if bytes.len() < 1 || bytes.len() > 128 || !starts_ident(bytes[0]) {
        return false;
    }
    let mut i: usize = 1;
    while i < bytes.len()
        invariant
            1 <= i <= bytes@.len(),
            bytes@ == encode_utf8(name@),
            forall|k: int| 1 <= k < i ==> ident_part(#[trigger] bytes@[k]),
        decreases bytes@.len() - i,
    {
        if !starts_ident(bytes[i]) && !(0x30 <= bytes[i] && bytes[i] <= 0x39) {
            assert(!ident_part(bytes@[i as int]));
            return false;
        }
        i = i + 1;
    }
    true
}

pub fn plausible_type_name(name: &str) -> (ok: bool)
    ensures
        ok == type_text(name@),
{
    let bytes = name.as_bytes();
    if bytes.len() < 1 || bytes.len() > 256 {
        return false;
    }
    let mut i: usize = 0;
    while i < bytes.len()
        invariant
            i <= bytes@.len(),
            bytes@ == encode_utf8(name@),
            forall|k: int| 0 <= k < i ==> printable(#[trigger] bytes@[k]),
        decreases bytes@.len() - i,
    {
        if bytes[i] < 0x20 || bytes[i] > 0x7e {
            assert(!printable(bytes@[i as int]));
            return false;
        }
        i = i + 1;
    }
    true
}

/// The static field in entry `index`; none where the entry has no storage, no
/// identifier for a name or no type with a name.
pub open spec fn entry_in(
    mem: Map<int, u8>,
    array: u64,
    index: int,
    layout: StaticFieldLayout,
) -> Option<StaticFieldModel> {
    let entry = array + layout.stride * index;
    let instance_at = address(entry + layout.entry_instance);
    let name_at = address(entry + layout.entry_name);
    let type_at = address(entry + layout.entry_type);
    if instance_at is None || name_at is None || type_at is None {
        None
    } else {
        let name = cstr_in(mem, ld64(mem, name_at->0 as int));
        let ty = ld64(mem, type_at->0 as int);
        let type_name_at = address(ty + TYPE_NAME);
        let text = cstr_in(mem, ld64(mem, type_name_at->0 as int));
        if ld64(mem, instance_at->0 as int) < 0x10000 || !identifier(name) || ty < 0x10000
            || type_name_at is None || !type_text(text) {
            None
        } else {
            Some(
                StaticFieldModel { name, field_type: without_spaces(text), index: index as u16 },
            )
        }
    }
}

fn read_entry(mem: &Memory, array: u64, index: u16, layout: &StaticFieldLayout) -> (field: Option<
    StaticField,
>)
    requires
        mem.wf(),
    ensures
        match entry_in(mem@, array, index as int, *layout) {
            Some(model) => field matches Some(f) && f.model() == model,
            None => field is None,
        },
{
    let (instance_at, name_at, type_at) = match (
        indexed_addr(array, layout.stride, index as u64, layout.entry_instance),
        indexed_addr(array, layout.stride, index as u64, layout.entry_name),
        indexed_addr(array, layout.stride, index as u64, layout.entry_type),
    ) {
        (Some(i), Some(n), Some(t)) => (i, n, t),
        _ => {
            return None;
        },
    };
    if u64_va(mem, instance_at) < 0x10000 {
        return None;
    }
    let name = cstr(mem, u64_va(mem, name_at));
    if !plausible_ident(name.as_str()) {
        return None;
    }
    let ty: u64 = u64_va(mem, type_at);
    if ty < 0x10000 {
        return None;
    }
    match ty.checked_add(TYPE_NAME) {
        Some(at) => {
            let text = cstr(mem, u64_va(mem, at));
            if !plausible_type_name(text.as_str()) {
                return None;
            }
            Some(StaticField { name, field_type: remove_spaces(text.as_str()), index })
        },
        None => None,
    }
}

/// The number of static fields that a binding reports, where it can be one.
pub open spec fn count_in(mem: Map<int, u8>, binding: u64, layout: StaticFieldLayout) -> Option<int> {
    match address(binding + layout.count) {
        Some(at) => {
            let count = signed16(ld16(mem, at as int) as int);
            if 1 <= count <= MAX_STATIC_FIELDS {
                Some(count)
            } else {
                None
            }
        },
        None => None,
    }
}

/// The array of static fields that a binding reports, where it can be one.
pub open spec fn array_in(mem: Map<int, u8>, binding: u64, layout: StaticFieldLayout) -> Option<u64> {
    match address(binding + layout.array) {
        Some(at) => {
            let array = ld64(mem, at as int);
            if array < 0x10000 {
                None
            } else {
                Some(array)
            }
        },
        None => None,
    }
}

/// The static fields in the first `n` entries.
pub open spec fn entries_in(
    mem: Map<int, u8>,
    array: u64,
    n: int,
    layout: StaticFieldLayout,
) -> Seq<StaticFieldModel>
    decreases n,
{
    if n <= 0 {
        Seq::empty()
    } else {
        let before = entries_in(mem, array, n - 1, layout);
        match entry_in(mem, array, n - 1, layout) {
            Some(field) => before.push(field),
            None => before,
        }
    }
}

/// The first static fields of a binding, at most `limit` entries.
pub open spec fn fields_of(
    mem: Map<int, u8>,
    binding: u64,
    layout: StaticFieldLayout,
    limit: int,
) -> Seq<StaticFieldModel> {
    let count = count_in(mem, binding, layout);
    let array = array_in(mem, binding, layout);
    if count is None || array is None {
        Seq::empty()
    } else {
        entries_in(
            mem,
            array->0,
            if count->0 < limit {
                count->0
            } else {
                limit
            },
            layout,
        )
    }
}

fn read_fields(mem: &Memory, binding: u64, layout: &StaticFieldLayout, limit: i16) -> (fields: Vec<
    StaticField,
>)
    requires
        mem.wf(),
        0 <= limit,
    ensures
        static_models(fields@) == fields_of(mem@, binding, *layout, limit as int),
        fields@.len() <= limit,
{
    let mut fields: Vec<StaticField> = Vec::new();
    assert(static_models(fields@) =~= Seq::<StaticFieldModel>::empty());
    let count: i16 = match binding.checked_add(layout.count) {
        Some(at) => i16_va(mem, at),
        None => {
            return fields;
        },
    };
    if count < 1 || count > MAX_STATIC_FIELDS {
        return fields;
    }
    let array: u64 = match binding.checked_add(layout.array) {
        Some(at) => u64_va(mem, at),
        None => {
            return fields;
        },
    };
    if array < 0x10000 {
        return fields;
    }
    let n: i16 = if count < limit {
        count
    } else {
        limit
    };
    let mut i: i16 = 0;
    while i < n
        invariant
            mem.wf(),
            0 <= i <= n,
            fields@.len() <= i,
            static_models(fields@) == entries_in(mem@, array, i as int, *layout),
        decreases n - i,
    {
        match read_entry(mem, array, i as u16, layout) {
            Some(field) => {
                let ghost before = static_models(fields@);
                let ghost model = field.model();
                fields.push(field);
                assert(static_models(fields@) =~= before.push(model));
            },
            None => {},
        }
        i = i + 1;
    }
    fields
}

/// Reads the static fields of a binding. An entry that does not validate is
/// left out.
pub fn read_static_fields(mem: &Memory, binding_va: u64, layout: StaticFieldLayout) -> (fields: Vec<
    StaticField,
>)
    requires
        mem.wf(),
    ensures
        static_models(fields@) == fields_of(mem@, binding_va, layout, MAX_STATIC_FIELDS as int),
{
    read_fields(mem, binding_va, &layout, MAX_STATIC_FIELDS)
}

/// How many of the first entries of the bindings validate under a layout.
#[verifier::opaque]
pub open spec fn evidence(mem: Map<int, u8>, bindings: Seq<u64>, layout: StaticFieldLayout) -> int
    decreases bindings.len(),
{
    if bindings.len() == 0 {
        0
    } else {
        evidence(mem, bindings.drop_last(), layout) + fields_of(
            mem,
            bindings.last(),
            layout,
            PROBE_ENTRIES as int,
        ).len()
    }
}

/// A layout is accepted: it shows enough evidence, and at least twice that of
/// any other.
pub open spec fn dominant(mem: Map<int, u8>, bindings: Seq<u64>, k: int) -> bool {
    &&& 0 <= k < 5
    &&& evidence(mem, bindings, candidate(k)) >= MIN_EVIDENCE
    &&& forall|j: int|
        0 <= j < 5 && j != k ==> evidence(mem, bindings, candidate(k)) >= DOMINANCE * evidence(
            mem,
            bindings,
            #[trigger] candidate(j),
        )
}

/// One layout at most is accepted.
pub proof fn lemma_dominant_unique(mem: Map<int, u8>, bindings: Seq<u64>, j: int, k: int)
    requires
        dominant(mem, bindings, j),
        dominant(mem, bindings, k),
    ensures
        j == k,
{
    if j != k {
        let a = candidate(j);
        let b = candidate(k);
        assert(evidence(mem, bindings, a) >= 2 * evidence(mem, bindings, b));
        assert(evidence(mem, bindings, b) >= 2 * evidence(mem, bindings, a));
    }
}

fn score_layout(mem: &Memory, bindings: &[u64], layout: &StaticFieldLayout) -> (score: u128)
    requires
        mem.wf(),
    ensures
        score == evidence(mem@, bindings@, *layout),
        score <= 8 * bindings@.len(),
{
    proof {
        reveal(evidence);
    }
    let mut score: u128 = 0;
    let mut i: usize = 0;
    assert(bindings@.subrange(0, 0) =~= Seq::<u64>::empty());
    while i < bindings.len()
        invariant
            mem.wf(),
            i <= bindings@.len(),
            score == evidence(mem@, bindings@.subrange(0, i as int), *layout),
            score <= 8 * i,
        decreases bindings@.len() - i,
    {
        proof {
            reveal(evidence);
        }
        let ghost head = bindings@.subrange(0, i + 1);
        assert(head.drop_last() =~= bindings@.subrange(0, i as int));
        assert(head.last() == bindings@[i as int]);
        let fields = read_fields(mem, bindings[i], layout, PROBE_ENTRIES);
        score = score + fields.len() as u128;
        i = i + 1;
    }
    assert(bindings@.subrange(0, i as int) =~= bindings@);
    score
}

/// The layout that the bindings support, or none where the evidence is weak or
/// speaks for more than one.
pub fn detect_layout(mem: &Memory, binding_vas: &[u64]) -> (layout: Option<StaticFieldLayout>)
    requires
        mem.wf(),
    ensures
        match layout {
            Some(l) => exists|k: int| #[trigger] dominant(mem@, binding_vas@, k) && l == candidate(k),
            None => forall|k: int| !#[trigger] dominant(mem@, binding_vas@, k),
        },
{
    let size: usize = binding_vas.len();
    let mut scores: Vec<u128> = Vec::new();
    let mut i: usize = 0;
    while i < 5
        invariant
            mem.wf(),
            size == binding_vas@.len(),
            i <= 5,
            scores@.len() == i,
            forall|j: int|
                0 <= j < i ==> #[trigger] scores@[j] == evidence(mem@, binding_vas@, candidate(j)),
            forall|j: int| 0 <= j < i ==> #[trigger] scores@[j] <= u128::MAX / 2,
        decreases 5 - i,
    {
        let layout = candidate_layout(i);
        let score: u128 = score_layout(mem, binding_vas, &layout);
        scores.push(score);
        i = i + 1;
    }
    let mut k: usize = 0;
    while k < 5
        invariant
            k <= 5,
            scores@.len() == 5,
            forall|j: int|
                0 <= j < 5 ==> #[trigger] scores@[j] == evidence(mem@, binding_vas@, candidate(j)),
            forall|j: int| 0 <= j < 5 ==> #[trigger] scores@[j] <= u128::MAX / 2,
            forall|j: int| 0 <= j < k ==> !#[trigger] dominant(mem@, binding_vas@, j),
        decreases 5 - k,
    {
        if dominates(&scores, k) {
            proof {
                assert forall|j: int| 0 <= j < 5 && j != k implies evidence(
                    mem@,
                    binding_vas@,
                    candidate(k as int),
                ) >= DOMINANCE * evidence(mem@, binding_vas@, #[trigger] candidate(j)) by {
                    assert(scores@[j] == evidence(mem@, binding_vas@, candidate(j)));
                }
                assert(dominant(mem@, binding_vas@, k as int));
            }
            return Some(candidate_layout(k));
        }
        proof {
            if dominant(mem@, binding_vas@, k as int) {
                assert forall|j: int| 0 <= j < 5 && j != k implies scores@[k as int] >= DOMINANCE
                    * #[trigger] scores@[j] by {
                    assert(scores@[j] == evidence(mem@, binding_vas@, candidate(j)));
                }
            }
        }
        k = k + 1;
    }
    None
}

fn dominates(scores: &Vec<u128>, k: usize) -> (ok: bool)
    requires
        k < scores@.len(),
        forall|j: int| 0 <= j < scores@.len() ==> #[trigger] scores@[j] <= u128::MAX / 2,
    ensures
        ok == (scores@[k as int] >= MIN_EVIDENCE && forall|j: int|
            0 <= j < scores@.len() && j != k ==> scores@[k as int] >= DOMINANCE
                * #[trigger] scores@[j]),
{
    if scores[k] < MIN_EVIDENCE as u128 {
        return false;
    }
    let mut j: usize = 0;
    while j < scores.len()
        invariant
            k < scores@.len(),
            j <= scores@.len(),
            forall|i: int| 0 <= i < scores@.len() ==> #[trigger] scores@[i] <= u128::MAX / 2,
            forall|i: int|
                0 <= i < j && i != k ==> scores@[k as int] >= DOMINANCE * #[trigger] scores@[i],
        decreases scores@.len() - j,
    {
        if j != k && scores[k] < DOMINANCE as u128 * scores[j] {
            return false;
        }
        j = j + 1;
    }
    true
}

/// What an entry of the static fields says.
pub struct StaticImage {
    pub name_at: u64,
    pub name: Seq<char>,
    pub type_at: u64,
    pub text_at: u64,
    pub text: Seq<char>,
    pub instance: u64,
}

/// A letter or an underscore.
pub open spec fn ident_letter(c: char) -> bool {
    'a' <= c <= 'z' || 'A' <= c <= 'Z' || c == '_'
}

/// An identifier: letters, digits and underscores, and no digit first.
pub open spec fn ident_text(name: Seq<char>) -> bool {
    &&& 1 <= name.len() <= 128
    &&& ident_letter(name[0])
    &&& forall|i: int|
        0 <= i < name.len() ==> ident_letter(#[trigger] name[i]) || '0' <= name[i] <= '9'
}

/// Printable text of one to 256 characters.
pub open spec fn shown_text(text: Seq<char>) -> bool {
    &&& 1 <= text.len() <= 256
    &&& forall|i: int| 0 <= i < text.len() ==> ' ' <= #[trigger] text[i] <= '~'
}

proof fn lemma_ident_text(name: Seq<char>)
    requires
        ident_text(name),
    ensures
        identifier(name),
        encode_utf8(name).len() <= 256,
{
    assert forall|i: int| 0 <= i < name.len() implies '\0' <= #[trigger] name[i] <= '\u{7f}' by {
        assert(ident_letter(name[i]) || '0' <= name[i] <= '9');
    }
    assert(is_ascii_chars(name));
    is_ascii_chars_encode_utf8(name);
    let b = encode_utf8(name);
    assert(b[0] == name[0] as u8);
    assert forall|i: int| 1 <= i < b.len() implies ident_part(#[trigger] b[i]) by {
        assert(ident_letter(name[i]) || '0' <= name[i] <= '9');
        assert(b[i] == name[i] as u8);
    }
}

proof fn lemma_shown_text(text: Seq<char>)
    requires
        shown_text(text),
    ensures
        type_text(text),
        encode_utf8(text).len() <= 256,
{
    assert forall|i: int| 0 <= i < text.len() implies '\0' <= #[trigger] text[i] <= '\u{7f}' by {
        assert(' ' <= text[i] <= '~');
    }
    assert(is_ascii_chars(text));
    is_ascii_chars_encode_utf8(text);
    let b = encode_utf8(text);
    assert forall|i: int| 0 <= i < b.len() implies printable(#[trigger] b[i]) by {
        assert(' ' <= text[i] <= '~');
        assert(b[i] == text[i] as u8);
    }
}

/// An entry of the static fields stands at `at`.
pub open spec fn static_stands(
    mem: Map<int, u8>,
    layout: StaticFieldLayout,
    at: int,
    s: StaticImage,
) -> bool {
    &&& s.name_at != 0
    &&& ident_text(s.name)
    &&& stands64(mem, at + layout.entry_name, s.name_at as int)
    &&& stands_text(mem, s.name_at as int, s.name)
    &&& s.type_at >= 0x10000
    &&& s.type_at + 8 <= u64::MAX
    &&& stands64(mem, at + layout.entry_type, s.type_at as int)
    &&& s.text_at != 0
    &&& shown_text(s.text)
    &&& stands64(mem, s.type_at + 8, s.text_at as int)
    &&& stands_text(mem, s.text_at as int, s.text)
    &&& s.instance >= 0x10000
    &&& stands64(mem, at + layout.entry_instance, s.instance as int)
}

/// The layout keeps its fields close by, as every candidate does.
pub open spec fn layout_close(layout: StaticFieldLayout) -> bool {
    layout.count <= 0x100 && layout.array <= 0x100 && layout.stride <= 0x100 && layout.entry_name
        <= 0x100 && layout.entry_type <= 0x100 && layout.entry_instance <= 0x100
}

/// A static field that was read is the one of entry `index`.
pub open spec fn is_static(model: StaticFieldModel, s: StaticImage, index: int) -> bool {
    &&& model.name == s.name
    &&& model.field_type == s.text.filter(|c: char| c != ' ')
    &&& model.index == index
}

proof fn lemma_static_entries(
    mem: Map<int, u8>,
    layout: StaticFieldLayout,
    array: u64,
    list: Seq<StaticImage>,
    n: int,
)
    requires
        0 <= n <= list.len(),
        list.len() <= 1024,
        layout_close(layout),
        array + 0x10_0000 <= u64::MAX,
        forall|i: int|
            0 <= i < list.len() ==> static_stands(
                mem,
                layout,
                array + layout.stride * i,
                #[trigger] list[i],
            ),
    ensures
        entries_in(mem, array, n, layout).len() == n,
        forall|i: int|
            0 <= i < n ==> is_static(
                #[trigger] entries_in(mem, array, n, layout)[i],
                list[i],
                i,
            ),
    decreases n,
{
    if n > 0 {
        lemma_static_entries(mem, layout, array, list, n - 1);
        let s = list[n - 1];
        let i = n - 1;
        assert(0 <= layout.stride * i <= 0x100 * 1024) by (nonlinear_arith)
            requires
                0 <= layout.stride <= 0x100,
                0 <= i < 1024,
        ;
        let at = array + layout.stride * i;
        assert(static_stands(mem, layout, at, s));
        lemma_loads(mem, at + layout.entry_name, s.name_at as int);
        lemma_loads(mem, at + layout.entry_type, s.type_at as int);
        lemma_loads(mem, at + layout.entry_instance, s.instance as int);
        lemma_loads(mem, s.type_at + 8, s.text_at as int);
        lemma_ident_text(s.name);
        lemma_shown_text(s.text);
        lemma_text(mem, s.name_at as int, s.name, 256);
        lemma_text(mem, s.text_at as int, s.text, 256);
        lemma_without_spaces(s.text);
        let before = entries_in(mem, array, n - 1, layout);
        let now = entries_in(mem, array, n, layout);
        assert forall|k: int| 0 <= k < n implies is_static(#[trigger] now[k], list[k], k) by {
            if k < n - 1 {
                assert(now[k] == before[k]);
            }
        }
    }
}

proof fn lemma_reported(
    mem: Map<int, u8>,
    layout: StaticFieldLayout,
    binding: u64,
    count: int,
    array: u64,
)
    requires
        1 <= count <= 1024,
        layout_close(layout),
        binding + 0x100 <= u64::MAX,
        0x10000 <= array,
        stands16(mem, binding + layout.count, count),
        stands64(mem, binding + layout.array, array as int),
    ensures
        count_in(mem, binding, layout) == Some(count),
        array_in(mem, binding, layout) == Some(array),
{
    lemma_loads(mem, binding + layout.count, count);
    lemma_loads(mem, binding + layout.array, array as int);
}


/// A binding that counts `n` static fields and points at `n` entries side by side
/// has exactly these, numbered in their order.
pub proof fn lemma_statics_read_back(
    mem: Map<int, u8>,
    layout: StaticFieldLayout,
    binding: u64,
    array: u64,
    list: Seq<StaticImage>,
)
    requires
        1 <= list.len() <= 1024,
        layout_close(layout),
        binding + 0x100 <= u64::MAX,
        0x10000 <= array,
        array + 0x10_0000 <= u64::MAX,
        stands16(mem, binding + layout.count, list.len() as int),
        stands64(mem, binding + layout.array, array as int),
        forall|i: int|
            0 <= i < list.len() ==> static_stands(
                mem,
                layout,
                array + layout.stride * i,
                #[trigger] list[i],
            ),
    ensures
        fields_of(mem, binding, layout, 1024).len() == list.len(),
        forall|i: int|
            0 <= i < list.len() ==> is_static(
                #[trigger] fields_of(mem, binding, layout, 1024)[i],
                list[i],
                i,
            ),
{
    lemma_reported(mem, layout, binding, list.len() as int, array);
    lemma_static_entries(mem, layout, array, list, list.len() as int);
}

/// The layouts that are tried: one of today's, one with the count two bytes later,
/// one with longer entries, one with count and array elsewhere, and one with type and
/// storage swapped.
pub proof fn lemma_layouts_tried(layout: StaticFieldLayout)
    ensures
        (exists|k: int| 0 <= k < 5 && #[trigger] candidate(k) == layout) <==> {
            let l = layout;
            &&& l.entry_name == 0
            &&& l.entry_type == 8 && l.entry_instance == 16 || l.entry_type == 16
                && l.entry_instance == 8
            &&& {
                ||| l.count == 38 && l.array == 56 && l.stride == 24
                ||| l.count == 40 && l.array == 56 && l.stride == 24 && l.entry_type == 8
                ||| l.count == 38 && l.array == 56 && l.stride == 32 && l.entry_type == 8
                ||| l.count == 40 && l.array == 80 && l.stride == 24 && l.entry_type == 8
            }
        },
{
    let l = layout;
    let k: int = if l.entry_type == 16 {
        4
    } else if l.stride == 32 {
        2
    } else if l.array == 80 {
        3
    } else if l.count == 40 {
        1
    } else {
        0
    };
    if candidate(k) == l {
        assert(0 <= k < 5);
    }
}

/// A layout is accepted exactly where 16 entries or more speak for it, and at least
/// twice as many as for each of the other four.
pub proof fn lemma_accepted(mem: Map<int, u8>, bindings: Seq<u64>, k: int)
    requires
        0 <= k < 5,
    ensures
        dominant(mem, bindings, k) <==> {
            let own = evidence(mem, bindings, candidate(k));
            &&& own >= 16
            &&& k == 0 || own >= 2 * evidence(mem, bindings, candidate(0))
            &&& k == 1 || own >= 2 * evidence(mem, bindings, candidate(1))
            &&& k == 2 || own >= 2 * evidence(mem, bindings, candidate(2))
            &&& k == 3 || own >= 2 * evidence(mem, bindings, candidate(3))
            &&& k == 4 || own >= 2 * evidence(mem, bindings, candidate(4))
        },
{
    let own = evidence(mem, bindings, candidate(k));
    if dominant(mem, bindings, k) {
        assert(k == 0 || own >= DOMINANCE * evidence(mem, bindings, candidate(0)));
        assert(k == 1 || own >= DOMINANCE * evidence(mem, bindings, candidate(1)));
        assert(k == 2 || own >= DOMINANCE * evidence(mem, bindings, candidate(2)));
        assert(k == 3 || own >= DOMINANCE * evidence(mem, bindings, candidate(3)));
        assert(k == 4 || own >= DOMINANCE * evidence(mem, bindings, candidate(4)));
    }
}

/// A binding adds to the evidence one for each of its static fields, and eight at
/// most.
pub proof fn lemma_evidence_added(
    mem: Map<int, u8>,
    bindings: Seq<u64>,
    layout: StaticFieldLayout,
    binding: u64,
    array: u64,
    list: Seq<StaticImage>,
)
    requires
        1 <= list.len() <= 1024,
        layout_close(layout),
        binding + 0x100 <= u64::MAX,
        0x10000 <= array,
        array + 0x10_0000 <= u64::MAX,
        stands16(mem, binding + layout.count, list.len() as int),
        stands64(mem, binding + layout.array, array as int),
        forall|i: int|
            0 <= i < list.len() ==> static_stands(
                mem,
                layout,
                array + layout.stride * i,
                #[trigger] list[i],
            ),
    ensures
        evidence(mem, bindings.push(binding), layout) == evidence(mem, bindings, layout) + if list.len()
            < 8 {
            list.len() as int
        } else {
            8
        },
        evidence(mem, Seq::empty(), layout) == 0,
{
    reveal(evidence);
    assert(bindings.push(binding).drop_last() =~= bindings);
    lemma_reported(mem, layout, binding, list.len() as int, array);
    let n: int = if list.len() < 8 {
        list.len() as int
    } else {
        8
    };
    lemma_static_entries(mem, layout, array, list, n);
}

/// A binding that reports no static fields, more than 1024, or no array of them adds
/// nothing to the evidence and has none.
pub proof fn lemma_no_statics(
    mem: Map<int, u8>,
    bindings: Seq<u64>,
    layout: StaticFieldLayout,
    binding: u64,
    count: u16,
    array: u64,
)
    requires
        layout_close(layout),
        binding + 0x100 <= u64::MAX,
        stands16(mem, binding + layout.count, count as int),
        stands64(mem, binding + layout.array, array as int),
        count == 0 || count > 1024 || array < 0x10000,
    ensures
        evidence(mem, bindings.push(binding), layout) == evidence(mem, bindings, layout),
        fields_of(mem, binding, layout, 1024).len() == 0,
{
    reveal(evidence);
    assert(bindings.push(binding).drop_last() =~= bindings);
    lemma_loads(mem, binding + layout.count, count as int);
    lemma_loads(mem, binding + layout.array, array as int);
}

} // verus!
