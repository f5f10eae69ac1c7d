//! Reads the list of input buttons.
//!
//! A button is a record with its name at +0x08, its state at +0x30 and the next
//! button at +0x88. All of them stand in the module image.

use crate::analysis::global_anchor::{all_qwords, decides, head64, pick, qwords, read_head};
use crate::analysis::module_data::{image_ranges, writable_ranges, ModuleImage};
use crate::analysis::pe::{captured, find_code};
use crate::analysis::protobufs::{lemma_number, va_to_rva};
use crate::analysis::read::{ld64, le8, plus, text_at, text_in, u64_le_at, u64_va};
use crate::memory::{raw, readable, Memory};
use crate::memory::fake::bytes8;
use crate::memory::stored::{lemma_heads, lemma_text, stands64, stands_text};
use crate::order::AddrSet;
use crate::strmap::StrMap;
use crate::text::{lemma_until_nul, stands_at, until_nul};
use vstd::prelude::*;
use vstd::slice::*;
use vstd::string::*;
use vstd::utf8::*;

verus! {

/// A client registers a few dozen buttons; a longer list is not the list.
pub const MAX_BUTTONS: usize = 256;

pub const KB_NAME: u64 = 0x08;

pub const KB_STATE: u64 = 0x30;

pub const KB_NEXT: u64 = 0x88;

pub const KB_SIZE: usize = 0x90;

/// Chained buttons that the head of the list must reach.
pub const MIN_BUTTON_CHAIN: usize = 8;

/// Buttons by name, each with the offset of its state in the module.
pub type ButtonMap = StrMap<u64>;

/// A byte of a button's name: a lower-case letter, a digit or `_`.
pub open spec fn button_byte(b: u8) -> bool {
    0x61 <= b <= 0x7a || 0x30 <= b <= 0x39 || b == 0x5f
}

/// The name of a button: `in_` and something behind it.
pub open spec fn is_button(name: Seq<u8>) -> bool {
    &&& name.len() > 3
    &&& name[0] == 0x69
    &&& name[1] == 0x6e
    &&& name[2] == 0x5f
    &&& forall|i: int| 3 <= i < name.len() ==> button_byte(#[trigger] name[i])
}

fn is_button_bytes(name: &[u8]) -> (ok: bool)
    ensures
        ok == is_button(name@),
{
    if name.len() <= 3 || name[0] != 0x69 || name[1] != 0x6e || name[2] != 0x5f {
        return false;
    }
    let mut i: usize = 3;
    while i < name.len()
        invariant
            3 <= i <= name@.len(),
            forall|k: int| 3 <= k < i ==> button_byte(#[trigger] name@[k]),
        decreases name@.len() - i,
    {
        let b: u8 = name[i];
        if !((0x61 <= b && b <= 0x7a) || (0x30 <= b && b <= 0x39) || b == 0x5f) {
            assert(!button_byte(name@[i as int]));
            return false;
        }
        i = i + 1;
    }
    true
}

pub fn is_button_name(name: &str) -> (ok: bool)
    ensures
        ok == is_button(encode_utf8(name@)),
{
    is_button_bytes(name.as_bytes())
}

/// Why a list could not be read.
#[derive(Clone, Copy, Debug, PartialEq, Eq, Structural)]
pub enum ButtonError {
    /// The list comes back to the button at this address.
    Cycle(u64),
    /// The list has more than `MAX_BUTTONS` buttons.
    TooMany,
}

/// The record of the button at `ptr`.
pub open spec fn node_record(mem: Map<int, u8>, ptr: u64) -> Seq<u8> {
    raw(mem, ptr as int, KB_SIZE as nat)
}

/// The button behind the one at `ptr`.
pub open spec fn node_next(mem: Map<int, u8>, ptr: u64) -> u64 {
    head64(node_record(mem, ptr), KB_NEXT as int)
}

/// The buttons from `ptr` on, behind those in `seen`.
pub open spec fn button_nodes(mem: Map<int, u8>, ptr: u64, seen: Seq<u64>) -> Result<
    Seq<u64>,
    ButtonError,
>
    decreases MAX_BUTTONS + 1 - seen.len(),
{
    if ptr == 0 {
        Ok(Seq::empty())
    } else if seen.contains(ptr) {
        Err(ButtonError::Cycle(ptr))
    } else if seen.len() >= MAX_BUTTONS {
        Err(ButtonError::TooMany)
    } else {
        match button_nodes(mem, node_next(mem, ptr), seen.push(ptr)) {
            Ok(rest) => Ok(seq![ptr] + rest),
            Err(error) => Err(error),
        }
    }
}

/// The name of the button at `ptr`.
pub open spec fn node_name(mem: Map<int, u8>, ptr: u64) -> Seq<char> {
    text_in(mem, head64(node_record(mem, ptr), KB_NAME as int) as int, 32)
}

/// The button at `ptr` counts: it has the name of one, and its state stands in
/// the module.
pub open spec fn node_counts(mem: Map<int, u8>, ptr: u64, base: u64, size: u64) -> bool {
    let state = plus(ptr, KB_STATE as int);
    &&& is_button(encode_utf8(node_name(mem, ptr)))
    &&& base <= state < base + size
    &&& state < u64::MAX
}

/// The map of a list of buttons. Of two buttons with one name the later counts.
pub open spec fn button_map(mem: Map<int, u8>, nodes: Seq<u64>, base: u64, size: u64) -> Map<
    Seq<char>,
    u64,
>
    decreases nodes.len(),
{
    if nodes.len() == 0 {
        Map::empty()
    } else {
        let before = button_map(mem, nodes.drop_last(), base, size);
        let ptr = nodes.last();
        if node_counts(mem, ptr, base, size) {
            before.insert(node_name(mem, ptr), (plus(ptr, KB_STATE as int) - base) as u64)
        } else {
            before
        }
    }
}

/// A list that is read to its end names no button twice and has at most
/// `MAX_BUTTONS`.
pub proof fn lemma_nodes_distinct(mem: Map<int, u8>, ptr: u64, seen: Seq<u64>)
    requires
        button_nodes(mem, ptr, seen) is Ok,
        seen.len() <= MAX_BUTTONS,
    ensures
        button_nodes(mem, ptr, seen)->Ok_0.len() + seen.len() <= MAX_BUTTONS,
        forall|i: int|
            0 <= i < button_nodes(mem, ptr, seen)->Ok_0.len() ==> !seen.contains(
                #[trigger] button_nodes(mem, ptr, seen)->Ok_0[i],
            ),
        forall|i: int, j: int|
            0 <= i < j < button_nodes(mem, ptr, seen)->Ok_0.len() ==> #[trigger] button_nodes(
                mem,
                ptr,
                seen,
            )->Ok_0[i] != #[trigger] button_nodes(mem, ptr, seen)->Ok_0[j],
    decreases MAX_BUTTONS + 1 - seen.len(),
{
    if ptr != 0 {
        let next = node_next(mem, ptr);
        let more = seen.push(ptr);
        lemma_nodes_distinct(mem, next, more);
        let all = button_nodes(mem, ptr, seen)->Ok_0;
        let rest = button_nodes(mem, next, more)->Ok_0;
        assert(more[seen.len() as int] == ptr);
        assert forall|i: int| 0 <= i < all.len() implies !seen.contains(#[trigger] all[i]) by {
            if i > 0 {
                assert(all[i] == rest[i - 1]);
                if seen.contains(rest[i - 1]) {
                    let k = choose|k: int| 0 <= k < seen.len() && seen[k] == rest[i - 1];
                    assert(more[k] == rest[i - 1]);
                }
            }
        }
        assert forall|i: int, j: int| 0 <= i < j < all.len() implies #[trigger] all[i]
            != #[trigger] all[j] by {
            assert(all[j] == rest[j - 1]);
            if i > 0 {
                assert(all[i] == rest[i - 1]);
            } else {
                assert(more.contains(ptr));
            }
        }
    }
}

/// Reads the list whose first button is at `list_head`: the buttons whose
/// state stands in the module, by name.
pub fn read_buttons(mem: &Memory, module_base: u64, module_size: u64, list_head: u64) -> (map: Result<
    ButtonMap,
    ButtonError,
>)
    requires
        mem.wf(),
    ensures
        match button_nodes(mem@, list_head, Seq::empty()) {
            Ok(nodes) => {
                &&& map is Ok
                &&& map->Ok_0.wf()
                &&& map->Ok_0.map() == button_map(mem@, nodes, module_base, module_size)
            },
            Err(error) => map is Err && map->Err_0 == error,
        },
{
    let mut result: ButtonMap = StrMap::new();
    let mut seen = AddrSet::new();
    let mut count: usize = 0;
    let module_end: u64 = module_base.saturating_add(module_size);
    let mut ptr: u64 = list_head;
    let ghost want = button_nodes(mem@, list_head, Seq::empty());
    let ghost mut nodes: Seq<u64> = Seq::empty();
    proof {
        if want is Ok {
            assert(nodes + want->Ok_0 =~= want->Ok_0);
        }
    }
    while ptr != 0
        invariant
            mem.wf(),
            want == button_nodes(mem@, list_head, Seq::empty()),
            count == nodes.len(),
            count <= MAX_BUTTONS,
            forall|a: u64| #[trigger] seen@.contains(a) == nodes.contains(a),
            result.wf(),
            result.map() == button_map(mem@, nodes, module_base, module_size),
            module_end == (if module_base + module_size > u64::MAX {
                u64::MAX as int
            } else {
                module_base + module_size
            }),
            match button_nodes(mem@, ptr, nodes) {
                Ok(rest) => want == Ok::<Seq<u64>, ButtonError>(nodes + rest),
                Err(error) => want == Err::<Seq<u64>, ButtonError>(error),
            },
        decreases MAX_BUTTONS - count,
    {
        if seen.contains(ptr) {
            return Err(ButtonError::Cycle(ptr));
        }
        if count >= MAX_BUTTONS {
            return Err(ButtonError::TooMany);
        }
        let record = read_head(mem, ptr, KB_SIZE);
        let name = text_at(mem, record.u64(KB_NAME), 32);
        let state: u64 = ptr.wrapping_add(KB_STATE);
        let next: u64 = record.u64(KB_NEXT);
        let ghost was = nodes;
        let ghost before = seen@;
        proof {
            nodes = nodes.push(ptr);
            assert(nodes.drop_last() =~= was);
            match button_nodes(mem@, next, nodes) {
                Ok(rest) => {
                    assert(was + (seq![ptr] + rest) =~= nodes + rest);
                },
                Err(_) => {},
            }
        }
        if is_button_name(name.as_str()) && module_base <= state && state < module_end {
            let _previous = result.insert(name, state - module_base);
        }
        let _fresh = seen.insert(ptr);
        proof {
            assert forall|a: u64| #[trigger] seen@.contains(a) == nodes.contains(a) by {
                assert(nodes[was.len() as int] == ptr);
                if was.contains(a) {
                    let k = choose|k: int| 0 <= k < was.len() && was[k] == a;
                    assert(nodes[k] == a);
                }
            }
        }
        count = count + 1;
        ptr = next;
    }
    assert(nodes + Seq::<u64>::empty() =~= nodes);
    Ok(result)
}

/// Reads the list that the global at `global_va` points at.
pub fn buttons_from_global(mem: &Memory, module_base: u64, module_size: u64, global_va: u64) -> (map:
    Result<ButtonMap, ButtonError>)
    requires
        mem.wf(),
    ensures
        match button_nodes(mem@, ld64(mem@, global_va as int), Seq::empty()) {
            Ok(nodes) => {
                &&& map is Ok
                &&& map->Ok_0.wf()
                &&& map->Ok_0.map() == button_map(mem@, nodes, module_base, module_size)
            },
            Err(error) => map is Err && map->Err_0 == error,
        },
{
    let head: u64 = u64_va(mem, global_va);
    read_buttons(mem, module_base, module_size, head)
}

/// The bytes of the string at an offset of the image, within the length of a
/// button's name; none where it does not end there.
pub open spec fn image_text(image: Seq<u8>, at: int) -> Option<Seq<u8>> {
    let end = if at + 32 <= image.len() {
        at + 32
    } else {
        image.len() as int
    };
    let window = image.subrange(at, end);
    if window.contains(0u8) {
        Some(until_nul(window))
    } else {
        None
    }
}

/// The pointer at an offset of the image.
pub open spec fn image_qword(image: Seq<u8>, at: int) -> Option<u64> {
    if at + 8 <= image.len() {
        Some(le8(image, at) as u64)
    } else {
        None
    }
}

/// A button's record stands at `va` in the image.
pub open spec fn button_at(image: Seq<u8>, base: u64, va: u64) -> bool {
    let at = va - base;
    match image_qword(image, at + KB_NAME) {
        Some(name) => {
            &&& base <= name
            &&& name - base < image.len()
            &&& image_text(image, name - base) matches Some(text)
            &&& is_button(text)
        },
        None => false,
    }
}

/// How many chained buttons `node` reaches, itself counted, behind those in
/// `seen`.
pub open spec fn chain_count(image: Seq<u8>, base: u64, node: u64, seen: Set<u64>, fuel: nat) -> int
    decreases fuel,
{
    if fuel == 0 || node == 0 || seen.contains(node) || !(base <= node && node - base
        < image.len()) || !button_at(image, base, node) {
        0
    } else {
        let next = match image_qword(image, node - base + KB_NEXT) {
            Some(v) => v,
            None => 0,
        };
        1 + chain_count(image, base, next, seen.insert(node), (fuel - 1) as nat)
    }
}

/// How many chained buttons `node` reaches, itself counted: all of them, since no
/// button comes twice and each stands at a place of its own in the image.
pub open spec fn chain_reach(image: Seq<u8>, base: u64, node: u64) -> int {
    chain_count(image, base, node, Set::empty(), image.len())
}

/// The addresses of an image of `n` bytes.
pub open spec fn image_addresses(base: u64, n: nat) -> Set<u64> {
    Set::new(|v: u64| base <= v < base + n)
}

proof fn lemma_image_addresses(base: u64, n: nat)
    ensures
        image_addresses(base, n).finite(),
        image_addresses(base, n).len() <= n,
    decreases n,
{
    if n == 0 {
        assert(image_addresses(base, 0) =~= Set::<u64>::empty());
    } else {
        let before = image_addresses(base, (n - 1) as nat);
        let last = base + n - 1;
        lemma_image_addresses(base, (n - 1) as nat);
        if last <= u64::MAX {
            assert(image_addresses(base, n) =~= before.insert(last as u64));
        } else {
            assert(image_addresses(base, n) =~= before);
        }
    }
}

/// A chain ends before it has more buttons than the image has bytes, so a
/// larger bound counts no more of them.
pub proof fn lemma_counted_in_full(
    image: Seq<u8>,
    base: u64,
    node: u64,
    seen: Set<u64>,
    fuel: nat,
    more: nat,
)
    requires
        seen.finite(),
        seen.subset_of(image_addresses(base, image.len())),
        image.len() <= seen.len() + fuel,
        fuel <= more,
    ensures
        chain_count(image, base, node, seen, fuel) == chain_count(image, base, node, seen, more),
    decreases fuel,
{
    if node != 0 && !seen.contains(node) && base <= node && node - base < image.len() && button_at(
        image,
        base,
        node,
    ) {
        let all = image_addresses(base, image.len());
        let now = seen.insert(node);
        lemma_image_addresses(base, image.len());
        vstd::set_lib::lemma_len_subset(now, all);
        let next = match image_qword(image, node - base + KB_NEXT) {
            Some(v) => v,
            None => 0,
        };
        lemma_counted_in_full(image, base, next, now, (fuel - 1) as nat, (more - 1) as nat);
    }
}

fn image_u64(image: &[u8], at: usize, offset: u64) -> (value: Option<u64>)
    requires
        at < image@.len(),
        offset <= 0x88,
    ensures
        value == image_qword(image@, at + offset),
{
    if image.len() < 8 || offset > (image.len() - at) as u64 {
        return None;
    }
    u64_le_at(image, at + offset as usize)
}

fn names_button(image: &[u8], at: usize) -> (ok: bool)
    requires
        at < image@.len(),
    ensures
        ok == (image_text(image@, at as int) matches Some(text) && is_button(text)),
{
    let end: usize = if image.len() - at >= 32 {
        at + 32
    } else {
        image.len()
    };
    let window = slice_subrange(image, at, end);
    let mut n: usize = 0;
    while n < window.len() && window[n] != 0
        invariant
            n <= window@.len(),
            forall|i: int| 0 <= i < n ==> window@[i] != 0,
        decreases window@.len() - n,
    {
        n = n + 1;
    }
    if n == window.len() {
        return false;
    }
    proof {
        assert(window@[n as int] == 0);
        lemma_until_nul(window@, n as int);
    }
    is_button_bytes(slice_subrange(window, 0, n))
}

fn is_button_at(image: &[u8], base: u64, at: usize) -> (ok: bool)
    requires
        at < image@.len(),
        base + at <= u64::MAX,
    ensures
        ok == button_at(image@, base, (base + at) as u64),
{
    match image_u64(image, at, KB_NAME) {
        Some(name) => match va_to_rva(name, base, image.len()) {
            Some(rva) => names_button(image, rva),
            None => false,
        },
        None => false,
    }
}

/// How many chained buttons `head` reaches, itself counted; zero where it is
/// not a button.
pub fn chain_len(image: &[u8], base: u64, head: u64) -> (len: usize)
    ensures
        len == chain_reach(image@, base, head),
        len <= image@.len(),
{
    let size: usize = image.len();
    let mut seen = AddrSet::new();
    let mut node: u64 = head;
    let mut len: usize = 0;
    let ghost want = chain_reach(image@, base, head);
    while node != 0 && len < size
        invariant
            size == image@.len(),
            len <= size,
            want == len + chain_count(image@, base, node, seen@, (size - len) as nat),
        ensures
            want == len,
            len <= size,
        decreases size - len,
    {
        if !seen.insert(node) {
            break ;
        }
        match va_to_rva(node, base, size) {
            None => {
                break ;
            },
            Some(at) => {
                if !is_button_at(image, base, at) {
                    break ;
                }
                len = len + 1;
                node = match image_u64(image, at, KB_NEXT) {
                    Some(v) => v,
                    None => 0,
                };
            },
        }
    }
    len
}

/// The heads of button lists among the qwords of the writable data, each with
/// the first slot that holds it and the length of its list.
pub open spec fn list_heads(image: Seq<u8>, base: u64, list: Seq<(u64, u64)>) -> Seq<
    (u64, u64, usize),
>
    decreases list.len(),
{
    if list.len() == 0 {
        Seq::empty()
    } else {
        let before = list_heads(image, base, list.drop_last());
        let (slot, head) = list.last();
        let len = chain_reach(image, base, head);
        if len >= MIN_BUTTON_CHAIN && !heads_of(before).contains(head) {
            before.push((slot, head, len as usize))
        } else {
            before
        }
    }
}

pub open spec fn heads_of(list: Seq<(u64, u64, usize)>) -> Set<u64> {
    Set::new(|h: u64| exists|i: int| 0 <= i < list.len() && (#[trigger] list[i]).1 == h)
}

proof fn lemma_heads_push(list: Seq<(u64, u64, usize)>, item: (u64, u64, usize))
    ensures
        heads_of(list.push(item)) == heads_of(list).insert(item.1),
{
    let now = list.push(item);
    assert forall|h: u64| heads_of(now).contains(h) == heads_of(list).insert(item.1).contains(h) by {
        if heads_of(list).contains(h) {
            let i = choose|i: int| 0 <= i < list.len() && (#[trigger] list[i]).1 == h;
            assert(now[i].1 == h);
        }
        assert(now[list.len() as int].1 == item.1);
        if heads_of(now).contains(h) {
            let i = choose|i: int| 0 <= i < now.len() && (#[trigger] now[i]).1 == h;
            if i < list.len() {
                assert(list[i].1 == h);
            }
        }
    }
    assert(heads_of(now) =~= heads_of(list).insert(item.1));
}

/// The global that holds the head of the longest list of buttons; nothing where
/// two lists are the longest. Every button's own link is a candidate too, but
/// it reaches a shorter list than the one before it, so that the lengths are
/// counted in full.
pub fn find_button_list_in(image: &[u8], base: u64, ranges: &[(u64, u64)]) -> (found: Option<u64>)
    requires
        base + image@.len() <= u64::MAX,
    ensures
        decides(list_heads(image@, base, all_qwords(image@, base, ranges@)), found),
{
    let slots = qwords(image, base, ranges);
    let mut list: Vec<(u64, u64, usize)> = Vec::new();
    let mut heads = AddrSet::new();
    let mut i: usize = 0;
    assert(slots@.subrange(0, 0) =~= Seq::<(u64, u64)>::empty());
    assert(heads_of(list@) =~= Set::<u64>::empty());
    while i < slots.len()
        invariant
            i <= slots@.len(),
            list@ == list_heads(image@, base, slots@.subrange(0, i as int)),
            heads@ == heads_of(list@),
        decreases slots@.len() - i,
    {
        let (slot, head) = slots[i];
        let ghost upto = slots@.subrange(0, i + 1);
        assert(upto.drop_last() =~= slots@.subrange(0, i as int));
        assert(upto.last() == slots@[i as int]);
        if !heads.contains(head) {
            let len: usize = chain_len(image, base, head);
            if len >= MIN_BUTTON_CHAIN {
                proof {
                    lemma_heads_push(list@, (slot, head, len));
                }
                let _fresh = heads.insert(head);
                list.push((slot, head, len));
            }
        }
        i = i + 1;
    }
    assert(slots@.subrange(0, i as int) =~= slots@);
    pick(&list)
}

/// The global of a module that holds the head of the button list.
pub fn find_button_list(module: &ModuleImage) -> (found: Option<u64>)
    requires
        module.base + module.bytes@.len() <= u64::MAX,
    ensures
        match image_ranges(module.bytes@) {
            Some(ranges) => decides(
                list_heads(
                    module.bytes@,
                    module.base,
                    all_qwords(module.bytes@, module.base, ranges),
                ),
                found,
            ),
            None => found is None,
        },
{
    let image = module.bytes.as_slice();
    match writable_ranges(image) {
        Some(ranges) => find_button_list_in(image, module.base, ranges.as_slice()),
        None => None,
    }
}

/// The pattern of the code that loads the head of the button list.
pub open spec fn button_pattern() -> Seq<char> {
    "488b15${'} 4885d2 74? 488b02 4885c0"@
}

/// Why the list that the code of a module names was not read.
#[derive(Debug)]
pub enum ButtonsError {
    /// The pattern of the list has no match or several.
    OutdatedPattern,
    List(ButtonError),
}

/// Reads the list whose head the code of a module loads.
pub fn buttons(mem: &Memory, module: &ModuleImage) -> (map: Result<ButtonMap, ButtonsError>)
    requires
        mem.wf(),
    ensures
        match captured(module.bytes@, button_pattern()) {
            None => map is Err && map->Err_0 is OutdatedPattern,
            Some(place) => match button_nodes(
                mem@,
                ld64(mem@, plus(module.base, place as int) as int),
                Seq::empty(),
            ) {
                Ok(nodes) => {
                    &&& map is Ok
                    &&& map->Ok_0.wf()
                    &&& map->Ok_0.map() == button_map(
                        mem@,
                        nodes,
                        module.base,
                        module.bytes@.len() as u64,
                    )
                },
                Err(error) => map is Err && map->Err_0 == ButtonsError::List(error),
            },
        },
{
    match find_code(module.bytes.as_slice(), "488b15${'} 4885d2 74? 488b02 4885c0") {
        None => Err(ButtonsError::OutdatedPattern),
        Some(place) => match buttons_from_global(
            mem,
            module.base,
            module.bytes.len() as u64,
            module.base.wrapping_add(place as u64),
        ) {
            Ok(map) => Ok(map),
            Err(error) => Err(ButtonsError::List(error)),
        },
    }
}

/// What a button's record says, and where it stands.
pub struct ButtonImage {
    pub at: u64,
    pub name_at: u64,
    pub name: Seq<char>,
}

/// The record of a button stands where it says, with the button at `next` behind
/// it.
pub open spec fn button_stands(mem: Map<int, u8>, b: ButtonImage, next: u64) -> bool {
    &&& b.at != 0
    &&& b.at + 0x90 <= u64::MAX
    &&& readable(mem, b.at as int, 0x90)
    &&& stands64(mem, b.at + 0x08, b.name_at as int)
    &&& stands64(mem, b.at + 0x88, next as int)
    &&& stands_text(mem, b.name_at as int, b.name)
    &&& encode_utf8(b.name).len() <= 32
}

/// The addresses of a list of buttons.
pub open spec fn button_addresses(list: Seq<ButtonImage>) -> Seq<u64> {
    Seq::new(list.len(), |i: int| list[i].at)
}

/// Buttons stand linked to each other, the last to `tail`.
pub open spec fn buttons_stand(mem: Map<int, u8>, list: Seq<ButtonImage>, tail: u64) -> bool {
    &&& forall|k: int|
        0 <= k < list.len() ==> button_stands(
            mem,
            #[trigger] list[k],
            if k + 1 < list.len() {
                list[k + 1].at
            } else {
                tail
            },
        )
    &&& forall|j: int, k: int|
        0 <= j < k < list.len() ==> (#[trigger] list[j]).at != (#[trigger] list[k]).at
}

proof fn lemma_button_chain(mem: Map<int, u8>, list: Seq<ButtonImage>, tail: u64, k: int)
    requires
        buttons_stand(mem, list, tail),
        0 <= k <= list.len(),
        k <= 256,
        tail == 0 || button_addresses(list).contains(tail) || list.len() > 256,
    ensures
        button_nodes(
            mem,
            if k < list.len() {
                list[k].at
            } else {
                tail
            },
            button_addresses(list).subrange(0, k),
        ) == (if list.len() > 256 {
            Err::<Seq<u64>, ButtonError>(ButtonError::TooMany)
        } else if tail == 0 {
            Ok(button_addresses(list).subrange(k, list.len() as int))
        } else {
            Err(ButtonError::Cycle(tail))
        }),
    decreases list.len() - k,
{
    let all = button_addresses(list);
    let seen = all.subrange(0, k);
    if k < list.len() {
        let b = list[k];
        let next = if k + 1 < list.len() {
            list[k + 1].at
        } else {
            tail
        };
        assert(button_stands(mem, b, next));
        lemma_heads(mem, b.at as int, 0x90, 0x88, next as int);
        assert(!seen.contains(b.at)) by {
            if seen.contains(b.at) {
                let j = choose|j: int| 0 <= j < seen.len() && seen[j] == b.at;
                assert(list[j].at != list[k].at);
            }
        }
        if k < 256 {
            lemma_button_chain(mem, list, tail, k + 1);
            assert(seen.push(b.at) =~= all.subrange(0, k + 1));
            assert(all.subrange(k, list.len() as int) =~= seq![b.at] + all.subrange(
                k + 1,
                list.len() as int,
            ));
        }
    } else {
        assert(seen =~= all);
        assert(all.subrange(k, list.len() as int) =~= Seq::<u64>::empty());
    }
}

/// A list of up to 256 buttons that ends is read to its end, in the order of its
/// links.
pub proof fn lemma_buttons_listed(mem: Map<int, u8>, list: Seq<ButtonImage>)
    requires
        buttons_stand(mem, list, 0),
        0 < list.len() <= 256,
    ensures
        button_nodes(mem, list[0].at, Seq::empty()) == Ok::<Seq<u64>, ButtonError>(
            button_addresses(list),
        ),
{
    lemma_button_chain(mem, list, 0, 0);
    let all = button_addresses(list);
    assert(all.subrange(0, 0) =~= Seq::<u64>::empty());
    assert(all.subrange(0, list.len() as int) =~= all);
}

/// A list that comes back to one of its buttons is refused with that button, and
/// one of more than 256 for its length.
pub proof fn lemma_buttons_refused(mem: Map<int, u8>, list: Seq<ButtonImage>, tail: u64, j: int)
    requires
        buttons_stand(mem, list, tail),
        0 <= j < list.len(),
        tail == list[j].at,
    ensures
        button_nodes(mem, list[0].at, Seq::empty()) == Err::<Seq<u64>, ButtonError>(
            if list.len() > 256 {
                ButtonError::TooMany
            } else {
                ButtonError::Cycle(tail)
            },
        ),
{
    let all = button_addresses(list);
    assert(all[j] == tail);
    assert(button_stands(
        mem,
        list[j],
        if j + 1 < list.len() {
            list[j + 1].at
        } else {
            tail
        },
    ));
    lemma_button_chain(mem, list, tail, 0);
    assert(all.subrange(0, 0) =~= Seq::<u64>::empty());
}

/// `in_` and then lower-case letters, digits and underscores.
pub open spec fn button_text(name: Seq<char>) -> bool {
    &&& name.len() > 3
    &&& name[0] == 'i'
    &&& name[1] == 'n'
    &&& name[2] == '_'
    &&& forall|i: int|
        3 <= i < name.len() ==> 'a' <= #[trigger] name[i] <= 'z' || '0' <= name[i] <= '9' || name[i]
            == '_'
}

proof fn lemma_button_text(name: Seq<char>)
    requires
        button_text(name),
    ensures
        is_button(encode_utf8(name)),
{
    assert forall|i: int| 0 <= i < name.len() implies '\0' <= #[trigger] name[i] <= '\u{7f}' by {
        if i >= 3 {
            assert('a' <= name[i] <= 'z' || '0' <= name[i] <= '9' || name[i] == '_');
        }
    }
    assert(is_ascii_chars(name));
    is_ascii_chars_encode_utf8(name);
    let b = encode_utf8(name);
    assert(b[0] == name[0] as u8 && b[1] == name[1] as u8 && b[2] == name[2] as u8);
    assert forall|i: int| 3 <= i < b.len() implies button_byte(#[trigger] b[i]) by {
        assert('a' <= name[i] <= 'z' || '0' <= name[i] <= '9' || name[i] == '_');
        assert(b[i] == name[i] as u8);
    }
}

/// Buttons with names of their own, whose states stand in the module, are in the
/// map with the offset of the state, which stands 0x30 into the record; and
/// nothing else is.
pub proof fn lemma_buttons_mapped(
    mem: Map<int, u8>,
    list: Seq<ButtonImage>,
    tail: u64,
    base: u64,
    size: u64,
    n: int,
)
    requires
        0 <= n <= list.len(),
        buttons_stand(mem, list, tail),
        base + size <= u64::MAX,
        forall|k: int|
            0 <= k < list.len() ==> button_text((#[trigger] list[k]).name) && base <= list[k].at
                + 0x30 < base + size,
        forall|j: int, k: int|
            0 <= j < k < list.len() ==> (#[trigger] list[j]).name != (#[trigger] list[k]).name,
    ensures
        forall|k: int|
            0 <= k < n ==> button_map(
                mem,
                button_addresses(list).subrange(0, n),
                base,
                size,
            ).contains_key((#[trigger] list[k]).name) && button_map(
                mem,
                button_addresses(list).subrange(0, n),
                base,
                size,
            )[list[k].name] == list[k].at + 0x30 - base,
        forall|name: Seq<char>| #[trigger]
            button_map(
                mem,
                button_addresses(list).subrange(0, n),
                base,
                size,
            ).contains_key(name) ==> exists|k: int|
                0 <= k < n && (#[trigger] list[k]).name == name,
    decreases n,
{
    let all = button_addresses(list);
    if n > 0 {
        lemma_buttons_mapped(mem, list, tail, base, size, n - 1);
        let nodes = all.subrange(0, n);
        let b = list[n - 1];
        assert(nodes.drop_last() =~= all.subrange(0, n - 1));
        assert(nodes.last() == b.at);
        assert(button_text(b.name));
        assert(button_stands(
            mem,
            b,
            if n < list.len() {
                list[n].at
            } else {
                tail
            },
        ));
        lemma_heads(mem, b.at as int, 0x90, 0x08, b.name_at as int);
        lemma_text(mem, b.name_at as int, b.name, 32);
        lemma_button_text(b.name);
        assert(node_counts(mem, b.at, base, size));
        let before = button_map(mem, all.subrange(0, n - 1), base, size);
        let now = button_map(mem, nodes, base, size);
        assert(now == before.insert(b.name, (b.at + 0x30 - base) as u64));
        assert forall|k: int| 0 <= k < n implies now.contains_key((#[trigger] list[k]).name)
            && now[list[k].name] == list[k].at + 0x30 - base by {
            if k < n - 1 {
                assert(list[k].name != list[n - 1].name);
            }
        }
        assert forall|name: Seq<char>| #[trigger] now.contains_key(name) implies exists|k: int|
            0 <= k < n && (#[trigger] list[k]).name == name by {
            if name == b.name {
                assert(list[n - 1].name == name);
            } else {
                assert(before.contains_key(name));
            }
        }
    } else {
        assert(all.subrange(0, 0) =~= Seq::<u64>::empty());
    }
}

/// The record of a button in a module image: where it stands, its name and where
/// that stands, and the address that it names as the next.
pub struct RecordImage {
    pub at: u64,
    pub name_at: u64,
    pub name: Seq<u8>,
    pub next: u64,
}

/// The record stands in the image, and its name with a terminator behind it.
pub open spec fn record_stands(image: Seq<u8>, base: u64, r: RecordImage) -> bool {
    &&& base <= r.at
    &&& r.at != 0
    &&& stands_at(image, bytes8(r.name_at as int), r.at - base + 0x08)
    &&& stands_at(image, bytes8(r.next as int), r.at - base + 0x88)
    &&& base <= r.name_at
    &&& stands_at(image, r.name.push(0u8), r.name_at - base)
    &&& r.name.len() < 32
    &&& forall|i: int| 0 <= i < r.name.len() ==> #[trigger] r.name[i] != 0
}

proof fn lemma_record_read(image: Seq<u8>, base: u64, r: RecordImage)
    requires
        record_stands(image, base, r),
    ensures
        button_at(image, base, r.at) == is_button(r.name),
        image_qword(image, r.at - base + 0x88) == Some(r.next),
        r.at - base < image.len(),
{
    lemma_number(image, r.at - base + 0x08, r.name_at as int);
    lemma_number(image, r.at - base + 0x88, r.next as int);
    let at = r.name_at - base;
    let end = if at + 32 <= image.len() {
        at + 32
    } else {
        image.len() as int
    };
    let window = image.subrange(at, end);
    let n = r.name.len() as int;
    let ended = r.name.push(0u8);
    assert forall|i: int| 0 <= i <= n implies window[i] == ended[i] by {
        assert(image[at + i] == ended[i]);
    }
    assert(window[n] == 0);
    assert forall|i: int| 0 <= i < n implies window[i] != 0 by {
        assert(ended[i] == r.name[i]);
    }
    lemma_until_nul(window, n);
    assert(window.subrange(0, n) =~= r.name);
    assert(window.contains(0u8));
}

proof fn lemma_reach(
    image: Seq<u8>,
    base: u64,
    list: Seq<RecordImage>,
    k: int,
    seen: Set<u64>,
    fuel: nat,
)
    requires
        0 <= k <= list.len(),
        list.len() - k < fuel,
        forall|i: int| 0 <= i < list.len() ==> record_stands(image, base, #[trigger] list[i]),
        forall|i: int| 0 <= i < list.len() ==> is_button((#[trigger] list[i]).name),
        forall|i: int, j: int|
            0 <= i < j < list.len() ==> (#[trigger] list[i]).at != (#[trigger] list[j]).at,
        forall|i: int| 0 <= i < list.len() - 1 ==> (#[trigger] list[i]).next == list[i + 1].at,
        list.len() > 0 ==> list.last().next == 0 || exists|i: int|
            0 <= i < list.len() && (#[trigger] list[i]).at == list.last().next,
        forall|i: int| 0 <= i < k ==> seen.contains((#[trigger] list[i]).at),
        forall|i: int| k <= i < list.len() ==> !seen.contains((#[trigger] list[i]).at),
        list.len() > 0,
    ensures
        chain_count(
            image,
            base,
            if k < list.len() {
                list[k].at
            } else {
                list.last().next
            },
            seen,
            fuel,
        ) == list.len() - k,
    decreases list.len() - k,
{
    if k < list.len() {
        let r = list[k];
        lemma_record_read(image, base, r);
        assert forall|i: int| k + 1 <= i < list.len() implies !seen.insert(r.at).contains(
            (#[trigger] list[i]).at,
        ) by {
            assert(list[k].at != list[i].at);
        }
        lemma_reach(image, base, list, k + 1, seen.insert(r.at), (fuel - 1) as nat);
        if k + 1 < list.len() {
            assert(list[k].next == list[k + 1].at);
        }
    }
}

/// Button records that name each other are all reached from the first, whether the
/// last names none or one of them.
pub proof fn lemma_chain_reached(image: Seq<u8>, base: u64, list: Seq<RecordImage>)
    requires
        0 < list.len() < image.len(),
        forall|i: int| 0 <= i < list.len() ==> record_stands(image, base, #[trigger] list[i]),
        forall|i: int| 0 <= i < list.len() ==> is_button((#[trigger] list[i]).name),
        forall|i: int, j: int|
            0 <= i < j < list.len() ==> (#[trigger] list[i]).at != (#[trigger] list[j]).at,
        forall|i: int| 0 <= i < list.len() - 1 ==> (#[trigger] list[i]).next == list[i + 1].at,
        list.last().next == 0 || exists|i: int|
            0 <= i < list.len() && (#[trigger] list[i]).at == list.last().next,
    ensures
        chain_reach(image, base, list[0].at) == list.len(),
{
    lemma_reach(image, base, list, 0, Set::empty(), image.len());
}

/// A record whose name is not that of a button begins no chain.
pub proof fn lemma_no_chain(image: Seq<u8>, base: u64, r: RecordImage)
    requires
        record_stands(image, base, r),
        r.name.len() <= 3 || r.name[0] != 0x69 || r.name[1] != 0x6E || r.name[2] != 0x5F,
    ensures
        chain_reach(image, base, r.at) == 0,
{
    lemma_record_read(image, base, r);
}

/// The heads of lists are the values that reach eight buttons or more, each with the
/// first slot that holds it and as many buttons as it reaches.
pub proof fn lemma_heads_listed(image: Seq<u8>, base: u64, list: Seq<(u64, u64)>, k: int)
    requires
        0 <= k < list.len(),
        forall|j: int| 0 <= j < k ==> (#[trigger] list[j]).1 != list[k].1,
    ensures
        chain_reach(image, base, list[k].1) >= 8 ==> list_heads(
            image,
            base,
            list,
        ).contains((list[k].0, list[k].1, chain_reach(image, base, list[k].1) as usize)),
        chain_reach(image, base, list[k].1) < 8 ==> forall|slot: u64, n: usize|
            !#[trigger] list_heads(image, base, list).contains((slot, list[k].1, n)),
    decreases list.len(),
{
    let head = list[k].1;
    let len = chain_reach(image, base, head);
    let before = list.drop_last();
    let was = list_heads(image, base, before);
    let now = list_heads(image, base, list);
    let last = list.last();
    let item = (list[k].0, head, len as usize);
    if k < list.len() - 1 {
        assert(before[k] == list[k]);
        assert forall|j: int| 0 <= j < k implies (#[trigger] before[j]).1 != before[k].1 by {
            assert(list[j].1 != list[k].1);
        }
        lemma_heads_listed(image, base, before, k);
        if len >= 8 {
            let i = choose|i: int| 0 <= i < was.len() && was[i] == item;
            assert(now[i] == item);
        } else {
            assert forall|slot: u64, n: usize| !#[trigger] now.contains((slot, head, n)) by {
                if now.contains((slot, head, n)) {
                    let i = choose|i: int| 0 <= i < now.len() && now[i] == (slot, head, n);
                    if i < was.len() {
                        assert(was[i] == (slot, head, n));
                        assert(was.contains((slot, head, n)));
                    }
                }
            }
        }
    } else {
        lemma_heads_held(image, base, before);
        assert(!heads_of(was).contains(head)) by {
            if heads_of(was).contains(head) {
                let i = choose|i: int| 0 <= i < was.len() && (#[trigger] was[i]).1 == head;
                let j = choose|j: int| 0 <= j < before.len() && (#[trigger] before[j]).1 == was[i].1;
                assert(list[j].1 != list[k].1);
            }
        }
        if len >= 8 {
            assert(now[was.len() as int] == item);
        } else {
            assert(now == was);
            assert forall|slot: u64, n: usize| !#[trigger] now.contains((slot, head, n)) by {
                if now.contains((slot, head, n)) {
                    let i = choose|i: int| 0 <= i < now.len() && now[i] == (slot, head, n);
                    assert(was[i].1 == head);
                }
            }
        }
    }
}

proof fn lemma_heads_held(image: Seq<u8>, base: u64, list: Seq<(u64, u64)>)
    ensures
        forall|i: int|
            0 <= i < list_heads(image, base, list).len() ==> exists|j: int|
                0 <= j < list.len() && (#[trigger] list[j]).1 == (#[trigger] list_heads(
                    image,
                    base,
                    list,
                )[i]).1,
    decreases list.len(),
{
    if list.len() > 0 {
        let before = list.drop_last();
        lemma_heads_held(image, base, before);
        let was = list_heads(image, base, before);
        let now = list_heads(image, base, list);
        assert forall|i: int| 0 <= i < now.len() implies exists|j: int|
            0 <= j < list.len() && (#[trigger] list[j]).1 == (#[trigger] now[i]).1 by {
            if i < was.len() {
                assert(now[i] == was[i]);
                let j = choose|j: int| 0 <= j < before.len() && (#[trigger] before[j]).1 == was[i].1;
                assert(list[j].1 == now[i].1);
            } else {
                assert(list[list.len() - 1].1 == now[i].1);
            }
        }
    }
}

} // verus!
