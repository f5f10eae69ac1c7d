//! Puts the results of the passes together.

use crate::analysis::dyn_offsets::Recovered;
use crate::analysis::interfaces::{inner_wf, nested};
use crate::analysis::module_data::{ImageSession, ModuleRecord};
use crate::analysis::offsets::OffsetMap;
use crate::analysis::read::{ld32, u32_va};
use crate::memory::{copies, raw, Memory};
use crate::memory::stored::{lemma_copied, lemma_loads, lemma_part, stands32};
use crate::patterns::PatternHit;
use crate::strmap::{key_at, keys_ascend, StrMap};
use crate::text::{
    chars_of, digit_lower, eq_ignore_case, hex_padded_lower, hex_value, holds_string, join, joined,
    lemma_hex_padded_value, lemma_hex_width, lemma_lowered, lemma_str_order, lower_char, lower_text,
    pow16, push_hex_padded_lower, str_before, str_eq, strings,
};
use vstd::prelude::*;
use vstd::slice::*;
use vstd::string::*;

verus! {

/// The languages that are written.
pub open spec fn file_types() -> Seq<Seq<char>> {
    seq!["cs"@, "hpp"@, "json"@, "rs"@, "zig"@]
}

fn supports(kind: &str) -> (yes: bool)
    ensures
        yes == file_types().contains(kind@),
{
    let yes = str_eq(kind, "cs") || str_eq(kind, "hpp") || str_eq(kind, "json") || str_eq(
        kind,
        "rs",
    ) || str_eq(kind, "zig");
    proof {
        let all = file_types();
        assert(all[0] == "cs"@ && all[1] == "hpp"@ && all[2] == "json"@ && all[3] == "rs"@ && all[4]
            == "zig"@);
    }
    yes
}

/// The kinds that are not supported, in order.
pub open spec fn unsupported(kinds: Seq<Seq<char>>) -> Seq<Seq<char>>
    decreases kinds.len(),
{
    if kinds.len() == 0 {
        Seq::empty()
    } else {
        let before = unsupported(kinds.drop_last());
        if file_types().contains(kinds.last()) {
            before
        } else {
            before.push(kinds.last())
        }
    }
}

/// The kinds that occurred before, in order.
pub open spec fn repeated(kinds: Seq<Seq<char>>) -> Seq<Seq<char>>
    decreases kinds.len(),
{
    if kinds.len() == 0 {
        Seq::empty()
    } else {
        let before = repeated(kinds.drop_last());
        if kinds.drop_last().contains(kinds.last()) {
            before.push(kinds.last())
        } else {
            before
        }
    }
}

/// Why a choice of languages is refused.
#[derive(Debug)]
pub enum FileTypeError {
    /// These are not languages that are written.
    Unsupported(Vec<String>),
    /// These are chosen twice.
    Duplicate(Vec<String>),
}

impl FileTypeError {
    /// The error in words.
    pub fn message(&self) -> (text: String)
        ensures
            text@ == (match self {
                FileTypeError::Unsupported(list) => "unsupported file type(s): "@ + joined(
                    strings(list@),
                    ", "@,
                ) + "; supported types: cs, hpp, json, rs, zig"@,
                FileTypeError::Duplicate(list) => "duplicate output file type(s): "@ + joined(
                    strings(list@),
                    ", "@,
                ),
            }),
    {
        match self {
            FileTypeError::Unsupported(list) => {
                let mut out = "unsupported file type(s): ".to_owned();
                out.append(join(list, ", ").as_str());
                out.append("; supported types: cs, hpp, json, rs, zig");
                out
            },
            FileTypeError::Duplicate(list) => {
                let mut out = "duplicate output file type(s): ".to_owned();
                out.append(join(list, ", ").as_str());
                out
            },
        }
    }
}

/// Accepts a choice of languages: each one that is written, and none twice.
pub fn validate_file_types(kinds: &Vec<String>) -> (valid: Result<(), FileTypeError>)
    ensures
        ({
            let texts = strings(kinds@);
            let invalid = unsupported(texts);
            let twice = repeated(texts);
            if invalid.len() > 0 {
                valid matches Err(FileTypeError::Unsupported(list)) && strings(list@) == invalid
            } else if twice.len() > 0 {
                valid matches Err(FileTypeError::Duplicate(list)) && strings(list@) == twice
            } else {
                valid is Ok
            }
        }),
{
    let ghost texts = strings(kinds@);
    let mut invalid: Vec<String> = Vec::new();
    let mut seen: Vec<String> = Vec::new();
    let mut twice: Vec<String> = Vec::new();
    let mut i: usize = 0;
    assert(texts.subrange(0, 0) =~= Seq::<Seq<char>>::empty());
    assert(strings(invalid@) =~= Seq::<Seq<char>>::empty());
    assert(strings(seen@) =~= Seq::<Seq<char>>::empty());
    assert(strings(twice@) =~= Seq::<Seq<char>>::empty());
    while i < kinds.len()
        invariant
            i <= kinds@.len(),
            texts == strings(kinds@),
            strings(seen@) == texts.subrange(0, i as int),
            strings(invalid@) == unsupported(texts.subrange(0, i as int)),
            strings(twice@) == repeated(texts.subrange(0, i as int)),
        decreases kinds@.len() - i,
    {
        let kind = kinds[i].as_str();
        let ghost head = texts.subrange(0, i + 1);
        assert(head.drop_last() =~= texts.subrange(0, i as int));
        assert(head.last() == kind@);
        if !supports(kind) {
            let ghost before = strings(invalid@);
            invalid.push(kind.to_owned());
            assert(strings(invalid@) =~= before.push(kind@));
        }
        if holds_string(&seen, kind) {
            let ghost before = strings(twice@);
            twice.push(kind.to_owned());
            assert(strings(twice@) =~= before.push(kind@));
        }
        let ghost before = strings(seen@);
        seen.push(kind.to_owned());
        assert(strings(seen@) =~= head);
        i = i + 1;
    }
    assert(texts.subrange(0, i as int) =~= texts);
    assert(strings(invalid@).len() == invalid@.len());
    assert(strings(twice@).len() == twice@.len());
    if invalid.len() > 0 {
        Err(FileTypeError::Unsupported(invalid))
    } else if twice.len() > 0 {
        Err(FileTypeError::Duplicate(twice))
    } else {
        Ok(())
    }
}

/// The first key in order that is `name`, whatever its case.
pub open spec fn first_key(keys: Set<Seq<char>>, name: Seq<char>, key: Seq<char>) -> bool {
    &&& keys.contains(key)
    &&& lower_text(key) == lower_text(name)
    &&& forall|other: Seq<char>| #[trigger]
        keys.contains(other) && lower_text(other) == lower_text(name) ==> other == key || str_before(
            key,
            other,
        )
}

/// The key of a name, whatever its case.
pub open spec fn key_of(keys: Set<Seq<char>>, name: Seq<char>) -> Option<Seq<char>> {
    if exists|key: Seq<char>| first_key(keys, name, key) {
        Some(choose|key: Seq<char>| first_key(keys, name, key))
    } else {
        None
    }
}

/// A map holds a name, whatever its case.
pub open spec fn holds_name(keys: Set<Seq<char>>, name: Seq<char>) -> bool {
    exists|key: Seq<char>| #[trigger] keys.contains(key) && lower_text(key) == lower_text(name)
}

proof fn lemma_first_key(keys: Set<Seq<char>>, name: Seq<char>, key: Seq<char>)
    requires
        first_key(keys, name, key),
    ensures
        key_of(keys, name) == Some(key),
{
    let other = choose|k: Seq<char>| first_key(keys, name, k);
    assert(first_key(keys, name, other));
    assert(keys.contains(other) && keys.contains(key));
    lemma_str_order(key, other, key);
}

/// The place of the first entry whose key is `name`, whatever its case.
fn find_key<V>(map: &StrMap<V>, name: &str) -> (place: Option<usize>)
    requires
        map.wf(),
    ensures
        match place {
            Some(i) => i < map.entries@.len() && first_key(
                map.map().dom(),
                name@,
                map.entries@[i as int].0@,
            ) && key_of(map.map().dom(), name@) == Some(map.entries@[i as int].0@),
            None => !holds_name(map.map().dom(), name@) && key_of(map.map().dom(), name@) is None,
        },
{
    let ghost keys = map.map().dom();
    let mut i: usize = 0;
    while i < map.entries.len()
        invariant
            map.wf(),
            keys == map.map().dom(),
            i <= map.entries@.len(),
            forall|k: int|
                0 <= k < i ==> lower_text((#[trigger] map.entries@[k]).0@) != lower_text(name@),
        decreases map.entries@.len() - i,
    {
        if eq_ignore_case(map.entries[i].0.as_str(), name) {
            proof {
                let key = map.entries@[i as int].0@;
                map.lemma_entry(i as int);
                assert forall|other: Seq<char>| #[trigger] keys.contains(other) && lower_text(other)
                    == lower_text(name@) implies other == key || str_before(key, other) by {
                    let k = choose|k: int| key_at(map.entries@, other, k);
                    assert(map.entries@[k].0@ == other);
                    if i < k {
                        assert(str_before(map.entries@[i as int].0@, map.entries@[k].0@));
                    }
                }
                assert(first_key(keys, name@, key));
                lemma_first_key(keys, name@, key);
            }
            return Some(i);
        }
        i = i + 1;
    }
    proof {
        assert forall|key: Seq<char>| #[trigger] keys.contains(key) implies lower_text(key)
            != lower_text(name@) by {
            let k = choose|k: int| key_at(map.entries@, key, k);
            assert(map.entries@[k].0@ == key);
        }
        if exists|key: Seq<char>| first_key(keys, name@, key) {
            let key = choose|key: Seq<char>| first_key(keys, name@, key);
            assert(keys.contains(key));
        }
    }
    None
}

/// The offsets of all modules, by module and symbol.
pub type Offsets = Map<Seq<char>, Map<Seq<char>, u32>>;

/// The offsets with one more: none is ever replaced, whatever the case of its
/// module and symbol. The flag says whether it was added.
pub open spec fn with_missing(
    offsets: Offsets,
    module: Seq<char>,
    symbol: Seq<char>,
    rva: u32,
) -> (Offsets, bool) {
    match key_of(offsets.dom(), module) {
        Some(key) => if holds_name(offsets[key].dom(), symbol) {
            (offsets, false)
        } else {
            (offsets.insert(key, offsets[key].insert(symbol, rva)), true)
        },
        None => (offsets.insert(module, Map::empty().insert(symbol, rva)), true),
    }
}

proof fn lemma_least_key<V>(map: StrMap<V>, name: Seq<char>, k: int)
    requires
        map.wf(),
        0 <= k < map.entries@.len(),
        lower_text(map.entries@[k].0@) == lower_text(name),
    ensures
        key_of(map.map().dom(), name) is Some,
    decreases k,
{
    if exists|j: int| 0 <= j < k && lower_text((#[trigger] map.entries@[j]).0@) == lower_text(name) {
        let j = choose|j: int|
            0 <= j < k && lower_text((#[trigger] map.entries@[j]).0@) == lower_text(name);
        lemma_least_key(map, name, j);
    } else {
        let keys = map.map().dom();
        let key = map.entries@[k].0@;
        map.lemma_entry(k);
        assert forall|other: Seq<char>| #[trigger] keys.contains(other) && lower_text(other)
            == lower_text(name) implies other == key || str_before(key, other) by {
            let j = choose|j: int| key_at(map.entries@, other, j);
            assert(map.entries@[j].0@ == other);
            if k < j {
                assert(str_before(map.entries@[k].0@, map.entries@[j].0@));
            }
        }
        assert(first_key(keys, name, key));
    }
}

/// Every module is found under its own name.
pub open spec fn keyed(offsets: Offsets) -> bool {
    forall|key: Seq<char>| #[trigger]
        offsets.contains_key(key) ==> key_of(offsets.dom(), key) is Some
}

/// The offsets of a map are found under their own names.
pub proof fn lemma_keyed(map: OffsetMap)
    requires
        map.wf(),
    ensures
        keyed(nested(map.map())),
{
    let offsets = nested(map.map());
    assert(offsets.dom() =~= map.map().dom());
    assert forall|key: Seq<char>| #[trigger] offsets.contains_key(key) implies key_of(
        offsets.dom(),
        key,
    ) is Some by {
        let k = choose|k: int| key_at(map.entries@, key, k);
        lemma_least_key(map, key, k);
    }
}

/// The offsets `after` hold all that `before` does, with its value.
pub open spec fn keeps(before: Offsets, after: Offsets) -> bool {
    forall|m: Seq<char>, s: Seq<char>|
        #![trigger before[m].contains_key(s)]
        before.contains_key(m) && before[m].contains_key(s) ==> after.contains_key(m)
            && after[m].contains_key(s) && after[m][s] == before[m][s]
}

/// What the offsets held before is there afterwards, with its value.
pub proof fn lemma_missing_keeps(offsets: Offsets, module: Seq<char>, symbol: Seq<char>, rva: u32)
    requires
        keyed(offsets),
    ensures
        keeps(offsets, with_missing(offsets, module, symbol, rva).0),
        keyed(with_missing(offsets, module, symbol, rva).0),
{
    let keys = offsets.dom();
    let (now, _) = with_missing(offsets, module, symbol, rva);
    match key_of(keys, module) {
        Some(key) => {
            assert(first_key(keys, module, key));
            assert(now.dom() =~= keys);
            assert forall|k: Seq<char>| #[trigger] now.contains_key(k) implies key_of(
                now.dom(),
                k,
            ) is Some by {
                assert(offsets.contains_key(k));
            }
            assert forall|m: Seq<char>, s: Seq<char>|
                #![trigger offsets[m].contains_key(s)]
                offsets.contains_key(m) && offsets[m].contains_key(s) implies now.contains_key(m)
                && now[m].contains_key(s) && now[m][s] == offsets[m][s] by {
                if m == key && !holds_name(offsets[key].dom(), symbol) {
                    assert(offsets[m].dom().contains(s));
                }
            }
        },
        None => {
            assert forall|k: Seq<char>| #[trigger] offsets.contains_key(k) implies lower_text(k)
                != lower_text(module) by {
                if lower_text(k) == lower_text(module) {
                    let least = key_of(keys, k)->0;
                    assert(first_key(keys, k, least));
                    assert(first_key(keys, module, least));
                }
            }
            assert(now.dom() =~= keys.insert(module));
            assert forall|k: Seq<char>| #[trigger] now.contains_key(k) implies key_of(
                now.dom(),
                k,
            ) is Some by {
                if k == module {
                    assert(first_key(now.dom(), module, module));
                } else {
                    assert(offsets.contains_key(k));
                    let least = key_of(keys, k)->0;
                    assert(first_key(keys, k, least));
                    assert(first_key(now.dom(), k, least));
                }
            }
        },
    }
}

/// Adds an offset where the module does not have the symbol yet, whatever the
/// case of either, and says whether it did.
pub fn insert_missing_offset(offsets: &mut OffsetMap, module: &str, symbol: String, rva: u32) -> (added:
    bool)
    requires
        old(offsets).wf(),
        inner_wf(old(offsets).map()),
    ensures
        final(offsets).wf(),
        inner_wf(final(offsets).map()),
        (nested(final(offsets).map()), added) == with_missing(
            nested(old(offsets).map()),
            module@,
            symbol@,
            rva,
        ),
{
    let ghost was = *offsets;
    let ghost before = nested(was.map());
    assert(before.dom() =~= was.map().dom());
    let ghost text = symbol@;
    match find_key(offsets, module) {
        Some(i) => {
            let ghost key = was.entries@[i as int].0@;
            let ghost inner = was.entries@[i as int].1;
            proof {
                was.lemma_entry(i as int);
                assert(inner.wf());
                assert(before[key] == inner.map());
            }
            match find_key(&offsets.entries[i].1, symbol.as_str()) {
                Some(j) => {
                    proof {
                        inner.lemma_entry(j as int);
                        assert(inner.map().dom().contains(inner.entries@[j as int].0@));
                    }
                    false
                },
                None => {
                    let _previous = offsets.entries[i].1.insert(symbol, rva);
                    proof {
                        let now = *offsets;
                        lemma_value_changed(was, now, i as int);
                        assert(nested(now.map()) =~= before.insert(
                            key,
                            inner.map().insert(text, rva),
                        ));
                    }
                    true
                },
            }
        },
        None => {
            let mut fresh: StrMap<u32> = StrMap::new();
            let _none = fresh.insert(symbol, rva);
            let ghost inner = fresh;
            let _previous = offsets.insert(module.to_owned(), fresh);
            assert(nested(offsets.map()) =~= before.insert(module@, inner.map()));
            true
        },
    }
}

/// A map in which the value of one entry changed is the map with that value
/// set.
proof fn lemma_value_changed<V>(was: StrMap<V>, now: StrMap<V>, i: int)
    requires
        was.wf(),
        0 <= i < was.entries@.len(),
        now.entries@.len() == was.entries@.len(),
        now.entries@[i].0 == was.entries@[i].0,
        forall|k: int| 0 <= k < was.entries@.len() && k != i ==> #[trigger] now.entries@[k]
            == was.entries@[k],
    ensures
        now.wf(),
        now.map() == was.map().insert(was.entries@[i].0@, now.entries@[i].1),
{
    assert forall|a: int, b: int| 0 <= a < b < now.entries@.len() implies str_before(
        #[trigger] now.entries@[a].0@,
        #[trigger] now.entries@[b].0@,
    ) by {
        assert(now.entries@[a].0 == was.entries@[a].0);
        assert(now.entries@[b].0 == was.entries@[b].0);
        assert(str_before(was.entries@[a].0@, was.entries@[b].0@));
    }
    let want = was.map().insert(was.entries@[i].0@, now.entries@[i].1);
    assert forall|key: Seq<char>| #[trigger] now.map().contains_key(key) == want.contains_key(key) by {
        if now.map().contains_key(key) {
            let k = choose|k: int| key_at(now.entries@, key, k);
            assert(now.entries@[k].0 == was.entries@[k].0);
            assert(key_at(was.entries@, key, k));
        }
        if was.map().contains_key(key) {
            let k = choose|k: int| key_at(was.entries@, key, k);
            assert(now.entries@[k].0 == was.entries@[k].0);
            assert(key_at(now.entries@, key, k));
        }
        assert(key_at(now.entries@, was.entries@[i].0@, i));
    }
    assert forall|key: Seq<char>| #[trigger] now.map().contains_key(key) implies now.map()[key]
        == want[key] by {
        let k = choose|k: int| key_at(now.entries@, key, k);
        now.lemma_entry(k);
        was.lemma_entry(k);
        assert(now.entries@[k].0 == was.entries@[k].0);
        if k != i {
            if key == was.entries@[i].0@ {
                was.lemma_entry(i);
                now.lemma_entry(i);
            }
        }
    }
    assert(now.map() =~= want);
}

/// The name of an offset: `dw` in either case and a letter.
pub open spec fn offset_symbol(name: Seq<char>) -> bool {
    &&& name.len() >= 3
    &&& name[0] == 'd' || name[0] == 'D'
    &&& name[1] == 'w' || name[1] == 'W'
    &&& 'a' <= name[2] <= 'z' || 'A' <= name[2] <= 'Z'
}

pub fn is_offset_symbol(name: &str) -> (yes: bool)
    ensures
        yes == offset_symbol(name@),
{
    let chars = chars_of(name);
    if chars.len() < 3 {
        return false;
    }
    let (a, b, c) = (chars[0], chars[1], chars[2]);
    (a == 'd' || a == 'D') && (b == 'w' || b == 'W') && (('a' <= c && c <= 'z') || ('A' <= c && c
        <= 'Z'))
}

/// A hit that gives an offset.
pub open spec fn gives_offset(hit: PatternHit) -> bool {
    hit.found && offset_symbol(hit.name@) && hit.rva is Some && hit.rva->0 <= u32::MAX
}

/// The offsets after the first `n` hits, and how many were added.
pub open spec fn overlaid(offsets: Offsets, hits: Seq<PatternHit>, n: nat) -> (Offsets, int)
    decreases n,
{
    if n == 0 {
        (offsets, 0)
    } else {
        let (before, count) = overlaid(offsets, hits, (n - 1) as nat);
        let hit = hits[n - 1];
        if gives_offset(hit) {
            let (now, added) = with_missing(before, hit.module@, hit.name@, hit.rva->0 as u32);
            (
                now,
                count + if added {
                    1int
                } else {
                    0int
                },
            )
        } else {
            (before, count)
        }
    }
}

/// Hits never replace an offset: whatever the map held before them is there
/// afterwards, with its value.
pub proof fn lemma_overlay_keeps(offsets: Offsets, hits: Seq<PatternHit>, n: nat)
    requires
        keyed(offsets),
        n <= hits.len(),
    ensures
        keeps(offsets, overlaid(offsets, hits, n).0),
        keyed(overlaid(offsets, hits, n).0),
    decreases n,
{
    if n > 0 {
        lemma_overlay_keeps(offsets, hits, (n - 1) as nat);
        let before = overlaid(offsets, hits, (n - 1) as nat).0;
        let hit = hits[n - 1];
        if gives_offset(hit) {
            lemma_missing_keeps(before, hit.module@, hit.name@, hit.rva->0 as u32);
            lemma_keeps_twice(
                offsets,
                before,
                with_missing(before, hit.module@, hit.name@, hit.rva->0 as u32).0,
            );
        }
    }
}

/// What is kept twice is kept.
pub proof fn lemma_keeps_twice(a: Offsets, b: Offsets, c: Offsets)
    requires
        keeps(a, b),
        keeps(b, c),
    ensures
        keeps(a, c),
{
    assert forall|m: Seq<char>, s: Seq<char>|
        #![trigger a[m].contains_key(s)]
        a.contains_key(m) && a[m].contains_key(s) implies c.contains_key(m) && c[m].contains_key(s)
        && c[m][s] == a[m][s] by {
        assert(b[m].contains_key(s));
    }
}

proof fn lemma_no_key(offsets: Offsets, module: Seq<char>, key: Seq<char>)
    requires
        keyed(offsets),
        key_of(offsets.dom(), module) is None,
        offsets.contains_key(key),
    ensures
        lower_text(key) != lower_text(module),
{
    let keys = offsets.dom();
    if lower_text(key) == lower_text(module) {
        let least = key_of(keys, key)->0;
        assert(first_key(keys, key, least));
        assert(first_key(keys, module, least));
    }
}

/// The offsets hold a symbol of a module, whatever the case of either.
pub open spec fn holds_offset(offsets: Offsets, module: Seq<char>, symbol: Seq<char>) -> bool {
    match key_of(offsets.dom(), module) {
        Some(key) => holds_name(offsets[key].dom(), symbol),
        None => false,
    }
}

proof fn lemma_missing_held(offsets: Offsets, module: Seq<char>, symbol: Seq<char>, rva: u32)
    requires
        keyed(offsets),
    ensures
        holds_offset(with_missing(offsets, module, symbol, rva).0, module, symbol),
        with_missing(offsets, module, symbol, rva).1 == !holds_offset(offsets, module, symbol),
{
    let keys = offsets.dom();
    let now = with_missing(offsets, module, symbol, rva).0;
    match key_of(keys, module) {
        Some(key) => {
            assert(first_key(keys, module, key));
            assert(now.dom() =~= keys);
            if !holds_name(offsets[key].dom(), symbol) {
                assert(now[key].dom().contains(symbol));
            }
        },
        None => {
            assert forall|other: Seq<char>| #[trigger] now.dom().contains(other) && lower_text(other)
                == lower_text(module) implies other == module || str_before(module, other) by {
                if other != module {
                    assert(keys.contains(other));
                    lemma_no_key(offsets, module, other);
                }
            }
            assert(first_key(now.dom(), module, module));
            lemma_first_key(now.dom(), module, module);
            assert(now[module].dom().contains(symbol));
        },
    }
}

proof fn lemma_held_stays(
    offsets: Offsets,
    module: Seq<char>,
    symbol: Seq<char>,
    rva: u32,
    m: Seq<char>,
    s: Seq<char>,
)
    requires
        keyed(offsets),
        holds_offset(offsets, m, s),
    ensures
        holds_offset(with_missing(offsets, module, symbol, rva).0, m, s),
{
    let keys = offsets.dom();
    let now = with_missing(offsets, module, symbol, rva).0;
    let held = key_of(keys, m)->0;
    assert(first_key(keys, m, held));
    let name = choose|name: Seq<char>| #[trigger]
        offsets[held].dom().contains(name) && lower_text(name) == lower_text(s);
    match key_of(keys, module) {
        Some(key) => {
            assert(first_key(keys, module, key));
            assert(now.dom() =~= keys);
            assert(now[held].dom().contains(name));
        },
        None => {
            assert(now.dom() =~= keys.insert(module));
            assert forall|k: Seq<char>| #[trigger] keys.contains(k) implies lower_text(k)
                != lower_text(module) by {
                lemma_no_key(offsets, module, k);
            }
            assert(first_key(now.dom(), m, held));
            lemma_first_key(now.dom(), m, held);
            assert(now[held].dom().contains(name));
        },
    }
}

proof fn lemma_overlaid_held(offsets: Offsets, hits: Seq<PatternHit>, n: nat, i: int)
    requires
        keyed(offsets),
        0 <= i < n <= hits.len(),
        gives_offset(hits[i]),
    ensures
        holds_offset(overlaid(offsets, hits, n).0, hits[i].module@, hits[i].name@),
    decreases n,
{
    let before = overlaid(offsets, hits, (n - 1) as nat).0;
    let hit = hits[n - 1];
    lemma_overlay_keeps(offsets, hits, (n - 1) as nat);
    if i == n - 1 {
        lemma_missing_held(before, hit.module@, hit.name@, hit.rva->0 as u32);
    } else {
        lemma_overlaid_held(offsets, hits, (n - 1) as nat, i);
        if gives_offset(hit) {
            lemma_held_stays(
                before,
                hit.module@,
                hit.name@,
                hit.rva->0 as u32,
                hits[i].module@,
                hits[i].name@,
            );
        }
    }
}

proof fn lemma_nothing_new(offsets: Offsets, hits: Seq<PatternHit>, n: nat)
    requires
        keyed(offsets),
        n <= hits.len(),
        forall|i: int|
            0 <= i < n && gives_offset(#[trigger] hits[i]) ==> holds_offset(
                offsets,
                hits[i].module@,
                hits[i].name@,
            ),
    ensures
        overlaid(offsets, hits, n) == (offsets, 0int),
    decreases n,
{
    if n > 0 {
        lemma_nothing_new(offsets, hits, (n - 1) as nat);
        let hit = hits[n - 1];
        if gives_offset(hit) {
            lemma_missing_held(offsets, hit.module@, hit.name@, hit.rva->0 as u32);
        }
    }
}

/// The same hits add nothing a second time: the offsets stay as they are, and
/// none is counted.
pub proof fn lemma_overlay_once(offsets: Offsets, hits: Seq<PatternHit>)
    requires
        keyed(offsets),
    ensures
        ({
            let once = overlaid(offsets, hits, hits.len()).0;
            overlaid(once, hits, hits.len()) == (once, 0int)
        }),
{
    let once = overlaid(offsets, hits, hits.len()).0;
    lemma_overlay_keeps(offsets, hits, hits.len());
    assert forall|i: int| 0 <= i < hits.len() && gives_offset(#[trigger] hits[i]) implies holds_offset(
        once,
        hits[i].module@,
        hits[i].name@,
    ) by {
        lemma_overlaid_held(offsets, hits, hits.len(), i);
    }
    lemma_nothing_new(once, hits, hits.len());
}

/// The modules and symbols that the offsets hold.
pub open spec fn symbols_of(offsets: Offsets) -> Set<(Seq<char>, Seq<char>)> {
    Set::new(
        |pair: (Seq<char>, Seq<char>)|
            offsets.contains_key(pair.0) && offsets[pair.0].contains_key(pair.1),
    )
}

proof fn lemma_missing_counts(offsets: Offsets, module: Seq<char>, symbol: Seq<char>, rva: u32)
    requires
        keyed(offsets),
        symbols_of(offsets).finite(),
    ensures
        ({
            let (now, added) = with_missing(offsets, module, symbol, rva);
            &&& symbols_of(now).finite()
            &&& symbols_of(now).len() == symbols_of(offsets).len() + if added {
                1int
            } else {
                0int
            }
        }),
{
    let keys = offsets.dom();
    let was = symbols_of(offsets);
    let (now, added) = with_missing(offsets, module, symbol, rva);
    match key_of(keys, module) {
        Some(key) => {
            assert(first_key(keys, module, key));
            if added {
                if offsets[key].contains_key(symbol) {
                    assert(offsets[key].dom().contains(symbol));
                }
                assert(symbols_of(now) =~= was.insert((key, symbol)));
            }
        },
        None => {
            if keys.contains(module) {
                lemma_no_key(offsets, module, module);
            }
            assert(symbols_of(now) =~= was.insert((module, symbol)));
        },
    }
}

/// What is counted is by how many symbols the offsets grow.
pub proof fn lemma_overlay_counts(offsets: Offsets, hits: Seq<PatternHit>, n: nat)
    requires
        keyed(offsets),
        symbols_of(offsets).finite(),
        n <= hits.len(),
    ensures
        symbols_of(overlaid(offsets, hits, n).0).finite(),
        symbols_of(overlaid(offsets, hits, n).0).len() == symbols_of(offsets).len() + overlaid(
            offsets,
            hits,
            n,
        ).1,
    decreases n,
{
    if n > 0 {
        lemma_overlay_counts(offsets, hits, (n - 1) as nat);
        lemma_overlay_keeps(offsets, hits, (n - 1) as nat);
        let before = overlaid(offsets, hits, (n - 1) as nat).0;
        let hit = hits[n - 1];
        if gives_offset(hit) {
            lemma_missing_counts(before, hit.module@, hit.name@, hit.rva->0 as u32);
        }
    }
}

/// The pairs of a map's entries, in order.
spec fn listed_symbols(entries: Seq<(String, StrMap<u32>)>) -> Seq<(Seq<char>, Seq<char>)>
    decreases entries.len(),
{
    if entries.len() == 0 {
        Seq::empty()
    } else {
        let (module, symbols) = entries.last();
        listed_symbols(entries.drop_last()) + Seq::new(
            symbols.entries@.len(),
            |j: int| (module@, symbols.entries@[j].0@),
        )
    }
}

proof fn lemma_listed_symbol(entries: Seq<(String, StrMap<u32>)>, i: int, j: int)
    requires
        0 <= i < entries.len(),
        0 <= j < entries[i].1.entries@.len(),
    ensures
        listed_symbols(entries).contains((entries[i].0@, entries[i].1.entries@[j].0@)),
    decreases entries.len(),
{
    let before = listed_symbols(entries.drop_last());
    let pair = (entries[i].0@, entries[i].1.entries@[j].0@);
    if i == entries.len() - 1 {
        assert(listed_symbols(entries)[before.len() + j] == pair);
    } else {
        lemma_listed_symbol(entries.drop_last(), i, j);
        let k = choose|k: int| 0 <= k < before.len() && before[k] == pair;
        assert(listed_symbols(entries)[k] == pair);
    }
}

/// The symbols of a map can be counted.
pub proof fn lemma_symbols_finite(map: OffsetMap)
    requires
        map.wf(),
    ensures
        symbols_of(nested(map.map())).finite(),
{
    let offsets = nested(map.map());
    let listed = listed_symbols(map.entries@);
    assert forall|pair: (Seq<char>, Seq<char>)| #[trigger]
        symbols_of(offsets).contains(pair) implies listed.to_set().contains(pair) by {
        let i = choose|i: int| key_at(map.entries@, pair.0, i);
        map.lemma_entry(i);
        let symbols = map.entries@[i].1;
        let j = choose|j: int| key_at(symbols.entries@, pair.1, j);
        assert(key_at(symbols.entries@, pair.1, j));
        lemma_listed_symbol(map.entries@, i, j);
    }
    vstd::seq_lib::seq_to_set_is_finite(listed);
    vstd::set_lib::lemma_set_subset_finite(listed.to_set(), symbols_of(offsets));
}

/// Adds the offsets that the pattern hits give and the map does not have, and
/// says how many.
pub fn overlay_dynamic_offsets(offsets: &mut OffsetMap, hits: &Vec<PatternHit>) -> (added: usize)
    requires
        old(offsets).wf(),
        inner_wf(old(offsets).map()),
    ensures
        final(offsets).wf(),
        inner_wf(final(offsets).map()),
        (nested(final(offsets).map()), added as int) == overlaid(
            nested(old(offsets).map()),
            hits@,
            hits@.len(),
        ),
{
    let ghost start = nested(offsets.map());
    let mut added: usize = 0;
    let mut i: usize = 0;
    while i < hits.len()
        invariant
            i <= hits@.len(),
            added <= i,
            offsets.wf(),
            inner_wf(offsets.map()),
            (nested(offsets.map()), added as int) == overlaid(start, hits@, i as nat),
        decreases hits@.len() - i,
    {
        let hit = &hits[i];
        match hit.rva {
            Some(rva) => {
                if rva <= 0xFFFF_FFFF && hit.found && is_offset_symbol(hit.name.as_str()) {
                    if insert_missing_offset(
                        offsets,
                        hit.module.as_str(),
                        hit.name.clone(),
                        rva as u32,
                    ) {
                        added = added + 1;
                    }
                }
            },
            None => {},
        }
        i = i + 1;
    }
    added
}

/// The offsets after the first `n` recovered ones, and how many were added.
pub open spec fn recovered_onto(offsets: Offsets, list: Seq<Recovered>, n: nat) -> (Offsets, int)
    decreases n,
{
    if n == 0 {
        (offsets, 0)
    } else {
        let (before, count) = recovered_onto(offsets, list, (n - 1) as nat);
        let item = list[n - 1];
        let (now, added) = with_missing(before, item.module@, item.symbol@, item.rva);
        (
            now,
            count + if added {
                1int
            } else {
                0int
            },
        )
    }
}

/// What live objects give never replaces an offset either.
pub proof fn lemma_recovered_keeps(offsets: Offsets, list: Seq<Recovered>, n: nat)
    requires
        keyed(offsets),
        n <= list.len(),
    ensures
        keeps(offsets, recovered_onto(offsets, list, n).0),
        keyed(recovered_onto(offsets, list, n).0),
    decreases n,
{
    if n > 0 {
        lemma_recovered_keeps(offsets, list, (n - 1) as nat);
        let before = recovered_onto(offsets, list, (n - 1) as nat).0;
        let item = list[n - 1];
        lemma_missing_keeps(before, item.module@, item.symbol@, item.rva);
        lemma_keeps_twice(
            offsets,
            before,
            with_missing(before, item.module@, item.symbol@, item.rva).0,
        );
    }
}

/// Adds the recovered offsets that the map does not have, and says how many.
pub fn recover_live_offsets(offsets: &mut OffsetMap, recovered: &Vec<Recovered>) -> (added: usize)
    requires
        old(offsets).wf(),
        inner_wf(old(offsets).map()),
    ensures
        final(offsets).wf(),
        inner_wf(final(offsets).map()),
        (nested(final(offsets).map()), added as int) == recovered_onto(
            nested(old(offsets).map()),
            recovered@,
            recovered@.len(),
        ),
{
    let ghost start = nested(offsets.map());
    let mut added: usize = 0;
    let mut i: usize = 0;
    while i < recovered.len()
        invariant
            i <= recovered@.len(),
            added <= i,
            offsets.wf(),
            inner_wf(offsets.map()),
            (nested(offsets.map()), added as int) == recovered_onto(
                start,
                recovered@,
                i as nat,
            ),
        decreases recovered@.len() - i,
    {
        let item = &recovered[i];
        if insert_missing_offset(offsets, item.module.as_str(), item.symbol.clone(), item.rva) {
            added = added + 1;
        }
        i = i + 1;
    }
    added
}

/// The size of the first of the modules from `i` on with this name, whatever its
/// case.
pub open spec fn size_from(modules: Seq<ModuleRecord>, name: Seq<char>, i: int) -> Option<u64>
    decreases modules.len() - i,
{
    if i >= modules.len() {
        None
    } else if lower_text(modules[i].name@) == lower_text(name) {
        Some(modules[i].size)
    } else {
        size_from(modules, name, i + 1)
    }
}

/// The entries whose offset lies below a size.
pub open spec fn below(entries: Seq<(String, u32)>, size: u64) -> Seq<(String, u32)>
    decreases entries.len(),
{
    if entries.len() == 0 {
        Seq::empty()
    } else {
        let before = below(entries.drop_last(), size);
        if (entries.last().1 as u64) < size {
            before.push(entries.last())
        } else {
            before
        }
    }
}

/// The offsets of a module that lie in its image; all of them where the module
/// is not known.
pub open spec fn sane(modules: Seq<ModuleRecord>, entry: (String, StrMap<u32>)) -> Seq<(String, u32)> {
    match size_from(modules, entry.0@, 0) {
        Some(size) => below(entry.1.entries@, size),
        None => entry.1.entries@,
    }
}

/// How many offsets of the first `n` modules lie outside their images.
pub open spec fn strays(
    modules: Seq<ModuleRecord>,
    entries: Seq<(String, StrMap<u32>)>,
    n: nat,
) -> int
    decreases n,
{
    if n == 0 {
        0
    } else {
        strays(modules, entries, (n - 1) as nat) + entries[n - 1].1.entries@.len() - sane(
            modules,
            entries[n - 1],
        ).len()
    }
}

proof fn lemma_below(entries: Seq<(String, u32)>, size: u64)
    ensures
        below(entries, size).len() <= entries.len(),
        forall|i: int|
            0 <= i < below(entries, size).len() ==> (#[trigger] below(entries, size)[i]).1 < size,
        keys_ascend(entries) ==> keys_ascend(below(entries, size)),
        forall|i: int|
            0 <= i < below(entries, size).len() ==> exists|k: int|
                0 <= k < entries.len() && entries[k] == #[trigger] below(entries, size)[i],
    decreases entries.len(),
{
    if entries.len() > 0 {
        let front = entries.drop_last();
        lemma_below(front, size);
        let before = below(front, size);
        let now = below(entries, size);
        assert forall|i: int| 0 <= i < now.len() implies exists|k: int|
            0 <= k < entries.len() && entries[k] == #[trigger] now[i] by {
            if i < before.len() {
                assert(now[i] == before[i]);
                let k = choose|k: int| 0 <= k < front.len() && front[k] == before[i];
                assert(entries[k] == now[i]);
            } else {
                assert(entries[entries.len() - 1] == now[i]);
            }
        }
        assert forall|i: int| 0 <= i < now.len() implies (#[trigger] now[i]).1 < size by {
            if i < before.len() {
                assert(now[i] == before[i]);
            }
        }
        if keys_ascend(entries) {
            assert(keys_ascend(front)) by {
                assert forall|a: int, b: int| 0 <= a < b < front.len() implies str_before(
                    #[trigger] front[a].0@,
                    #[trigger] front[b].0@,
                ) by {
                    assert(str_before(entries[a].0@, entries[b].0@));
                }
            }
            assert forall|a: int, b: int| 0 <= a < b < now.len() implies str_before(
                #[trigger] now[a].0@,
                #[trigger] now[b].0@,
            ) by {
                assert(now[a] == before[a]);
                if b < before.len() {
                    assert(now[b] == before[b]);
                    assert(str_before(before[a].0@, before[b].0@));
                } else {
                    let k = choose|k: int| 0 <= k < front.len() && front[k] == before[a];
                    assert(str_before(entries[k].0@, entries[entries.len() - 1].0@));
                }
            }
        }
    }
}

fn keep_below(entries: &mut Vec<(String, u32)>, size: u64) -> (removed: usize)
    ensures
        final(entries)@ == below(old(entries)@, size),
        removed == old(entries)@.len() - final(entries)@.len(),
{
    let ghost was = entries@;
    let total: usize = entries.len();
    let mut kept: Vec<(String, u32)> = Vec::new();
    let mut i: usize = 0;
    assert(was.subrange(0, 0) =~= Seq::<(String, u32)>::empty());
    while i < total
        invariant
            i <= total,
            total == was.len(),
            entries@ == was,
            kept@ == below(was.subrange(0, i as int), size),
        decreases total - i,
    {
        let ghost head = was.subrange(0, i + 1);
        assert(head.drop_last() =~= was.subrange(0, i as int));
        assert(head.last() == was[i as int]);
        if (entries[i].1 as u64) < size {
            let name = entries[i].0.clone();
            let rva: u32 = entries[i].1;
            kept.push((name, rva));
        }
        i = i + 1;
    }
    assert(was.subrange(0, i as int) =~= was);
    proof {
        lemma_below(was, size);
    }
    let removed: usize = total - kept.len();
    *entries = kept;
    removed
}

fn find_size(modules: &Vec<ModuleRecord>, name: &str) -> (size: Option<u64>)
    ensures
        size == size_from(modules@, name@, 0),
{
    let mut i: usize = 0;
    while i < modules.len()
        invariant
            i <= modules@.len(),
            size_from(modules@, name@, 0) == size_from(modules@, name@, i as int),
        decreases modules@.len() - i,
    {
        if eq_ignore_case(modules[i].name.as_str(), name) {
            return Some(modules[i].size);
        }
        i = i + 1;
    }
    None
}

/// A count that stops at the largest number.
pub open spec fn capped_count(n: int) -> int {
    if n > usize::MAX {
        usize::MAX as int
    } else {
        n
    }
}

/// Of every module only the offsets inside it are left, and so many were dropped.
pub open spec fn sanitized(
    before: OffsetMap,
    modules: Seq<ModuleRecord>,
    after: OffsetMap,
    removed: usize,
) -> bool {
    &&& removed == capped_count(strays(modules, before.entries@, before.entries@.len()))
    &&& after.entries@.len() == before.entries@.len()
    &&& forall|i: int|
        0 <= i < after.entries@.len() ==> (#[trigger] after.entries@[i]).0 == before.entries@[i].0
            && after.entries@[i].1.entries@ == sane(modules, before.entries@[i])
}

/// Removes the offsets that lie outside their module's image, and says how
/// many. The count does not pass the largest number.
pub fn sanitize_offset_map(offsets: &mut OffsetMap, modules: &Vec<ModuleRecord>) -> (removed: usize)
    requires
        old(offsets).wf(),
        inner_wf(old(offsets).map()),
    ensures
        final(offsets).wf(),
        inner_wf(final(offsets).map()),
        sanitized(*old(offsets), modules@, *final(offsets), removed),
{
    let ghost start = *offsets;
    let ghost was = start.entries@;
    let total: usize = offsets.entries.len();
    let mut removed: usize = 0;
    let mut i: usize = 0;
    while i < total
        invariant
            i <= total,
            was == start.entries@,
            total == was.len(),
            start.wf(),
            inner_wf(start.map()),
            offsets.entries@.len() == total,
            removed == capped_count(strays(modules@, was, i as nat)),
            forall|k: int|
                0 <= k < i ==> (#[trigger] offsets.entries@[k]).0 == was[k].0
                    && offsets.entries@[k].1.entries@ == sane(modules@, was[k])
                    && offsets.entries@[k].1.wf(),
            forall|k: int| i <= k < total ==> #[trigger] offsets.entries@[k] == was[k],
        decreases total - i,
    {
        proof {
            start.lemma_entry(i as int);
            assert(was[i as int].1.wf());
            lemma_strays_up(modules@, was, 0, i as nat);
        }
        match find_size(modules, offsets.entries[i].0.as_str()) {
            Some(size) => {
                proof {
                    lemma_below(was[i as int].1.entries@, size);
                }
                let gone: usize = keep_below(&mut offsets.entries[i].1.entries, size);
                removed = removed.saturating_add(gone);
            },
            None => {},
        }
        i = i + 1;
    }
    proof {
        assert forall|a: int, b: int| 0 <= a < b < offsets.entries@.len() implies str_before(
            #[trigger] offsets.entries@[a].0@,
            #[trigger] offsets.entries@[b].0@,
        ) by {
            assert(str_before(was[a].0@, was[b].0@));
        }
        assert forall|key: Seq<char>| #[trigger] offsets.map().contains_key(key) implies offsets.map()[key].wf() by {
            let k = choose|k: int| key_at(offsets.entries@, key, k);
            offsets.lemma_entry(k);
        }
    }
    removed
}

proof fn lemma_strays_up(
    modules: Seq<ModuleRecord>,
    entries: Seq<(String, StrMap<u32>)>,
    n: nat,
    m: nat,
)
    requires
        n <= m <= entries.len(),
    ensures
        strays(modules, entries, n) <= strays(modules, entries, m),
    decreases m,
{
    if n < m {
        lemma_strays_up(modules, entries, n, (m - 1) as nat);
        match size_from(modules, entries[m - 1].0@, 0) {
            Some(size) => {
                lemma_below(entries[m - 1].1.entries@, size);
            },
            None => {},
        }
    }
}

/// Every offset of a known module lies in its image once the map is sane.
pub proof fn lemma_sane_in_image(modules: Seq<ModuleRecord>, entry: (String, StrMap<u32>), i: int)
    requires
        size_from(modules, entry.0@, 0) is Some,
        0 <= i < sane(modules, entry).len(),
    ensures
        sane(modules, entry)[i].1 < size_from(modules, entry.0@, 0)->0,
{
    lemma_below(entry.1.entries@, size_from(modules, entry.0@, 0)->0);
}

/// A compile stamp of the engine. A module that is loaded but not running holds
/// none.
pub open spec fn is_engine_build(value: u32) -> bool {
    1000 <= value <= 1_000_000
}

pub fn plausible_engine_build(value: u32) -> (build: Option<u32>)
    ensures
        build == (if is_engine_build(value) {
            Some(value)
        } else {
            None
        }),
{
    if 1000 <= value && value <= 1_000_000 {
        Some(value)
    } else {
        None
    }
}

/// The value of the first of the entries from `i` on whose key is `name`,
/// whatever its case.
pub open spec fn value_from(entries: Seq<(String, u32)>, name: Seq<char>, i: int) -> Option<u32>
    decreases entries.len() - i,
{
    if i >= entries.len() {
        None
    } else if lower_text(entries[i].0@) == lower_text(name) {
        Some(entries[i].1)
    } else {
        value_from(entries, name, i + 1)
    }
}

/// The first of the modules from `i` on that has a symbol, whatever its case,
/// and the symbol's offset.
pub open spec fn named_from(entries: Seq<(String, StrMap<u32>)>, name: Seq<char>, i: int) -> Option<
    (Seq<char>, u64),
>
    decreases entries.len() - i,
{
    if i >= entries.len() {
        None
    } else {
        match value_from(entries[i].1.entries@, name, 0) {
            Some(rva) => Some((entries[i].0@, rva as u64)),
            None => named_from(entries, name, i + 1),
        }
    }
}

fn find_value(map: &StrMap<u32>, name: &str) -> (value: Option<u32>)
    ensures
        value == value_from(map.entries@, name@, 0),
{
    let mut i: usize = 0;
    while i < map.entries.len()
        invariant
            i <= map.entries@.len(),
            value_from(map.entries@, name@, 0) == value_from(map.entries@, name@, i as int),
        decreases map.entries@.len() - i,
    {
        if eq_ignore_case(map.entries[i].0.as_str(), name) {
            return Some(map.entries[i].1);
        }
        i = i + 1;
    }
    None
}

/// The first module, in the order of their names, that has a symbol, whatever
/// its case, and the symbol's offset.
pub fn named_offset_rva<'a>(offsets: &'a OffsetMap, name: &str) -> (place: Option<(&'a str, u64)>)
    ensures
        match named_from(offsets.entries@, name@, 0) {
            Some((module, rva)) => place matches Some(p) && p.0@ == module && p.1 == rva,
            None => place is None,
        },
{
    let mut i: usize = 0;
    while i < offsets.entries.len()
        invariant
            i <= offsets.entries@.len(),
            named_from(offsets.entries@, name@, 0) == named_from(
                offsets.entries@,
                name@,
                i as int,
            ),
        decreases offsets.entries@.len() - i,
    {
        match find_value(&offsets.entries[i].1, name) {
            Some(rva) => {
                return Some((offsets.entries[i].0.as_str(), rva as u64));
            },
            None => {},
        }
        i = i + 1;
    }
    None
}

/// The base of the first of the modules from `i` on with this name, whatever the
/// case of its letters.
pub open spec fn base_from(modules: Seq<ModuleRecord>, name: Seq<char>, i: int) -> Option<u64>
    decreases modules.len() - i,
{
    if i >= modules.len() {
        None
    } else if lower_text(modules[i].name@) == lower_text(name) {
        Some(modules[i].base)
    } else {
        base_from(modules, name, i + 1)
    }
}

/// The number at an offset of a module.
pub open spec fn number_at(
    mem: Map<int, u8>,
    modules: Seq<ModuleRecord>,
    module: Seq<char>,
    rva: u64,
) -> Option<u32> {
    match base_from(modules, module, 0) {
        Some(base) => if base + rva > u64::MAX {
            None
        } else {
            Some(ld32(mem, base + rva))
        },
        None => None,
    }
}

pub fn u32_at_module_rva(mem: &Memory, modules: &Vec<ModuleRecord>, module: &str, rva: u64) -> (value:
    Option<u32>)
    requires
        mem.wf(),
    ensures
        value == number_at(mem@, modules@, module@, rva),
{
    let mut i: usize = 0;
    while i < modules.len()
        invariant
            mem.wf(),
            i <= modules@.len(),
            base_from(modules@, module@, 0) == base_from(modules@, module@, i as int),
        decreases modules@.len() - i,
    {
        if eq_ignore_case(modules[i].name.as_str(), module) {
            return match modules[i].base.checked_add(rva) {
                Some(at) => Some(u32_va(mem, at)),
                None => None,
            };
        }
        i = i + 1;
    }
    None
}

/// The build number at an offset of a module, where one stands there.
pub open spec fn build_at(
    mem: Map<int, u8>,
    modules: Seq<ModuleRecord>,
    module: Seq<char>,
    rva: u64,
) -> Option<u32> {
    match number_at(mem, modules, module, rva) {
        Some(value) => if is_engine_build(value) {
            Some(value)
        } else {
            None
        },
        None => None,
    }
}

fn read_build(mem: &Memory, modules: &Vec<ModuleRecord>, module: &str, rva: u64) -> (build: Option<
    u32,
>)
    requires
        mem.wf(),
    ensures
        build == build_at(mem@, modules@, module@, rva),
{
    match u32_at_module_rva(mem, modules, module, rva) {
        Some(value) => plausible_engine_build(value),
        None => None,
    }
}

/// The build number that the offsets lead to.
pub fn read_build_number(mem: &Memory, modules: &Vec<ModuleRecord>, offsets: &OffsetMap) -> (build:
    Option<u32>)
    requires
        mem.wf(),
    ensures
        build == (match named_from(offsets.entries@, "dwBuildNumber"@, 0) {
            Some((module, rva)) => build_at(mem@, modules@, module, rva),
            None => None,
        }),
{
    match named_offset_rva(offsets, "dwBuildNumber") {
        Some((module, rva)) => read_build(mem, modules, module, rva),
        None => None,
    }
}

/// The build number that the first of the hits from `i` on leads to which leads
/// to one.
pub open spec fn build_from(
    mem: Map<int, u8>,
    modules: Seq<ModuleRecord>,
    hits: Seq<PatternHit>,
    i: int,
) -> Option<u32>
    decreases hits.len() - i,
{
    if i >= hits.len() {
        None
    } else {
        let hit = hits[i];
        let build = match hit.rva {
            Some(rva) => build_at(mem, modules, hit.module@, rva),
            None => None,
        };
        if hit.found && lower_text(hit.name@) == lower_text("dwBuildNumber"@) && build is Some {
            build
        } else {
            build_from(mem, modules, hits, i + 1)
        }
    }
}

pub fn dynamic_build_number(mem: &Memory, modules: &Vec<ModuleRecord>, hits: &Vec<PatternHit>) -> (build:
    Option<u32>)
    requires
        mem.wf(),
    ensures
        build == build_from(mem@, modules@, hits@, 0),
{
    let mut i: usize = 0;
    while i < hits.len()
        invariant
            mem.wf(),
            i <= hits@.len(),
            build_from(mem@, modules@, hits@, 0) == build_from(mem@, modules@, hits@, i as int),
        decreases hits@.len() - i,
    {
        let hit = &hits[i];
        if hit.found && eq_ignore_case(hit.name.as_str(), "dwBuildNumber") {
            match hit.rva {
                Some(rva) => match read_build(mem, modules, hit.module.as_str(), rva) {
                    Some(build) => {
                        return Some(build);
                    },
                    None => {},
                },
                None => {},
            }
        }
        i = i + 1;
    }
    None
}

/// The first of the hits from `i` on that was found under a name, whatever its
/// case.
pub open spec fn hit_from(hits: Seq<PatternHit>, name: Seq<char>, i: int) -> Option<int>
    decreases hits.len() - i,
{
    if i >= hits.len() {
        None
    } else if hits[i].found && lower_text(hits[i].name@) == lower_text(name) {
        Some(i)
    } else {
        hit_from(hits, name, i + 1)
    }
}

fn find_hit(hits: &Vec<PatternHit>, name: &str) -> (place: Option<usize>)
    ensures
        match place {
            Some(i) => hit_from(hits@, name@, 0) == Some(i as int) && i < hits@.len(),
            None => hit_from(hits@, name@, 0) is None,
        },
{
    let mut i: usize = 0;
    while i < hits.len()
        invariant
            i <= hits@.len(),
            hit_from(hits@, name@, 0) == hit_from(hits@, name@, i as int),
        decreases hits@.len() - i,
    {
        if hits[i].found && eq_ignore_case(hits[i].name.as_str(), name) {
            return Some(i);
        }
        i = i + 1;
    }
    None
}

/// The address that a pattern resolved to.
pub open spec fn va_of(hits: Seq<PatternHit>, name: Seq<char>) -> Option<u64> {
    match hit_from(hits, name, 0) {
        Some(i) => hits[i].va,
        None => None,
    }
}

pub fn resolved_pattern_va(hits: &Vec<PatternHit>, name: &str) -> (va: Option<u64>)
    ensures
        va == va_of(hits@, name@),
{
    match find_hit(hits, name) {
        Some(i) => hits[i].va,
        None => None,
    }
}

/// The offset that a pattern resolved to.
pub fn resolved_pattern_rva(hits: &Vec<PatternHit>, name: &str) -> (rva: Option<u64>)
    ensures
        rva == (match hit_from(hits@, name@, 0) {
            Some(i) => hits@[i].rva,
            None => None,
        }),
{
    match find_hit(hits, name) {
        Some(i) => hits[i].rva,
        None => None,
    }
}

/// A number as sixteen hexadecimal digits in lower case.
pub fn hex16_lower(value: u64) -> (text: String)
    ensures
        text@ == hex_padded_lower(value as nat, 16),
        text@.len() == 16,
{
    proof {
        lemma_hex_width(value as nat, 16);
    }
    let mut out = String::new();
    push_hex_padded_lower(&mut out, value, 16);
    assert(out@ =~= hex_padded_lower(value as nat, 16));
    out
}

/// The 64-bit FNV-1a hash of a byte string.
pub open spec fn fnv1a(bytes: Seq<u8>) -> u64
    decreases bytes.len(),
{
    if bytes.len() == 0 {
        0xcbf29ce484222325
    } else {
        let before = fnv1a(bytes.drop_last()) ^ (bytes.last() as u64);
        before.wrapping_mul(0x100000001b3)
    }
}

fn fnv_over(start: u64, bytes: &[u8], Ghost(before): Ghost<Seq<u8>>) -> (hash: u64)
    requires
        start == fnv1a(before),
    ensures
        hash == fnv1a(before + bytes@),
{
    let mut hash: u64 = start;
    let mut i: usize = 0;
    assert(before + bytes@.subrange(0, 0) =~= before);
    while i < bytes.len()
        invariant
            i <= bytes@.len(),
            hash == fnv1a(before + bytes@.subrange(0, i as int)),
        decreases bytes@.len() - i,
    {
        let ghost head = before + bytes@.subrange(0, i + 1);
        assert(head.drop_last() =~= before + bytes@.subrange(0, i as int));
        assert(head.last() == bytes@[i as int]);
        hash = (hash ^ (bytes[i] as u64)).wrapping_mul(0x100000001b3);
        i = i + 1;
    }
    assert(bytes@.subrange(0, i as int) =~= bytes@);
    hash
}

/// The hash of two byte strings, one behind the other.
pub fn fnv1a64_head_tail(head: &[u8], tail: &[u8]) -> (hash: u64)
    ensures
        hash == fnv1a(head@ + tail@),
{
    let first: u64 = fnv_over(0xcbf29ce484222325, head, Ghost(Seq::empty()));
    assert(Seq::<u8>::empty() + head@ =~= head@);
    fnv_over(first, tail, Ghost(head@))
}

/// What identifies a module's image.
#[derive(Debug)]
pub struct Fingerprint {
    pub size: usize,
    pub sample_bytes: usize,
    pub fnv1a64_head_tail: String,
}

/// How much of either end of a module is hashed.
pub open spec fn sample_length(size: u64) -> int {
    if size < 4096 {
        size as int
    } else {
        4096
    }
}

/// The ends of an image that are hashed: its first bytes, and its last ones
/// where it is longer than the sample.
pub open spec fn image_ends(image: Seq<u8>, sample: int) -> Seq<u8> {
    if image.len() > sample {
        image.subrange(0, sample) + image.subrange(image.len() - sample, image.len() as int)
    } else {
        image
    }
}

/// The ends of a module in memory that are hashed; none where it runs past the
/// address space.
pub open spec fn memory_ends(mem: Map<int, u8>, base: u64, size: u64) -> Option<Seq<u8>> {
    let sample = sample_length(size);
    let head = raw(mem, base as int, sample as nat);
    if size <= sample {
        Some(head)
    } else if base + size - sample > u64::MAX {
        None
    } else {
        Some(head + raw(mem, base + size - sample, sample as nat))
    }
}

/// The hash of a module: of its image where the session has read it, else of
/// memory.
pub open spec fn module_hash(
    mem: Map<int, u8>,
    live: Map<Seq<char>, (u64, Vec<u8>)>,
    module: ModuleRecord,
) -> Option<u64> {
    if module.name@.len() == 0 || module.size == 0 || module.size > usize::MAX {
        None
    } else if live.contains_key(lower_text(module.name@)) {
        let image = live[lower_text(module.name@)].1@;
        Some(fnv1a(image_ends(image, sample_length(module.size))))
    } else {
        match memory_ends(mem, module.base, module.size) {
            Some(bytes) => Some(fnv1a(bytes)),
            None => None,
        }
    }
}

fn hash_image(image: &[u8], sample: usize) -> (hash: u64)
    ensures
        hash == fnv1a(image_ends(image@, sample as int)),
{
    let len: usize = image.len();
    if len > sample {
        fnv1a64_head_tail(
            slice_subrange(image, 0, sample),
            slice_subrange(image, len - sample, len),
        )
    } else {
        let none: [u8; 0] = [];
        assert(image@ + none@ =~= image@);
        fnv1a64_head_tail(image, none.as_slice())
    }
}

fn hash_memory(mem: &Memory, base: u64, size: u64, sample: usize) -> (hash: Option<u64>)
    requires
        mem.wf(),
        sample == sample_length(size),
    ensures
        hash == (match memory_ends(mem@, base, size) {
            Some(bytes) => Some(fnv1a(bytes)),
            None => None,
        }),
{
    let head = mem.read_raw(base, sample);
    if size <= sample as u64 {
        let none: [u8; 0] = [];
        assert(head@ + none@ =~= head@);
        return Some(fnv1a64_head_tail(head.as_slice(), none.as_slice()));
    }
    match base.checked_add(size - sample as u64) {
        Some(at) => {
            let tail = mem.read_raw(at, sample);
            Some(fnv1a64_head_tail(head.as_slice(), tail.as_slice()))
        },
        None => None,
    }
}

impl Fingerprint {
    /// It is that of a module of this size with this hash.
    pub open spec fn shows(&self, size: u64, hash: u64) -> bool {
        &&& self.size == size
        &&& self.sample_bytes == sample_length(size)
        &&& self.fnv1a64_head_tail@ == hex_padded_lower(hash as nat, 16)
    }
}

/// The fingerprint of a module, if it has one.
pub fn fingerprint(mem: &Memory, session: &ImageSession, module: &ModuleRecord) -> (print: Option<
    Fingerprint,
>)
    requires
        mem.wf(),
        session.wf(),
    ensures
        match module_hash(mem@, session.live.map(), *module) {
            Some(hash) => print matches Some(p) && p.shows(module.size, hash),
            None => print is None,
        },
{
    if module.name.as_str().is_empty() || module.size == 0 || module.size > usize::MAX as u64 {
        return None;
    }
    let size: usize = module.size as usize;
    let sample: usize = if size < 4096 {
        size
    } else {
        4096
    };
    let hash = match session.cached_live(module.name.as_str()) {
        Some(image) => Some(hash_image(image.1.as_slice(), sample)),
        None => hash_memory(mem, module.base, module.size, sample),
    };
    match hash {
        Some(h) => Some(
            Fingerprint { size, sample_bytes: sample, fnv1a64_head_tail: hex16_lower(h) },
        ),
        None => None,
    }
}

/// The last of the first `n` modules with this name that has a hash.
pub open spec fn printed(
    mem: Map<int, u8>,
    live: Map<Seq<char>, (u64, Vec<u8>)>,
    modules: Seq<ModuleRecord>,
    name: Seq<char>,
    n: nat,
) -> Option<(u64, u64)>
    decreases n,
{
    if n == 0 {
        None
    } else {
        let module = modules[n - 1];
        match module_hash(mem, live, module) {
            Some(hash) if module.name@ == name => Some((module.size, hash)),
            _ => printed(mem, live, modules, name, (n - 1) as nat),
        }
    }
}

/// The fingerprints of all modules, by name.
#[verifier::spinoff_prover]
pub fn module_fingerprints(mem: &Memory, session: &ImageSession, modules: &Vec<ModuleRecord>) -> (prints:
    StrMap<Fingerprint>)
    requires
        mem.wf(),
        session.wf(),
    ensures
        prints.wf(),
        forall|name: Seq<char>|
            #![trigger prints.map().contains_key(name)]
            match printed(mem@, session.live.map(), modules@, name, modules@.len()) {
                Some((size, hash)) => prints.map().contains_key(name) && prints.map()[name].shows(
                    size,
                    hash,
                ),
                None => !prints.map().contains_key(name),
            },
{
    let mut prints: StrMap<Fingerprint> = StrMap::new();
    let mut i: usize = 0;
    while i < modules.len()
        invariant
            mem.wf(),
            session.wf(),
            i <= modules@.len(),
            prints.wf(),
            forall|name: Seq<char>|
                #![trigger prints.map().contains_key(name)]
                match printed(mem@, session.live.map(), modules@, name, i as nat) {
                    Some((size, hash)) => prints.map().contains_key(name)
                        && prints.map()[name].shows(size, hash),
                    None => !prints.map().contains_key(name),
                },
        decreases modules@.len() - i,
    {
        let ghost before = prints.map();
        match fingerprint(mem, session, &modules[i]) {
            Some(print) => {
                let _previous = prints.insert(modules[i].name.clone(), print);
            },
            None => {},
        }
        i = i + 1;
        proof {
            assert forall|name: Seq<char>|
                #![trigger prints.map().contains_key(name)]
                (match printed(mem@, session.live.map(), modules@, name, i as nat) {
                    Some((size, hash)) => prints.map().contains_key(name)
                        && prints.map()[name].shows(size, hash),
                    None => !prints.map().contains_key(name),
                }) by {
                assert(before.contains_key(name) || !before.contains_key(name));
            }
        }
    }
    prints
}

/// A kind is refused as unsupported exactly where it is none of the five that
/// are written, and the refused ones stay in their order.
pub proof fn lemma_unsupported(kinds: Seq<Seq<char>>)
    ensures
        unsupported(kinds) == kinds.filter(
            |k: Seq<char>| k != "cs"@ && k != "hpp"@ && k != "json"@ && k != "rs"@ && k != "zig"@,
        ),
    decreases kinds.len(),
{
    reveal(Seq::filter);
    if kinds.len() > 0 {
        lemma_unsupported(kinds.drop_last());
        let all = file_types();
        assert(all[0] == "cs"@ && all[1] == "hpp"@ && all[2] == "json"@ && all[3] == "rs"@ && all[4]
            == "zig"@);
    }
}

/// A kind is refused as repeated exactly where it is chosen at two places.
pub proof fn lemma_repeated(kinds: Seq<Seq<char>>, kind: Seq<char>)
    ensures
        repeated(kinds).contains(kind) <==> exists|i: int, j: int|
            0 <= i < j < kinds.len() && #[trigger] kinds[i] == kind && #[trigger] kinds[j] == kind,
    decreases kinds.len(),
{
    if kinds.len() > 0 {
        let before = kinds.drop_last();
        let last = kinds.len() - 1;
        lemma_repeated(before, kind);
        let was = repeated(before);
        let now = repeated(kinds);
        if now.contains(kind) {
            let k = choose|k: int| 0 <= k < now.len() && now[k] == kind;
            if k < was.len() {
                assert(was[k] == kind);
                let (i, j) = choose|i: int, j: int|
                    0 <= i < j < before.len() && #[trigger] before[i] == kind
                        && #[trigger] before[j] == kind;
                assert(kinds[i] == kind && kinds[j] == kind);
            } else {
                let i = choose|i: int| 0 <= i < before.len() && before[i] == kinds.last();
                assert(kinds[i] == kind && kinds[last] == kind);
            }
        }
        if exists|i: int, j: int|
            0 <= i < j < kinds.len() && #[trigger] kinds[i] == kind && #[trigger] kinds[j] == kind {
            let (i, j) = choose|i: int, j: int|
                0 <= i < j < kinds.len() && #[trigger] kinds[i] == kind && #[trigger] kinds[j]
                    == kind;
            if j < last {
                assert(before[i] == kind && before[j] == kind);
                let k = choose|k: int| 0 <= k < was.len() && was[k] == kind;
                assert(now[k] == kind);
            } else {
                assert(before[i] == kind);
                assert(before.contains(kinds.last()));
                assert(now[was.len() as int] == kind);
            }
        }
    }
}

proof fn lemma_below_filter(entries: Seq<(String, u32)>, size: u64)
    ensures
        below(entries, size) == entries.filter(|e: (String, u32)| (e.1 as u64) < size),
    decreases entries.len(),
{
    reveal(Seq::filter);
    if entries.len() > 0 {
        lemma_below_filter(entries.drop_last(), size);
    }
}

proof fn lemma_size_from(modules: Seq<ModuleRecord>, name: Seq<char>, m: int, k: int)
    requires
        0 <= k <= m < modules.len(),
        lower_text(modules[m].name@) == lower_text(name),
        forall|j: int| 0 <= j < m ==> lower_text((#[trigger] modules[j]).name@) != lower_text(name),
    ensures
        size_from(modules, name, k) == Some(modules[m].size),
        base_from(modules, name, k) == Some(modules[m].base),
    decreases m - k,
{
    if k < m {
        assert(lower_text(modules[k].name@) != lower_text(name));
        lemma_size_from(modules, name, m, k + 1);
    }
}

proof fn lemma_size_unknown(modules: Seq<ModuleRecord>, name: Seq<char>, k: int)
    requires
        0 <= k <= modules.len(),
        forall|j: int|
            0 <= j < modules.len() ==> lower_text((#[trigger] modules[j]).name@) != lower_text(name),
    ensures
        size_from(modules, name, k) is None,
        base_from(modules, name, k) is None,
    decreases modules.len() - k,
{
    if k < modules.len() {
        assert(lower_text(modules[k].name@) != lower_text(name));
        lemma_size_unknown(modules, name, k + 1);
    }
}

/// Of a module that is loaded exactly the offsets below its size are left, in
/// their order; of one that is not, all of them.
pub proof fn lemma_sane(modules: Seq<ModuleRecord>, entry: (String, StrMap<u32>), m: int)
    ensures
        0 <= m < modules.len() && lower_text(modules[m].name@) == lower_text(entry.0@) && (forall|
            j: int,
        |
            0 <= j < m ==> lower_text((#[trigger] modules[j]).name@) != lower_text(entry.0@))
            ==> sane(modules, entry) == entry.1.entries@.filter(
            |e: (String, u32)| (e.1 as u64) < modules[m].size,
        ),
        (forall|j: int|
            0 <= j < modules.len() ==> lower_text((#[trigger] modules[j]).name@) != lower_text(
                entry.0@,
            )) ==> sane(modules, entry) == entry.1.entries@,
{
    let name = entry.0@;
    if 0 <= m < modules.len() && lower_text(modules[m].name@) == lower_text(name) && (forall|j: int|
        0 <= j < m ==> lower_text((#[trigger] modules[j]).name@) != lower_text(name)) {
        lemma_size_from(modules, name, m, 0);
        lemma_below_filter(entry.1.entries@, modules[m].size);
    }
    if forall|j: int|
        0 <= j < modules.len() ==> lower_text((#[trigger] modules[j]).name@) != lower_text(name) {
        lemma_size_unknown(modules, name, 0);
    }
}

/// An offset that was missing is there afterwards with the value that was given,
/// under the first key that is the module's name in any case, and else under the
/// name itself; one that was there is not touched.
pub proof fn lemma_missing_value(offsets: Offsets, module: Seq<char>, symbol: Seq<char>, rva: u32)
    ensures
        with_missing(offsets, module, symbol, rva).1 ==> exists|key: Seq<char>|
            lower_text(key) == lower_text(module) && #[trigger] with_missing(
                offsets,
                module,
                symbol,
                rva,
            ).0.contains_key(key) && with_missing(
                offsets,
                module,
                symbol,
                rva,
            ).0[key].contains_key(symbol) && with_missing(offsets, module, symbol, rva).0[key][symbol]
                == rva,
        !with_missing(offsets, module, symbol, rva).1 ==> with_missing(
            offsets,
            module,
            symbol,
            rva,
        ).0 == offsets,
{
    let (now, added) = with_missing(offsets, module, symbol, rva);
    if added {
        match key_of(offsets.dom(), module) {
            Some(key) => {
                assert(first_key(offsets.dom(), module, key));
                assert(now.contains_key(key));
            },
            None => {
                assert(now.contains_key(module));
            },
        }
    }
}

/// A hit with the name of an offset that no earlier hit and no offset before gave
/// is in the result with its place.
pub proof fn lemma_overlay_value(offsets: Offsets, hits: Seq<PatternHit>, i: int)
    requires
        keyed(offsets),
        0 <= i < hits.len(),
        hits[i].found,
        hits[i].rva matches Some(rva) && rva <= 0xFFFF_FFFF,
        hits[i].name@.len() >= 3,
        hits[i].name@[0] == 'd' || hits[i].name@[0] == 'D',
        hits[i].name@[1] == 'w' || hits[i].name@[1] == 'W',
        'a' <= hits[i].name@[2] <= 'z' || 'A' <= hits[i].name@[2] <= 'Z',
        !holds_offset(overlaid(offsets, hits, i as nat).0, hits[i].module@, hits[i].name@),
    ensures
        exists|key: Seq<char>|
            lower_text(key) == lower_text(hits[i].module@) && #[trigger] overlaid(
                offsets,
                hits,
                hits.len(),
            ).0.contains_key(key) && overlaid(offsets, hits, hits.len()).0[key].contains_key(
                hits[i].name@,
            ) && overlaid(offsets, hits, hits.len()).0[key][hits[i].name@] == hits[i].rva->0,
{
    let before = overlaid(offsets, hits, i as nat).0;
    let (module, symbol, rva) = (hits[i].module@, hits[i].name@, hits[i].rva->0 as u32);
    lemma_overlay_keeps(offsets, hits, i as nat);
    lemma_missing_held(before, module, symbol, rva);
    lemma_missing_value(before, module, symbol, rva);
    let next = overlaid(offsets, hits, (i + 1) as nat).0;
    assert(next == with_missing(before, module, symbol, rva).0);
    let key = choose|key: Seq<char>|
        lower_text(key) == lower_text(module) && #[trigger] next.contains_key(key)
            && next[key].contains_key(symbol) && next[key][symbol] == rva;
    lemma_overlay_keeps(offsets, hits, (i + 1) as nat);
    lemma_overlay_goes_on(offsets, hits, (i + 1) as nat, hits.len());
    let last = overlaid(offsets, hits, hits.len()).0;
    assert(next[key].contains_key(symbol));
    assert(last.contains_key(key) && last[key].contains_key(symbol) && last[key][symbol] == rva);
}

proof fn lemma_overlay_goes_on(offsets: Offsets, hits: Seq<PatternHit>, m: nat, n: nat)
    requires
        keyed(offsets),
        m <= n <= hits.len(),
    ensures
        keeps(overlaid(offsets, hits, m).0, overlaid(offsets, hits, n).0),
    decreases n,
{
    if m < n {
        let middle = (n - 1) as nat;
        lemma_overlay_goes_on(offsets, hits, m, middle);
        lemma_overlay_keeps(offsets, hits, middle);
        let before = overlaid(offsets, hits, middle).0;
        let hit = hits[n - 1];
        if gives_offset(hit) {
            lemma_missing_keeps(before, hit.module@, hit.name@, hit.rva->0 as u32);
            lemma_keeps_twice(
                overlaid(offsets, hits, m).0,
                before,
                with_missing(before, hit.module@, hit.name@, hit.rva->0 as u32).0,
            );
        }
    }
}

/// A build number is the number that stands at the offset in the module, where it
/// is one of an engine: from 1000 to a million.
pub proof fn lemma_build_read_back(
    mem: Map<int, u8>,
    modules: Seq<ModuleRecord>,
    m: int,
    module: Seq<char>,
    rva: u64,
    x: u32,
)
    requires
        0 <= m < modules.len(),
        lower_text(modules[m].name@) == lower_text(module),
        forall|j: int|
            0 <= j < m ==> lower_text((#[trigger] modules[j]).name@) != lower_text(module),
        modules[m].base + rva <= u64::MAX,
        stands32(mem, modules[m].base + rva, x as int),
    ensures
        number_at(mem, modules, module, rva) == Some(x),
        build_at(mem, modules, module, rva) == (if 1000 <= x <= 1_000_000 {
            Some(x)
        } else {
            None
        }),
{
    lemma_size_from(modules, module, m, 0);
    lemma_loads(mem, modules[m].base + rva, x as int);
}

/// Of a module of more than 4096 bytes the first and the last 4096 are hashed,
/// and of any other all of it.
pub proof fn lemma_ends_hashed(image: Seq<u8>, size: u64)
    requires
        image.len() == size,
    ensures
        size <= 4096 ==> image_ends(image, sample_length(size)) == image,
        size > 4096 ==> image_ends(image, sample_length(size)).len() == 8192,
        size > 4096 ==> forall|i: int|
            0 <= i < 4096 ==> #[trigger] image_ends(image, sample_length(size))[i] == image[i],
        size > 4096 ==> forall|i: int|
            0 <= i < 4096 ==> image_ends(image, sample_length(size))[#[trigger] (4096 + i)]
                == image[image.len() - 4096 + i],
{
}

/// A module has the same fingerprint whether its image or its memory is hashed.
pub proof fn lemma_same_fingerprint(mem: Map<int, u8>, base: u64, image: Seq<u8>)
    requires
        copies(mem, base as int, image),
        base + image.len() <= u64::MAX,
    ensures
        memory_ends(mem, base, image.len() as u64) == Some(
            image_ends(image, sample_length(image.len() as u64)),
        ),
{
    let n = image.len();
    let sample = sample_length(n as u64);
    let head = image.subrange(0, sample);
    let tail = image.subrange(n - sample, n as int);
    lemma_part(mem, base as int, image, 0, sample);
    lemma_copied(mem, base as int, head);
    lemma_part(mem, base as int, image, n - sample, n as int);
    assert(base + (n - sample) == base + n - sample);
    lemma_copied(mem, base + n - sample, tail);
    if n <= sample {
        assert(head =~= image);
    }
}

/// Hit `i` is the first that was found of the pattern of this name, whatever its
/// case.
pub open spec fn is_first_hit(hits: Seq<PatternHit>, name: Seq<char>, i: int) -> bool {
    &&& 0 <= i < hits.len()
    &&& hits[i].found
    &&& lower_text(hits[i].name@) == lower_text(name)
    &&& forall|j: int|
        0 <= j < i ==> !(#[trigger] hits[j]).found || lower_text(hits[j].name@) != lower_text(name)
}

/// No pattern of this name was found.
pub open spec fn never_hit(hits: Seq<PatternHit>, name: Seq<char>) -> bool {
    forall|j: int|
        0 <= j < hits.len() ==> !(#[trigger] hits[j]).found || lower_text(hits[j].name@)
            != lower_text(name)
}

/// A pattern resolves to the address of the first hit that was found of it, and to
/// none where none was.
pub proof fn lemma_first_hit(hits: Seq<PatternHit>, name: Seq<char>, i: int)
    ensures
        is_first_hit(hits, name, i) ==> hit_from(hits, name, 0) == Some(i) && va_of(hits, name)
            == hits[i].va,
        never_hit(hits, name) ==> hit_from(hits, name, 0) is None && va_of(hits, name) is None,
{
    if is_first_hit(hits, name, i) {
        lemma_hit_from(hits, name, i, 0);
    }
    if never_hit(hits, name) {
        lemma_no_hit_from(hits, name, 0);
    }
}

proof fn lemma_hit_from(hits: Seq<PatternHit>, name: Seq<char>, i: int, k: int)
    requires
        is_first_hit(hits, name, i),
        0 <= k <= i,
    ensures
        hit_from(hits, name, k) == Some(i),
    decreases i - k,
{
    if k < i {
        assert(!hits[k].found || lower_text(hits[k].name@) != lower_text(name));
        lemma_hit_from(hits, name, i, k + 1);
    }
}

proof fn lemma_no_hit_from(hits: Seq<PatternHit>, name: Seq<char>, k: int)
    requires
        never_hit(hits, name),
        0 <= k,
    ensures
        hit_from(hits, name, k) is None,
    decreases hits.len() - k,
{
    if k < hits.len() {
        assert(!hits[k].found || lower_text(hits[k].name@) != lower_text(name));
        lemma_no_hit_from(hits, name, k + 1);
    }
}

/// A symbol's offset is that of the first module that has the symbol, under the
/// first spelling of its name in that module.
pub proof fn lemma_named_offset(
    entries: Seq<(String, StrMap<u32>)>,
    name: Seq<char>,
    m: int,
    k: int,
)
    requires
        0 <= m < entries.len(),
        0 <= k < entries[m].1.entries@.len(),
        lower_text(entries[m].1.entries@[k].0@) == lower_text(name),
        forall|j: int|
            0 <= j < k ==> lower_text((#[trigger] entries[m].1.entries@[j]).0@) != lower_text(name),
        forall|i: int, j: int|
            0 <= i < m && 0 <= j < entries[i].1.entries@.len() ==> lower_text(
                (#[trigger] entries[i].1.entries@[j]).0@,
            ) != lower_text(name),
    ensures
        named_from(entries, name, 0) == Some((entries[m].0@, entries[m].1.entries@[k].1 as u64)),
{
    lemma_named_from(entries, name, m, k, 0);
}

proof fn lemma_named_from(
    entries: Seq<(String, StrMap<u32>)>,
    name: Seq<char>,
    m: int,
    k: int,
    i: int,
)
    requires
        0 <= i <= m < entries.len(),
        0 <= k < entries[m].1.entries@.len(),
        lower_text(entries[m].1.entries@[k].0@) == lower_text(name),
        forall|j: int|
            0 <= j < k ==> lower_text((#[trigger] entries[m].1.entries@[j]).0@) != lower_text(name),
        forall|a: int, j: int|
            0 <= a < m && 0 <= j < entries[a].1.entries@.len() ==> lower_text(
                (#[trigger] entries[a].1.entries@[j]).0@,
            ) != lower_text(name),
    ensures
        named_from(entries, name, i) == Some((entries[m].0@, entries[m].1.entries@[k].1 as u64)),
    decreases m - i,
{
    if i < m {
        lemma_no_value(entries[i].1.entries@, name, 0);
        lemma_named_from(entries, name, m, k, i + 1);
    } else {
        lemma_value(entries[m].1.entries@, name, k, 0);
    }
}

proof fn lemma_value(list: Seq<(String, u32)>, name: Seq<char>, k: int, i: int)
    requires
        0 <= i <= k < list.len(),
        lower_text(list[k].0@) == lower_text(name),
        forall|j: int| 0 <= j < k ==> lower_text((#[trigger] list[j]).0@) != lower_text(name),
    ensures
        value_from(list, name, i) == Some(list[k].1),
    decreases k - i,
{
    if i < k {
        assert(lower_text(list[i].0@) != lower_text(name));
        lemma_value(list, name, k, i + 1);
    }
}

proof fn lemma_no_value(list: Seq<(String, u32)>, name: Seq<char>, i: int)
    requires
        0 <= i,
        forall|j: int|
            0 <= j < list.len() ==> lower_text((#[trigger] list[j]).0@) != lower_text(name),
    ensures
        value_from(list, name, i) is None,
    decreases list.len() - i,
{
    if i < list.len() {
        assert(lower_text(list[i].0@) != lower_text(name));
        lemma_no_value(list, name, i + 1);
    }
}

/// The build number of the hits is that of the first hit of `dwBuildNumber` which
/// was found, has a place, and leads to one.
pub proof fn lemma_build_hit(
    mem: Map<int, u8>,
    modules: Seq<ModuleRecord>,
    hits: Seq<PatternHit>,
    i: int,
    k: int,
)
    requires
        0 <= k <= i < hits.len(),
        hits[i].found,
        lower_text(hits[i].name@) == lower_text("dwBuildNumber"@),
        hits[i].rva is Some,
        build_at(mem, modules, hits[i].module@, hits[i].rva->0) is Some,
        forall|j: int|
            0 <= j < i ==> !(#[trigger] hits[j]).found || lower_text(hits[j].name@) != lower_text(
                "dwBuildNumber"@,
            ) || hits[j].rva is None || build_at(
                mem,
                modules,
                hits[j].module@,
                hits[j].rva->0,
            ) is None,
    ensures
        build_from(mem, modules, hits, k) == build_at(
            mem,
            modules,
            hits[i].module@,
            hits[i].rva->0,
        ),
    decreases i - k,
{
    if k < i {
        assert(!hits[k].found || lower_text(hits[k].name@) != lower_text("dwBuildNumber"@)
            || hits[k].rva is None || build_at(
            mem,
            modules,
            hits[k].module@,
            hits[k].rva->0,
        ) is None);
        lemma_build_hit(mem, modules, hits, i, k + 1);
    }
}

/// The hash of no bytes is 14695981039346656037, and with each byte it is joined with
/// that byte and multiplied by 1099511628211, in 64-bit arithmetic.
pub proof fn lemma_hash_step(bytes: Seq<u8>, b: u8)
    ensures
        fnv1a(Seq::empty()) == 14695981039346656037,
        fnv1a(bytes.push(b)) == ((fnv1a(bytes) ^ (b as u64)) * 1099511628211)
            % 0x1_0000_0000_0000_0000,
{
    assert(bytes.push(b).drop_last() =~= bytes);
    assert(bytes.push(b).last() == b);
}

/// A hash is written in sixteen digits, in lower case, that say it.
pub proof fn lemma_hash_text(hash: u64)
    ensures
        hex_padded_lower(hash as nat, 16).len() == 16,
        hex_value(hex_padded_lower(hash as nat, 16)) == hash,
        forall|i: int|
            0 <= i < 16 ==> {
                let c = #[trigger] hex_padded_lower(hash as nat, 16)[i];
                '0' <= c <= '9' || 'a' <= c <= 'f'
            },
{
    lemma_hex_width(hash as nat, 16);
    assert(hash < pow16(16)) by {
        reveal_with_fuel(pow16, 17);
    }
    lemma_hex_padded_value(hash as nat, 16);
    lemma_lower_digits(hash as nat, 16);
}

proof fn lemma_lower_digits(n: nat, width: nat)
    ensures
        forall|i: int|
            0 <= i < hex_padded_lower(n, width).len() ==> {
                let c = #[trigger] hex_padded_lower(n, width)[i];
                '0' <= c <= '9' || 'a' <= c <= 'f'
            },
    decreases width,
{
    if width > 0 {
        let before = hex_padded_lower(n / 16, (width - 1) as nat);
        lemma_lower_digits(n / 16, (width - 1) as nat);
        let all = hex_padded_lower(n, width);
        assert forall|i: int| 0 <= i < all.len() implies {
            let c = #[trigger] all[i];
            '0' <= c <= '9' || 'a' <= c <= 'f'
        } by {
            if i < before.len() {
                assert(all[i] == before[i]);
            } else {
                assert(all[i] == digit_lower(n as int % 16));
            }
        }
    }
}

/// The fingerprint under a name is that of the last module of that name which has a
/// hash, and there is none where no module of that name has one.
pub proof fn lemma_last_printed(
    mem: Map<int, u8>,
    live: Map<Seq<char>, (u64, Vec<u8>)>,
    modules: Seq<ModuleRecord>,
    name: Seq<char>,
    n: nat,
    k: int,
)
    requires
        n <= modules.len(),
    ensures
        0 <= k < n && modules[k].name@ == name && module_hash(mem, live, modules[k]) is Some && (
        forall|j: int|
            k < j < n ==> (#[trigger] modules[j]).name@ != name || module_hash(
                mem,
                live,
                modules[j],
            ) is None) ==> printed(mem, live, modules, name, n) == Some(
            (modules[k].size, module_hash(mem, live, modules[k])->0),
        ),
        (forall|j: int|
            0 <= j < n ==> (#[trigger] modules[j]).name@ != name || module_hash(
                mem,
                live,
                modules[j],
            ) is None) ==> printed(mem, live, modules, name, n) is None,
    decreases n,
{
    if n > 0 {
        lemma_last_printed(mem, live, modules, name, (n - 1) as nat, k);
        assert(modules[n - 1].name@ == name || modules[n - 1].name@ != name);
    }
}

/// The name of an offset is known by its first three letters in lower case.
pub proof fn lemma_offset_symbol(name: Seq<char>)
    ensures
        offset_symbol(name) <==> name.len() >= 3 && lower_text(name)[0] == 'd' && lower_text(name)[1]
            == 'w' && 'a' <= lower_text(name)[2] <= 'z',
        offset_symbol(lower_text(name)) == offset_symbol(name),
{
    lemma_lowered(name);
    if name.len() >= 3 {
        let lower = lower_text(name);
        assert(lower[0] == lower_char(name[0]) && lower[1] == lower_char(name[1]) && lower[2]
            == lower_char(name[2]));
    }
}

/// Hits that were not found, that have no place in a module, or whose name is not that of
/// an offset, change nothing.
pub proof fn lemma_overlay_skips(offsets: Offsets, hits: Seq<PatternHit>, n: nat)
    requires
        n <= hits.len(),
        forall|i: int|
            0 <= i < n ==> !(#[trigger] hits[i]).found || hits[i].rva is None || hits[i].rva->0
                > 0xFFFF_FFFF || hits[i].name@.len() < 3 || (hits[i].name@[0] != 'd'
                && hits[i].name@[0] != 'D') || (hits[i].name@[1] != 'w' && hits[i].name@[1] != 'W')
                || hits[i].name@[2] < 'A' || ('Z' < hits[i].name@[2] < 'a') || 'z'
                < hits[i].name@[2],
    ensures
        overlaid(offsets, hits, n) == (offsets, 0int),
    decreases n,
{
    if n > 0 {
        lemma_overlay_skips(offsets, hits, (n - 1) as nat);
        assert(!gives_offset(hits[n - 1]));
    }
}

/// What live objects give is counted by how many symbols the offsets grow.
pub proof fn lemma_recovered_counts(offsets: Offsets, list: Seq<Recovered>, n: nat)
    requires
        keyed(offsets),
        symbols_of(offsets).finite(),
        n <= list.len(),
    ensures
        symbols_of(recovered_onto(offsets, list, n).0).finite(),
        symbols_of(recovered_onto(offsets, list, n).0).len() == symbols_of(offsets).len()
            + recovered_onto(offsets, list, n).1,
    decreases n,
{
    if n > 0 {
        lemma_recovered_counts(offsets, list, (n - 1) as nat);
        lemma_recovered_keeps(offsets, list, (n - 1) as nat);
        let before = recovered_onto(offsets, list, (n - 1) as nat).0;
        let item = list[n - 1];
        lemma_missing_counts(before, item.module@, item.symbol@, item.rva);
    }
}

proof fn lemma_recovered_goes_on(offsets: Offsets, list: Seq<Recovered>, m: nat, n: nat)
    requires
        keyed(offsets),
        m <= n <= list.len(),
    ensures
        keeps(recovered_onto(offsets, list, m).0, recovered_onto(offsets, list, n).0),
    decreases n,
{
    if m < n {
        let middle = (n - 1) as nat;
        lemma_recovered_goes_on(offsets, list, m, middle);
        lemma_recovered_keeps(offsets, list, middle);
        let before = recovered_onto(offsets, list, middle).0;
        let item = list[n - 1];
        lemma_missing_keeps(before, item.module@, item.symbol@, item.rva);
        lemma_keeps_twice(
            recovered_onto(offsets, list, m).0,
            before,
            with_missing(before, item.module@, item.symbol@, item.rva).0,
        );
    }
}

/// An offset that a live object gives and nothing before it gave is in the result with its
/// place.
pub proof fn lemma_recovered_value(offsets: Offsets, list: Seq<Recovered>, i: int)
    requires
        keyed(offsets),
        0 <= i < list.len(),
        !holds_offset(recovered_onto(offsets, list, i as nat).0, list[i].module@, list[i].symbol@),
    ensures
        exists|key: Seq<char>|
            lower_text(key) == lower_text(list[i].module@) && #[trigger] recovered_onto(
                offsets,
                list,
                list.len(),
            ).0.contains_key(key) && recovered_onto(offsets, list, list.len()).0[key].contains_key(
                list[i].symbol@,
            ) && recovered_onto(offsets, list, list.len()).0[key][list[i].symbol@] == list[i].rva,
{
    let before = recovered_onto(offsets, list, i as nat).0;
    let (module, symbol, rva) = (list[i].module@, list[i].symbol@, list[i].rva);
    lemma_recovered_keeps(offsets, list, i as nat);
    lemma_missing_held(before, module, symbol, rva);
    lemma_missing_value(before, module, symbol, rva);
    let next = recovered_onto(offsets, list, (i + 1) as nat).0;
    assert(next == with_missing(before, module, symbol, rva).0);
    let key = choose|key: Seq<char>|
        lower_text(key) == lower_text(module) && #[trigger] next.contains_key(key)
            && next[key].contains_key(symbol) && next[key][symbol] == rva;
    lemma_recovered_goes_on(offsets, list, (i + 1) as nat, list.len());
    let last = recovered_onto(offsets, list, list.len()).0;
    assert(next[key].contains_key(symbol));
    assert(last.contains_key(key) && last[key].contains_key(symbol) && last[key][symbol] == rva);
}

/// How many offsets the first `n` modules of a map have.
pub open spec fn offset_count(entries: Seq<(String, StrMap<u32>)>, n: nat) -> int
    decreases n,
{
    if n == 0 {
        0
    } else {
        offset_count(entries, (n - 1) as nat) + entries[n - 1].1.entries@.len()
    }
}

/// The offsets that are counted as removed are those by which the map is shorter.
pub proof fn lemma_removed_counted(
    before: OffsetMap,
    modules: Seq<ModuleRecord>,
    after: OffsetMap,
    removed: usize,
)
    requires
        sanitized(before, modules, after, removed),
        offset_count(before.entries@, before.entries@.len()) <= usize::MAX,
    ensures
        removed == offset_count(before.entries@, before.entries@.len()) - offset_count(
            after.entries@,
            after.entries@.len(),
        ),
{
    lemma_strays_counted(before, modules, after, removed, before.entries@.len());
    lemma_count_up(after.entries@, after.entries@.len());
}

proof fn lemma_count_up(entries: Seq<(String, StrMap<u32>)>, n: nat)
    ensures
        offset_count(entries, n) >= 0,
    decreases n,
{
    if n > 0 {
        lemma_count_up(entries, (n - 1) as nat);
    }
}

proof fn lemma_strays_counted(
    before: OffsetMap,
    modules: Seq<ModuleRecord>,
    after: OffsetMap,
    removed: usize,
    n: nat,
)
    requires
        sanitized(before, modules, after, removed),
        n <= before.entries@.len(),
    ensures
        strays(modules, before.entries@, n) == offset_count(before.entries@, n) - offset_count(
            after.entries@,
            n,
        ),
    decreases n,
{
    if n > 0 {
        lemma_strays_counted(before, modules, after, removed, (n - 1) as nat);
        assert(after.entries@[n - 1].1.entries@ == sane(modules, before.entries@[n - 1]));
    }
}

} // verus!
