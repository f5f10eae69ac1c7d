//! What the records of the system's process and module lists mean.

use crate::memory::snapshot::ModuleInfo;
use crate::text::{chars_of, eq_ignore_case, lower_text};
use vstd::prelude::*;
use vstd::slice::*;
use vstd::string::*;
use vstd::utf8::*;

verus! {

/// The text that `String::from_utf16_lossy` makes of UTF-16 units.
pub uninterp spec fn utf16_lossy(units: Seq<u16>) -> Seq<char>;

/// The UTF-16 form of a character.
pub open spec fn utf16_units(c: char) -> Seq<u16> {
    let v = c as u32;
    if v < 0x1_0000 {
        seq![v as u16]
    } else {
        seq![
            (0xD800 + (v - 0x1_0000) / 0x400) as u16,
            (0xDC00 + (v - 0x1_0000) % 0x400) as u16,
        ]
    }
}

/// The UTF-16 form of a text.
pub open spec fn utf16(text: Seq<char>) -> Seq<u16>
    decreases text.len(),
{
    if text.len() == 0 {
        Seq::empty()
    } else {
        utf16(text.drop_last()) + utf16_units(text.last())
    }
}

/// Calls `String::from_utf16_lossy`. The result depends on the units alone, and
/// the UTF-16 form of a text comes back as that text. How unpaired surrogates are
/// replaced is left to the standard library.
#[verifier::external_body]
pub(crate) fn from_utf16_lossy(units: &[u16]) -> (text: String)
    ensures
        text@ == utf16_lossy(units@),
        forall|t: Seq<char>| #[trigger] utf16(t) == units@ ==> text@ == t,
{
    String::from_utf16_lossy(units)
}

/// The units before the first zero.
pub open spec fn until_zero(units: Seq<u16>) -> Seq<u16>
    decreases units.len(),
{
    if units.len() == 0 || units[0] == 0 {
        Seq::empty()
    } else {
        seq![units[0]] + until_zero(units.drop_first())
    }
}

proof fn lemma_until_zero(units: Seq<u16>, n: int)
    requires
        0 <= n <= units.len(),
        forall|i: int| 0 <= i < n ==> units[i] != 0,
        n < units.len() ==> units[n] == 0,
    ensures
        until_zero(units) == units.subrange(0, n),
    decreases units.len(),
{
    if n == 0 {
        assert(units.subrange(0, 0) =~= Seq::<u16>::empty());
    } else {
        lemma_until_zero(units.drop_first(), n - 1);
        assert(seq![units[0]] + units.drop_first().subrange(0, n - 1) =~= units.subrange(0, n));
    }
}

/// The form of a text without terminators has none either.
proof fn lemma_no_zero(text: Seq<char>, i: int)
    requires
        forall|k: int| 0 <= k < text.len() ==> #[trigger] text[k] as u32 != 0,
        0 <= i < utf16(text).len(),
    ensures
        utf16(text)[i] != 0,
    decreases text.len(),
{
    if text.len() > 0 {
        let head = text.drop_last();
        let c = text.last();
        char_is_scalar(c);
        assert(text[text.len() - 1] as u32 != 0);
        if i < utf16(head).len() {
            assert forall|k: int| 0 <= k < head.len() implies #[trigger] head[k] as u32 != 0 by {
                assert(text[k] as u32 != 0);
            }
            lemma_no_zero(head, i);
        } else {
            assert(utf16(text)[i] == utf16_units(c)[i - utf16(head).len()]);
            assert(c as u32 != 0);
        }
    }
}

/// A buffer that begins with the terminated form of a text holds that form,
/// whatever stands behind it.
pub proof fn lemma_terminated(text: Seq<char>, rest: Seq<u16>)
    requires
        forall|k: int| 0 <= k < text.len() ==> #[trigger] text[k] as u32 != 0,
    ensures
        until_zero(utf16(text).push(0) + rest) == utf16(text),
{
    let buf = utf16(text).push(0) + rest;
    let n = utf16(text).len() as int;
    assert forall|i: int| 0 <= i < n implies #[trigger] buf[i] != 0 by {
        lemma_no_zero(text, i);
    }
    lemma_until_zero(buf, n);
    assert(buf.subrange(0, n) =~= utf16(text));
}

/// The text in a buffer of UTF-16 units, up to its terminator.
pub fn wchar_to_string(buf: &[u16]) -> (text: String)
    ensures
        text@ == utf16_lossy(until_zero(buf@)),
        forall|t: Seq<char>| #[trigger] utf16(t) == until_zero(buf@) ==> text@ == t,
{
    let mut n: usize = 0;
    while n < buf.len() && buf[n] != 0
        invariant
            n <= buf@.len(),
            forall|i: int| 0 <= i < n ==> buf@[i] != 0,
        decreases buf@.len() - n,
    {
        n = n + 1;
    }
    proof {
        lemma_until_zero(buf@, n as int);
    }
    from_utf16_lossy(slice_subrange(buf, 0, n))
}

/// A path in UTF-16 with a terminator, as system calls take it.
pub fn to_wide_path(path: &str) -> (units: Vec<u16>)
    ensures
        units@ == utf16(path@).push(0),
{
    let chars = chars_of(path);
    let mut units: Vec<u16> = Vec::new();
    let mut i: usize = 0;
    assert(chars@.subrange(0, 0) =~= Seq::<char>::empty());
    while i < chars.len()
        invariant
            i <= chars@.len(),
            units@ == utf16(chars@.subrange(0, i as int)),
        decreases chars@.len() - i,
    {
        let ghost head = chars@.subrange(0, i + 1);
        let ghost was = units@;
        assert(head.drop_last() =~= chars@.subrange(0, i as int));
        assert(head.last() == chars@[i as int]);
        let c: char = chars[i];
        proof {
            char_is_scalar(c);
        }
        let v: u32 = c as u32;
        if v < 0x1_0000 {
            units.push(v as u16);
        } else {
            units.push((0xD800 + (v - 0x1_0000) / 0x400) as u16);
            units.push((0xDC00 + (v - 0x1_0000) % 0x400) as u16);
        }
        assert(units@ =~= was + utf16_units(chars@[i as int]));
        i = i + 1;
    }
    assert(chars@.subrange(0, i as int) =~= path@);
    units.push(0);
    units
}

/// Whether a handle stands for none: null, or all ones.
pub fn invalid_handle(handle: u64) -> (yes: bool)
    ensures
        yes == (handle == 0 || handle == u64::MAX),
{
    handle == 0 || handle == u64::MAX
}

/// A running process, as the system lists it.
#[derive(Debug)]
pub struct ProcessEntry {
    pub pid: u32,
    /// The name of its program, terminated or filling the buffer.
    pub exe_file: Vec<u16>,
}

/// The number of the first of the processes from `i` on with this name, whatever
/// its case.
pub open spec fn pid_from(entries: Seq<ProcessEntry>, name: Seq<char>, i: int) -> Option<u32>
    decreases entries.len() - i,
{
    if i >= entries.len() {
        None
    } else if lower_text(utf16_lossy(until_zero(entries[i].exe_file@))) == lower_text(name) {
        Some(entries[i].pid)
    } else {
        pid_from(entries, name, i + 1)
    }
}

/// The number of the first process with this name; none where it is not running.
pub fn find_pid(entries: &Vec<ProcessEntry>, process_name: &str) -> (pid: Option<u32>)
    ensures
        pid == pid_from(entries@, process_name@, 0),
{
    let mut i: usize = 0;
    while i < entries.len()
        invariant
            i <= entries@.len(),
            pid_from(entries@, process_name@, 0) == pid_from(entries@, process_name@, i as int),
        decreases entries@.len() - i,
    {
        let name = wchar_to_string(entries[i].exe_file.as_slice());
        if eq_ignore_case(name.as_str(), process_name) {
            return Some(entries[i].pid);
        }
        i = i + 1;
    }
    None
}

/// A module, as the system lists it.
#[derive(Debug)]
pub struct ModuleEntry {
    pub base: u64,
    pub size: u32,
    pub module: Vec<u16>,
    pub exe_path: Vec<u16>,
}

/// An entry that stands for a module: it has a base, a size and a name.
pub open spec fn is_module(entry: ModuleEntry) -> bool {
    entry.base != 0 && entry.size != 0 && utf16_lossy(until_zero(entry.module@)).len() > 0
}

/// The first `n` entries that stand for modules.
pub open spec fn usable(entries: Seq<ModuleEntry>, n: nat) -> Seq<ModuleEntry>
    decreases n,
{
    if n == 0 {
        Seq::empty()
    } else {
        let before = usable(entries, (n - 1) as nat);
        if is_module(entries[n - 1]) {
            before.push(entries[n - 1])
        } else {
            before
        }
    }
}

/// A module of an architecture as an entry lists it.
pub open spec fn lists(entry: ModuleEntry, arch: u32, module: ModuleInfo) -> bool {
    &&& module.address == entry.base
    &&& module.base == entry.base
    &&& module.size == entry.size
    &&& module.name@ == utf16_lossy(until_zero(entry.module@))
    &&& module.path@ == utf16_lossy(until_zero(entry.exe_path@))
    &&& module.arch == arch
}

/// The modules are those that the entries list.
pub open spec fn all_listed(entries: Seq<ModuleEntry>, arch: u32, modules: Seq<ModuleInfo>) -> bool {
    &&& modules.len() == entries.len()
    &&& forall|i: int|
        0 <= i < modules.len() ==> lists(#[trigger] entries[i], arch, #[trigger] modules[i])
}

/// The modules that the system lists; none where there is not a single one.
pub fn enumerate_modules(entries: &Vec<ModuleEntry>, arch: u32) -> (modules: Option<
    Vec<ModuleInfo>,
>)
    ensures
        match modules {
            Some(list) => all_listed(usable(entries@, entries@.len()), arch, list@) && list@.len()
                > 0,
            None => usable(entries@, entries@.len()).len() == 0,
        },
{
    let mut list: Vec<ModuleInfo> = Vec::new();
    let mut i: usize = 0;
    while i < entries.len()
        invariant
            i <= entries@.len(),
            all_listed(usable(entries@, i as nat), arch, list@),
        decreases entries@.len() - i,
    {
        let entry = &entries[i];
        let name = wchar_to_string(entry.module.as_slice());
        if entry.base != 0 && entry.size != 0 && !name.as_str().is_empty() {
            list.push(
                ModuleInfo {
                    address: entry.base,
                    base: entry.base,
                    size: entry.size as u64,
                    name,
                    path: wchar_to_string(entry.exe_path.as_slice()),
                    arch,
                },
            );
        }
        i = i + 1;
    }
    if list.len() == 0 {
        None
    } else {
        Some(list)
    }
}

/// Process `k` is the first of this name, whatever its case.
pub open spec fn is_first_process(
    entries: Seq<ProcessEntry>,
    names: Seq<Seq<char>>,
    name: Seq<char>,
    k: int,
) -> bool {
    &&& 0 <= k < entries.len()
    &&& lower_text(names[k]) == lower_text(name)
    &&& forall|j: int| 0 <= j < k ==> lower_text(#[trigger] names[j]) != lower_text(name)
}

proof fn lemma_pid_at(
    entries: Seq<ProcessEntry>,
    names: Seq<Seq<char>>,
    name: Seq<char>,
    k: int,
    i: int,
)
    requires
        names.len() == entries.len(),
        forall|j: int|
            0 <= j < entries.len() ==> #[trigger] names[j] == utf16_lossy(
                until_zero(entries[j].exe_file@),
            ),
        is_first_process(entries, names, name, k),
        0 <= i <= k,
    ensures
        pid_from(entries, name, i) == Some(entries[k].pid),
    decreases k - i,
{
    assert(names[i] == utf16_lossy(until_zero(entries[i].exe_file@)));
    if i < k {
        assert(lower_text(names[i]) != lower_text(name));
        lemma_pid_at(entries, names, name, k, i + 1);
    }
}

/// The number of a process is that of the first entry of its name.
pub proof fn lemma_first_process(
    entries: Seq<ProcessEntry>,
    names: Seq<Seq<char>>,
    name: Seq<char>,
    k: int,
)
    requires
        names.len() == entries.len(),
        forall|j: int|
            0 <= j < entries.len() ==> #[trigger] names[j] == utf16_lossy(
                until_zero(entries[j].exe_file@),
            ),
        is_first_process(entries, names, name, k),
    ensures
        pid_from(entries, name, 0) == Some(entries[k].pid),
{
    lemma_pid_at(entries, names, name, k, 0);
}

/// The modules of a process are the entries with an address, a size and a name, in
/// their order.
pub proof fn lemma_modules_kept(entries: Seq<ModuleEntry>, n: nat)
    requires
        n <= entries.len(),
    ensures
        usable(entries, n) == entries.subrange(0, n as int).filter(
            |entry: ModuleEntry|
                entry.base != 0 && entry.size != 0 && utf16_lossy(
                    until_zero(entry.module@),
                ).len() > 0,
        ),
    decreases n,
{
    let kept = |entry: ModuleEntry|
        entry.base != 0 && entry.size != 0 && utf16_lossy(until_zero(entry.module@)).len() > 0;
    reveal(Seq::filter);
    let head = entries.subrange(0, n as int);
    if n > 0 {
        lemma_modules_kept(entries, (n - 1) as nat);
        assert(head.drop_last() =~= entries.subrange(0, n - 1));
        assert(head.last() == entries[n - 1]);
        assert(kept(head.last()) <==> is_module(head.last()));
    } else {
        assert(head =~= Seq::<ModuleEntry>::empty());
    }
}

/// The UTF-16 form of a character tells the character: it is its number, or the two
/// halves of what its number is above 0xFFFF.
pub proof fn lemma_units_tell(c: char)
    ensures
        ({
            let units = utf16_units(c);
            let n = c as int;
            &&& n < 0x1_0000 ==> units.len() == 1 && units[0] == n
            &&& n >= 0x1_0000 ==> units.len() == 2 && 0xD800 <= units[0] < 0xDC00 && 0xDC00
                <= units[1] < 0xE000 && (units[0] - 0xD800) * 0x400 + (units[1] - 0xDC00) == n
                - 0x1_0000
        }),
{
    let n = c as int;
    if n >= 0x1_0000 {
        assert(n <= 0x10_FFFF);
        let above = n - 0x1_0000;
        assert(0 <= above / 0x400 < 0x400);
        assert(above / 0x400 * 0x400 + above % 0x400 == above);
    }
}

} // verus!
