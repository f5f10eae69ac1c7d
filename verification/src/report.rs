//! What is reported of a dump: the classes of its interfaces, and which of its
//! files could not be written.

use crate::analysis::interfaces::InterfaceMap;
use crate::analysis::protobufs::text_opt;
use crate::analysis::vtables::{VTableInfo, VTableMap, VTableMethod};
use crate::strmap::StrMap;
use crate::text::{eq_ignore_case, join, joined, lower_text, str_eq, strings};
use vstd::prelude::*;
use vstd::string::*;

verus! {

/// The class of an interface.
#[derive(Debug)]
pub struct IfaceClass {
    pub module: String,
    pub iface_name: String,
    /// The offset of the interface's object, where the interfaces name it.
    pub instance_rva: Option<u64>,
    pub rtti_class: Option<String>,
    /// The methods' names, in slot order.
    pub methods: Vec<Option<String>>,
    /// Whether the class was written by hand.
    pub manual: bool,
}

/// The value of the first of the entries from `i` on with this key, whatever
/// its case.
pub open spec fn value_from<V>(entries: Seq<(String, V)>, name: Seq<char>, i: int) -> Option<int>
    decreases entries.len() - i,
{
    if i >= entries.len() {
        None
    } else if lower_text(entries[i].0@) == lower_text(name) {
        Some(i)
    } else {
        value_from(entries, name, i + 1)
    }
}

fn find_entry<V>(map: &StrMap<V>, name: &str) -> (place: Option<usize>)
    ensures
        match place {
            Some(i) => value_from(map.entries@, name@, 0) == Some(i as int) && i
                < map.entries@.len(),
            None => value_from(map.entries@, name@, 0) is None,
        },
{
    let mut i: usize = 0;
    while i < map.entries.len()
        invariant
            i <= map.entries@.len(),
            value_from(map.entries@, name@, 0) == value_from(map.entries@, name@, i as int),
        decreases map.entries@.len() - i,
    {
        if eq_ignore_case(map.entries[i].0.as_str(), name) {
            return Some(i);
        }
        i = i + 1;
    }
    None
}

/// The offset of an interface's object, whatever the case of its module and
/// name.
pub open spec fn instance_of(interfaces: InterfaceMap, module: Seq<char>, name: Seq<char>) -> Option<
    u64,
> {
    match value_from(interfaces.entries@, module, 0) {
        Some(i) => {
            let items = interfaces.entries@[i].1;
            match value_from(items.entries@, name, 0) {
                Some(j) => Some(items.entries@[j].1),
                None => None,
            }
        },
        None => None,
    }
}

fn find_instance(interfaces: &InterfaceMap, module: &str, name: &str) -> (rva: Option<u64>)
    ensures
        rva == instance_of(*interfaces, module@, name@),
{
    match find_entry(interfaces, module) {
        Some(i) => match find_entry(&interfaces.entries[i].1, name) {
            Some(j) => Some(interfaces.entries[i].1.entries[j].1),
            None => None,
        },
        None => None,
    }
}

/// The names of a list of methods.
pub open spec fn method_names(methods: Seq<VTableMethod>) -> Seq<Option<Seq<char>>> {
    Seq::new(methods.len(), |i: int| text_opt(methods[i].name))
}

/// The texts of a list of optional strings.
pub open spec fn optional_texts(list: Seq<Option<String>>) -> Seq<Option<Seq<char>>> {
    Seq::new(list.len(), |i: int| text_opt(list[i]))
}

impl IfaceClass {
    /// It is the class of this interface of a module.
    pub open spec fn shows(
        &self,
        interfaces: InterfaceMap,
        module: Seq<char>,
        name: Seq<char>,
        info: VTableInfo,
    ) -> bool {
        &&& self.module@ == module
        &&& self.iface_name@ == name
        &&& self.instance_rva == instance_of(interfaces, module, name)
        &&& text_opt(self.rtti_class) == text_opt(info.rtti_class)
        &&& optional_texts(self.methods@) == method_names(info.methods@)
        &&& !self.manual
    }
}

fn copy_text(text: &Option<String>) -> (copy: Option<String>)
    ensures
        text_opt(copy) == text_opt(*text),
{
    match text {
        Some(t) => Some(t.clone()),
        None => None,
    }
}

fn copy_names(methods: &Vec<VTableMethod>) -> (names: Vec<Option<String>>)
    ensures
        optional_texts(names@) == method_names(methods@),
{
    let mut names: Vec<Option<String>> = Vec::new();
    let mut i: usize = 0;
    while i < methods.len()
        invariant
            i <= methods@.len(),
            optional_texts(names@) == method_names(methods@).subrange(0, i as int),
        decreases methods@.len() - i,
    {
        let ghost before = optional_texts(names@);
        let name = copy_text(&methods[i].name);
        let ghost item = text_opt(name);
        names.push(name);
        assert(optional_texts(names@) =~= before.push(item));
        i = i + 1;
        assert(before.push(item) =~= method_names(methods@).subrange(0, i as int));
    }
    assert(method_names(methods@).subrange(0, i as int) =~= method_names(methods@));
    names
}

/// How many interfaces the first `n` modules have.
pub open spec fn tables_before(entries: Seq<(String, StrMap<VTableInfo>)>, n: nat) -> int
    decreases n,
{
    if n == 0 {
        0
    } else {
        tables_before(entries, (n - 1) as nat) + entries[n - 1].1.entries@.len()
    }
}

/// The classes show the interfaces of the first `n` modules, in order.
pub open spec fn classes_show(
    classes: Seq<IfaceClass>,
    interfaces: InterfaceMap,
    entries: Seq<(String, StrMap<VTableInfo>)>,
    n: nat,
) -> bool {
    &&& classes.len() == tables_before(entries, n)
    &&& forall|m: int, k: int|
        #![trigger entries[m].1.entries@[k]]
        0 <= m < n && 0 <= k < entries[m].1.entries@.len() ==> classes[tables_before(
            entries,
            m as nat,
        ) + k].shows(
            interfaces,
            entries[m].0@,
            entries[m].1.entries@[k].0@,
            entries[m].1.entries@[k].1,
        )
}

proof fn lemma_tables_up(entries: Seq<(String, StrMap<VTableInfo>)>, n: nat, m: nat)
    requires
        n <= m,
    ensures
        0 <= tables_before(entries, n) <= tables_before(entries, m),
    decreases m,
{
    if n < m {
        lemma_tables_up(entries, n, (m - 1) as nat);
    } else if n > 0 {
        lemma_tables_up(entries, (n - 1) as nat, (n - 1) as nat);
    }
}

/// The classes of all interfaces that have a table, in the order of the modules
/// and of the interfaces in each.
pub fn iface_classes_from_vtables(vtables: &VTableMap, interfaces: &InterfaceMap) -> (classes: Vec<
    IfaceClass,
>)
    ensures
        classes_show(
            classes@,
            *interfaces,
            vtables.entries@,
            vtables.entries@.len(),
        ),
{
    let ghost entries = vtables.entries@;
    let mut classes: Vec<IfaceClass> = Vec::new();
    let mut m: usize = 0;
    while m < vtables.entries.len()
        invariant
            entries == vtables.entries@,
            m <= entries.len(),
            classes_show(classes@, *interfaces, entries, m as nat),
        decreases entries.len() - m,
    {
        let (module, tables) = &vtables.entries[m];
        let ghost start = classes@;
        let mut k: usize = 0;
        while k < tables.entries.len()
            invariant
                m < entries.len(),
                *module == entries[m as int].0,
                *tables == entries[m as int].1,
                k <= tables.entries@.len(),
                start.len() == tables_before(entries, m as nat),
                classes@.len() == start.len() + k,
                forall|i: int| 0 <= i < start.len() ==> classes@[i] == start[i],
                forall|i: int|
                    #![trigger tables.entries@[i]]
                    0 <= i < k ==> classes@[start.len() + i].shows(
                        *interfaces,
                        module@,
                        tables.entries@[i].0@,
                        tables.entries@[i].1,
                    ),
            decreases tables.entries@.len() - k,
        {
            let (name, info) = &tables.entries[k];
            let class = IfaceClass {
                module: module.clone(),
                iface_name: name.clone(),
                instance_rva: find_instance(interfaces, module.as_str(), name.as_str()),
                rtti_class: copy_text(&info.rtti_class),
                methods: copy_names(&info.methods),
                manual: false,
            };
            classes.push(class);
            k = k + 1;
        }
        proof {
            assert forall|a: int, b: int|
                #![trigger entries[a].1.entries@[b]]
                0 <= a < m + 1 && 0 <= b < entries[a].1.entries@.len() implies classes@[tables_before(
                entries,
                a as nat,
            ) + b].shows(
                *interfaces,
                entries[a].0@,
                entries[a].1.entries@[b].0@,
                entries[a].1.entries@[b].1,
            ) by {
                if a < m {
                    lemma_tables_up(entries, 0, a as nat);
                    lemma_tables_up(entries, (a + 1) as nat, m as nat);
                    let at = tables_before(entries, a as nat) + b;
                    assert(at < start.len());
                    assert(classes@[at] == start[at]);
                } else {
                    assert(tables.entries@[b] == entries[a].1.entries@[b]);
                }
            }
        }
        m = m + 1;
    }
    classes
}

/// The first error from `i` on.
pub open spec fn error_from(results: Seq<Result<(), String>>, i: int) -> Option<Seq<char>>
    decreases results.len() - i,
{
    if i >= results.len() {
        None
    } else {
        match results[i] {
            Err(message) => Some(message@),
            Ok(_) => error_from(results, i + 1),
        }
    }
}

/// What the stages of writing a dump came to. All of them run, and the manifest
/// is written whatever became of them; then the manifest's error counts, or the
/// first of theirs.
pub fn dump_outcome(manifest: Result<(), String>, stages: &Vec<Result<(), String>>) -> (outcome: Result<
    (),
    String,
>)
    ensures
        match manifest {
            Err(message) => outcome is Err && outcome->Err_0 == message,
            Ok(_) => match error_from(stages@, 0) {
                Some(message) => outcome is Err && outcome->Err_0@ == message,
                None => outcome is Ok,
            },
        },
{
    if let Err(message) = manifest {
        return Err(message);
    }
    let mut i: usize = 0;
    while i < stages.len()
        invariant
            manifest is Ok,
            i <= stages@.len(),
            error_from(stages@, 0) == error_from(stages@, i as int),
        decreases stages@.len() - i,
    {
        match &stages[i] {
            Err(message) => {
                return Err(message.clone());
            },
            Ok(_) => {},
        }
        i = i + 1;
    }
    Ok(())
}

/// Whether each file of the pattern report could be written.
#[derive(Debug)]
pub struct PatternWrites {
    pub patterns_json: bool,
    /// The list of repairs, and the patch where one was rendered; none where
    /// nothing was repaired.
    pub repairs: Option<(bool, Option<bool>)>,
    /// The files in the chosen languages that have one.
    pub languages: Vec<(String, bool)>,
    pub patterns_md: bool,
    pub patterns_hpp: bool,
}

/// The chosen languages in which the pattern report is rendered by its own
/// writer.
pub open spec fn has_pattern_file(kind: Seq<char>) -> bool {
    kind == "cs"@ || kind == "rs"@ || kind == "zig"@
}

pub fn renders_pattern_file(kind: &str) -> (yes: bool)
    ensures
        yes == has_pattern_file(kind@),
{
    str_eq(kind, "cs") || str_eq(kind, "rs") || str_eq(kind, "zig")
}

/// The files of the first `n` languages that could not be written.
pub open spec fn failed_languages(list: Seq<(String, bool)>, n: nat) -> Seq<Seq<char>>
    decreases n,
{
    if n == 0 {
        Seq::empty()
    } else {
        let before = failed_languages(list, (n - 1) as nat);
        if list[n - 1].1 {
            before
        } else {
            before.push("patterns."@ + list[n - 1].0@)
        }
    }
}

/// A list with a name behind it, unless all is well.
pub open spec fn noted(list: Seq<Seq<char>>, ok: bool, name: Seq<char>) -> Seq<Seq<char>> {
    if ok {
        list
    } else {
        list.push(name)
    }
}

/// The files of the pattern report that could not be written, in the order in
/// which they are written.
pub open spec fn failed_patterns(writes: PatternWrites) -> Seq<Seq<char>> {
    let one = noted(Seq::empty(), writes.patterns_json, "patterns.json"@);
    let two = match writes.repairs {
        None => one,
        Some((list, patch)) => {
            let listed = noted(one, list, "patterns.repair.json"@);
            match patch {
                Some(ok) => noted(listed, ok, "patterns.repair.patch.json"@),
                None => listed,
            }
        },
    };
    let three = two + failed_languages(writes.languages@, writes.languages@.len());
    let four = noted(three, writes.patterns_md, "patterns.md"@);
    noted(four, writes.patterns_hpp, "patterns.hpp"@)
}

fn note(list: &mut Vec<String>, ok: bool, name: &str)
    ensures
        strings(final(list)@) == noted(strings(old(list)@), ok, name@),
{
    if !ok {
        let ghost before = strings(list@);
        list.push(name.to_owned());
        assert(strings(list@) =~= before.push(name@));
    }
}

/// The message on files that could not be written.
pub open spec fn failure_message(failed: Seq<Seq<char>>) -> Seq<char> {
    "failed to write required pattern artifacts: "@ + joined(failed, ", "@)
}

fn failures(failed: &Vec<String>) -> (outcome: Result<(), String>)
    ensures
        if failed@.len() == 0 {
            outcome is Ok
        } else {
            outcome is Err && outcome->Err_0@ == failure_message(strings(failed@))
        },
{
    if failed.len() == 0 {
        return Ok(());
    }
    let mut message = "failed to write required pattern artifacts: ".to_owned();
    message.append(join(failed, ", ").as_str());
    Err(message)
}

/// What writing the pattern report came to: an error that names every file that
/// could not be written.
pub fn write_pattern_artifacts(writes: &PatternWrites) -> (outcome: Result<(), String>)
    ensures
        if failed_patterns(*writes).len() == 0 {
            outcome is Ok
        } else {
            outcome is Err && outcome->Err_0@ == failure_message(failed_patterns(*writes))
        },
{
    let mut failed: Vec<String> = Vec::new();
    assert(strings(failed@) =~= Seq::<Seq<char>>::empty());
    note(&mut failed, writes.patterns_json, "patterns.json");
    match &writes.repairs {
        Some((list, patch)) => {
            note(&mut failed, *list, "patterns.repair.json");
            match patch {
                Some(ok) => {
                    note(&mut failed, *ok, "patterns.repair.patch.json");
                },
                None => {},
            }
        },
        None => {},
    }
    let ghost two = strings(failed@);
    let mut i: usize = 0;
    assert(two + failed_languages(writes.languages@, 0) =~= two);
    while i < writes.languages.len()
        invariant
            i <= writes.languages@.len(),
            strings(failed@) == two + failed_languages(writes.languages@, i as nat),
        decreases writes.languages@.len() - i,
    {
        let (kind, ok) = &writes.languages[i];
        let ghost before = strings(failed@);
        let ghost done = failed_languages(writes.languages@, i as nat);
        if !*ok {
            let mut name = "patterns.".to_owned();
            name.append(kind.as_str());
            let ghost text = name@;
            failed.push(name);
            assert(strings(failed@) =~= before.push(text));
            assert(before.push(text) =~= two + done.push(text));
        }
        i = i + 1;
    }
    note(&mut failed, writes.patterns_md, "patterns.md");
    note(&mut failed, writes.patterns_hpp, "patterns.hpp");
    assert(strings(failed@).len() == failed@.len());
    failures(&failed)
}

/// What writing the merged offsets came to.
pub fn write_merged_offset_artifacts(hpp: bool, json: bool) -> (outcome: Result<(), String>)
    ensures
        ({
            let one = noted(Seq::empty(), hpp, "offsets_merged.hpp"@);
            let failed = noted(one, json, "offsets_merged.json"@);
            if failed.len() == 0 {
                outcome is Ok
            } else {
                outcome is Err && outcome->Err_0@ == failure_message(failed)
            }
        }),
{
    let mut failed: Vec<String> = Vec::new();
    assert(strings(failed@) =~= Seq::<Seq<char>>::empty());
    note(&mut failed, hpp, "offsets_merged.hpp");
    note(&mut failed, json, "offsets_merged.json");
    assert(strings(failed@).len() == failed@.len());
    failures(&failed)
}

/// Entry `k` is the first with this name, whatever its case.
pub open spec fn is_first_entry<V>(entries: Seq<(String, V)>, name: Seq<char>, k: int) -> bool {
    &&& 0 <= k < entries.len()
    &&& lower_text(entries[k].0@) == lower_text(name)
    &&& forall|j: int| 0 <= j < k ==> lower_text((#[trigger] entries[j]).0@) != lower_text(name)
}

proof fn lemma_entry_found<V>(entries: Seq<(String, V)>, name: Seq<char>, k: int, i: int)
    requires
        is_first_entry(entries, name, k),
        0 <= i <= k,
    ensures
        value_from(entries, name, i) == Some(k),
    decreases k - i,
{
    if i < k {
        assert(lower_text(entries[i].0@) != lower_text(name));
        lemma_entry_found(entries, name, k, i + 1);
    }
}

/// The object of an interface stands where the first entry of its name in the first
/// module of its name says.
pub proof fn lemma_instance_found(
    interfaces: InterfaceMap,
    module: Seq<char>,
    name: Seq<char>,
    m: int,
    k: int,
)
    requires
        is_first_entry(interfaces.entries@, module, m),
        is_first_entry(interfaces.entries@[m].1.entries@, name, k),
    ensures
        instance_of(interfaces, module, name) == Some(interfaces.entries@[m].1.entries@[k].1),
{
    lemma_entry_found(interfaces.entries@, module, m, 0);
    lemma_entry_found(interfaces.entries@[m].1.entries@, name, k, 0);
}

/// The error of a dump is that of the first stage that failed; there is none where
/// none did.
pub proof fn lemma_first_error(results: Seq<Result<(), String>>, k: int)
    ensures
        0 <= k < results.len() && results[k] is Err && (forall|j: int|
            0 <= j < k ==> (#[trigger] results[j]) is Ok) ==> error_from(results, 0) == Some(
            results[k]->Err_0@,
        ),
        (forall|j: int| 0 <= j < results.len() ==> (#[trigger] results[j]) is Ok) ==> error_from(
            results,
            0,
        ) is None,
{
    if 0 <= k < results.len() && results[k] is Err && (forall|j: int|
        0 <= j < k ==> (#[trigger] results[j]) is Ok) {
        lemma_error_at(results, k, 0);
    }
    if forall|j: int| 0 <= j < results.len() ==> (#[trigger] results[j]) is Ok {
        lemma_no_error(results, 0);
    }
}

proof fn lemma_error_at(results: Seq<Result<(), String>>, k: int, i: int)
    requires
        0 <= i <= k < results.len(),
        results[k] is Err,
        forall|j: int| 0 <= j < k ==> (#[trigger] results[j]) is Ok,
    ensures
        error_from(results, i) == Some(results[k]->Err_0@),
    decreases k - i,
{
    if i < k {
        assert(results[i] is Ok);
        lemma_error_at(results, k, i + 1);
    }
}

proof fn lemma_no_error(results: Seq<Result<(), String>>, i: int)
    requires
        0 <= i,
        forall|j: int| 0 <= j < results.len() ==> (#[trigger] results[j]) is Ok,
    ensures
        error_from(results, i) is None,
    decreases results.len() - i,
{
    if i < results.len() {
        assert(results[i] is Ok);
        lemma_no_error(results, i + 1);
    }
}

/// The languages whose file failed, in their order.
pub proof fn lemma_failed_languages(list: Seq<(String, bool)>, n: nat)
    requires
        n <= list.len(),
    ensures
        failed_languages(list, n) == list.subrange(0, n as int).filter(
            |one: (String, bool)| !one.1,
        ).map_values(|one: (String, bool)| "patterns."@ + one.0@),
    decreases n,
{
    let failed = |one: (String, bool)| !one.1;
    let file = |one: (String, bool)| "patterns."@ + one.0@;
    reveal(Seq::filter);
    let head = list.subrange(0, n as int);
    if n > 0 {
        lemma_failed_languages(list, (n - 1) as nat);
        assert(head.drop_last() =~= list.subrange(0, n - 1));
        assert(head.last() == list[n - 1]);
        let before = head.drop_last().filter(failed);
        assert(before.push(head.last()).map_values(file) =~= before.map_values(file).push(
            file(head.last()),
        ));
    } else {
        assert(head.filter(failed).map_values(file) =~= Seq::<Seq<char>>::empty());
    }
}

/// The files of a pattern report that failed are all named, in the order in which
/// they are written, and no others.
pub proof fn lemma_failures_named(writes: PatternWrites)
    ensures
        ({
            let failed = failed_patterns(writes);
            let languages = failed_languages(writes.languages@, writes.languages@.len());
            let json = if writes.patterns_json {
                Seq::<Seq<char>>::empty()
            } else {
                seq!["patterns.json"@]
            };
            let repairs = match writes.repairs {
                Some((false, Some(false))) => seq![
                    "patterns.repair.json"@,
                    "patterns.repair.patch.json"@,
                ],
                Some((false, _)) => seq!["patterns.repair.json"@],
                Some((true, Some(false))) => seq!["patterns.repair.patch.json"@],
                _ => Seq::<Seq<char>>::empty(),
            };
            let md = if writes.patterns_md {
                Seq::<Seq<char>>::empty()
            } else {
                seq!["patterns.md"@]
            };
            let hpp = if writes.patterns_hpp {
                Seq::<Seq<char>>::empty()
            } else {
                seq!["patterns.hpp"@]
            };
            failed == json + repairs + languages + md + hpp
        }),
{
    let failed = failed_patterns(writes);
    let languages = failed_languages(writes.languages@, writes.languages@.len());
    let json = if writes.patterns_json {
        Seq::<Seq<char>>::empty()
    } else {
        seq!["patterns.json"@]
    };
    let repairs = match writes.repairs {
        Some((false, Some(false))) => seq!["patterns.repair.json"@, "patterns.repair.patch.json"@],
        Some((false, _)) => seq!["patterns.repair.json"@],
        Some((true, Some(false))) => seq!["patterns.repair.patch.json"@],
        _ => Seq::<Seq<char>>::empty(),
    };
    let one = noted(Seq::empty(), writes.patterns_json, "patterns.json"@);
    assert(one =~= json);
    let two = match writes.repairs {
        None => one,
        Some((list, patch)) => {
            let listed = noted(one, list, "patterns.repair.json"@);
            match patch {
                Some(ok) => noted(listed, ok, "patterns.repair.patch.json"@),
                None => listed,
            }
        },
    };
    assert(two =~= json + repairs);
    let three = two + languages;
    let md = if writes.patterns_md {
        Seq::<Seq<char>>::empty()
    } else {
        seq!["patterns.md"@]
    };
    let hpp = if writes.patterns_hpp {
        Seq::<Seq<char>>::empty()
    } else {
        seq!["patterns.hpp"@]
    };
    let four = noted(three, writes.patterns_md, "patterns.md"@);
    assert(four =~= three + md);
    assert(failed =~= four + hpp);
}

} // verus!
