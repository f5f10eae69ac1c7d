//! Schema classes and enums, read from the bindings of the schema system.
//!
//! The records of the schema system have differed between builds, so every
//! reader takes their layout as an argument. A record is read as one block:
//! what is not mapped of it reads as zeros.

use crate::analysis::static_fields;
use crate::analysis::gameevents::{address, indexed_addr};
use crate::analysis::global_anchor::{head16, head32, head64, head8, read_head, Head};
use crate::analysis::module_data::{intern_name, interned, ModuleRecord};
use crate::analysis::protobufs::{capped, text_opt};
use crate::analysis::read::{signed16, signed32, text_at, text_in, to_i16, to_i32};
use crate::analysis::schema_flags::{
    class_flag_labels, class_labelled, decoded, enum_flag_names, enum_table,
};
use crate::analysis::static_fields::{
    dominant, fields_of, static_models, StaticField, StaticFieldLayout, StaticFieldModel,
    MAX_STATIC_FIELDS,
};
use crate::analysis::wire::signed64;
use crate::memory::{raw, readable, Memory};
use crate::memory::stored::{
    lemma_heads, lemma_text, lemma_text_cut, stands16, stands32, stands64, stands8, stands_text,
};
use crate::strmap::StrMap;
use crate::text::{
    from_utf8_lossy, lemma_until_nul, lemma_without_spaces, remove_spaces, str_eq, strings,
    until_nul, utf8_lossy, utf8_text, without_spaces,
};
use vstd::prelude::*;
use vstd::slice::*;
use vstd::string::*;
use vstd::utf8::*;

verus! {

/// What a class says of its networking.
#[derive(Debug)]
pub enum ClassMetadata {
    Unknown { name: String },
    NetworkChangeCallback { name: String },
    NetworkVarNames { name: String, var_type: String },
}

#[derive(Debug)]
pub struct ClassField {
    pub name: String,
    pub field_type: String,
    pub offset: i32,
    pub metadata: Vec<String>,
}

#[derive(Debug)]
pub struct Class {
    pub name: String,
    pub module_name: String,
    pub parent_name: Option<String>,
    pub size: i32,
    pub alignment: u8,
    pub metadata: Vec<ClassMetadata>,
    pub fields: Vec<ClassField>,
    /// Empty where the place of static fields is not known.
    pub static_fields: Vec<StaticField>,
    pub flags: Vec<String>,
}

#[derive(Debug)]
pub struct EnumMember {
    pub name: String,
    pub value: i64,
}

#[derive(Debug)]
pub struct Enum {
    pub name: String,
    pub alignment: u8,
    /// Its size in bytes, not the number of its members.
    pub size: u16,
    pub members: Vec<EnumMember>,
    pub flags: Vec<String>,
}

/// The classes and enums of a module.
#[derive(Debug)]
pub struct TypeScope {
    pub module_name: String,
    pub classes: Vec<Class>,
    pub enums: Vec<Enum>,
}

/// The classes and enums of each module, by its name.
pub type SchemaMap = StrMap<(Vec<Class>, Vec<Enum>)>;

/// One of the widths of an integer, in bytes.
pub open spec fn is_width(n: int) -> bool {
    n == 1 || n == 2 || n == 4 || n == 8
}

/// The width of the integer that holds an enum of a size and an alignment.
pub open spec fn storage_width(size: int, alignment: int) -> int {
    if is_width(size) {
        size
    } else if is_width(alignment) {
        alignment
    } else {
        4
    }
}

/// An enum is held by one, two, four or eight bytes: by as many as its size says where
/// that is one of these, by as many as its alignment says where only that is, and by
/// four where neither is.
pub proof fn lemma_storage(size: int, alignment: int)
    ensures
        ({
            let bytes = storage_width(size, alignment);
            let widths = set![1int, 2, 4, 8];
            &&& widths.contains(bytes)
            &&& widths.contains(size) ==> bytes == size
            &&& !widths.contains(size) && widths.contains(alignment) ==> bytes == alignment
            &&& !widths.contains(size) && !widths.contains(alignment) ==> bytes == 4
        }),
{
}

impl Enum {
    /// The width of the integer that holds the enum: its size where that is a
    /// width, else its alignment, else four.
    pub fn storage_bytes(&self) -> (bytes: u8)
        ensures
            bytes == storage_width(self.size as int, self.alignment as int),
    {
        if self.size == 1 || self.size == 2 || self.size == 4 || self.size == 8 {
            self.size as u8
        } else if self.alignment == 1 || self.alignment == 2 || self.alignment == 4
            || self.alignment == 8 {
            self.alignment
        } else {
            4
        }
    }
}

pub enum MetadataModel {
    Unknown(Seq<char>),
    NetworkChangeCallback(Seq<char>),
    NetworkVarNames(Seq<char>, Seq<char>),
}

pub struct FieldModel {
    pub name: Seq<char>,
    pub field_type: Seq<char>,
    pub offset: i32,
    pub metadata: Seq<Seq<char>>,
}

pub struct ClassModel {
    pub name: Seq<char>,
    pub module_name: Seq<char>,
    pub parent_name: Option<Seq<char>>,
    pub size: i32,
    pub alignment: u8,
    pub metadata: Seq<MetadataModel>,
    pub fields: Seq<FieldModel>,
    pub static_fields: Seq<StaticFieldModel>,
    pub flags: Seq<Seq<char>>,
}

pub struct MemberModel {
    pub name: Seq<char>,
    pub value: i64,
}

pub struct EnumModel {
    pub name: Seq<char>,
    pub alignment: u8,
    pub size: u16,
    pub members: Seq<MemberModel>,
    pub flags: Seq<Seq<char>>,
}

pub struct ScopeModel {
    pub module_name: Seq<char>,
    pub classes: Seq<ClassModel>,
    pub enums: Seq<EnumModel>,
}

impl ClassMetadata {
    pub open spec fn model(&self) -> MetadataModel {
        match self {
            ClassMetadata::Unknown { name } => MetadataModel::Unknown(name@),
            ClassMetadata::NetworkChangeCallback { name } => MetadataModel::NetworkChangeCallback(
                name@,
            ),
            ClassMetadata::NetworkVarNames { name, var_type } => MetadataModel::NetworkVarNames(
                name@,
                var_type@,
            ),
        }
    }
}

pub open spec fn metadata_models(list: Seq<ClassMetadata>) -> Seq<MetadataModel> {
    Seq::new(list.len(), |i: int| list[i].model())
}

impl ClassField {
    pub open spec fn model(&self) -> FieldModel {
        FieldModel {
            name: self.name@,
            field_type: self.field_type@,
            offset: self.offset,
            metadata: strings(self.metadata@),
        }
    }
}

pub open spec fn field_models(list: Seq<ClassField>) -> Seq<FieldModel> {
    Seq::new(list.len(), |i: int| list[i].model())
}

impl Class {
    pub open spec fn model(&self) -> ClassModel {
        ClassModel {
            name: self.name@,
            module_name: self.module_name@,
            parent_name: text_opt(self.parent_name),
            size: self.size,
            alignment: self.alignment,
            metadata: metadata_models(self.metadata@),
            fields: field_models(self.fields@),
            static_fields: static_models(self.static_fields@),
            flags: strings(self.flags@),
        }
    }
}

pub open spec fn class_models(list: Seq<Class>) -> Seq<ClassModel> {
    Seq::new(list.len(), |i: int| list[i].model())
}

impl EnumMember {
    pub open spec fn model(&self) -> MemberModel {
        MemberModel { name: self.name@, value: self.value }
    }
}

pub open spec fn member_models(list: Seq<EnumMember>) -> Seq<MemberModel> {
    Seq::new(list.len(), |i: int| list[i].model())
}

impl Enum {
    pub open spec fn model(&self) -> EnumModel {
        EnumModel {
            name: self.name@,
            alignment: self.alignment,
            size: self.size,
            members: member_models(self.members@),
            flags: strings(self.flags@),
        }
    }
}

pub open spec fn enum_models(list: Seq<Enum>) -> Seq<EnumModel> {
    Seq::new(list.len(), |i: int| list[i].model())
}

impl TypeScope {
    pub open spec fn model(&self) -> ScopeModel {
        ScopeModel {
            module_name: self.module_name@,
            classes: class_models(self.classes@),
            enums: enum_models(self.enums@),
        }
    }
}

pub open spec fn scope_models(list: Seq<TypeScope>) -> Seq<ScopeModel> {
    Seq::new(list.len(), |i: int| list[i].model())
}

/// The classes of the first `n` modules, in the order of the modules.
pub open spec fn classes_in(entries: Seq<(String, (Vec<Class>, Vec<Enum>))>, n: nat) -> Seq<Class>
    decreases n,
{
    if n == 0 {
        Seq::empty()
    } else {
        classes_in(entries, (n - 1) as nat) + entries[n - 1].1.0@
    }
}

/// All classes of a map, in the order of the modules.
pub open spec fn all_classes(schemas: SchemaMap) -> Seq<Class> {
    classes_in(schemas.entries@, schemas.entries@.len())
}

/// The first class of this name stands at `k`.
pub open spec fn first_class(classes: Seq<Class>, name: Seq<char>, k: int) -> bool {
    &&& 0 <= k < classes.len()
    &&& classes[k].name@ == name
    &&& forall|j: int| 0 <= j < k ==> (#[trigger] classes[j]).name@ != name
}

/// The place of the first class of this name.
pub open spec fn class_named(classes: Seq<Class>, name: Seq<char>) -> Option<int> {
    if exists|k: int| first_class(classes, name, k) {
        Some(choose|k: int| first_class(classes, name, k))
    } else {
        None
    }
}

proof fn lemma_class_named(classes: Seq<Class>, name: Seq<char>, k: int)
    requires
        first_class(classes, name, k),
    ensures
        class_named(classes, name) == Some(k),
{
    let j = choose|j: int| first_class(classes, name, j);
    assert(first_class(classes, name, j));
    if j < k {
        assert(classes[j].name@ != name);
    } else if k < j {
        assert(classes[k].name@ != name);
    }
}

proof fn lemma_no_class(classes: Seq<Class>, name: Seq<char>, n: int)
    requires
        0 <= n <= classes.len(),
        class_named(classes, name) is None,
    ensures
        forall|i: int| 0 <= i < n ==> (#[trigger] classes[i]).name@ != name,
    decreases n,
{
    if n > 0 {
        lemma_no_class(classes, name, n - 1);
        if classes[n - 1].name@ == name {
            assert(first_class(classes, name, n - 1));
        }
    }
}

/// An index of classes by name. Of two classes with one name the first counts,
/// so that the module that comes first decides.
#[derive(Debug)]
pub struct ClassIndex<'a> {
    pub classes: Vec<&'a Class>,
    pub places: StrMap<usize>,
}

/// A list of references to the classes.
pub open spec fn refers(list: Seq<&Class>, classes: Seq<Class>) -> bool {
    &&& list.len() == classes.len()
    &&& forall|i: int| 0 <= i < list.len() ==> *(#[trigger] list[i]) == classes[i]
}

/// The places name the first class of each name.
pub open spec fn places_first(places: Map<Seq<char>, usize>, classes: Seq<Class>) -> bool {
    forall|name: Seq<char>| #[trigger]
        places.contains_key(name) == (class_named(classes, name) is Some) && (
        places.contains_key(name) ==> first_class(classes, name, places[name] as int))
}

impl<'a> ClassIndex<'a> {
    /// The indexed classes.
    pub open spec fn list(&self) -> Seq<Class> {
        Seq::new(self.classes@.len(), |i: int| *self.classes@[i])
    }

    pub open spec fn wf(&self) -> bool {
        &&& self.places.wf()
        &&& places_first(self.places.map(), self.list())
    }
}

proof fn lemma_grow(
    before: Map<Seq<char>, usize>,
    after: Map<Seq<char>, usize>,
    classes: Seq<Class>,
    class: Class,
)
    requires
        places_first(before, classes),
        classes.len() <= usize::MAX,
        after == (if before.contains_key(class.name@) {
            before
        } else {
            before.insert(class.name@, classes.len() as usize)
        }),
    ensures
        places_first(after, classes.push(class)),
{
    let now = classes.push(class);
    assert forall|name: Seq<char>| #[trigger]
        after.contains_key(name) == (class_named(now, name) is Some) && (after.contains_key(name)
            ==> first_class(now, name, after[name] as int)) by {
        if before.contains_key(name) {
            let k = before[name] as int;
            assert(first_class(classes, name, k));
            assert(first_class(now, name, k)) by {
                assert(now[k] == classes[k]);
                assert forall|j: int| 0 <= j < k implies (#[trigger] now[j]).name@ != name by {
                    assert(now[j] == classes[j]);
                }
            }
            lemma_class_named(now, name, k);
        } else {
            assert(class_named(classes, name) is None);
            lemma_no_class(classes, name, classes.len() as int);
            let last = classes.len() as int;
            if name == class.name@ {
                assert(first_class(now, name, last)) by {
                    assert forall|j: int| 0 <= j < last implies (#[trigger] now[j]).name@ != name by {
                        assert(now[j] == classes[j]);
                    }
                }
                lemma_class_named(now, name, last);
            } else if class_named(now, name) is Some {
                let k = choose|k: int| first_class(now, name, k);
                assert(first_class(now, name, k));
                assert(k != last);
                assert(now[k] == classes[k]);
            }
        }
    }
}

/// Builds the index of a map's classes.
pub fn class_index<'a>(schemas: &'a SchemaMap) -> (index: ClassIndex<'a>)
    ensures
        index.wf(),
        index.list() == all_classes(*schemas),
{
    let mut classes: Vec<&'a Class> = Vec::new();
    let mut places: StrMap<usize> = StrMap::new();
    let ghost mut done: Seq<Class> = Seq::empty();
    let mut m: usize = 0;
    assert(places_first(places.map(), done)) by {
        assert forall|name: Seq<char>| #[trigger]
            places.map().contains_key(name) == (class_named(done, name) is Some) by {
            if class_named(done, name) is Some {
                let k = choose|k: int| first_class(done, name, k);
                assert(first_class(done, name, k));
            }
        }
    }
    while m < schemas.entries.len()
        invariant
            m <= schemas.entries@.len(),
            done == classes_in(schemas.entries@, m as nat),
            refers(classes@, done),
            places.wf(),
            places_first(places.map(), done),
        decreases schemas.entries@.len() - m,
    {
        let list = &schemas.entries[m].1.0;
        let ghost start = done;
        let mut i: usize = 0;
        assert(start + list@.subrange(0, 0) =~= start);
        while i < list.len()
            invariant
                i <= list@.len(),
                done == start + list@.subrange(0, i as int),
                refers(classes@, done),
                places.wf(),
                places_first(places.map(), done),
            decreases list@.len() - i,
        {
            let class: &'a Class = &list[i];
            let ghost was = places.map();
            let ghost old_done = done;
            let place: usize = classes.len();
            assert(place == done.len());
            if !places.contains_key(class.name.as_str()) {
                let _previous = places.insert(class.name.clone(), place);
            }
            proof {
                lemma_grow(was, places.map(), done, *class);
                done = done.push(*class);
            }
            classes.push(class);
            i = i + 1;
            assert(done =~= start + list@.subrange(0, i as int));
        }
        assert(list@.subrange(0, i as int) =~= list@);
        m = m + 1;
    }
    let index = ClassIndex { classes, places };
    assert(index.list() =~= done);
    index
}

/// The first field of this name stands at `k`.
pub open spec fn first_field(fields: Seq<ClassField>, name: Seq<char>, k: int) -> bool {
    &&& 0 <= k < fields.len()
    &&& fields[k].name@ == name
    &&& forall|j: int| 0 <= j < k ==> (#[trigger] fields[j]).name@ != name
}

/// A field's offset, if it is one.
pub open spec fn offset_value(offset: i32) -> Option<u64> {
    if offset < 0 {
        None
    } else {
        Some(offset as u64)
    }
}

/// The offset of a field in the class at `at` or in the nearest base class that
/// declares it, over at most `fuel` classes.
pub open spec fn offset_from(classes: Seq<Class>, at: int, field: Seq<char>, fuel: nat) -> Option<
    u64,
>
    decreases fuel,
{
    let class = classes[at];
    if fuel == 0 {
        None
    } else if exists|k: int| first_field(class.fields@, field, k) {
        let k = choose|k: int| first_field(class.fields@, field, k);
        offset_value(class.fields@[k].offset)
    } else {
        match class.parent_name {
            None => None,
            Some(parent) => match class_named(classes, parent@) {
                None => None,
                Some(next) => offset_from(classes, next, field, (fuel - 1) as nat),
            },
        }
    }
}

/// The offset of a field in a class, through its base classes.
pub open spec fn field_offset_of(classes: Seq<Class>, class: Seq<char>, field: Seq<char>) -> Option<
    u64,
> {
    match class_named(classes, class) {
        None => None,
        Some(at) => offset_from(classes, at, field, 64),
    }
}

fn find_field(fields: &Vec<ClassField>, name: &str) -> (place: Option<usize>)
    ensures
        match place {
            Some(k) => first_field(fields@, name@, k as int),
            None => forall|k: int| !first_field(fields@, name@, k),
        },
{
    let mut i: usize = 0;
    while i < fields.len()
        invariant
            i <= fields@.len(),
            forall|j: int| 0 <= j < i ==> (#[trigger] fields@[j]).name@ != name@,
        decreases fields@.len() - i,
    {
        if str_eq(fields[i].name.as_str(), name) {
            return Some(i);
        }
        i = i + 1;
    }
    None
}

/// [`field_offset`] by an index that is already built.
pub fn field_offset_in(
    index: &ClassIndex<'_>,
    class_name: &str,
    field_name: &str,
) -> (offset: Option<u64>)
    requires
        index.wf(),
    ensures
        offset == field_offset_of(index.list(), class_name@, field_name@),
{
    let ghost classes = index.list();
    let mut at: usize = match index.places.get(class_name) {
        Some(k) => *k,
        None => {
            return None;
        },
    };
    proof {
        lemma_class_named(classes, class_name@, at as int);
    }
    let mut left: usize = 64;
    while left > 0
        invariant
            index.wf(),
            classes == index.list(),
            left <= 64,
            at < classes.len(),
            field_offset_of(classes, class_name@, field_name@) == offset_from(
                classes,
                at as int,
                field_name@,
                left as nat,
            ),
        decreases left,
    {
        let class: &Class = index.classes[at];
        assert(*class == classes[at as int]);
        match find_field(&class.fields, field_name) {
            Some(k) => {
                let offset: i32 = class.fields[k].offset;
                proof {
                    let j = choose|j: int| first_field(class.fields@, field_name@, j);
                    assert(first_field(class.fields@, field_name@, j));
                    if j < k {
                        assert(class.fields@[j].name@ != field_name@);
                    } else if k < j {
                        assert(class.fields@[k as int].name@ != field_name@);
                    }
                }
                return if offset < 0 {
                    None
                } else {
                    Some(offset as u64)
                };
            },
            None => {},
        }
        match &class.parent_name {
            None => {
                return None;
            },
            Some(parent) => match index.places.get(parent.as_str()) {
                None => {
                    return None;
                },
                Some(k) => {
                    proof {
                        lemma_class_named(classes, parent@, *k as int);
                    }
                    at = *k;
                },
            },
        }
        left = left - 1;
    }
    None
}

/// The offset of a field in a class or in the nearest base class that declares
/// it. A chain of base classes that does not end, or is longer than any real
/// one, gives none.
pub fn field_offset(schemas: &SchemaMap, class_name: &str, field_name: &str) -> (offset: Option<u64>)
    ensures
        offset == field_offset_of(all_classes(*schemas), class_name@, field_name@),
{
    let index = class_index(schemas);
    field_offset_in(&index, class_name, field_name)
}

/// A class that declares a field decides its offset, whatever its base classes
/// declare.
pub proof fn lemma_nearest_field(
    classes: Seq<Class>,
    class: Seq<char>,
    at: int,
    field: Seq<char>,
    k: int,
)
    requires
        first_class(classes, class, at),
        first_field(classes[at].fields@, field, k),
    ensures
        field_offset_of(classes, class, field) == offset_value(classes[at].fields@[k].offset),
{
    lemma_class_named(classes, class, at);
    let j = choose|j: int| first_field(classes[at].fields@, field, j);
    assert(first_field(classes[at].fields@, field, j));
    if j < k {
        assert(classes[at].fields@[j].name@ != field);
    } else if k < j {
        assert(classes[at].fields@[k].name@ != field);
    }
}

/// A class that is its own base class and does not declare the field has none.
pub proof fn lemma_cycle_gives_none(
    classes: Seq<Class>,
    class: Seq<char>,
    at: int,
    field: Seq<char>,
    fuel: nat,
)
    requires
        first_class(classes, class, at),
        classes[at].parent_name matches Some(parent) && parent@ == class,
        forall|k: int| !first_field(classes[at].fields@, field, k),
    ensures
        offset_from(classes, at, field, fuel) is None,
    decreases fuel,
{
    lemma_class_named(classes, class, at);
    if fuel > 0 {
        lemma_cycle_gives_none(classes, class, at, field, (fuel - 1) as nat);
    }
}

/// Where the records of the schema system keep what the readers look at. The
/// spans are the records' sizes, the other numbers offsets into them.
#[derive(Clone, Copy, Debug, Default)]
pub struct SchemaLayout {
    pub class_span: usize,
    pub class_name: u64,
    pub class_size: u64,
    pub class_alignment: u64,
    pub class_field_count: u64,
    pub class_fields: u64,
    pub class_bases: u64,
    pub class_metadata_count: u64,
    pub class_metadata: u64,
    pub class_flags: u64,
    pub class_flags2: u64,
    pub class_manipulator: u64,
    pub base_span: usize,
    pub base_class: u64,
    pub field_span: usize,
    pub field_name: u64,
    pub field_type: u64,
    pub field_offset: u64,
    pub field_metadata_count: u64,
    pub field_metadata: u64,
    pub type_span: usize,
    pub type_text: u64,
    pub metadata_span: usize,
    pub metadata_name: u64,
    pub metadata_value: u64,
    pub value_span: usize,
    pub value_name: u64,
    pub value_var_name: u64,
    pub value_var_type: u64,
    pub enum_span: usize,
    pub enum_name: u64,
    pub enum_alignment: u64,
    pub enum_size: u64,
    pub enum_count: u64,
    pub enum_members: u64,
    pub enum_flags: u64,
    pub member_span: usize,
    pub member_name: u64,
    pub member_value: u64,
}

/// How much of a name is read at first.
pub const SCHEMA_NAME_SPAN: usize = 128;

/// How much of a name is read where it fills the first read.
pub const SCHEMA_NAME_MAX: usize = 512;

pub const MAX_CLASS_FIELDS: usize = 4096;

pub const MAX_ENUM_MEMBERS: usize = 4096;

pub const MAX_STATIC_METADATA: usize = 1024;

pub const MAX_FIELD_METADATA: usize = 256;

/// Bindings that are sampled for the place of static fields.
pub const STATIC_FIELD_PROBE_SAMPLE: usize = 512;

/// The name at an address; none at a null pointer or where it is empty. A name
/// that fills the first read is read again in full.
pub open spec fn name_in(mem: Map<int, u8>, at: u64) -> Option<Seq<char>> {
    let short = text_in(mem, at as int, SCHEMA_NAME_SPAN as nat);
    let name = if encode_utf8(short).len() >= SCHEMA_NAME_SPAN {
        text_in(mem, at as int, SCHEMA_NAME_MAX as nat)
    } else {
        short
    };
    if at == 0 || name.len() == 0 {
        None
    } else {
        Some(name)
    }
}

pub fn schema_name(mem: &Memory, at: u64) -> (name: Option<String>)
    requires
        mem.wf(),
    ensures
        text_opt(name) == name_in(mem@, at),
{
    if at == 0 {
        return None;
    }
    let short = text_at(mem, at, SCHEMA_NAME_SPAN);
    let name = if short.as_str().as_bytes().len() >= SCHEMA_NAME_SPAN {
        text_at(mem, at, SCHEMA_NAME_MAX)
    } else {
        short
    };
    if name.as_str().is_empty() {
        None
    } else {
        Some(name)
    }
}

/// A name that is read in full stands at `at`: one of fewer than 128 bytes, or a
/// longer one of at most 512 whose first 128 bytes do not part a character.
pub open spec fn name_stands(mem: Map<int, u8>, at: int, name: Seq<char>) -> bool {
    &&& 0 < at < 0x1_0000_0000_0000_0000
    &&& name.len() > 0
    &&& stands_text(mem, at, name)
    &&& encode_utf8(name).len() < 128 || (encode_utf8(name).len() <= 512 && valid_utf8(
        encode_utf8(name).subrange(0, 128),
    ))
}

/// A name that stands somewhere is read back.
pub proof fn lemma_name_read_back(mem: Map<int, u8>, at: u64, name: Seq<char>)
    requires
        name_stands(mem, at as int, name),
    ensures
        name_in(mem, at) == Some(name),
{
    let b = encode_utf8(name);
    lemma_text(mem, at as int, name, 512);
    if b.len() < 128 {
        lemma_text(mem, at as int, name, 128);
    } else {
        lemma_text_cut(mem, at as int, name, 128);
        decode_utf8_encode_utf8(b.subrange(0, 128));
    }
}

/// A count, none below zero and at most `cap`.
pub open spec fn bounded(count: int, cap: usize) -> int {
    if count < 0 {
        0
    } else if count > cap {
        cap as int
    } else {
        count
    }
}

pub fn bounded_schema_count(count: i16, cap: usize) -> (n: usize)
    ensures
        n == bounded(count as int, cap),
{
    if count < 0 {
        0
    } else if count as usize > cap {
        cap
    } else {
        count as usize
    }
}

pub fn bounded_schema_count_i32(count: i32, cap: usize) -> (n: usize)
    ensures
        n == bounded(count as int, cap),
{
    if count < 0 {
        0
    } else if count as usize > cap {
        cap
    } else {
        count as usize
    }
}

/// The record at an address, as its bytes.
pub open spec fn record(mem: Map<int, u8>, at: u64, span: usize) -> Seq<u8> {
    raw(mem, at as int, span as nat)
}

/// The address of an element of an array, unless it leaves the address space.
pub fn array_element_address(base: u64, index: usize, element_size: usize) -> (at: Option<u64>)
    ensures
        at == address(base + element_size * index),
{
    indexed_addr(base, element_size as u64, index as u64, 0)
}

/// The names of the first `n` metadata entries of a field that have one.
pub open spec fn field_metadata_in(mem: Map<int, u8>, l: SchemaLayout, base: u64, n: int) -> Seq<
    Seq<char>,
>
    decreases n,
{
    if n <= 0 {
        Seq::empty()
    } else {
        let before = field_metadata_in(mem, l, base, n - 1);
        match address(base + l.metadata_span * (n - 1)) {
            None => before,
            Some(at) => match name_in(
                mem,
                head64(record(mem, at, l.metadata_span), l.metadata_name as int),
            ) {
                Some(name) => before.push(name),
                None => before,
            },
        }
    }
}

/// The metadata of a field.
pub open spec fn metadata_of_field(mem: Map<int, u8>, l: SchemaLayout, field: Seq<u8>) -> Seq<
    Seq<char>,
> {
    let base = head64(field, l.field_metadata as int);
    let n = bounded(
        signed32(head32(field, l.field_metadata_count as int) as int),
        MAX_FIELD_METADATA,
    );
    if base == 0 {
        Seq::empty()
    } else {
        field_metadata_in(mem, l, base, n)
    }
}

/// The field whose record stands at `at`; none where it has no name, no type or
/// a type without a name.
#[verifier::opaque]
pub open spec fn field_at(mem: Map<int, u8>, l: SchemaLayout, at: u64) -> Option<FieldModel> {
    let field = record(mem, at, l.field_span);
    let ty = head64(field, l.field_type as int);
    let name = name_in(mem, head64(field, l.field_name as int));
    let text = name_in(mem, head64(record(mem, ty, l.type_span), l.type_text as int));
    if ty == 0 || name is None || text is None {
        None
    } else {
        Some(
            FieldModel {
                name: name->0,
                field_type: without_spaces(text->0),
                offset: signed32(head32(field, l.field_offset as int) as int) as i32,
                metadata: metadata_of_field(mem, l, field),
            },
        )
    }
}

/// The fields in the first `n` records of an array.
pub open spec fn fields_in(mem: Map<int, u8>, l: SchemaLayout, base: u64, n: int) -> Seq<FieldModel>
    decreases n,
{
    if n <= 0 {
        Seq::empty()
    } else {
        let before = fields_in(mem, l, base, n - 1);
        match address(base + l.field_span * (n - 1)) {
            None => before,
            Some(at) => match field_at(mem, l, at) {
                Some(field) => before.push(field),
                None => before,
            },
        }
    }
}

/// The fields of a class.
pub open spec fn class_fields_of(mem: Map<int, u8>, l: SchemaLayout, class: Seq<u8>) -> Seq<
    FieldModel,
> {
    let base = head64(class, l.class_fields as int);
    let n = bounded(
        signed16(head16(class, l.class_field_count as int) as int),
        MAX_CLASS_FIELDS,
    );
    if base == 0 {
        Seq::empty()
    } else {
        fields_in(mem, l, base, n)
    }
}

/// The metadata entry whose record stands at `at`: what its tag says of its
/// value. None where it has no value or no tag, or where the value that the tag
/// calls for has no name.
#[verifier::opaque]
pub open spec fn metadata_at(mem: Map<int, u8>, l: SchemaLayout, at: u64) -> Option<MetadataModel> {
    let entry = record(mem, at, l.metadata_span);
    let value_at = head64(entry, l.metadata_value as int);
    let tag = name_in(mem, head64(entry, l.metadata_name as int));
    let value = record(mem, value_at, l.value_span);
    if value_at == 0 || tag is None {
        None
    } else if tag->0 == "MNetworkChangeCallback"@ {
        match name_in(mem, head64(value, l.value_name as int)) {
            Some(name) => Some(MetadataModel::NetworkChangeCallback(name)),
            None => None,
        }
    } else if tag->0 == "MNetworkVarNames"@ {
        let name = name_in(mem, head64(value, l.value_var_name as int));
        let text = name_in(mem, head64(value, l.value_var_type as int));
        if name is None || text is None {
            None
        } else {
            Some(MetadataModel::NetworkVarNames(name->0, without_spaces(text->0)))
        }
    } else {
        Some(MetadataModel::Unknown(tag->0))
    }
}

/// The metadata in the first `n` records of an array.
pub open spec fn metadata_in(mem: Map<int, u8>, l: SchemaLayout, base: u64, n: int) -> Seq<
    MetadataModel,
>
    decreases n,
{
    if n <= 0 {
        Seq::empty()
    } else {
        let before = metadata_in(mem, l, base, n - 1);
        match address(base + l.metadata_span * (n - 1)) {
            None => before,
            Some(at) => match metadata_at(mem, l, at) {
                Some(metadata) => before.push(metadata),
                None => before,
            },
        }
    }
}

/// The metadata of a class.
pub open spec fn class_metadata_of(mem: Map<int, u8>, l: SchemaLayout, class: Seq<u8>) -> Seq<
    MetadataModel,
> {
    let base = head64(class, l.class_metadata as int);
    let n = bounded(
        signed16(head16(class, l.class_metadata_count as int) as int),
        MAX_STATIC_METADATA,
    );
    if base == 0 {
        Seq::empty()
    } else {
        metadata_in(mem, l, base, n)
    }
}

/// The name of a class's base class.
pub open spec fn parent_of(mem: Map<int, u8>, l: SchemaLayout, class: Seq<u8>) -> Option<Seq<char>> {
    let bases = head64(class, l.class_bases as int);
    let parent = head64(record(mem, bases, l.base_span), l.base_class as int);
    if bases == 0 {
        None
    } else {
        name_in(mem, head64(record(mem, parent, l.class_span), l.class_name as int))
    }
}

/// The class whose binding stands at `at`; none where it has no name.
#[verifier::opaque]
pub open spec fn class_at(
    mem: Map<int, u8>,
    l: SchemaLayout,
    at: u64,
    statics: Option<StaticFieldLayout>,
    module: Seq<char>,
) -> Option<ClassModel> {
    let class = record(mem, at, l.class_span);
    match name_in(mem, head64(class, l.class_name as int)) {
        None => None,
        Some(name) => Some(
            ClassModel {
                name,
                module_name: module,
                parent_name: parent_of(mem, l, class),
                size: signed32(head32(class, l.class_size as int) as int) as i32,
                alignment: head8(class, l.class_alignment as int),
                metadata: class_metadata_of(mem, l, class),
                fields: class_fields_of(mem, l, class),
                static_fields: match statics {
                    Some(layout) => fields_of(mem, at, layout, MAX_STATIC_FIELDS as int),
                    None => Seq::empty(),
                },
                flags: class_labelled(
                    head32(class, l.class_flags as int),
                    head32(class, l.class_flags2 as int),
                    head64(class, l.class_manipulator as int) != 0,
                ),
            },
        ),
    }
}

pub fn read_field_metadata(mem: &Memory, l: &SchemaLayout, field: &Head) -> (names: Vec<String>)
    requires
        mem.wf(),
    ensures
        strings(names@) == metadata_of_field(mem@, *l, field.bytes@),
{
    let base: u64 = field.u64(l.field_metadata);
    let n: usize = bounded_schema_count_i32(
        to_i32(field.u32(l.field_metadata_count)),
        MAX_FIELD_METADATA,
    );
    let mut names: Vec<String> = Vec::new();
    assert(strings(names@) =~= Seq::<Seq<char>>::empty());
    if base == 0 {
        return names;
    }
    let mut i: usize = 0;
    while i < n
        invariant
            mem.wf(),
            i <= n,
            strings(names@) == field_metadata_in(mem@, *l, base, i as int),
        decreases n - i,
    {
        match array_element_address(base, i, l.metadata_span) {
            None => {},
            Some(at) => {
                let entry = read_head(mem, at, l.metadata_span);
                match schema_name(mem, entry.u64(l.metadata_name)) {
                    Some(name) => {
                        let ghost before = strings(names@);
                        let ghost text = name@;
                        names.push(name);
                        assert(strings(names@) =~= before.push(text));
                    },
                    None => {},
                }
            },
        }
        i = i + 1;
    }
    names
}

fn read_field(mem: &Memory, l: &SchemaLayout, at: u64) -> (field: Option<ClassField>)
    requires
        mem.wf(),
    ensures
        match field_at(mem@, *l, at) {
            Some(model) => field matches Some(f) && f.model() == model,
            None => field is None,
        },
{
    proof {
        reveal(field_at);
    }
    let field = read_head(mem, at, l.field_span);
    let ty: u64 = field.u64(l.field_type);
    if ty == 0 {
        return None;
    }
    let name = match schema_name(mem, field.u64(l.field_name)) {
        Some(n) => n,
        None => {
            return None;
        },
    };
    let type_record = read_head(mem, ty, l.type_span);
    let text = match schema_name(mem, type_record.u64(l.type_text)) {
        Some(t) => t,
        None => {
            return None;
        },
    };
    let metadata = read_field_metadata(mem, l, &field);
    Some(
        ClassField {
            name,
            field_type: remove_spaces(text.as_str()),
            offset: to_i32(field.u32(l.field_offset)),
            metadata,
        },
    )
}

/// Reads the fields of the class with this record, in declaration order.
pub fn read_class_binding_fields(mem: &Memory, l: &SchemaLayout, class: &Head) -> (fields: Vec<
    ClassField,
>)
    requires
        mem.wf(),
    ensures
        field_models(fields@) == class_fields_of(mem@, *l, class.bytes@),
{
    let base: u64 = class.u64(l.class_fields);
    let n: usize = bounded_schema_count(to_i16(class.u16(l.class_field_count)), MAX_CLASS_FIELDS);
    let mut fields: Vec<ClassField> = Vec::new();
    assert(field_models(fields@) =~= Seq::<FieldModel>::empty());
    if base == 0 {
        return fields;
    }
    let mut i: usize = 0;
    while i < n
        invariant
            mem.wf(),
            i <= n,
            field_models(fields@) == fields_in(mem@, *l, base, i as int),
        decreases n - i,
    {
        match array_element_address(base, i, l.field_span) {
            None => {},
            Some(at) => match read_field(mem, l, at) {
                Some(field) => {
                    let ghost before = field_models(fields@);
                    let ghost model = field.model();
                    fields.push(field);
                    assert(field_models(fields@) =~= before.push(model));
                },
                None => {},
            },
        }
        i = i + 1;
    }
    fields
}

fn read_metadata(mem: &Memory, l: &SchemaLayout, at: u64) -> (metadata: Option<ClassMetadata>)
    requires
        mem.wf(),
    ensures
        match metadata_at(mem@, *l, at) {
            Some(model) => metadata matches Some(m) && m.model() == model,
            None => metadata is None,
        },
{
    proof {
        reveal(metadata_at);
    }
    let entry = read_head(mem, at, l.metadata_span);
    let value_at: u64 = entry.u64(l.metadata_value);
    if value_at == 0 {
        return None;
    }
    let tag = match schema_name(mem, entry.u64(l.metadata_name)) {
        Some(t) => t,
        None => {
            return None;
        },
    };
    let value = read_head(mem, value_at, l.value_span);
    if str_eq(tag.as_str(), "MNetworkChangeCallback") {
        match schema_name(mem, value.u64(l.value_name)) {
            Some(name) => Some(ClassMetadata::NetworkChangeCallback { name }),
            None => None,
        }
    } else if str_eq(tag.as_str(), "MNetworkVarNames") {
        match (
            schema_name(mem, value.u64(l.value_var_name)),
            schema_name(mem, value.u64(l.value_var_type)),
        ) {
            (Some(name), Some(text)) => Some(
                ClassMetadata::NetworkVarNames { name, var_type: remove_spaces(text.as_str()) },
            ),
            _ => None,
        }
    } else {
        Some(ClassMetadata::Unknown { name: tag })
    }
}

/// Reads the metadata of the class with this record.
pub fn read_class_binding_metadata(mem: &Memory, l: &SchemaLayout, class: &Head) -> (metadata: Vec<
    ClassMetadata,
>)
    requires
        mem.wf(),
    ensures
        metadata_models(metadata@) == class_metadata_of(mem@, *l, class.bytes@),
{
    let base: u64 = class.u64(l.class_metadata);
    let n: usize = bounded_schema_count(
        to_i16(class.u16(l.class_metadata_count)),
        MAX_STATIC_METADATA,
    );
    let mut list: Vec<ClassMetadata> = Vec::new();
    assert(metadata_models(list@) =~= Seq::<MetadataModel>::empty());
    if base == 0 {
        return list;
    }
    let mut i: usize = 0;
    while i < n
        invariant
            mem.wf(),
            i <= n,
            metadata_models(list@) == metadata_in(mem@, *l, base, i as int),
        decreases n - i,
    {
        match array_element_address(base, i, l.metadata_span) {
            None => {},
            Some(at) => match read_metadata(mem, l, at) {
                Some(metadata) => {
                    let ghost before = metadata_models(list@);
                    let ghost model = metadata.model();
                    list.push(metadata);
                    assert(metadata_models(list@) =~= before.push(model));
                },
                None => {},
            },
        }
        i = i + 1;
    }
    list
}

fn read_parent(mem: &Memory, l: &SchemaLayout, class: &Head) -> (name: Option<String>)
    requires
        mem.wf(),
    ensures
        text_opt(name) == parent_of(mem@, *l, class.bytes@),
{
    let bases: u64 = class.u64(l.class_bases);
    if bases == 0 {
        return None;
    }
    let base = read_head(mem, bases, l.base_span);
    let parent = read_head(mem, base.u64(l.base_class), l.class_span);
    schema_name(mem, parent.u64(l.class_name))
}

/// Reads the class whose binding stands at `binding`.
pub fn read_class_binding(
    mem: &Memory,
    l: &SchemaLayout,
    binding: u64,
    statics: Option<StaticFieldLayout>,
    module_name: &str,
) -> (class: Option<Class>)
    requires
        mem.wf(),
    ensures
        match class_at(mem@, *l, binding, statics, module_name@) {
            Some(model) => class matches Some(c) && c.model() == model,
            None => class is None,
        },
{
    proof {
        reveal(class_at);
    }
    let class = read_head(mem, binding, l.class_span);
    let name = match schema_name(mem, class.u64(l.class_name)) {
        Some(n) => n,
        None => {
            return None;
        },
    };
    let parent_name = read_parent(mem, l, &class);
    let fields = read_class_binding_fields(mem, l, &class);
    let metadata = read_class_binding_metadata(mem, l, &class);
    let static_list: Vec<StaticField> = match statics {
        Some(layout) => static_fields::read_static_fields(mem, binding, layout),
        None => {
            let none: Vec<StaticField> = Vec::new();
            assert(static_models(none@) =~= Seq::<StaticFieldModel>::empty());
            none
        },
    };
    Some(
        Class {
            name,
            module_name: module_name.to_owned(),
            parent_name,
            size: to_i32(class.u32(l.class_size)),
            alignment: class.u8(l.class_alignment),
            metadata,
            fields,
            static_fields: static_list,
            flags: class_flag_labels(
                class.u32(l.class_flags),
                class.u32(l.class_flags2),
                class.u64(l.class_manipulator) != 0,
            ),
        },
    )
}

/// The members in the first `n` records of an array that have a name.
pub open spec fn members_in(mem: Map<int, u8>, l: SchemaLayout, base: u64, n: int) -> Seq<
    MemberModel,
>
    decreases n,
{
    if n <= 0 {
        Seq::empty()
    } else {
        let before = members_in(mem, l, base, n - 1);
        match address(base + l.member_span * (n - 1)) {
            None => before,
            Some(at) => {
                let member = record(mem, at, l.member_span);
                match name_in(mem, head64(member, l.member_name as int)) {
                    Some(name) => before.push(
                        MemberModel {
                            name,
                            value: signed64(head64(member, l.member_value as int) as int) as i64,
                        },
                    ),
                    None => before,
                }
            },
        }
    }
}

/// The members of an enum.
pub open spec fn enum_members_of(mem: Map<int, u8>, l: SchemaLayout, e: Seq<u8>) -> Seq<
    MemberModel,
> {
    let base = head64(e, l.enum_members as int);
    let n = bounded(head16(e, l.enum_count as int) as int, MAX_ENUM_MEMBERS);
    if base == 0 {
        Seq::empty()
    } else {
        members_in(mem, l, base, n)
    }
}

/// The enum whose binding stands at `at`; none where it has no name.
#[verifier::opaque]
pub open spec fn enum_at(mem: Map<int, u8>, l: SchemaLayout, at: u64) -> Option<EnumModel> {
    let e = record(mem, at, l.enum_span);
    match name_in(mem, head64(e, l.enum_name as int)) {
        None => None,
        Some(name) => Some(
            EnumModel {
                name,
                alignment: head8(e, l.enum_alignment as int),
                size: head8(e, l.enum_size as int) as u16,
                members: enum_members_of(mem, l, e),
                flags: decoded(head8(e, l.enum_flags as int) as u32, enum_table()),
            },
        ),
    }
}

fn as_i64(v: u64) -> (x: i64)
    ensures
        x == signed64(v as int),
{
    if v < 0x8000_0000_0000_0000 {
        v as i64
    } else {
        (v - 0x8000_0000_0000_0000) as i64 + i64::MIN
    }
}

/// Reads the members of the enum with this record.
pub fn read_enum_binding_members(mem: &Memory, l: &SchemaLayout, e: &Head) -> (members: Vec<
    EnumMember,
>)
    requires
        mem.wf(),
    ensures
        member_models(members@) == enum_members_of(mem@, *l, e.bytes@),
{
    let base: u64 = e.u64(l.enum_members);
    let count: usize = e.u16(l.enum_count) as usize;
    let n: usize = if count > MAX_ENUM_MEMBERS {
        MAX_ENUM_MEMBERS
    } else {
        count
    };
    let mut members: Vec<EnumMember> = Vec::new();
    assert(member_models(members@) =~= Seq::<MemberModel>::empty());
    if base == 0 {
        return members;
    }
    let mut i: usize = 0;
    while i < n
        invariant
            mem.wf(),
            i <= n,
            member_models(members@) == members_in(mem@, *l, base, i as int),
        decreases n - i,
    {
        match array_element_address(base, i, l.member_span) {
            None => {},
            Some(at) => {
                let member = read_head(mem, at, l.member_span);
                match schema_name(mem, member.u64(l.member_name)) {
                    Some(name) => {
                        let ghost before = member_models(members@);
                        let item = EnumMember { name, value: as_i64(member.u64(l.member_value)) };
                        let ghost model = item.model();
                        members.push(item);
                        assert(member_models(members@) =~= before.push(model));
                    },
                    None => {},
                }
            },
        }
        i = i + 1;
    }
    members
}

/// Reads the enum whose binding stands at `binding`.
pub fn read_enum_binding(mem: &Memory, l: &SchemaLayout, binding: u64) -> (e: Option<Enum>)
    requires
        mem.wf(),
    ensures
        match enum_at(mem@, *l, binding) {
            Some(model) => e matches Some(x) && x.model() == model,
            None => e is None,
        },
{
    proof {
        reveal(enum_at);
    }
    let e = read_head(mem, binding, l.enum_span);
    match schema_name(mem, e.u64(l.enum_name)) {
        None => None,
        Some(name) => {
            let members = read_enum_binding_members(mem, l, &e);
            Some(
                Enum {
                    name,
                    alignment: e.u8(l.enum_alignment),
                    size: e.u8(l.enum_size) as u16,
                    members,
                    flags: enum_flag_names(e.u8(l.enum_flags)),
                },
            )
        },
    }
}

/// Why a schema system cannot be read.
#[derive(Clone, Copy, Debug, PartialEq, Eq, Structural)]
pub enum SchemaError {
    /// Nothing is registered, or there are no type scopes.
    NoRegistrations,
    /// This is no number of type scopes.
    InvalidScopeCount(i32),
}

/// Whether the counts of a schema system are those of one in use.
pub fn validate_schema_system(registration_count: i32, scope_count: i32) -> (valid: Result<
    (),
    SchemaError,
>)
    ensures
        valid == (if registration_count <= 0 || scope_count <= 0 {
            Err(SchemaError::NoRegistrations)
        } else if scope_count > 512 {
            Err(SchemaError::InvalidScopeCount(scope_count))
        } else {
            Ok(())
        }),
{
    if registration_count <= 0 || scope_count <= 0 {
        Err(SchemaError::NoRegistrations)
    } else if scope_count > 512 {
        Err(SchemaError::InvalidScopeCount(scope_count))
    } else {
        Ok(())
    }
}

/// The name in a buffer, up to its terminator. Valid text that names a loaded
/// module, whatever its case, is given as the module list spells it.
pub open spec fn scope_name(bytes: Seq<u8>, modules: Seq<ModuleRecord>) -> Seq<char> {
    let name = until_nul(bytes);
    if valid_utf8(name) {
        interned(modules, decode_utf8(name))
    } else {
        utf8_lossy(name)
    }
}

pub fn intern_name_bytes(bytes: &[u8], modules: &Vec<ModuleRecord>) -> (name: String)
    ensures
        name@ == scope_name(bytes@, modules@),
{
    let mut n: usize = 0;
    while n < bytes.len() && bytes[n] != 0
        invariant
            n <= bytes@.len(),
            forall|i: int| 0 <= i < n ==> bytes@[i] != 0,
        decreases bytes@.len() - n,
    {
        n = n + 1;
    }
    proof {
        lemma_until_nul(bytes@, n as int);
    }
    let text = slice_subrange(bytes, 0, n);
    match utf8_text(text) {
        Some(name) => intern_name(modules, name),
        None => from_utf8_lossy(text),
    }
}

/// A type scope with the addresses of its bindings.
#[derive(Debug)]
pub struct RawTypeScope {
    pub module_name: String,
    pub class_bindings: Vec<u64>,
    pub enum_bindings: Vec<u64>,
}

/// The class bindings of the first `n` scopes.
pub open spec fn bindings_of(scopes: Seq<RawTypeScope>, n: nat) -> Seq<u64>
    decreases n,
{
    if n == 0 {
        Seq::empty()
    } else {
        bindings_of(scopes, (n - 1) as nat) + scopes[n - 1].class_bindings@
    }
}

/// The bindings by which the place of static fields is found.
pub open spec fn sample_of(scopes: Seq<RawTypeScope>) -> Seq<u64> {
    capped(
        bindings_of(scopes, scopes.len()),
        STATIC_FIELD_PROBE_SAMPLE as int,
    )
}

/// The place of static fields that a sample of bindings supports.
pub open spec fn statics_of(mem: Map<int, u8>, sample: Seq<u64>) -> Option<StaticFieldLayout> {
    if exists|k: int| dominant(mem, sample, k) {
        Some(static_fields::candidate(choose|k: int| dominant(mem, sample, k)))
    } else {
        None
    }
}

/// The classes of the first `n` bindings that have a name.
pub open spec fn classes_at(
    mem: Map<int, u8>,
    l: SchemaLayout,
    bindings: Seq<u64>,
    n: nat,
    statics: Option<StaticFieldLayout>,
    module: Seq<char>,
) -> Seq<ClassModel>
    decreases n,
{
    if n == 0 {
        Seq::empty()
    } else {
        let before = classes_at(mem, l, bindings, (n - 1) as nat, statics, module);
        match class_at(mem, l, bindings[n - 1], statics, module) {
            Some(class) => before.push(class),
            None => before,
        }
    }
}

/// The enums of the first `n` bindings that have a name.
pub open spec fn enums_at(mem: Map<int, u8>, l: SchemaLayout, bindings: Seq<u64>, n: nat) -> Seq<
    EnumModel,
>
    decreases n,
{
    if n == 0 {
        Seq::empty()
    } else {
        let before = enums_at(mem, l, bindings, (n - 1) as nat);
        match enum_at(mem, l, bindings[n - 1]) {
            Some(e) => before.push(e),
            None => before,
        }
    }
}

/// The first `n` scopes that hold a class or an enum.
pub open spec fn scopes_in(
    mem: Map<int, u8>,
    l: SchemaLayout,
    scopes: Seq<RawTypeScope>,
    n: nat,
    statics: Option<StaticFieldLayout>,
) -> Seq<ScopeModel>
    decreases n,
{
    if n == 0 {
        Seq::empty()
    } else {
        let before = scopes_in(mem, l, scopes, (n - 1) as nat, statics);
        let scope = scopes[n - 1];
        let classes = classes_at(
            mem,
            l,
            scope.class_bindings@,
            scope.class_bindings@.len(),
            statics,
            scope.module_name@,
        );
        let enums = enums_at(mem, l, scope.enum_bindings@, scope.enum_bindings@.len());
        if classes.len() == 0 && enums.len() == 0 {
            before
        } else {
            before.push(ScopeModel { module_name: scope.module_name@, classes, enums })
        }
    }
}

fn sample_bindings(scopes: &Vec<RawTypeScope>) -> (sample: Vec<u64>)
    ensures
        sample@ == sample_of(scopes@),
{
    let ghost limit = STATIC_FIELD_PROBE_SAMPLE as int;
    let mut sample: Vec<u64> = Vec::new();
    let ghost mut all: Seq<u64> = Seq::empty();
    let mut s: usize = 0;
    while s < scopes.len()
        invariant
            limit == STATIC_FIELD_PROBE_SAMPLE,
            s <= scopes@.len(),
            all == bindings_of(scopes@, s as nat),
            sample@ == capped(all, limit),
        decreases scopes@.len() - s,
    {
        let list = &scopes[s].class_bindings;
        let ghost start = all;
        let mut i: usize = 0;
        assert(start + list@.subrange(0, 0) =~= start);
        while i < list.len()
            invariant
                limit == STATIC_FIELD_PROBE_SAMPLE,
                i <= list@.len(),
                all == start + list@.subrange(0, i as int),
                sample@ == capped(all, limit),
            decreases list@.len() - i,
        {
            let ghost was = all;
            proof {
                all = all.push(list@[i as int]);
            }
            if sample.len() < STATIC_FIELD_PROBE_SAMPLE {
                sample.push(list[i]);
            }
            assert(sample@ =~= capped(all, limit));
            i = i + 1;
            assert(all =~= start + list@.subrange(0, i as int));
        }
        assert(list@.subrange(0, i as int) =~= list@);
        s = s + 1;
    }
    sample
}

fn read_classes(
    mem: &Memory,
    l: &SchemaLayout,
    bindings: &Vec<u64>,
    statics: Option<StaticFieldLayout>,
    module: &str,
) -> (classes: Vec<Class>)
    requires
        mem.wf(),
    ensures
        class_models(classes@) == classes_at(
            mem@,
            *l,
            bindings@,
            bindings@.len(),
            statics,
            module@,
        ),
{
    let mut classes: Vec<Class> = Vec::new();
    let mut i: usize = 0;
    assert(class_models(classes@) =~= Seq::<ClassModel>::empty());
    while i < bindings.len()
        invariant
            mem.wf(),
            i <= bindings@.len(),
            class_models(classes@) == classes_at(mem@, *l, bindings@, i as nat, statics, module@),
        decreases bindings@.len() - i,
    {
        match read_class_binding(mem, l, bindings[i], statics, module) {
            Some(class) => {
                let ghost before = class_models(classes@);
                let ghost model = class.model();
                classes.push(class);
                assert(class_models(classes@) =~= before.push(model));
            },
            None => {},
        }
        i = i + 1;
    }
    classes
}

fn read_enums(mem: &Memory, l: &SchemaLayout, bindings: &Vec<u64>) -> (enums: Vec<Enum>)
    requires
        mem.wf(),
    ensures
        enum_models(enums@) == enums_at(mem@, *l, bindings@, bindings@.len()),
{
    let mut enums: Vec<Enum> = Vec::new();
    let mut i: usize = 0;
    assert(enum_models(enums@) =~= Seq::<EnumModel>::empty());
    while i < bindings.len()
        invariant
            mem.wf(),
            i <= bindings@.len(),
            enum_models(enums@) == enums_at(mem@, *l, bindings@, i as nat),
        decreases bindings@.len() - i,
    {
        match read_enum_binding(mem, l, bindings[i]) {
            Some(e) => {
                let ghost before = enum_models(enums@);
                let ghost model = e.model();
                enums.push(e);
                assert(enum_models(enums@) =~= before.push(model));
            },
            None => {},
        }
        i = i + 1;
    }
    enums
}

fn detect_statics(mem: &Memory, sample: &Vec<u64>) -> (layout: Option<StaticFieldLayout>)
    requires
        mem.wf(),
    ensures
        layout == statics_of(mem@, sample@),
{
    let statics = static_fields::detect_layout(mem, sample.as_slice());
    proof {
        if statics is Some {
            let k = choose|k: int| #[trigger]
                dominant(mem@, sample@, k) && statics->0 == static_fields::candidate(k);
            let j = choose|j: int| dominant(mem@, sample@, j);
            static_fields::lemma_dominant_unique(mem@, sample@, j, k);
        }
        assert(statics == statics_of(mem@, sample@));
    }
    statics
}

/// Reads the classes and enums of the scopes. A scope with neither is left out.
pub fn read_type_scopes(mem: &Memory, l: &SchemaLayout, raw_scopes: &Vec<RawTypeScope>) -> (scopes:
    Vec<TypeScope>)
    requires
        mem.wf(),
    ensures
        scope_models(scopes@) == scopes_in(
            mem@,
            *l,
            raw_scopes@,
            raw_scopes@.len(),
            statics_of(mem@, sample_of(raw_scopes@)),
        ),
{
    let sample = sample_bindings(raw_scopes);
    let statics = detect_statics(mem, &sample);
    let mut scopes: Vec<TypeScope> = Vec::new();
    let mut i: usize = 0;
    assert(scope_models(scopes@) =~= Seq::<ScopeModel>::empty());
    while i < raw_scopes.len()
        invariant
            mem.wf(),
            i <= raw_scopes@.len(),
            scope_models(scopes@) == scopes_in(mem@, *l, raw_scopes@, i as nat, statics),
        decreases raw_scopes@.len() - i,
    {
        let scope = &raw_scopes[i];
        let classes = read_classes(
            mem,
            l,
            &scope.class_bindings,
            statics,
            scope.module_name.as_str(),
        );
        let enums = read_enums(mem, l, &scope.enum_bindings);
        assert(class_models(classes@).len() == classes@.len());
        assert(enum_models(enums@).len() == enums@.len());
        if classes.len() > 0 || enums.len() > 0 {
            let item = TypeScope { module_name: scope.module_name.clone(), classes, enums };
            let ghost before = scope_models(scopes@);
            let ghost model = item.model();
            scopes.push(item);
            assert(scope_models(scopes@) =~= before.push(model));
        }
        i = i + 1;
    }
    scopes
}

/// The map of a list of scopes. Of two scopes of one module the later counts.
pub open spec fn scope_map(scopes: Seq<TypeScope>, n: nat) -> Map<
    Seq<char>,
    (Vec<Class>, Vec<Enum>),
>
    decreases n,
{
    if n == 0 {
        Map::empty()
    } else {
        scope_map(scopes, (n - 1) as nat).insert(
            scopes[n - 1].module_name@,
            (scopes[n - 1].classes, scopes[n - 1].enums),
        )
    }
}

/// The classes and enums of the scopes, by module.
pub fn schemas_from_scopes(scopes: Vec<TypeScope>) -> (map: SchemaMap)
    ensures
        map.wf(),
        map.map() == scope_map(scopes@, scopes@.len()),
{
    let mut map: SchemaMap = StrMap::new();
    let ghost all = scopes@;
    let ghost mut n: nat = 0;
    for scope in it: scopes
        invariant
            it.seq() == all,
            map.wf(),
            map.map() == scope_map(all, it.index() as nat),
    {
        let _previous = map.insert(scope.module_name, (scope.classes, scope.enums));
    }
    map
}

/// A name in memory, with its address.
pub struct NameImage {
    pub at: u64,
    pub text: Seq<char>,
}

/// The record of a metadata entry of a field stands at `at`.
pub open spec fn field_metadata_stands(
    mem: Map<int, u8>,
    l: SchemaLayout,
    at: int,
    entry: NameImage,
) -> bool {
    &&& readable(mem, at, l.metadata_span as int)
    &&& l.metadata_name + 8 <= l.metadata_span
    &&& stands64(mem, at + l.metadata_name, entry.at as int)
    &&& name_stands(mem, entry.at as int, entry.text)
}

/// What a field's record says, with the addresses of what it points at.
pub struct FieldImage {
    pub name: NameImage,
    pub type_at: u64,
    pub text: NameImage,
    pub offset: i32,
    pub metadata_at: u64,
    pub metadata: Seq<NameImage>,
}

/// The record of a field stands at `at`: pointers to its name and its type, its
/// offset, and the metadata entries side by side at their address.
pub open spec fn field_stands(mem: Map<int, u8>, l: SchemaLayout, at: int, f: FieldImage) -> bool {
    &&& readable(mem, at, l.field_span as int)
    &&& l.field_name + 8 <= l.field_span
    &&& l.field_type + 8 <= l.field_span
    &&& l.field_offset + 4 <= l.field_span
    &&& l.field_metadata_count + 4 <= l.field_span
    &&& l.field_metadata + 8 <= l.field_span
    &&& l.type_text + 8 <= l.type_span
    &&& stands64(mem, at + l.field_name, f.name.at as int)
    &&& name_stands(mem, f.name.at as int, f.name.text)
    &&& stands64(mem, at + l.field_type, f.type_at as int)
    &&& f.type_at != 0
    &&& readable(mem, f.type_at as int, l.type_span as int)
    &&& stands64(mem, f.type_at + l.type_text, f.text.at as int)
    &&& name_stands(mem, f.text.at as int, f.text.text)
    &&& stands32(mem, at + l.field_offset, f.offset as int % 0x1_0000_0000)
    &&& f.metadata.len() <= 256
    &&& stands32(mem, at + l.field_metadata_count, f.metadata.len() as int)
    &&& stands64(mem, at + l.field_metadata, f.metadata_at as int)
    &&& f.metadata_at != 0
    &&& f.metadata_at + l.metadata_span * f.metadata.len() <= 0x1_0000_0000_0000_0000
    &&& forall|j: int|
        0 <= j < f.metadata.len() ==> field_metadata_stands(
            mem,
            l,
            f.metadata_at + l.metadata_span * j,
            #[trigger] f.metadata[j],
        )
}

/// A field that was read is the one of the record: its name, its type without
/// spaces, its offset, and the names of its metadata entries in order.
pub open spec fn is_field(model: FieldModel, f: FieldImage) -> bool {
    &&& model.name == f.name.text
    &&& model.field_type == f.text.text.filter(|c: char| c != ' ')
    &&& model.offset == f.offset
    &&& model.metadata == f.metadata.map_values(|m: NameImage| m.text)
}

proof fn lemma_element_address(base: u64, span: usize, i: int, n: int)
    requires
        0 <= i < n,
        0 < span,
        base + span * n <= 0x1_0000_0000_0000_0000,
    ensures
        0 <= span * i,
        address(base + span * i) == Some((base + span * i) as u64),
        base + span * i <= u64::MAX,
{
    assert(0 <= span * i) by (nonlinear_arith)
        requires
            0 <= i,
            0 < span,
    ;
    assert(span * i + span <= span * n) by (nonlinear_arith)
        requires
            i < n,
            0 < span,
    ;
}

proof fn lemma_field_metadata(mem: Map<int, u8>, l: SchemaLayout, f: FieldImage, n: int)
    requires
        0 <= n <= f.metadata.len(),
        f.metadata_at + l.metadata_span * f.metadata.len() <= 0x1_0000_0000_0000_0000,
        forall|j: int|
            0 <= j < f.metadata.len() ==> field_metadata_stands(
                mem,
                l,
                f.metadata_at + l.metadata_span * j,
                #[trigger] f.metadata[j],
            ),
    ensures
        field_metadata_in(mem, l, f.metadata_at, n) == f.metadata.map_values(
            |m: NameImage| m.text,
        ).subrange(0, n),
    decreases n,
{
    let all = f.metadata.map_values(|m: NameImage| m.text);
    if n > 0 {
        let entry = f.metadata[n - 1];
        lemma_field_metadata(mem, l, f, n - 1);
        lemma_element_address(f.metadata_at, l.metadata_span, n - 1, f.metadata.len() as int);
        let at = f.metadata_at + l.metadata_span * (n - 1);
        assert(field_metadata_stands(mem, l, at, entry));
        lemma_heads(mem, at, l.metadata_span as nat, l.metadata_name as int, entry.at as int);
        lemma_name_read_back(mem, entry.at, entry.text);
        assert(all.subrange(0, n) =~= all.subrange(0, n - 1).push(entry.text));
    } else {
        assert(all.subrange(0, 0) =~= Seq::<Seq<char>>::empty());
    }
}

proof fn lemma_field_read_back(mem: Map<int, u8>, l: SchemaLayout, at: u64, f: FieldImage)
    requires
        field_stands(mem, l, at as int, f),
    ensures
        field_at(mem, l, at) matches Some(model) && is_field(model, f),
{
    reveal(field_at);
    let span = l.field_span as nat;
    lemma_heads(mem, at as int, span, l.field_name as int, f.name.at as int);
    lemma_heads(mem, at as int, span, l.field_type as int, f.type_at as int);
    lemma_heads(mem, at as int, span, l.field_offset as int, f.offset as int % 0x1_0000_0000);
    lemma_heads(mem, at as int, span, l.field_metadata_count as int, f.metadata.len() as int);
    lemma_heads(mem, at as int, span, l.field_metadata as int, f.metadata_at as int);
    lemma_heads(mem, f.type_at as int, l.type_span as nat, l.type_text as int, f.text.at as int);
    lemma_name_read_back(mem, f.name.at, f.name.text);
    lemma_name_read_back(mem, f.text.at, f.text.text);
    lemma_without_spaces(f.text.text);
    lemma_field_metadata(mem, l, f, f.metadata.len() as int);
    let all = f.metadata.map_values(|m: NameImage| m.text);
    assert(all.subrange(0, all.len() as int) =~= all);
}

proof fn lemma_fields(mem: Map<int, u8>, l: SchemaLayout, base: u64, fields: Seq<FieldImage>, n: int)
    requires
        0 <= n <= fields.len(),
        base + l.field_span * fields.len() <= 0x1_0000_0000_0000_0000,
        forall|i: int|
            0 <= i < fields.len() ==> field_stands(
                mem,
                l,
                base + l.field_span * i,
                #[trigger] fields[i],
            ),
    ensures
        fields_in(mem, l, base, n).len() == n,
        forall|i: int|
            0 <= i < n ==> is_field(#[trigger] fields_in(mem, l, base, n)[i], fields[i]),
    decreases n,
{
    if n > 0 {
        lemma_fields(mem, l, base, fields, n - 1);
        assert(field_stands(mem, l, base + l.field_span * (n - 1), fields[n - 1]));
        lemma_element_address(base, l.field_span, n - 1, fields.len() as int);
        lemma_field_read_back(mem, l, (base + l.field_span * (n - 1)) as u64, fields[n - 1]);
        let before = fields_in(mem, l, base, n - 1);
        let now = fields_in(mem, l, base, n);
        assert forall|i: int| 0 <= i < n implies is_field(#[trigger] now[i], fields[i]) by {
            if i < n - 1 {
                assert(now[i] == before[i]);
            }
        }
    }
}

/// A class whose record counts `n` fields and points at `n` field records side
/// by side has exactly these fields, in their order.
pub proof fn lemma_fields_read_back(
    mem: Map<int, u8>,
    l: SchemaLayout,
    class: u64,
    base: u64,
    fields: Seq<FieldImage>,
)
    requires
        readable(mem, class as int, l.class_span as int),
        l.class_field_count + 2 <= l.class_span,
        l.class_fields + 8 <= l.class_span,
        fields.len() <= 4096,
        stands16(mem, class + l.class_field_count, fields.len() as int),
        stands64(mem, class + l.class_fields, base as int),
        base != 0,
        base + l.field_span * fields.len() <= 0x1_0000_0000_0000_0000,
        forall|i: int|
            0 <= i < fields.len() ==> field_stands(
                mem,
                l,
                base + l.field_span * i,
                #[trigger] fields[i],
            ),
    ensures
        class_fields_of(mem, l, raw(mem, class as int, l.class_span as nat)).len() == fields.len(),
        forall|i: int|
            0 <= i < fields.len() ==> is_field(
                #[trigger] class_fields_of(mem, l, raw(mem, class as int, l.class_span as nat))[i],
                fields[i],
            ),
{
    let span = l.class_span as nat;
    lemma_heads(mem, class as int, span, l.class_field_count as int, fields.len() as int);
    lemma_heads(mem, class as int, span, l.class_fields as int, base as int);
    lemma_fields(mem, l, base, fields, fields.len() as int);
}

/// What a metadata entry of a class says: its tag, the address of its value, and
/// the names that the value points at.
pub struct MetadataImage {
    pub tag: NameImage,
    pub value_at: u64,
    pub name: NameImage,
    pub text: NameImage,
}

/// The record of a metadata entry of a class stands at `at`, and its value has
/// the names that the tag calls for.
pub open spec fn metadata_stands(
    mem: Map<int, u8>,
    l: SchemaLayout,
    at: int,
    m: MetadataImage,
) -> bool {
    &&& readable(mem, at, l.metadata_span as int)
    &&& l.metadata_name + 8 <= l.metadata_span
    &&& l.metadata_value + 8 <= l.metadata_span
    &&& stands64(mem, at + l.metadata_name, m.tag.at as int)
    &&& name_stands(mem, m.tag.at as int, m.tag.text)
    &&& stands64(mem, at + l.metadata_value, m.value_at as int)
    &&& m.value_at != 0
    &&& readable(mem, m.value_at as int, l.value_span as int)
    &&& m.tag.text == "MNetworkChangeCallback"@ ==> {
        &&& l.value_name + 8 <= l.value_span
        &&& stands64(mem, m.value_at + l.value_name, m.name.at as int)
        &&& name_stands(mem, m.name.at as int, m.name.text)
    }
    &&& m.tag.text == "MNetworkVarNames"@ ==> {
        &&& l.value_var_name + 8 <= l.value_span
        &&& l.value_var_type + 8 <= l.value_span
        &&& stands64(mem, m.value_at + l.value_var_name, m.name.at as int)
        &&& name_stands(mem, m.name.at as int, m.name.text)
        &&& stands64(mem, m.value_at + l.value_var_type, m.text.at as int)
        &&& name_stands(mem, m.text.at as int, m.text.text)
    }
}

/// A metadata entry that was read is the one of the record.
pub open spec fn is_metadata(model: MetadataModel, m: MetadataImage) -> bool {
    match model {
        MetadataModel::NetworkChangeCallback(name) => m.tag.text == "MNetworkChangeCallback"@
            && name == m.name.text,
        MetadataModel::NetworkVarNames(name, text) => m.tag.text == "MNetworkVarNames"@ && name
            == m.name.text && text == m.text.text.filter(|c: char| c != ' '),
        MetadataModel::Unknown(name) => m.tag.text != "MNetworkChangeCallback"@ && m.tag.text
            != "MNetworkVarNames"@ && name == m.tag.text,
    }
}

proof fn lemma_metadata_entry(mem: Map<int, u8>, l: SchemaLayout, at: u64, m: MetadataImage)
    requires
        metadata_stands(mem, l, at as int, m),
    ensures
        metadata_at(mem, l, at) matches Some(model) && is_metadata(model, m),
{
    reveal(metadata_at);
    reveal_strlit("MNetworkChangeCallback");
    reveal_strlit("MNetworkVarNames");
    assert("MNetworkChangeCallback"@.len() != "MNetworkVarNames"@.len());
    let span = l.metadata_span as nat;
    let value = l.value_span as nat;
    lemma_heads(mem, at as int, span, l.metadata_name as int, m.tag.at as int);
    lemma_heads(mem, at as int, span, l.metadata_value as int, m.value_at as int);
    lemma_name_read_back(mem, m.tag.at, m.tag.text);
    if m.tag.text == "MNetworkChangeCallback"@ {
        lemma_heads(mem, m.value_at as int, value, l.value_name as int, m.name.at as int);
        lemma_name_read_back(mem, m.name.at, m.name.text);
    } else if m.tag.text == "MNetworkVarNames"@ {
        lemma_heads(mem, m.value_at as int, value, l.value_var_name as int, m.name.at as int);
        lemma_heads(mem, m.value_at as int, value, l.value_var_type as int, m.text.at as int);
        lemma_name_read_back(mem, m.name.at, m.name.text);
        lemma_name_read_back(mem, m.text.at, m.text.text);
        lemma_without_spaces(m.text.text);
    }
}

proof fn lemma_metadata(
    mem: Map<int, u8>,
    l: SchemaLayout,
    base: u64,
    list: Seq<MetadataImage>,
    n: int,
)
    requires
        0 <= n <= list.len(),
        base + l.metadata_span * list.len() <= 0x1_0000_0000_0000_0000,
        forall|i: int|
            0 <= i < list.len() ==> metadata_stands(
                mem,
                l,
                base + l.metadata_span * i,
                #[trigger] list[i],
            ),
    ensures
        metadata_in(mem, l, base, n).len() == n,
        forall|i: int|
            0 <= i < n ==> is_metadata(#[trigger] metadata_in(mem, l, base, n)[i], list[i]),
    decreases n,
{
    if n > 0 {
        lemma_metadata(mem, l, base, list, n - 1);
        assert(metadata_stands(mem, l, base + l.metadata_span * (n - 1), list[n - 1]));
        lemma_element_address(base, l.metadata_span, n - 1, list.len() as int);
        lemma_metadata_entry(mem, l, (base + l.metadata_span * (n - 1)) as u64, list[n - 1]);
        let before = metadata_in(mem, l, base, n - 1);
        let now = metadata_in(mem, l, base, n);
        assert forall|i: int| 0 <= i < n implies is_metadata(#[trigger] now[i], list[i]) by {
            if i < n - 1 {
                assert(now[i] == before[i]);
            }
        }
    }
}

/// A class whose record counts `n` metadata entries and points at `n` of their
/// records side by side has exactly these, in their order: a tag that is known
/// by the names of its value, any other by itself.
pub proof fn lemma_metadata_read_back(
    mem: Map<int, u8>,
    l: SchemaLayout,
    class: u64,
    base: u64,
    list: Seq<MetadataImage>,
)
    requires
        readable(mem, class as int, l.class_span as int),
        l.class_metadata_count + 2 <= l.class_span,
        l.class_metadata + 8 <= l.class_span,
        list.len() <= 1024,
        stands16(mem, class + l.class_metadata_count, list.len() as int),
        stands64(mem, class + l.class_metadata, base as int),
        base != 0,
        base + l.metadata_span * list.len() <= 0x1_0000_0000_0000_0000,
        forall|i: int|
            0 <= i < list.len() ==> metadata_stands(
                mem,
                l,
                base + l.metadata_span * i,
                #[trigger] list[i],
            ),
    ensures
        class_metadata_of(mem, l, raw(mem, class as int, l.class_span as nat)).len() == list.len(),
        forall|i: int|
            0 <= i < list.len() ==> is_metadata(
                #[trigger] class_metadata_of(mem, l, raw(mem, class as int, l.class_span as nat))[i],
                list[i],
            ),
{
    let span = l.class_span as nat;
    lemma_heads(mem, class as int, span, l.class_metadata_count as int, list.len() as int);
    lemma_heads(mem, class as int, span, l.class_metadata as int, base as int);
    lemma_metadata(mem, l, base, list, list.len() as int);
}

/// What a class's record says besides its lists.
pub struct ClassImage {
    pub name: NameImage,
    pub size: i32,
    pub alignment: u8,
    pub flags: u32,
    pub flags2: u32,
    pub manipulator: u64,
    /// Its base record with the base class and that one's name; null for none.
    pub bases_at: u64,
    pub base_at: u64,
    pub base_name: NameImage,
}

/// The record of a class stands at `at`, and what it points at where it points.
pub open spec fn class_stands(mem: Map<int, u8>, l: SchemaLayout, at: int, c: ClassImage) -> bool {
    &&& readable(mem, at, l.class_span as int)
    &&& l.class_name + 8 <= l.class_span
    &&& l.class_size + 4 <= l.class_span
    &&& l.class_alignment + 1 <= l.class_span
    &&& l.class_bases + 8 <= l.class_span
    &&& l.class_flags + 4 <= l.class_span
    &&& l.class_flags2 + 4 <= l.class_span
    &&& l.class_manipulator + 8 <= l.class_span
    &&& stands64(mem, at + l.class_name, c.name.at as int)
    &&& name_stands(mem, c.name.at as int, c.name.text)
    &&& stands32(mem, at + l.class_size, c.size as int % 0x1_0000_0000)
    &&& stands8(mem, at + l.class_alignment, c.alignment as int)
    &&& stands32(mem, at + l.class_flags, c.flags as int)
    &&& stands32(mem, at + l.class_flags2, c.flags2 as int)
    &&& stands64(mem, at + l.class_manipulator, c.manipulator as int)
    &&& stands64(mem, at + l.class_bases, c.bases_at as int)
    &&& c.bases_at != 0 ==> {
        &&& l.base_class + 8 <= l.base_span
        &&& readable(mem, c.bases_at as int, l.base_span as int)
        &&& stands64(mem, c.bases_at + l.base_class, c.base_at as int)
        &&& readable(mem, c.base_at as int, l.class_span as int)
        &&& stands64(mem, c.base_at + l.class_name, c.base_name.at as int)
        &&& name_stands(mem, c.base_name.at as int, c.base_name.text)
    }
}

proof fn lemma_parent(mem: Map<int, u8>, l: SchemaLayout, at: u64, c: ClassImage)
    requires
        class_stands(mem, l, at as int, c),
    ensures
        parent_of(mem, l, raw(mem, at as int, l.class_span as nat)) == (if c.bases_at == 0 {
            None
        } else {
            Some(c.base_name.text)
        }),
{
    let span = l.class_span as nat;
    lemma_heads(mem, at as int, span, l.class_bases as int, c.bases_at as int);
    if c.bases_at != 0 {
        lemma_heads(
            mem,
            c.bases_at as int,
            l.base_span as nat,
            l.base_class as int,
            c.base_at as int,
        );
        lemma_heads(mem, c.base_at as int, span, l.class_name as int, c.base_name.at as int);
        lemma_name_read_back(mem, c.base_name.at, c.base_name.text);
    }
}

proof fn lemma_class_numbers(mem: Map<int, u8>, l: SchemaLayout, at: u64, c: ClassImage)
    requires
        class_stands(mem, l, at as int, c),
    ensures
        head64(raw(mem, at as int, l.class_span as nat), l.class_name as int) == c.name.at,
        signed32(
            head32(raw(mem, at as int, l.class_span as nat), l.class_size as int) as int,
        ) == c.size,
        head8(raw(mem, at as int, l.class_span as nat), l.class_alignment as int) == c.alignment,
        head32(raw(mem, at as int, l.class_span as nat), l.class_flags as int) == c.flags,
        head32(raw(mem, at as int, l.class_span as nat), l.class_flags2 as int) == c.flags2,
        head64(raw(mem, at as int, l.class_span as nat), l.class_manipulator as int)
            == c.manipulator,
{
    let span = l.class_span as nat;
    lemma_heads(mem, at as int, span, l.class_name as int, c.name.at as int);
    lemma_heads(mem, at as int, span, l.class_size as int, c.size as int % 0x1_0000_0000);
    lemma_heads(mem, at as int, span, l.class_alignment as int, c.alignment as int);
    lemma_heads(mem, at as int, span, l.class_flags as int, c.flags as int);
    lemma_heads(mem, at as int, span, l.class_flags2 as int, c.flags2 as int);
    lemma_heads(mem, at as int, span, l.class_manipulator as int, c.manipulator as int);
}

/// A class is read back with the name, the size, the alignment, the flags and
/// the base class of its record, and it is of the module that is asked for.
pub proof fn lemma_class_read_back(
    mem: Map<int, u8>,
    l: SchemaLayout,
    at: u64,
    c: ClassImage,
    statics: Option<StaticFieldLayout>,
    module: Seq<char>,
)
    requires
        class_stands(mem, l, at as int, c),
    ensures
        class_at(mem, l, at, statics, module) is Some,
        class_at(mem, l, at, statics, module)->0.name == c.name.text,
        class_at(mem, l, at, statics, module)->0.module_name == module,
        class_at(mem, l, at, statics, module)->0.size == c.size,
        class_at(mem, l, at, statics, module)->0.alignment == c.alignment,
        class_at(mem, l, at, statics, module)->0.parent_name == (if c.bases_at == 0 {
            None
        } else {
            Some(c.base_name.text)
        }),
        class_at(mem, l, at, statics, module)->0.flags == class_labelled(
            c.flags,
            c.flags2,
            c.manipulator != 0,
        ),
        class_at(mem, l, at, statics, module)->0.fields == class_fields_of(
            mem,
            l,
            raw(mem, at as int, l.class_span as nat),
        ),
        class_at(mem, l, at, statics, module)->0.metadata == class_metadata_of(
            mem,
            l,
            raw(mem, at as int, l.class_span as nat),
        ),
        statics is None ==> class_at(mem, l, at, statics, module)->0.static_fields.len() == 0,
        statics is Some ==> class_at(mem, l, at, statics, module)->0.static_fields == fields_of(
            mem,
            at,
            statics->0,
            1024,
        ),
{
    reveal(class_at);
    lemma_class_numbers(mem, l, at, c);
    lemma_name_read_back(mem, c.name.at, c.name.text);
    lemma_parent(mem, l, at, c);
}

/// What an enum member's record says.
pub struct MemberImage {
    pub name: NameImage,
    pub value: i64,
}

/// The record of an enum member stands at `at`.
pub open spec fn member_stands(mem: Map<int, u8>, l: SchemaLayout, at: int, m: MemberImage) -> bool {
    &&& readable(mem, at, l.member_span as int)
    &&& l.member_name + 8 <= l.member_span
    &&& l.member_value + 8 <= l.member_span
    &&& stands64(mem, at + l.member_name, m.name.at as int)
    &&& name_stands(mem, m.name.at as int, m.name.text)
    &&& stands64(mem, at + l.member_value, m.value as int % 0x1_0000_0000_0000_0000)
}

proof fn lemma_members(
    mem: Map<int, u8>,
    l: SchemaLayout,
    base: u64,
    list: Seq<MemberImage>,
    n: int,
)
    requires
        0 <= n <= list.len(),
        base + l.member_span * list.len() <= 0x1_0000_0000_0000_0000,
        forall|i: int|
            0 <= i < list.len() ==> member_stands(
                mem,
                l,
                base + l.member_span * i,
                #[trigger] list[i],
            ),
    ensures
        members_in(mem, l, base, n).len() == n,
        forall|i: int|
            0 <= i < n ==> (#[trigger] members_in(mem, l, base, n)[i]).name == list[i].name.text
                && members_in(mem, l, base, n)[i].value == list[i].value,
    decreases n,
{
    if n > 0 {
        let m = list[n - 1];
        let at = base + l.member_span * (n - 1);
        lemma_members(mem, l, base, list, n - 1);
        assert(member_stands(mem, l, at, m));
        lemma_element_address(base, l.member_span, n - 1, list.len() as int);
        lemma_heads(mem, at, l.member_span as nat, l.member_name as int, m.name.at as int);
        lemma_heads(
            mem,
            at,
            l.member_span as nat,
            l.member_value as int,
            m.value as int % 0x1_0000_0000_0000_0000,
        );
        lemma_name_read_back(mem, m.name.at, m.name.text);
        let before = members_in(mem, l, base, n - 1);
        let now = members_in(mem, l, base, n);
        assert forall|i: int| 0 <= i < n implies (#[trigger] now[i]).name == list[i].name.text
            && now[i].value == list[i].value by {
            if i < n - 1 {
                assert(now[i] == before[i]);
            }
        }
    }
}

/// What an enum's record says.
pub struct EnumImage {
    pub name: NameImage,
    pub alignment: u8,
    pub size: u8,
    pub flags: u8,
    pub members_at: u64,
    pub members: Seq<MemberImage>,
}

/// The record of an enum stands at `at`, and those of its members side by side
/// at their address.
pub open spec fn enum_stands(mem: Map<int, u8>, l: SchemaLayout, at: int, e: EnumImage) -> bool {
    &&& readable(mem, at, l.enum_span as int)
    &&& l.enum_name + 8 <= l.enum_span
    &&& l.enum_alignment + 1 <= l.enum_span
    &&& l.enum_size + 1 <= l.enum_span
    &&& l.enum_flags + 1 <= l.enum_span
    &&& l.enum_count + 2 <= l.enum_span
    &&& l.enum_members + 8 <= l.enum_span
    &&& stands64(mem, at + l.enum_name, e.name.at as int)
    &&& name_stands(mem, e.name.at as int, e.name.text)
    &&& stands8(mem, at + l.enum_alignment, e.alignment as int)
    &&& stands8(mem, at + l.enum_size, e.size as int)
    &&& stands8(mem, at + l.enum_flags, e.flags as int)
    &&& e.members.len() <= 4096
    &&& stands16(mem, at + l.enum_count, e.members.len() as int)
    &&& stands64(mem, at + l.enum_members, e.members_at as int)
    &&& e.members_at != 0
    &&& e.members_at + l.member_span * e.members.len() <= 0x1_0000_0000_0000_0000
    &&& forall|i: int|
        0 <= i < e.members.len() ==> member_stands(
            mem,
            l,
            e.members_at + l.member_span * i,
            #[trigger] e.members[i],
        )
}

/// An enum is read back with the name, the alignment, the size and the flags of
/// its record, and with exactly its members, in their order and with their
/// signed values.
pub proof fn lemma_enum_read_back(mem: Map<int, u8>, l: SchemaLayout, at: u64, e: EnumImage)
    requires
        enum_stands(mem, l, at as int, e),
    ensures
        enum_at(mem, l, at) is Some,
        enum_at(mem, l, at)->0.name == e.name.text,
        enum_at(mem, l, at)->0.alignment == e.alignment,
        enum_at(mem, l, at)->0.size == e.size,
        enum_at(mem, l, at)->0.flags == decoded(e.flags as u32, enum_table()),
        enum_at(mem, l, at)->0.members.len() == e.members.len(),
        forall|i: int|
            0 <= i < e.members.len() ==> (#[trigger] enum_at(mem, l, at)->0.members[i]).name
                == e.members[i].name.text && enum_at(mem, l, at)->0.members[i].value
                == e.members[i].value,
{
    reveal(enum_at);
    let span = l.enum_span as nat;
    lemma_heads(mem, at as int, span, l.enum_name as int, e.name.at as int);
    lemma_heads(mem, at as int, span, l.enum_alignment as int, e.alignment as int);
    lemma_heads(mem, at as int, span, l.enum_size as int, e.size as int);
    lemma_heads(mem, at as int, span, l.enum_flags as int, e.flags as int);
    lemma_heads(mem, at as int, span, l.enum_count as int, e.members.len() as int);
    lemma_heads(mem, at as int, span, l.enum_members as int, e.members_at as int);
    lemma_name_read_back(mem, e.name.at, e.name.text);
    lemma_members(mem, l, e.members_at, e.members, e.members.len() as int);
}

/// A count is kept within its bounds, and is itself where it lies in them.
pub proof fn lemma_bounded(count: int, cap: usize)
    ensures
        0 <= bounded(count, cap) <= cap,
        0 <= count <= cap ==> bounded(count, cap) == count,
        count < 0 ==> bounded(count, cap) == 0,
        count > cap ==> bounded(count, cap) == cap,
{
}

/// The classes of a list of bindings are read back, in the order of the list.
pub proof fn lemma_classes_listed(
    mem: Map<int, u8>,
    l: SchemaLayout,
    bindings: Seq<u64>,
    n: nat,
    statics: Option<StaticFieldLayout>,
    module: Seq<char>,
    list: Seq<ClassImage>,
)
    requires
        n <= bindings.len(),
        list.len() == bindings.len(),
        forall|i: int|
            0 <= i < bindings.len() ==> class_stands(
                mem,
                l,
                bindings[i] as int,
                #[trigger] list[i],
            ),
    ensures
        classes_at(mem, l, bindings, n, statics, module).len() == n,
        forall|i: int|
            0 <= i < n ==> ({
                let class = #[trigger] classes_at(mem, l, bindings, n, statics, module)[i];
                &&& class.name == list[i].name.text
                &&& class.module_name == module
                &&& class.size == list[i].size
                &&& Some(class) == class_at(mem, l, bindings[i], statics, module)
            }),
    decreases n,
{
    if n > 0 {
        lemma_classes_listed(mem, l, bindings, (n - 1) as nat, statics, module, list);
        assert(class_stands(mem, l, bindings[n - 1] as int, list[n - 1]));
        lemma_class_read_back(mem, l, bindings[n - 1], list[n - 1], statics, module);
        let before = classes_at(mem, l, bindings, (n - 1) as nat, statics, module);
        let now = classes_at(mem, l, bindings, n, statics, module);
        assert forall|i: int| 0 <= i < n implies ({
            let class = #[trigger] now[i];
            &&& class.name == list[i].name.text
            &&& class.module_name == module
            &&& class.size == list[i].size
            &&& Some(class) == class_at(mem, l, bindings[i], statics, module)
        }) by {
            if i < n - 1 {
                assert(now[i] == before[i]);
            }
        }
    }
}

/// The enums of a list of bindings are read back, in the order of the list.
pub proof fn lemma_enums_listed(
    mem: Map<int, u8>,
    l: SchemaLayout,
    bindings: Seq<u64>,
    n: nat,
    list: Seq<EnumImage>,
)
    requires
        n <= bindings.len(),
        list.len() == bindings.len(),
        forall|i: int|
            0 <= i < bindings.len() ==> enum_stands(mem, l, bindings[i] as int, #[trigger] list[i]),
    ensures
        enums_at(mem, l, bindings, n).len() == n,
        forall|i: int|
            0 <= i < n ==> ({
                let e = #[trigger] enums_at(mem, l, bindings, n)[i];
                &&& e.name == list[i].name.text
                &&& Some(e) == enum_at(mem, l, bindings[i])
            }),
    decreases n,
{
    if n > 0 {
        lemma_enums_listed(mem, l, bindings, (n - 1) as nat, list);
        assert(enum_stands(mem, l, bindings[n - 1] as int, list[n - 1]));
        lemma_enum_read_back(mem, l, bindings[n - 1], list[n - 1]);
        let before = enums_at(mem, l, bindings, (n - 1) as nat);
        let now = enums_at(mem, l, bindings, n);
        assert forall|i: int| 0 <= i < n implies ({
            let e = #[trigger] now[i];
            &&& e.name == list[i].name.text
            &&& Some(e) == enum_at(mem, l, bindings[i])
        }) by {
            if i < n - 1 {
                assert(now[i] == before[i]);
            }
        }
    }
}

/// What a scope holds: the classes and the enums of its bindings.
pub open spec fn holds_of(
    mem: Map<int, u8>,
    l: SchemaLayout,
    scope: RawTypeScope,
    statics: Option<StaticFieldLayout>,
) -> ScopeModel {
    ScopeModel {
        module_name: scope.module_name@,
        classes: classes_at(
            mem,
            l,
            scope.class_bindings@,
            scope.class_bindings@.len(),
            statics,
            scope.module_name@,
        ),
        enums: enums_at(mem, l, scope.enum_bindings@, scope.enum_bindings@.len()),
    }
}

/// The scopes that hold a class or an enum are kept, in their order, and no others.
pub proof fn lemma_scopes_kept(
    mem: Map<int, u8>,
    l: SchemaLayout,
    scopes: Seq<RawTypeScope>,
    n: nat,
    statics: Option<StaticFieldLayout>,
)
    requires
        n <= scopes.len(),
    ensures
        scopes_in(mem, l, scopes, n, statics) == scopes.subrange(0, n as int).map_values(
            |scope: RawTypeScope| holds_of(mem, l, scope, statics),
        ).filter(|held: ScopeModel| held.classes.len() > 0 || held.enums.len() > 0),
    decreases n,
{
    let held = |scope: RawTypeScope| holds_of(mem, l, scope, statics);
    let kept = |held: ScopeModel| held.classes.len() > 0 || held.enums.len() > 0;
    reveal(Seq::filter);
    let all = scopes.subrange(0, n as int).map_values(held);
    if n > 0 {
        lemma_scopes_kept(mem, l, scopes, (n - 1) as nat, statics);
        assert(all.drop_last() =~= scopes.subrange(0, n - 1).map_values(held));
        assert(all.last() == holds_of(mem, l, scopes[n - 1], statics));
    } else {
        assert(all =~= Seq::<ScopeModel>::empty());
    }
}

/// A module has the classes and enums of the last scope of its name, and modules
/// without a scope have none.
pub proof fn lemma_last_scope_counts(scopes: Seq<TypeScope>, n: nat, k: int, name: Seq<char>)
    requires
        n <= scopes.len(),
    ensures
        0 <= k < n && scopes[k].module_name@ == name && (forall|j: int|
            k < j < n ==> (#[trigger] scopes[j]).module_name@ != name) ==> scope_map(
            scopes,
            n,
        ).contains_key(name) && scope_map(scopes, n)[name] == (scopes[k].classes, scopes[k].enums),
        (forall|j: int| 0 <= j < n ==> (#[trigger] scopes[j]).module_name@ != name) ==> !scope_map(
            scopes,
            n,
        ).contains_key(name),
    decreases n,
{
    if n > 0 {
        lemma_last_scope_counts(scopes, (n - 1) as nat, k, name);
        assert(scopes[n - 1].module_name@ == name || scopes[n - 1].module_name@ != name);
    }
}

/// The place of static fields is looked for in the first 512 class bindings, in the
/// order of the scopes.
pub proof fn lemma_sample(scopes: Seq<RawTypeScope>)
    ensures
        sample_of(scopes).is_prefix_of(bindings_of(scopes, scopes.len())),
        sample_of(scopes).len() == if bindings_of(scopes, scopes.len()).len() < 512 {
            bindings_of(scopes, scopes.len()).len() as int
        } else {
            512
        },
{
    let all = bindings_of(scopes, scopes.len());
    assert(all.subrange(0, all.len() as int) =~= all);
}

/// The class bindings of scopes are those of each, one scope after the other.
pub proof fn lemma_bindings_joined(scopes: Seq<RawTypeScope>, n: nat)
    requires
        n <= scopes.len(),
    ensures
        bindings_of(scopes, n) == Seq::new(
            n,
            |i: int| scopes[i].class_bindings@,
        ).flatten_alt(),
    decreases n,
{
    let parts = Seq::new(n, |i: int| scopes[i].class_bindings@);
    if n > 0 {
        lemma_bindings_joined(scopes, (n - 1) as nat);
        assert(parts.drop_last() =~= Seq::new(
            (n - 1) as nat,
            |i: int| scopes[i].class_bindings@,
        ));
        assert(parts.last() == scopes[n - 1].class_bindings@);
    } else {
        assert(parts =~= Seq::<Seq<u64>>::empty());
    }
}

/// A class or an enum without a name is none.
pub proof fn lemma_nameless(
    mem: Map<int, u8>,
    l: SchemaLayout,
    at: u64,
    statics: Option<StaticFieldLayout>,
    module: Seq<char>,
)
    ensures
        readable(mem, at as int, l.class_span as int) && l.class_name + 8 <= l.class_span
            && stands64(mem, at + l.class_name, 0) ==> class_at(
            mem,
            l,
            at,
            statics,
            module,
        ) is None,
        readable(mem, at as int, l.enum_span as int) && l.enum_name + 8 <= l.enum_span && stands64(
            mem,
            at + l.enum_name,
            0,
        ) ==> enum_at(mem, l, at) is None,
{
    reveal(class_at);
    reveal(enum_at);
    if readable(mem, at as int, l.class_span as int) {
        lemma_heads(mem, at as int, l.class_span as nat, l.class_name as int, 0);
    }
    if readable(mem, at as int, l.enum_span as int) {
        lemma_heads(mem, at as int, l.enum_span as nat, l.enum_name as int, 0);
    }
}

} // verus!
