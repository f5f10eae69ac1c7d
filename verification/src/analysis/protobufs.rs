//! Recovers the in-memory layout of protobuf messages from the reflection
//! tables that generated code carries.
//!
//! For each generated file the image holds a descriptor table:
//! ```text
//!   +0x04 i32   descriptor size
//!   +0x08 ptr   serialized FileDescriptorProto  (starts `0A <len> "<name>.proto"`)
//!   +0x10 ptr   file name
//!   +0x2C i32   number of messages
//!   +0x30 ptr   schemas[]   (16 bytes each)
//!   +0x40 ptr   offsets[]   (u32 each)
//! ```
//! A schema is `{ i32 offsets_index, i32 has_bit_index, i32 _, u32 object_size }`.
//! A message's offsets are a header of six entries, whose first is the offset
//! of the has-bits, then the fields' offsets. These and the has-bit indices are
//! in declaration order, which is the order in which the serialized descriptor
//! lists the fields, so fields are never sorted here.

use crate::analysis::global_anchor::lemma_joined;
use crate::analysis::module_data::{find_image, image_at, lemma_image_unique, ModuleImage};
use crate::analysis::read::{i32_le_at, le4, le8, signed32, u32_le_at, u64_le_at};
use crate::analysis::wire::{
    contents, digits, fields_with, for_each_field, is_absent, is_item, is_varint, items_of,
    last_field, last_payload, lemma_absent, lemma_last_counts, lemma_message_round_trip,
    lemma_number_read_back, lemma_payloads, lemma_varint, message_bytes, payloads, pow128,
    read_varint, stands_last, varint, varint_bytes, varint_of, varint_value, wire_items, WireField,
    WireItem,
};
use crate::memory::fake::{bytes4, bytes8, lemma_bytes_round_trip};
use crate::strmap::StrMap;
use crate::text::{
    bytes_stand_at, chars_of, from_utf8_lossy, lemma_lossy_text, lossy_text, stands_at,
};
use vstd::prelude::*;
use vstd::slice::*;
use vstd::string::*;
use vstd::utf8::*;

verus! {

/// Entries before the field offsets of a message.
pub const HEADER_ENTRIES: usize = 6;

pub const MAX_PROTO_MESSAGES: usize = 4096;

pub const MAX_PROTO_FIELDS: usize = 65_536;

pub const MAX_PROTO_ONEOFS: usize = 65_536;

pub const MAX_PROTO_NESTING: usize = 64;

/// A field as a descriptor declares it.
#[derive(Debug)]
pub struct PField {
    pub name: String,
    pub number: i64,
    pub label: i64,
    pub ty: i64,
    pub message_type: String,
    pub oneof_index: Option<i32>,
    pub oneof: Option<String>,
}

/// A message as a descriptor declares it, under its flattened name.
#[derive(Debug)]
pub struct PMessage {
    pub name: String,
    pub map_entry: bool,
    pub fields: Vec<PField>,
}

#[verifier::ext_equal]
pub struct PFieldModel {
    pub name: Seq<char>,
    pub number: i64,
    pub label: i64,
    pub ty: i64,
    pub message_type: Seq<char>,
    pub oneof_index: Option<i32>,
    pub oneof: Option<Seq<char>>,
}

#[verifier::ext_equal]
pub struct PMessageModel {
    pub name: Seq<char>,
    pub map_entry: bool,
    pub fields: Seq<PFieldModel>,
}

/// The text of an optional string.
pub open spec fn text_opt(text: Option<String>) -> Option<Seq<char>> {
    match text {
        Some(t) => Some(t@),
        None => None,
    }
}

impl PField {
    pub open spec fn model(&self) -> PFieldModel {
        PFieldModel {
            name: self.name@,
            number: self.number,
            label: self.label,
            ty: self.ty,
            message_type: self.message_type@,
            oneof_index: self.oneof_index,
            oneof: text_opt(self.oneof),
        }
    }
}

pub open spec fn pfield_models(fields: Seq<PField>) -> Seq<PFieldModel> {
    Seq::new(fields.len(), |i: int| fields[i].model())
}

impl PMessage {
    pub open spec fn model(&self) -> PMessageModel {
        PMessageModel {
            name: self.name@,
            map_entry: self.map_entry,
            fields: pfield_models(self.fields@),
        }
    }
}

pub open spec fn pmessage_models(messages: Seq<PMessage>) -> Seq<PMessageModel> {
    Seq::new(messages.len(), |i: int| messages[i].model())
}

/// The first `n` of a list.
pub open spec fn capped<T>(list: Seq<T>, n: int) -> Seq<T> {
    if list.len() <= n {
        list
    } else {
        list.subrange(0, n)
    }
}

/// The text of a message's field `number`; empty where it has none.
pub open spec fn text_field(items: Seq<WireItem>, number: u64) -> Seq<char> {
    match last_payload(items, number, 2) {
        Some(payload) => lossy_text(payload),
        None => Seq::empty(),
    }
}

/// The number in a message's field `number`; zero where it has none.
pub open spec fn number_field(items: Seq<WireItem>, number: u64) -> i64 {
    match last_payload(items, number, 0) {
        Some(payload) => varint_value(payload),
        None => 0,
    }
}

/// The field that a `FieldDescriptorProto` declares: 1 is its name, 3 its
/// number, 4 its label, 5 its type, 6 its type's name and 9 the index of its
/// oneof. An index that does not fit 32 bits is none.
pub open spec fn field_model(buf: Seq<u8>) -> PFieldModel {
    let items = wire_items(buf, 0);
    let index = number_field(items, 9);
    PFieldModel {
        name: text_field(items, 1),
        number: number_field(items, 3),
        label: number_field(items, 4),
        ty: number_field(items, 5),
        message_type: text_field(items, 6),
        oneof_index: if last_payload(items, 9, 0) is Some && i32::MIN <= index <= i32::MAX {
            Some(index as i32)
        } else {
            None
        },
        oneof: None,
    }
}

fn text_of(fields: &Vec<WireField<'_>>, number: u64) -> (text: String)
    ensures
        text@ == text_field(items_of(fields@), number),
{
    match last_field(fields, number, 2) {
        Some(payload) => from_utf8_lossy(payload),
        None => String::new(),
    }
}

fn number_of(fields: &Vec<WireField<'_>>, number: u64) -> (value: i64)
    ensures
        value == number_field(items_of(fields@), number),
{
    match last_field(fields, number, 0) {
        Some(payload) => varint_of(payload),
        None => 0,
    }
}

/// Reads a `FieldDescriptorProto`.
pub fn parse_field_descriptor(buf: &[u8]) -> (field: PField)
    ensures
        field.model() == field_model(buf@),
{
    let fields = for_each_field(buf);
    let index: i64 = number_of(&fields, 9);
    let oneof_index = match last_field(&fields, 9, 0) {
        Some(_) => if -0x8000_0000 <= index && index <= 0x7FFF_FFFF {
            Some(index as i32)
        } else {
            None
        },
        None => None,
    };
    PField {
        name: text_of(&fields, 1),
        number: number_of(&fields, 3),
        label: number_of(&fields, 4),
        ty: number_of(&fields, 5),
        message_type: text_of(&fields, 6),
        oneof_index,
        oneof: None,
    }
}

/// The names of a message's oneofs, in order.
pub open spec fn oneof_names(items: Seq<WireItem>) -> Seq<Seq<char>> {
    let list = capped(payloads(items, 8, 2), MAX_PROTO_ONEOFS as int);
    Seq::new(list.len(), |i: int| text_field(wire_items(list[i], 0), 1))
}

/// The oneof that an index names, if it has a name.
pub open spec fn oneof_named(names: Seq<Seq<char>>, index: Option<i32>) -> Option<Seq<char>> {
    match index {
        Some(i) => if 0 <= i < names.len() && names[i as int].len() > 0 {
            Some(names[i as int])
        } else {
            None
        },
        None => None,
    }
}

/// The declared fields of a message, in declaration order.
pub open spec fn declared_fields(items: Seq<WireItem>) -> Seq<PFieldModel> {
    let list = capped(payloads(items, 2, 2), MAX_PROTO_FIELDS as int);
    let names = oneof_names(items);
    Seq::new(
        list.len(),
        |i: int|
            PFieldModel {
                oneof: oneof_named(names, field_model(list[i]).oneof_index),
                ..field_model(list[i])
            },
    )
}

/// Whether a message's options mark it as a map entry: the last options field
/// that says so decides.
pub open spec fn map_entry_flag(items: Seq<WireItem>) -> bool
    decreases items.len(),
{
    if items.len() == 0 {
        false
    } else {
        let last = items.last();
        let said = last_payload(wire_items(last.payload, 0), 7, 0);
        if last.number == 7 && last.wire == 2 && said is Some {
            varint_value(said->0) != 0
        } else {
            map_entry_flag(items.drop_last())
        }
    }
}

/// A nested message's name is qualified with that of its parent.
pub open spec fn qualified(prefix: Seq<char>, name: Seq<char>) -> Seq<char> {
    if prefix.len() == 0 {
        name
    } else {
        prefix + "_"@ + name
    }
}

/// The message that a `DescriptorProto` declares, without those nested in it.
pub open spec fn message_model(buf: Seq<u8>, prefix: Seq<char>) -> PMessageModel {
    let items = wire_items(buf, 0);
    PMessageModel {
        name: qualified(prefix, text_field(items, 1)),
        map_entry: map_entry_flag(items),
        fields: declared_fields(items),
    }
}

/// A message followed by those nested in it, in pre-order: at most `room`
/// messages, and none below the nesting limit.
pub open spec fn flatten(buf: Seq<u8>, prefix: Seq<char>, depth: nat, room: int) -> Seq<
    PMessageModel,
>
    decreases MAX_PROTO_NESTING + 2 - depth, 0nat,
{
    if depth > MAX_PROTO_NESTING || room <= 0 {
        Seq::empty()
    } else {
        let own = message_model(buf, prefix);
        let nested = capped(payloads(wire_items(buf, 0), 3, 2), MAX_PROTO_MESSAGES as int);
        seq![own] + flatten_all(nested, own.name, depth + 1, room - 1)
    }
}

/// Several messages, each followed by those nested in it.
pub open spec fn flatten_all(
    list: Seq<Seq<u8>>,
    prefix: Seq<char>,
    depth: nat,
    room: int,
) -> Seq<PMessageModel>
    decreases MAX_PROTO_NESTING + 2 - depth, list.len() + 1,
{
    if list.len() == 0 || room <= 0 {
        Seq::empty()
    } else {
        let first = flatten(list[0], prefix, depth, room);
        first + flatten_all(list.drop_first(), prefix, depth, room - first.len())
    }
}

/// However deep or wide the descriptor, no more than `room` messages come out.
pub proof fn lemma_flatten_bounded(buf: Seq<u8>, prefix: Seq<char>, depth: nat, room: int)
    requires
        0 <= room,
    ensures
        flatten(buf, prefix, depth, room).len() <= room,
    decreases MAX_PROTO_NESTING + 2 - depth, 0nat,
{
    if depth <= MAX_PROTO_NESTING && room > 0 {
        let own = message_model(buf, prefix);
        let nested = capped(payloads(wire_items(buf, 0), 3, 2), MAX_PROTO_MESSAGES as int);
        lemma_flatten_all_bounded(nested, own.name, depth + 1, room - 1);
    }
}

pub proof fn lemma_flatten_all_bounded(
    list: Seq<Seq<u8>>,
    prefix: Seq<char>,
    depth: nat,
    room: int,
)
    requires
        0 <= room,
    ensures
        flatten_all(list, prefix, depth, room).len() <= room,
    decreases MAX_PROTO_NESTING + 2 - depth, list.len() + 1,
{
    if list.len() > 0 && room > 0 {
        lemma_flatten_bounded(list[0], prefix, depth, room);
        let first = flatten(list[0], prefix, depth, room);
        lemma_flatten_all_bounded(list.drop_first(), prefix, depth, room - first.len());
    }
}

/// The fields of a message stand in the order in which its descriptor lists
/// them, whatever their numbers.
pub proof fn lemma_declaration_order(buf: Seq<u8>, prefix: Seq<char>, i: int)
    requires
        0 <= i < message_model(buf, prefix).fields.len(),
    ensures
        message_model(buf, prefix).fields[i].name == field_model(
            payloads(wire_items(buf, 0), 2, 2)[i],
        ).name,
        message_model(buf, prefix).fields[i].number == field_model(
            payloads(wire_items(buf, 0), 2, 2)[i],
        ).number,
{
}

fn read_oneof_names(fields: &Vec<WireField<'_>>) -> (names: Vec<String>)
    ensures
        names@.len() == oneof_names(items_of(fields@)).len(),
        forall|i: int|
            0 <= i < names@.len() ==> (#[trigger] names@[i])@ == oneof_names(
                items_of(fields@),
            )[i],
{
    let list = fields_with(fields, 8, 2);
    let ghost want = oneof_names(items_of(fields@));
    let mut names: Vec<String> = Vec::new();
    let mut i: usize = 0;
    assert(forall|k: int| 0 <= k < list@.len() ==> contents(list@)[k] == list@[k]@);
    while i < list.len() && i < MAX_PROTO_ONEOFS
        invariant
            i <= list@.len(),
            i <= MAX_PROTO_ONEOFS,
            names@.len() == i,
            want == oneof_names(items_of(fields@)),
            contents(list@) == payloads(items_of(fields@), 8, 2),
            forall|k: int| 0 <= k < i ==> (#[trigger] names@[k])@ == want[k],
        decreases list@.len() - i,
    {
        let inner = for_each_field(list[i]);
        let name = text_of(&inner, 1);
        assert(contents(list@)[i as int] == list@[i as int]@);
        names.push(name);
        i = i + 1;
    }
    names
}

fn pick_oneof(names: &Vec<String>, index: Option<i32>, Ghost(texts): Ghost<Seq<Seq<char>>>) -> (name:
    Option<String>)
    requires
        texts.len() == names@.len(),
        forall|i: int| 0 <= i < names@.len() ==> (#[trigger] names@[i])@ == texts[i],
    ensures
        text_opt(name) == oneof_named(texts, index),
{
    match index {
        Some(i) => {
            if i < 0 || i as usize >= names.len() {
                return None;
            }
            let name = &names[i as usize];
            if name.as_str().is_empty() {
                None
            } else {
                Some(name.clone())
            }
        },
        None => None,
    }
}

fn read_declared_fields(fields: &Vec<WireField<'_>>) -> (declared: Vec<PField>)
    ensures
        pfield_models(declared@) == declared_fields(items_of(fields@)),
{
    let names = read_oneof_names(fields);
    let ghost texts = oneof_names(items_of(fields@));
    let list = fields_with(fields, 2, 2);
    let ghost want = declared_fields(items_of(fields@));
    let mut out: Vec<PField> = Vec::new();
    let mut i: usize = 0;
    assert(pfield_models(out@) =~= want.subrange(0, 0));
    while i < list.len() && i < MAX_PROTO_FIELDS
        invariant
            i <= list@.len(),
            i <= MAX_PROTO_FIELDS,
            texts == oneof_names(items_of(fields@)),
            texts.len() == names@.len(),
            forall|k: int| 0 <= k < names@.len() ==> (#[trigger] names@[k])@ == texts[k],
            want == declared_fields(items_of(fields@)),
            want.len() == capped(contents(list@), MAX_PROTO_FIELDS as int).len(),
            contents(list@) == payloads(items_of(fields@), 2, 2),
            pfield_models(out@) == want.subrange(0, i as int),
        decreases list@.len() - i,
    {
        let ghost done = pfield_models(out@);
        assert(contents(list@)[i as int] == list@[i as int]@);
        let mut field = parse_field_descriptor(list[i]);
        field.oneof = pick_oneof(&names, field.oneof_index, Ghost(texts));
        assert(field.model() == want[i as int]);
        let ghost model = field.model();
        out.push(field);
        assert(pfield_models(out@) =~= done.push(model));
        i = i + 1;
        assert(done.push(model) =~= want.subrange(0, i as int));
    }
    assert(want.subrange(0, i as int) =~= want);
    out
}

fn read_map_entry(fields: &Vec<WireField<'_>>) -> (flag: bool)
    ensures
        flag == map_entry_flag(items_of(fields@)),
{
    let ghost items = items_of(fields@);
    let mut i: usize = fields.len();
    assert(items.subrange(0, i as int) =~= items);
    while i > 0
        invariant
            i <= fields@.len(),
            items == items_of(fields@),
            map_entry_flag(items) == map_entry_flag(items.subrange(0, i as int)),
        decreases i,
    {
        i = i - 1;
        let ghost head = items.subrange(0, i + 1);
        assert(head.last() == items[i as int]);
        assert(head.drop_last() =~= items.subrange(0, i as int));
        if fields[i].number == 7 && fields[i].wire == 2 {
            let inner = for_each_field(fields[i].payload);
            match last_field(&inner, 7, 0) {
                Some(payload) => {
                    return varint_of(payload) != 0;
                },
                None => {},
            }
        }
    }
    false
}

/// How many more messages fit.
pub open spec fn room_left(taken: nat) -> int {
    MAX_PROTO_MESSAGES - taken
}

/// Reads a `DescriptorProto` and appends the message and those nested in it,
/// in pre-order, which is how generated code numbers them. A nested message is
/// named `Parent_Nested`.
pub fn parse_descriptor_proto(buf: &[u8], prefix: &str, depth: usize, out: &mut Vec<PMessage>)
    ensures
        pmessage_models(final(out)@) == pmessage_models(old(out)@) + flatten(
            buf@,
            prefix@,
            depth as nat,
            room_left(old(out)@.len()),
        ),
    decreases MAX_PROTO_NESTING + 2 - depth,
{
    let ghost before = pmessage_models(out@);
    if depth > MAX_PROTO_NESTING || out.len() >= MAX_PROTO_MESSAGES {
        assert(before + Seq::<PMessageModel>::empty() =~= before);
        return;
    }
    let fields = for_each_field(buf);
    let name = text_of(&fields, 1);
    let full = if prefix.is_empty() {
        name
    } else {
        let mut joined = prefix.to_owned();
        joined.append("_");
        joined.append(name.as_str());
        joined
    };
    let declared = read_declared_fields(&fields);
    let map_entry = read_map_entry(&fields);
    let message = PMessage { name: full.clone(), map_entry, fields: declared };
    let ghost own = message.model();
    assert(own =~= message_model(buf@, prefix@));
    out.push(message);
    assert(pmessage_models(out@) =~= before.push(own));
    let nested = fields_with(&fields, 3, 2);
    let ghost all = contents(nested@);
    let ghost list = capped(all, MAX_PROTO_MESSAGES as int);
    let ghost room = room_left(before.len());
    let ghost want = before + flatten(buf@, prefix@, depth as nat, room);
    let mut i: usize = 0;
    assert(list.subrange(0, list.len() as int) =~= list);
    assert(want =~= before.push(own) + flatten_all(list, own.name, (depth + 1) as nat, room - 1));
    assert(list.subrange(0 as int, list.len() as int) =~= list);
    while i < nested.len() && i < MAX_PROTO_MESSAGES && out.len() < MAX_PROTO_MESSAGES
        invariant
            depth <= MAX_PROTO_NESTING,
            i <= nested@.len(),
            i <= MAX_PROTO_MESSAGES,
            all == contents(nested@),
            list == capped(all, MAX_PROTO_MESSAGES as int),
            i <= list.len(),
            own.name == full@,
            want == pmessage_models(out@) + flatten_all(
                list.subrange(i as int, list.len() as int),
                own.name,
                (depth + 1) as nat,
                room_left(out@.len()),
            ),
        decreases nested@.len() - i,
    {
        let ghost tail = list.subrange(i as int, list.len() as int);
        let ghost so_far = pmessage_models(out@);
        let ghost first = flatten(tail[0], own.name, (depth + 1) as nat, room_left(out@.len()));
        assert(tail[0] == nested@[i as int]@) by {
            assert(all[i as int] == nested@[i as int]@);
        }
        assert(tail.drop_first() =~= list.subrange(i + 1, list.len() as int));
        parse_descriptor_proto(nested[i], full.as_str(), depth + 1, out);
        i = i + 1;
        assert(pmessage_models(out@) == so_far + first);
        assert(pmessage_models(out@).len() == so_far.len() + first.len());
        assert(out@.len() == so_far.len() + first.len());
        assert(so_far + (first + flatten_all(
            tail.drop_first(),
            own.name,
            (depth + 1) as nat,
            room_left(so_far.len()) - first.len(),
        )) =~= so_far + first + flatten_all(
            tail.drop_first(),
            own.name,
            (depth + 1) as nat,
            room_left(out@.len()),
        ));
    }
    assert(pmessage_models(out@) + Seq::<PMessageModel>::empty() =~= pmessage_models(out@));
}

/// The messages of a `FileDescriptorProto`, whose field 4 lists them.
pub open spec fn file_messages(buf: Seq<u8>) -> Seq<PMessageModel> {
    flatten_all(
        payloads(wire_items(buf, 0), 4, 2),
        Seq::empty(),
        0,
        MAX_PROTO_MESSAGES as int,
    )
}

/// Reads a `FileDescriptorProto`.
pub fn parse_file_descriptor(buf: &[u8]) -> (messages: Vec<PMessage>)
    ensures
        pmessage_models(messages@) == file_messages(buf@),
        messages@.len() <= MAX_PROTO_MESSAGES,
{
    let fields = for_each_field(buf);
    let list = fields_with(&fields, 4, 2);
    let ghost all = contents(list@);
    let mut out: Vec<PMessage> = Vec::new();
    let mut i: usize = 0;
    proof {
        reveal_strlit("");
        assert(""@ =~= Seq::<char>::empty());
        lemma_flatten_all_bounded(all, Seq::empty(), 0, MAX_PROTO_MESSAGES as int);
    }
    assert(all.subrange(0, all.len() as int) =~= all);
    assert(file_messages(buf@) =~= pmessage_models(out@) + file_messages(buf@));
    while i < list.len()
        invariant
            i <= list@.len(),
            all == contents(list@),
            ""@ == Seq::<char>::empty(),
            file_messages(buf@) == pmessage_models(out@) + flatten_all(
                all.subrange(i as int, all.len() as int),
                Seq::empty(),
                0,
                room_left(out@.len()),
            ),
        decreases list@.len() - i,
    {
        let ghost tail = all.subrange(i as int, all.len() as int);
        let ghost so_far = pmessage_models(out@);
        let ghost room = room_left(out@.len());
        let ghost first = flatten(tail[0], Seq::empty(), 0, room);
        assert(tail[0] == list@[i as int]@) by {
            assert(all[i as int] == list@[i as int]@);
        }
        assert(tail.drop_first() =~= all.subrange(i + 1, all.len() as int));
        parse_descriptor_proto(list[i], "", 0, &mut out);
        i = i + 1;
        proof {
            if room <= 0 {
                assert(first.len() == 0);
                assert(so_far + first =~= so_far);
            } else {
                assert(so_far + (first + flatten_all(
                    tail.drop_first(),
                    Seq::empty(),
                    0,
                    room - first.len(),
                )) =~= so_far + first + flatten_all(
                    tail.drop_first(),
                    Seq::empty(),
                    0,
                    room_left(out@.len()),
                ));
            }
        }
    }
    assert(pmessage_models(out@) + Seq::<PMessageModel>::empty() =~= pmessage_models(out@));
    out
}

/// How many of the leading characters are dots.
pub open spec fn leading_dots(name: Seq<char>) -> int
    decreases name.len(),
{
    if name.len() > 0 && name[0] == '.' {
        1 + leading_dots(name.drop_first())
    } else {
        0
    }
}

/// A qualified type name in the form of a flattened one: without leading dots,
/// and with `_` for each of the others.
pub open spec fn flattened(name: Seq<char>) -> Seq<char> {
    let from = leading_dots(name);
    Seq::new(
        (name.len() - from) as nat,
        |i: int|
            if name[from + i] == '.' {
                '_'
            } else {
                name[from + i]
            },
    )
}

/// A field's type names the message: it is the message's flattened name, or
/// ends with it behind a `_`.
pub open spec fn names_type(field_type: Seq<char>, message: Seq<char>) -> bool {
    let full = flattened(field_type);
    let at = full.len() - message.len();
    ||| full == message
    ||| at > 0 && full.subrange(at, full.len() as int) == message && full[at - 1] == '_'
}

proof fn lemma_leading_dots(name: Seq<char>, n: int)
    requires
        0 <= n <= name.len(),
        forall|i: int| 0 <= i < n ==> name[i] == '.',
        n < name.len() ==> name[n] != '.',
    ensures
        leading_dots(name) == n,
    decreases n,
{
    if n > 0 {
        lemma_leading_dots(name.drop_first(), n - 1);
    }
}

/// Whether a field's type names the message.
pub fn type_name_matches(field_type: &str, message: &str) -> (matches: bool)
    ensures
        matches == names_type(field_type@, message@),
{
    let name = chars_of(field_type);
    let want = chars_of(message);
    let size: usize = name.len();
    let mut from: usize = 0;
    while from < size && name[from] == '.'
        invariant
            size == name@.len(),
            from <= size,
            forall|i: int| 0 <= i < from ==> name@[i] == '.',
        decreases size - from,
    {
        from = from + 1;
    }
    let ghost full = flattened(field_type@);
    proof {
        lemma_leading_dots(name@, from as int);
    }
    let rest: usize = size - from;
    if want.len() > rest {
        return false;
    }
    let skip: usize = rest - want.len();
    let mut i: usize = 0;
    while i < want.len()
        invariant
            name@ == field_type@,
            want@ == message@,
            size == name@.len(),
            from == leading_dots(name@),
            from <= size,
            rest == size - from,
            skip + want@.len() == rest,
            full == flattened(field_type@),
            full.len() == rest,
            i <= want@.len(),
            forall|k: int| 0 <= k < i ==> full[skip + k] == want@[k],
        decreases want@.len() - i,
    {
        let c: char = name[from + skip + i];
        let d: char = if c == '.' {
            '_'
        } else {
            c
        };
        assert(full[skip + i] == d);
        if d != want[i] {
            assert(skip == 0 ==> full[i as int] != want@[i as int]);
            assert(full.subrange(skip as int, full.len() as int)[i as int] == d);
            return false;
        }
        i = i + 1;
    }
    assert(full.subrange(skip as int, full.len() as int) =~= want@);
    if skip == 0 {
        assert(full =~= want@);
        return true;
    }
    let c: char = name[from + skip - 1];
    assert(full[skip - 1] == (if c == '.' {
        '_'
    } else {
        c
    }));
    c == '.' || c == '_'
}

/// A field of a message with its place in memory.
#[derive(Debug)]
pub struct ProtoField {
    pub name: String,
    pub number: i64,
    pub offset: u32,
    pub has_bit: Option<u32>,
    /// 1 is optional, 2 required, 3 repeated.
    pub label: i64,
    /// The type as `FieldDescriptorProto` numbers it.
    pub ty: i64,
    /// The message or enum that the field holds, where it holds one.
    pub message_type: String,
    /// A repeated field whose messages are map entries.
    pub is_map: bool,
    /// The oneof that the field belongs to.
    pub oneof: Option<String>,
}

/// A message with its layout in memory.
#[derive(Debug)]
pub struct ProtoMessage {
    pub name: String,
    pub size: u32,
    pub has_bits_offset: Option<u32>,
    /// A message that the compiler generated for the entries of a map.
    pub map_entry: bool,
    pub fields: Vec<ProtoField>,
}

#[verifier::ext_equal]
pub struct ProtoFieldModel {
    pub declared: PFieldModel,
    pub offset: u32,
    pub has_bit: Option<u32>,
    pub is_map: bool,
}

#[verifier::ext_equal]
pub struct ProtoMessageModel {
    pub name: Seq<char>,
    pub size: u32,
    pub has_bits_offset: Option<u32>,
    pub map_entry: bool,
    pub fields: Seq<ProtoFieldModel>,
}

impl ProtoField {
    /// The field is what `model` says, whose oneof index is not kept.
    pub open spec fn is(&self, model: ProtoFieldModel) -> bool {
        &&& self.name@ == model.declared.name
        &&& self.number == model.declared.number
        &&& self.label == model.declared.label
        &&& self.ty == model.declared.ty
        &&& self.message_type@ == model.declared.message_type
        &&& text_opt(self.oneof) == model.declared.oneof
        &&& self.offset == model.offset
        &&& self.has_bit == model.has_bit
        &&& self.is_map == model.is_map
    }
}

pub open spec fn fields_are(fields: Seq<ProtoField>, models: Seq<ProtoFieldModel>) -> bool {
    &&& fields.len() == models.len()
    &&& forall|i: int| 0 <= i < fields.len() ==> (#[trigger] fields[i]).is(models[i])
}

impl ProtoMessage {
    pub open spec fn is(&self, model: ProtoMessageModel) -> bool {
        &&& self.name@ == model.name
        &&& self.size == model.size
        &&& self.has_bits_offset == model.has_bits_offset
        &&& self.map_entry == model.map_entry
        &&& fields_are(self.fields@, model.fields)
    }
}

pub open spec fn messages_are(
    messages: Seq<ProtoMessage>,
    models: Seq<ProtoMessageModel>,
) -> bool {
    &&& messages.len() == models.len()
    &&& forall|i: int| 0 <= i < messages.len() ==> (#[trigger] messages[i]).is(models[i])
}

/// The 32-bit number at `at`, if it stands in the image.
pub open spec fn u32_in(buf: Seq<u8>, at: int) -> Option<u32> {
    if 0 <= at && at + 4 <= buf.len() {
        Some(le4(buf, at) as u32)
    } else {
        None
    }
}

/// The signed 32-bit number at `at`, if it stands in the image.
pub open spec fn i32_in(buf: Seq<u8>, at: int) -> Option<i32> {
    if 0 <= at && at + 4 <= buf.len() {
        Some(signed32(le4(buf, at)) as i32)
    } else {
        None
    }
}

/// The pointer at `at`, as an offset into the image that it points into.
pub open spec fn rva_in(buf: Seq<u8>, base: u64, at: int) -> Option<int> {
    if 0 <= at && at + 8 <= buf.len() {
        let va = le8(buf, at);
        if base <= va && va - base < buf.len() {
            Some(va - base)
        } else {
            None
        }
    } else {
        None
    }
}

/// An entry of the offsets table; the all-ones entry stands for none.
pub open spec fn entry_in(buf: Seq<u8>, offsets: int, index: int) -> Option<u32> {
    match u32_in(buf, offsets + 4 * index) {
        Some(v) => if v == u32::MAX {
            None
        } else {
            Some(v)
        },
        None => None,
    }
}

/// One of the messages is a map entry that the field's type names.
pub open spec fn names_map_entry(messages: Seq<PMessageModel>, field_type: Seq<char>) -> bool {
    exists|i: int|
        0 <= i < messages.len() && (#[trigger] messages[i]).map_entry && names_type(
            field_type,
            messages[i].name,
        )
}

/// What a descriptor table points at.
pub struct TableModel {
    pub schemas: int,
    pub offsets: int,
    pub count: int,
    pub messages: Seq<PMessageModel>,
}

/// The descriptor table at `t`, if one stands there: its pointers lie in the
/// image, it has between one and the most messages that a file can have, and
/// its descriptor declares some.
pub open spec fn table_at(buf: Seq<u8>, base: u64, t: int) -> Option<TableModel> {
    let size = i32_in(buf, t + 0x04);
    let desc = rva_in(buf, base, t + 0x08);
    let name = rva_in(buf, base, t + 0x10);
    let count = i32_in(buf, t + 0x2C);
    let schemas = rva_in(buf, base, t + 0x30);
    let offsets = rva_in(buf, base, t + 0x40);
    if size is Some && desc is Some && name is Some && count is Some && schemas is Some
        && offsets is Some && 1 <= count->0 <= MAX_PROTO_MESSAGES && 4 <= size->0 && desc->0
        + size->0 <= buf.len() {
        let messages = file_messages(buf.subrange(desc->0, desc->0 + size->0));
        if messages.len() == 0 {
            None
        } else {
            Some(
                TableModel {
                    schemas: schemas->0,
                    offsets: offsets->0,
                    count: if messages.len() <= count->0 {
                        messages.len() as int
                    } else {
                        count->0 as int
                    },
                    messages,
                },
            )
        }
    } else {
        None
    }
}

/// The laid-out fields of a message whose offsets begin at `first` and whose
/// has-bit indices begin at `bits`; `None` where an offset lies outside the
/// image.
pub open spec fn laid_out(
    buf: Seq<u8>,
    table: TableModel,
    fields: Seq<PFieldModel>,
    first: int,
    bits: int,
) -> Option<Seq<ProtoFieldModel>> {
    if forall|j: int|
        0 <= j < fields.len() ==> #[trigger] u32_in(
            buf,
            table.offsets + 4 * (first + HEADER_ENTRIES + j),
        ) is Some {
        Some(
            Seq::new(
                fields.len(),
                |j: int|
                    ProtoFieldModel {
                        declared: fields[j],
                        offset: u32_in(
                            buf,
                            table.offsets + 4 * (first + HEADER_ENTRIES + j),
                        )->0,
                        has_bit: if bits >= 0 {
                            entry_in(buf, table.offsets, bits + j)
                        } else {
                            None
                        },
                        is_map: fields[j].ty == 11 && fields[j].label == 3 && names_map_entry(
                            table.messages,
                            fields[j].message_type,
                        ),
                    },
            ),
        )
    } else {
        None
    }
}

/// What a table says of one message: nothing usable, that it has no offsets,
/// or its layout.
pub enum Laid {
    Broken,
    Absent,
    Message(ProtoMessageModel),
}

/// Message `index` of a table. It is broken where its schema or the offset of
/// one of its fields lies outside the image, and absent where it has no
/// offsets.
pub open spec fn message_at(buf: Seq<u8>, table: TableModel, index: int) -> Laid {
    let s = table.schemas + 16 * index;
    let first = i32_in(buf, s);
    let bits = i32_in(buf, s + 4);
    let size = u32_in(buf, s + 12);
    if first is None || bits is None || size is None {
        Laid::Broken
    } else if first->0 < 0 {
        Laid::Absent
    } else {
        let message = table.messages[index];
        match laid_out(buf, table, message.fields, first->0 as int, bits->0 as int) {
            Some(fields) => Laid::Message(
                ProtoMessageModel {
                    name: message.name,
                    size: size->0,
                    has_bits_offset: entry_in(buf, table.offsets, first->0 as int),
                    map_entry: message.map_entry,
                    fields,
                },
            ),
            None => Laid::Broken,
        }
    }
}

/// The messages of a table from number `index` on that have a layout; `None`
/// where one of them is broken.
pub open spec fn table_messages(buf: Seq<u8>, table: TableModel, index: int) -> Option<
    Seq<ProtoMessageModel>,
>
    decreases table.count - index,
{
    if index >= table.count {
        Some(Seq::empty())
    } else {
        let rest = table_messages(buf, table, index + 1);
        match message_at(buf, table, index) {
            Laid::Broken => None,
            Laid::Absent => rest,
            Laid::Message(model) => match rest {
                Some(others) => Some(seq![model] + others),
                None => None,
            },
        }
    }
}

/// The messages that the descriptor table at `t` lays out.
pub open spec fn descriptor_messages(buf: Seq<u8>, base: u64, t: int) -> Option<
    Seq<ProtoMessageModel>,
> {
    match table_at(buf, base, t) {
        Some(table) => table_messages(buf, table, 0),
        None => None,
    }
}

/// The offset into the image of `va`, if it lies inside.
pub fn va_to_rva(va: u64, base: u64, len: usize) -> (rva: Option<usize>)
    ensures
        rva == (if base <= va && va - base < len {
            Some((va - base) as usize)
        } else {
            None
        }),
{
    if base <= va && va - base < len as u64 {
        Some((va - base) as usize)
    } else {
        None
    }
}

fn pointer_in(buf: &[u8], base: u64, t: usize, offset: usize) -> (rva: Option<usize>)
    ensures
        match rva {
            Some(r) => rva_in(buf@, base, t + offset) == Some(r as int),
            None => rva_in(buf@, base, t + offset) is None,
        },
{
    let size: usize = buf.len();
    if t > size || offset > size - t {
        return None;
    }
    match u64_le_at(buf, t + offset) {
        Some(va) => va_to_rva(va, base, size),
        None => None,
    }
}

fn offset_entry(buf: &[u8], offsets: usize, index: usize) -> (value: Option<u32>)
    ensures
        value == u32_in(buf@, offsets + 4 * index),
{
    let size: usize = buf.len();
    if offsets > size || index > (size - offsets) / 4 {
        return None;
    }
    u32_le_at(buf, offsets + 4 * index)
}

fn present_entry(buf: &[u8], offsets: usize, index: usize) -> (value: Option<u32>)
    ensures
        value == entry_in(buf@, offsets as int, index as int),
{
    match offset_entry(buf, offsets, index) {
        Some(v) => if v == 0xFFFF_FFFF {
            None
        } else {
            Some(v)
        },
        None => None,
    }
}

fn is_map_field(messages: &Vec<PMessage>, field: &PField) -> (is_map: bool)
    ensures
        is_map == (field.ty == 11 && field.label == 3 && names_map_entry(
            pmessage_models(messages@),
            field.message_type@,
        )),
{
    if field.ty != 11 || field.label != 3 {
        return false;
    }
    let ghost models = pmessage_models(messages@);
    let mut i: usize = 0;
    while i < messages.len()
        invariant
            i <= messages@.len(),
            field.ty == 11 && field.label == 3,
            models == pmessage_models(messages@),
            forall|k: int|
                0 <= k < i ==> !((#[trigger] models[k]).map_entry && names_type(
                    field.message_type@,
                    models[k].name,
                )),
        decreases messages@.len() - i,
    {
        assert(models[i as int] == messages@[i as int].model());
        if messages[i].map_entry && type_name_matches(
            field.message_type.as_str(),
            messages[i].name.as_str(),
        ) {
            return true;
        }
        i = i + 1;
    }
    false
}

fn clone_opt(text: &Option<String>) -> (copy: Option<String>)
    ensures
        text_opt(copy) == text_opt(*text),
{
    match text {
        Some(t) => Some(t.clone()),
        None => None,
    }
}

fn lay_out(
    buf: &[u8],
    offsets: usize,
    messages: &Vec<PMessage>,
    index: usize,
    first: usize,
    bits: i32,
    Ghost(table): Ghost<TableModel>,
) -> (fields: Option<Vec<ProtoField>>)
    requires
        index < messages@.len(),
        first <= i32::MAX,
        table.offsets == offsets,
        table.messages == pmessage_models(messages@),
    ensures
        match laid_out(
            buf@,
            table,
            table.messages[index as int].fields,
            first as int,
            bits as int,
        ) {
            Some(models) => fields matches Some(list) && fields_are(list@, models),
            None => fields is None,
        },
{
    let ghost models = table.messages[index as int].fields;
    let ghost want = laid_out(buf@, table, models, first as int, bits as int);
    let list = &messages[index].fields;
    assert(models == pfield_models(list@));
    let mut out: Vec<ProtoField> = Vec::new();
    let mut j: usize = 0;
    while j < list.len()
        invariant
            index < messages@.len(),
            first <= i32::MAX,
            list@ == messages@[index as int].fields@,
            models == pfield_models(list@),
            table.offsets == offsets,
            table.messages == pmessage_models(messages@),
            want == laid_out(buf@, table, models, first as int, bits as int),
            j <= list@.len(),
            out@.len() == j,
            forall|k: int|
                0 <= k < j ==> #[trigger] u32_in(
                    buf@,
                    table.offsets + 4 * (first + HEADER_ENTRIES + k),
                ) is Some,
            want is Some ==> forall|k: int| 0 <= k < j ==> (#[trigger] out@[k]).is(want->0[k]),
        decreases list@.len() - j,
    {
        let field = &list[j];
        assert(field.model() == models[j as int]);
        let ghost at = table.offsets + 4 * (first + HEADER_ENTRIES + j);
        let wide: u128 = first as u128 + HEADER_ENTRIES as u128 + j as u128;
        if wide > buf.len() as u128 {
            assert(u32_in(buf@, at) is None);
            assert(want is None);
            return None;
        }
        let offset = match offset_entry(buf, offsets, wide as usize) {
            Some(v) => v,
            None => {
                assert(u32_in(buf@, at) is None);
                assert(want is None);
                return None;
            },
        };
        let has_bit = if bits >= 0 {
            let wide_bit: u128 = bits as u128 + j as u128;
            if wide_bit > buf.len() as u128 {
                assert(entry_in(buf@, table.offsets, bits + j) is None);
                None
            } else {
                present_entry(buf, offsets, wide_bit as usize)
            }
        } else {
            None
        };
        let is_map = is_map_field(messages, field);
        out.push(
            ProtoField {
                name: field.name.clone(),
                number: field.number,
                offset,
                has_bit,
                label: field.label,
                ty: field.ty,
                message_type: field.message_type.clone(),
                is_map,
                oneof: clone_opt(&field.oneof),
            },
        );
        j = j + 1;
    }
    assert(want is Some);
    Some(out)
}

/// Reads message `index` of a table: `None` where it is broken, and nothing
/// inside where it is absent.
fn lay_out_message(
    buf: &[u8],
    schemas: usize,
    offsets: usize,
    messages: &Vec<PMessage>,
    index: usize,
    Ghost(table): Ghost<TableModel>,
) -> (message: Option<Option<ProtoMessage>>)
    requires
        index < messages@.len(),
        index < MAX_PROTO_MESSAGES,
        table.schemas == schemas,
        table.offsets == offsets,
        table.messages == pmessage_models(messages@),
    ensures
        match message_at(buf@, table, index as int) {
            Laid::Broken => message is None,
            Laid::Absent => message matches Some(None),
            Laid::Message(model) => message matches Some(Some(m)) && m.is(model),
        },
{
    let size: usize = buf.len();
    let ghost s = table.schemas + 16 * index;
    if schemas > size || 16 * index > size - schemas {
        assert(i32_in(buf@, s) is None);
        return None;
    }
    let at: usize = schemas + 16 * index;
    if size < 16 || at > size - 16 {
        assert(u32_in(buf@, s + 12) is None);
        return None;
    }
    let (first, bits, object_size) = match (
        i32_le_at(buf, at),
        i32_le_at(buf, at + 4),
        u32_le_at(buf, at + 12),
    ) {
        (Some(f), Some(b), Some(o)) => (f, b, o),
        _ => {
            return None;
        },
    };
    if first < 0 {
        return Some(None);
    }
    let first_index: usize = first as usize;
    let has_bits_offset = present_entry(buf, offsets, first_index);
    match lay_out(buf, offsets, messages, index, first_index, bits, Ghost(table)) {
        Some(fields) => Some(
            Some(
                ProtoMessage {
                    name: messages[index].name.clone(),
                    size: object_size,
                    has_bits_offset,
                    map_entry: messages[index].map_entry,
                    fields,
                },
            ),
        ),
        None => None,
    }
}

fn lay_out_messages(
    buf: &[u8],
    schemas: usize,
    offsets: usize,
    messages: &Vec<PMessage>,
    count: usize,
    Ghost(table): Ghost<TableModel>,
) -> (list: Option<Vec<ProtoMessage>>)
    requires
        count <= messages@.len(),
        count <= MAX_PROTO_MESSAGES,
        table.schemas == schemas,
        table.offsets == offsets,
        table.count == count,
        table.messages == pmessage_models(messages@),
    ensures
        match table_messages(buf@, table, 0) {
            Some(models) => list matches Some(l) && messages_are(l@, models),
            None => list is None,
        },
{
    let ghost want = table_messages(buf@, table, 0);
    let ghost mut done: Seq<ProtoMessageModel> = Seq::empty();
    let mut out: Vec<ProtoMessage> = Vec::new();
    let mut i: usize = 0;
    proof {
        if want is Some {
            assert(done + want->0 =~= want->0);
        }
    }
    while i < count
        invariant
            count <= messages@.len(),
            count <= MAX_PROTO_MESSAGES,
            i <= count,
            table.schemas == schemas,
            table.offsets == offsets,
            table.count == count,
            table.messages == pmessage_models(messages@),
            want == table_messages(buf@, table, 0),
            messages_are(out@, done),
            match table_messages(buf@, table, i as int) {
                Some(rest) => want == Some(done + rest),
                None => want is None,
            },
        decreases count - i,
    {
        let ghost rest = table_messages(buf@, table, i + 1);
        let ghost laid = message_at(buf@, table, i as int);
        match lay_out_message(buf, schemas, offsets, messages, i, Ghost(table)) {
            None => {
                return None;
            },
            Some(None) => {},
            Some(Some(message)) => {
                let ghost model = laid->Message_0;
                out.push(message);
                proof {
                    let before = done;
                    done = done.push(model);
                    if rest is Some {
                        assert(before + (seq![model] + rest->0) =~= done + rest->0);
                    }
                }
            },
        }
        i = i + 1;
    }
    assert(table_messages(buf@, table, i as int) == Some(Seq::<ProtoMessageModel>::empty()));
    assert(done + Seq::<ProtoMessageModel>::empty() =~= done);
    Some(out)
}

/// Reads the descriptor table at `t` and lays out its messages; `None` where
/// no table stands there, or where it points outside the image.
pub fn parse_descriptor_table(buf: &[u8], base: u64, t: usize) -> (messages: Option<
    Vec<ProtoMessage>,
>)
    ensures
        match descriptor_messages(buf@, base, t as int) {
            Some(models) => messages matches Some(list) && messages_are(list@, models),
            None => messages is None,
        },
{
    let size: usize = buf.len();
    if size < 0x48 || t > size - 0x48 {
        assert(rva_in(buf@, base, t + 0x40) is None);
        return None;
    }
    let desc_size = match i32_le_at(buf, t + 0x04) {
        Some(v) => v,
        None => {
            return None;
        },
    };
    let num_messages = match i32_le_at(buf, t + 0x2C) {
        Some(v) => v,
        None => {
            return None;
        },
    };
    if num_messages < 1 || num_messages > MAX_PROTO_MESSAGES as i32 || desc_size < 4 {
        return None;
    }
    let (desc, schemas, offsets) = match (
        pointer_in(buf, base, t, 0x08),
        pointer_in(buf, base, t, 0x10),
        pointer_in(buf, base, t, 0x30),
        pointer_in(buf, base, t, 0x40),
    ) {
        (Some(d), Some(_), Some(s), Some(o)) => (d, s, o),
        _ => {
            return None;
        },
    };
    if desc_size as u64 > (size - desc) as u64 {
        return None;
    }
    let protos = parse_file_descriptor(slice_subrange(buf, desc, desc + desc_size as usize));
    if protos.len() == 0 {
        return None;
    }
    let count: usize = if protos.len() <= num_messages as usize {
        protos.len()
    } else {
        num_messages as usize
    };
    let ghost table = TableModel {
        schemas: schemas as int,
        offsets: offsets as int,
        count: count as int,
        messages: pmessage_models(protos@),
    };
    assert(table_at(buf@, base, t as int) == Some(table));
    lay_out_messages(buf, schemas, offsets, &protos, count, Ghost(table))
}

/// The bytes of `.proto`.
pub open spec fn proto_suffix() -> Seq<u8> {
    seq![0x2e, 0x70, 0x72, 0x6f, 0x74, 0x6f]
}

/// A serialized file descriptor begins at `i`: it opens with the name of a
/// `.proto` file, printable and of a plausible length.
pub open spec fn is_blob(buf: Seq<u8>, i: int) -> bool {
    &&& 0 <= i
    &&& i + 2 < buf.len()
    &&& buf[i] == 0x0A
    &&& match varint(buf, i + 1) {
        Some((len, n)) => {
            let from = i + 1 + n;
            &&& 3 < len < 128
            &&& from + len <= buf.len()
            &&& 6 <= len
            &&& stands_at(buf, proto_suffix(), from + len - 6)
            &&& forall|k: int| from <= k < from + len ==> 0x21 <= #[trigger] buf[k] <= 0x7e
        },
        None => false,
    }
}

/// A serialized file descriptor begins at the address `va`.
pub open spec fn is_blob_va(buf: Seq<u8>, base: u64, va: u64) -> bool {
    base <= va && is_blob(buf, va - base)
}

/// The messages of an image whose tables are found from `p` on, without the
/// descriptors in `done`. A slot that holds the address of a descriptor is the
/// second of a table; the first table of a descriptor that lays out messages
/// counts.
pub open spec fn scan_from(buf: Seq<u8>, base: u64, p: int, done: Set<u64>) -> Seq<
    ProtoMessageModel,
>
    decreases buf.len() - p,
{
    if p + 8 > buf.len() {
        Seq::empty()
    } else {
        let va = le8(buf, p) as u64;
        let found = descriptor_messages(buf, base, p - 8);
        if p >= 8 && is_blob_va(buf, base, va) && !done.contains(va) && found is Some
            && found->0.len() > 0 {
            found->0 + scan_from(buf, base, p + 8, done.insert(va))
        } else {
            scan_from(buf, base, p + 8, done)
        }
    }
}

/// All messages of an image.
pub open spec fn image_messages(buf: Seq<u8>, base: u64) -> Seq<ProtoMessageModel> {
    scan_from(buf, base, 0, Set::empty())
}

fn all_graphic(buf: &[u8], from: usize, end: usize) -> (graphic: bool)
    requires
        from <= end <= buf@.len(),
    ensures
        graphic == (forall|k: int| from <= k < end ==> 0x21 <= #[trigger] buf@[k] <= 0x7e),
{
    let mut k: usize = from;
    while k < end
        invariant
            from <= k <= end <= buf@.len(),
            forall|j: int| from <= j < k ==> 0x21 <= #[trigger] buf@[j] <= 0x7e,
        decreases end - k,
    {
        if buf[k] < 0x21 || buf[k] > 0x7e {
            return false;
        }
        k = k + 1;
    }
    true
}

fn blob_at(buf: &[u8], i: usize) -> (found: bool)
    ensures
        found == is_blob(buf@, i as int),
{
    let size: usize = buf.len();
    if size < 3 || i >= size - 2 || buf[i] != 0x0A {
        return false;
    }
    match read_varint(buf, i + 1) {
        Some((len, n)) => {
            assert(i + 1 + n <= size);
            let from: usize = i + 1 + n;
            if len <= 3 || len >= 128 || len < 6 || len > (size - from) as u64 {
                return false;
            }
            let end: usize = from + len as usize;
            let suffix: [u8; 6] = [0x2e, 0x70, 0x72, 0x6f, 0x74, 0x6f];
            assert(suffix@ =~= proto_suffix());
            if !bytes_stand_at(buf, suffix.as_slice(), end - 6) {
                return false;
            }
            all_graphic(buf, from, end)
        },
        None => false,
    }
}

fn holds_value(list: &Vec<u64>, value: u64) -> (found: bool)
    ensures
        found == list@.contains(value),
{
    let mut i: usize = 0;
    while i < list.len()
        invariant
            i <= list@.len(),
            forall|j: int| 0 <= j < i ==> list@[j] != value,
        decreases list@.len() - i,
    {
        if list[i] == value {
            assert(list@[i as int] == value);
            return true;
        }
        i = i + 1;
    }
    false
}

proof fn lemma_messages_join(
    a: Seq<ProtoMessage>,
    x: Seq<ProtoMessageModel>,
    b: Seq<ProtoMessage>,
    y: Seq<ProtoMessageModel>,
)
    requires
        messages_are(a, x),
        messages_are(b, y),
    ensures
        messages_are(a + b, x + y),
{
    assert forall|i: int| 0 <= i < (a + b).len() implies (#[trigger] (a + b)[i]).is((x + y)[i]) by {
        if i >= a.len() {
            assert((a + b)[i] == b[i - a.len()]);
            assert((x + y)[i] == y[i - a.len()]);
        } else {
            assert((a + b)[i] == a[i]);
        }
    }
}

/// Finds the descriptor tables of a module image and lays out their messages.
#[verifier::spinoff_prover]
#[verifier::rlimit(60)]
pub fn scan_module(buf: &[u8], base: u64) -> (messages: Vec<ProtoMessage>)
    ensures
        messages_are(messages@, image_messages(buf@, base)),
{
    let size: usize = buf.len();
    let mut out: Vec<ProtoMessage> = Vec::new();
    let ghost mut models: Seq<ProtoMessageModel> = Seq::empty();
    let mut done: Vec<u64> = Vec::new();
    let ghost mut seen: Set<u64> = Set::empty();
    let mut p: usize = 0;
    assert(models + scan_from(buf@, base, 0, seen) =~= image_messages(buf@, base));
    while size >= 8 && p <= size - 8
        invariant
            size == buf@.len(),
            messages_are(out@, models),
            forall|v: u64| seen.contains(v) == done@.contains(v),
            models + scan_from(buf@, base, p as int, seen) == image_messages(buf@, base),
        decreases size - p,
    {
        let ghost rest = scan_from(buf@, base, p as int, seen);
        match u64_le_at(buf, p) {
            Some(va) => {
                if p >= 8 && base <= va && va - base < size as u64 && !holds_value(&done, va)
                    && blob_at(buf, (va - base) as usize) {
                    match parse_descriptor_table(buf, base, p - 8) {
                        Some(mut file) => if file.len() > 0 {
                            let ghost found = descriptor_messages(buf@, base, p - 8)->0;
                            let ghost was = done@;
                            done.push(va);
                            proof {
                                lemma_messages_join(out@, models, file@, found);
                                let next = scan_from(buf@, base, p + 8, seen.insert(va));
                                assert(models + (found + next) =~= models + found + next);
                                models = models + found;
                                assert forall|v: u64|
                                    seen.insert(va).contains(v) == done@.contains(v) by {
                                    assert(done@[was.len() as int] == va);
                                    if was.contains(v) {
                                        let j = choose|j: int| 0 <= j < was.len() && was[j] == v;
                                        assert(done@[j] == v);
                                    }
                                }
                                seen = seen.insert(va);
                            }
                            out.append(&mut file);
                        },
                        None => {},
                    }
                }
            },
            None => {},
        }
        if size - p < 8 {
            return out;
        }
        p = p + 8;
    }
    assert(models + Seq::<ProtoMessageModel>::empty() =~= models);
    out
}

/// The modules that carry generated messages.
pub open spec fn is_proto_module(name: Seq<char>) -> bool {
    name == "client.dll"@ || name == "engine2.dll"@ || name == "networksystem.dll"@ || name
        == "server.dll"@
}

/// What the map holds of a module: its messages, if there are any.
pub open spec fn module_messages(
    map: Map<Seq<char>, Vec<ProtoMessage>>,
    images: Seq<ModuleImage>,
    name: Seq<char>,
) -> bool {
    &&& map.contains_key(name) <==> exists|i: int|
        image_at(images, name, i) && image_messages(
            #[trigger] images[i].bytes@,
            images[i].base,
        ).len() > 0
    &&& forall|i: int|
        #![trigger images[i]]
        image_at(images, name, i) && map.contains_key(name) ==> messages_are(
            map[name]@,
            image_messages(images[i].bytes@, images[i].base),
        )
}

fn add_module(map: &mut StrMap<Vec<ProtoMessage>>, images: &Vec<ModuleImage>, name: &str)
    requires
        old(map).wf(),
        !old(map).map().contains_key(name@),
    ensures
        final(map).wf(),
        module_messages(final(map).map(), images@, name@),
        forall|other: Seq<char>|
            #![trigger final(map).map().contains_key(other)]
            other != name@ ==> final(map).map().contains_key(other) == old(
                map,
            ).map().contains_key(other) && final(map).map()[other] == old(map).map()[other],
{
    match find_image(images, name) {
        Some(i) => {
            let messages = scan_module(images[i].bytes.as_slice(), images[i].base);
            assert(image_at(images@, name@, i as int));
            assert(images@[i as int].bytes@ == images@[i as int].bytes@);
            if messages.len() > 0 {
                let ghost list = messages;
                let _previous = map.insert(name.to_owned(), messages);
                assert(map.map()[name@] == list);
            }
        },
        None => {},
    }
}

/// The messages of each module that carries some, by module name.
pub open spec fn messages_by_module(
    map: Map<Seq<char>, Vec<ProtoMessage>>,
    images: Seq<ModuleImage>,
) -> bool {
    forall|name: Seq<char>|
        #![trigger map.contains_key(name)]
        if is_proto_module(name) {
            module_messages(map, images, name)
        } else {
            !map.contains_key(name)
        }
}

/// The messages of each module that carries some, by module name.
pub fn protobufs(images: &Vec<ModuleImage>) -> (map: StrMap<Vec<ProtoMessage>>)
    ensures
        map.wf(),
        messages_by_module(map.map(), images@),
{
    let mut map = StrMap::new();
    proof {
        reveal_strlit("client.dll");
        reveal_strlit("engine2.dll");
        reveal_strlit("networksystem.dll");
        reveal_strlit("server.dll");
        assert("client.dll"@[0] != "engine2.dll"@[0]);
        assert("client.dll"@[0] != "networksystem.dll"@[0]);
        assert("client.dll"@[0] != "server.dll"@[0]);
        assert("engine2.dll"@[0] != "networksystem.dll"@[0]);
        assert("engine2.dll"@[0] != "server.dll"@[0]);
        assert("networksystem.dll"@[0] != "server.dll"@[0]);
    }
    add_module(&mut map, images, "client.dll");
    let ghost one = map.map();
    add_module(&mut map, images, "engine2.dll");
    let ghost two = map.map();
    add_module(&mut map, images, "networksystem.dll");
    let ghost three = map.map();
    add_module(&mut map, images, "server.dll");
    proof {
        let four = map.map();
        assert(three.contains_key("networksystem.dll"@) == four.contains_key("networksystem.dll"@));
        assert(three.contains_key("engine2.dll"@) == four.contains_key("engine2.dll"@));
        assert(three.contains_key("client.dll"@) == four.contains_key("client.dll"@));
        assert(two.contains_key("engine2.dll"@) == three.contains_key("engine2.dll"@));
        assert(two.contains_key("client.dll"@) == three.contains_key("client.dll"@));
        assert(one.contains_key("client.dll"@) == two.contains_key("client.dll"@));
        assert forall|name: Seq<char>| #![trigger four.contains_key(name)] if is_proto_module(name) {
            module_messages(four, images@, name)
        } else {
            !four.contains_key(name)
        } by {
            assert(three.contains_key(name) || !three.contains_key(name));
            assert(two.contains_key(name) || !two.contains_key(name));
            assert(one.contains_key(name) || !one.contains_key(name));
        }
    }
    map
}

/// The little-endian bytes of 32-bit numbers, one after the other.
pub open spec fn words(list: Seq<u32>) -> Seq<u8> {
    Seq::new(4 * list.len(), |i: int| bytes4(list[i / 4] as int)[i % 4])
}

proof fn lemma_word(buf: Seq<u8>, list: Seq<u32>, at: int, i: int)
    requires
        stands_at(buf, words(list), at),
        0 <= i < list.len(),
    ensures
        u32_in(buf, at + 4 * i) == Some(list[i]),
{
    let w = words(list);
    let b = bytes4(list[i] as int);
    assert forall|k: int| 0 <= k < 4 implies buf[at + 4 * i + k] == b[k] by {
        assert((4 * i + k) / 4 == i && (4 * i + k) % 4 == k);
        assert(buf[at + (4 * i + k)] == w[4 * i + k]);
    }
    assert(buf[at + 4 * i + 0] == b[0] && buf[at + 4 * i + 1] == b[1] && buf[at + 4 * i + 2] == b[2]
        && buf[at + 4 * i + 3] == b[3]);
    assert(le4(buf, at + 4 * i) == le4(b, 0));
    lemma_bytes_round_trip(list[i] as int);
}

/// A number that was written into an image is read back.
pub proof fn lemma_number(buf: Seq<u8>, at: int, x: int)
    ensures
        0 <= x < 0x1_0000_0000 && stands_at(buf, bytes4(x), at) ==> u32_in(buf, at) == Some(x as u32)
            && i32_in(buf, at) == Some(signed32(x) as i32),
        0 <= x < 0x1_0000_0000_0000_0000 && stands_at(buf, bytes8(x), at) ==> at + 8 <= buf.len()
            && le8(buf, at) == x,
{
    lemma_bytes_round_trip(x);
    if stands_at(buf, bytes4(x), at) {
        let b = bytes4(x);
        assert(buf[at + 0] == b[0] && buf[at + 1] == b[1] && buf[at + 2] == b[2] && buf[at + 3]
            == b[3]);
        assert(le4(buf, at) == le4(b, 0));
    }
    if stands_at(buf, bytes8(x), at) {
        let b = bytes8(x);
        assert(buf[at + 0] == b[0] && buf[at + 1] == b[1] && buf[at + 2] == b[2] && buf[at + 3]
            == b[3]);
        assert(buf[at + 4] == b[4] && buf[at + 5] == b[5] && buf[at + 6] == b[6] && buf[at + 7]
            == b[7]);
        assert(le8(buf, at) == le8(b, 0));
    }
}

/// What generated code writes down of a message: where its entries begin in the
/// table of offsets, its size, the six entries of the header, of which the first
/// is the place of its has-bits, and then the offset of each field in
/// declaration order. The has-bit indices of the fields stand elsewhere in the
/// table, if they stand anywhere.
pub struct LayoutImage {
    pub first: int,
    pub bits: Option<int>,
    pub size: u32,
    pub header: Seq<u32>,
    pub offsets: Seq<u32>,
    pub has_bits: Seq<u32>,
}

/// The schema and the entries of message `index` stand where the table says.
pub open spec fn layout_stands(
    buf: Seq<u8>,
    table: TableModel,
    index: int,
    image: LayoutImage,
) -> bool {
    let schema = table.schemas + 16 * index;
    &&& 0 <= image.first <= i32::MAX
    &&& image.header.len() == 6
    &&& stands_at(buf, bytes4(image.first), schema)
    &&& stands_at(buf, bytes4(image.size as int), schema + 12)
    &&& stands_at(buf, words(image.header + image.offsets), table.offsets + 4 * image.first)
    &&& match image.bits {
        Some(bits) => {
            &&& 0 <= bits <= i32::MAX
            &&& image.has_bits.len() == image.offsets.len()
            &&& stands_at(buf, bytes4(bits), schema + 4)
            &&& stands_at(buf, words(image.has_bits), table.offsets + 4 * bits)
        },
        None => stands_at(buf, bytes4(0xFFFF_FFFF), schema + 4),
    }
}

/// An entry of the table, where all ones stand for none.
pub open spec fn known(entry: u32) -> Option<u32> {
    if entry == 0xFFFF_FFFF {
        None
    } else {
        Some(entry)
    }
}

/// A message whose entries were written is read back with them: field `j` of the
/// descriptor has offset `j` of those behind the header and its own has-bit, and
/// the message has the size and the has-bits that were written.
pub proof fn lemma_layout_read_back(
    buf: Seq<u8>,
    table: TableModel,
    index: int,
    image: LayoutImage,
)
    requires
        0 <= index < table.messages.len(),
        image.offsets.len() == table.messages[index].fields.len(),
        layout_stands(buf, table, index, image),
    ensures
        message_at(buf, table, index) is Message,
        message_at(buf, table, index)->Message_0.name == table.messages[index].name,
        message_at(buf, table, index)->Message_0.map_entry == table.messages[index].map_entry,
        message_at(buf, table, index)->Message_0.size == image.size,
        message_at(buf, table, index)->Message_0.has_bits_offset == known(image.header[0]),
        message_at(buf, table, index)->Message_0.fields.len() == image.offsets.len(),
        forall|j: int|
            0 <= j < image.offsets.len() ==> {
                let field = #[trigger] message_at(buf, table, index)->Message_0.fields[j];
                &&& field.declared == table.messages[index].fields[j]
                &&& field.offset == image.offsets[j]
                &&& field.has_bit == (if image.bits is Some {
                    known(image.has_bits[j])
                } else {
                    None
                })
            },
{
    let schema = table.schemas + 16 * index;
    let at = table.offsets + 4 * image.first;
    let all = image.header + image.offsets;
    lemma_number(buf, schema, image.first);
    lemma_number(buf, schema + 12, image.size as int);
    lemma_number(
        buf,
        schema + 4,
        if image.bits is Some {
            image.bits->0
        } else {
            0xFFFF_FFFF
        },
    );
    lemma_word(buf, all, at, 0);
    assert(all[0] == image.header[0]);
    assert forall|j: int| 0 <= j < image.offsets.len() implies #[trigger] u32_in(
        buf,
        table.offsets + 4 * (image.first + 6 + j),
    ) == Some(image.offsets[j]) by {
        lemma_word(buf, all, at, 6 + j);
        assert(all[6 + j] == image.offsets[j]);
        assert(at + 4 * (6 + j) == table.offsets + 4 * (image.first + 6 + j));
    }
    if image.bits is Some {
        assert forall|j: int| 0 <= j < image.offsets.len() implies #[trigger] u32_in(
            buf,
            table.offsets + 4 * (image.bits->0 + j),
        ) == Some(image.has_bits[j]) by {
            lemma_word(buf, image.has_bits, table.offsets + 4 * image.bits->0, j);
            assert(table.offsets + 4 * image.bits->0 + 4 * j == table.offsets + 4 * (image.bits->0
                + j));
        }
    }
    let fields = table.messages[index].fields;
    assert(forall|j: int|
        0 <= j < fields.len() ==> #[trigger] u32_in(
            buf,
            table.offsets + 4 * (image.first + HEADER_ENTRIES + j),
        ) is Some);
}

proof fn lemma_pointer(buf: Seq<u8>, base: u64, at: int, x: int)
    requires
        base + buf.len() <= u64::MAX,
        0 <= x < buf.len(),
        stands_at(buf, bytes8(base + x), at),
    ensures
        rva_in(buf, base, at) == Some(x),
{
    lemma_number(buf, at, base + x);
}

proof fn lemma_count(buf: Seq<u8>, at: int, x: int)
    requires
        0 <= x <= i32::MAX,
        stands_at(buf, bytes4(x), at),
    ensures
        i32_in(buf, at) == Some(x as i32),
{
    lemma_number(buf, at, x);
}

/// A descriptor table whose numbers and pointers were written at their places is
/// read back: its file descriptor is the run of bytes that it gives, and its
/// schemas and offsets are where it points.
pub proof fn lemma_table_read_back(
    buf: Seq<u8>,
    base: u64,
    t: int,
    size: int,
    desc: int,
    name: int,
    count: int,
    schemas: int,
    offsets: int,
)
    requires
        base + buf.len() <= u64::MAX,
        4 <= size <= i32::MAX,
        0 <= desc < buf.len(),
        desc + size <= buf.len(),
        0 <= name < buf.len(),
        1 <= count <= 4096,
        0 <= schemas < buf.len(),
        0 <= offsets < buf.len(),
        stands_at(buf, bytes4(size), t + 0x04),
        stands_at(buf, bytes8(base + desc), t + 0x08),
        stands_at(buf, bytes8(base + name), t + 0x10),
        stands_at(buf, bytes4(count), t + 0x2C),
        stands_at(buf, bytes8(base + schemas), t + 0x30),
        stands_at(buf, bytes8(base + offsets), t + 0x40),
        file_messages(buf.subrange(desc, desc + size)).len() > 0,
    ensures
        table_at(buf, base, t) is Some,
        table_at(buf, base, t)->0.schemas == schemas,
        table_at(buf, base, t)->0.offsets == offsets,
        table_at(buf, base, t)->0.messages == file_messages(buf.subrange(desc, desc + size)),
        table_at(buf, base, t)->0.count == vstd::math::min(
            count,
            file_messages(buf.subrange(desc, desc + size)).len() as int,
        ),
{
    lemma_count(buf, t + 0x04, size);
    lemma_pointer(buf, base, t + 0x08, desc);
    lemma_pointer(buf, base, t + 0x10, name);
    lemma_count(buf, t + 0x2C, count);
    lemma_pointer(buf, base, t + 0x30, schemas);
    lemma_pointer(buf, base, t + 0x40, offsets);
}

proof fn lemma_all_laid_out(buf: Seq<u8>, table: TableModel, index: int)
    requires
        0 <= index <= table.count,
        forall|i: int|
            index <= i < table.count ==> #[trigger] message_at(buf, table, i) is Message,
    ensures
        table_messages(buf, table, index) is Some,
        table_messages(buf, table, index)->0.len() == table.count - index,
        forall|i: int|
            index <= i < table.count ==> table_messages(buf, table, index)->0[i - index]
                == #[trigger] message_at(buf, table, i)->Message_0,
    decreases table.count - index,
{
    if index < table.count {
        lemma_all_laid_out(buf, table, index + 1);
        assert(message_at(buf, table, index) is Message);
        let rest = table_messages(buf, table, index + 1)->0;
        let all = table_messages(buf, table, index)->0;
        assert forall|i: int| index <= i < table.count implies all[i - index]
            == #[trigger] message_at(buf, table, i)->Message_0 by {
            if i > index {
                assert(all[i - index] == rest[i - index - 1]);
                assert(rest[i - (index + 1)] == message_at(buf, table, i)->Message_0);
            }
        }
    }
}

/// A table all of whose messages were written is read back message by message,
/// in the order of the descriptor, each with the offsets of its own fields.
pub proof fn lemma_messages_read_back(
    buf: Seq<u8>,
    base: u64,
    t: int,
    images: Seq<LayoutImage>,
)
    requires
        table_at(buf, base, t) matches Some(table) && {
            &&& images.len() == table.count
            &&& forall|i: int|
                0 <= i < images.len() ==> layout_stands(buf, table, i, #[trigger] images[i])
                    && images[i].offsets.len() == table.messages[i].fields.len()
        },
    ensures
        descriptor_messages(buf, base, t) is Some,
        descriptor_messages(buf, base, t)->0.len() == images.len(),
        forall|i: int, j: int|
            0 <= i < images.len() && 0 <= j < images[i].offsets.len() ==> (
            #[trigger] descriptor_messages(buf, base, t)->0[i].fields[j]).offset
                == images[i].offsets[j],
        forall|i: int|
            0 <= i < images.len() ==> (#[trigger] descriptor_messages(buf, base, t)->0[i]).size
                == images[i].size && descriptor_messages(buf, base, t)->0[i].name == table_at(
                buf,
                base,
                t,
            )->0.messages[i].name,
{
    let table = table_at(buf, base, t)->0;
    assert forall|i: int| 0 <= i < table.count implies #[trigger] message_at(
        buf,
        table,
        i,
    ) is Message by {
        assert(layout_stands(buf, table, i, images[i]));
        lemma_layout_read_back(buf, table, i, images[i]);
    }
    lemma_all_laid_out(buf, table, 0);
    let all = descriptor_messages(buf, base, t)->0;
    assert forall|i: int| 0 <= i < images.len() implies (#[trigger] all[i]) == message_at(
        buf,
        table,
        i,
    )->Message_0 by {
        assert(all[i - 0] == message_at(buf, table, i)->Message_0);
    }
    assert forall|i: int, j: int|
        0 <= i < images.len() && 0 <= j < images[i].offsets.len() implies (
    #[trigger] all[i].fields[j]).offset == images[i].offsets[j] by {
        assert(layout_stands(buf, table, i, images[i]));
        lemma_layout_read_back(buf, table, i, images[i]);
    }
    assert forall|i: int| 0 <= i < images.len() implies (#[trigger] all[i]).size == images[i].size
        && all[i].name == table.messages[i].name by {
        assert(layout_stands(buf, table, i, images[i]));
        lemma_layout_read_back(buf, table, i, images[i]);
    }
}

/// The number of a field as a descriptor writes it.
pub open spec fn number_bytes(value: i64) -> Seq<u8> {
    varint_bytes(
        if value < 0 {
            (value + 0x1_0000_0000_0000_0000) as nat
        } else {
            value as nat
        },
    )
}

/// The last field `number` of a message, where it has one, holds this text.
pub open spec fn says_text(items: Seq<WireItem>, number: u64, text: Seq<char>) -> bool {
    ||| exists|i: int| #[trigger]
        stands_last(items, number, 2, i) && items[i].payload == encode_utf8(text)
    ||| is_absent(items, number, 2) && text.len() == 0
}

/// The last field `number` of a message, where it has one, holds this number.
pub open spec fn says_number(items: Seq<WireItem>, number: u64, value: i64) -> bool {
    ||| exists|i: int| #[trigger]
        stands_last(items, number, 0, i) && items[i].payload == number_bytes(value)
    ||| is_absent(items, number, 0) && value == 0
}

proof fn lemma_text_said(items: Seq<WireItem>, number: u64, text: Seq<char>)
    requires
        says_text(items, number, text),
    ensures
        text_field(items, number) == text,
{
    if exists|i: int| #[trigger]
        stands_last(items, number, 2, i) && items[i].payload == encode_utf8(text) {
        let i = choose|i: int| #[trigger]
            stands_last(items, number, 2, i) && items[i].payload == encode_utf8(text);
        lemma_last_counts(items, number, 2, i);
        lemma_lossy_text(text);
    } else {
        lemma_absent(items, number, 2);
    }
}

proof fn lemma_number_said(items: Seq<WireItem>, number: u64, value: i64)
    requires
        says_number(items, number, value),
    ensures
        number_field(items, number) == value,
{
    if exists|i: int| #[trigger]
        stands_last(items, number, 0, i) && items[i].payload == number_bytes(value) {
        let i = choose|i: int| #[trigger]
            stands_last(items, number, 0, i) && items[i].payload == number_bytes(value);
        lemma_last_counts(items, number, 0, i);
        lemma_number_read_back(value);
    } else {
        lemma_absent(items, number, 0);
    }
}

/// A field's descriptor is read back as it was written: 1 is the field's name, 3
/// its number, 4 its label, 5 its type, 6 the name of its type and 9 the index of
/// its oneof, where it has one.
pub proof fn lemma_field_read_back(
    items: Seq<WireItem>,
    name: Seq<char>,
    number: i64,
    label: i64,
    ty: i64,
    message_type: Seq<char>,
    oneof: Option<i32>,
)
    requires
        forall|i: int| 0 <= i < items.len() ==> is_item(#[trigger] items[i]),
        says_text(items, 1, name),
        says_number(items, 3, number),
        says_number(items, 4, label),
        says_number(items, 5, ty),
        says_text(items, 6, message_type),
        match oneof {
            Some(k) => exists|i: int| #[trigger]
                stands_last(items, 9, 0, i) && items[i].payload == number_bytes(k as i64),
            None => is_absent(items, 9, 0),
        },
    ensures
        ({
            let field = field_model(message_bytes(items));
            &&& field.name == name
            &&& field.number == number
            &&& field.label == label
            &&& field.ty == ty
            &&& field.message_type == message_type
            &&& field.oneof_index == oneof
            &&& field.oneof is None
        }),
{
    lemma_message_round_trip(items);
    lemma_text_said(items, 1, name);
    lemma_number_said(items, 3, number);
    lemma_number_said(items, 4, label);
    lemma_number_said(items, 5, ty);
    lemma_text_said(items, 6, message_type);
    match oneof {
        Some(k) => {
            let i = choose|i: int| #[trigger]
                stands_last(items, 9, 0, i) && items[i].payload == number_bytes(k as i64);
            lemma_last_counts(items, 9, 0, i);
            lemma_number_read_back(k as i64);
        },
        None => {
            lemma_absent(items, 9, 0);
        },
    }
}

/// An index that does not fit 32 bits names no oneof.
pub proof fn lemma_wide_oneof_refused(items: Seq<WireItem>, i: int, index: i64)
    requires
        forall|j: int| 0 <= j < items.len() ==> is_item(#[trigger] items[j]),
        stands_last(items, 9, 0, i),
        items[i].payload == number_bytes(index),
        index < -0x8000_0000 || index > 0x7FFF_FFFF,
    ensures
        field_model(message_bytes(items)).oneof_index is None,
{
    lemma_message_round_trip(items);
    lemma_last_counts(items, 9, 0, i);
    lemma_number_read_back(index);
}

/// The occurrences of a length-delimited field of a message.
pub open spec fn occurrences(items: Seq<WireItem>, number: u64) -> Seq<Seq<u8>> {
    items.filter(|item: WireItem| item.number == number && item.wire == 2).map_values(
        |item: WireItem| item.payload,
    )
}

/// A message's descriptor is read back: 1 is its name, behind that of the message
/// around it, each occurrence of 2 is a field, in order, and a field's oneof is
/// the occurrence of 8 that its index names.
pub proof fn lemma_message_read_back(items: Seq<WireItem>, prefix: Seq<char>, name: Seq<char>)
    requires
        forall|i: int| 0 <= i < items.len() ==> is_item(#[trigger] items[i]),
        says_text(items, 1, name),
        occurrences(items, 8).len() <= 65_536,
    ensures
        ({
            let message = message_model(message_bytes(items), prefix);
            let fields = occurrences(items, 2);
            let oneofs = occurrences(items, 8);
            &&& prefix.len() == 0 ==> message.name == name
            &&& prefix.len() > 0 ==> message.name == prefix + seq!['_'] + name
            &&& message.fields.len() == if fields.len() <= 65_536 {
                fields.len() as int
            } else {
                65_536
            }
            &&& forall|i: int|
                #![trigger message.fields[i]]
                0 <= i < message.fields.len() ==> {
                    let field = message.fields[i];
                    let own = field_model(fields[i]);
                    let k = own.oneof_index;
                    &&& field.name == own.name
                    &&& field.number == own.number
                    &&& field.label == own.label
                    &&& field.ty == own.ty
                    &&& field.message_type == own.message_type
                    &&& field.oneof_index == k
                    &&& k is None || k->0 < 0 || k->0 >= oneofs.len() ==> field.oneof is None
                    &&& k is Some && 0 <= k->0 < oneofs.len() ==> {
                        let named = text_field(wire_items(oneofs[k->0 as int], 0), 1);
                        &&& named.len() > 0 ==> field.oneof == Some(named)
                        &&& named.len() == 0 ==> field.oneof is None
                    }
                }
        }),
{
    lemma_message_round_trip(items);
    lemma_text_said(items, 1, name);
    lemma_payloads(items, 2, 2);
    lemma_payloads(items, 8, 2);
    reveal_strlit("_");
    assert("_"@ =~= seq!['_']);
}

/// Whether a message is a map entry is what its last options say with their own
/// field 7; options that do not say it change nothing.
pub proof fn lemma_map_entry(items: Seq<WireItem>, i: int, inner: Seq<WireItem>, k: int, value: i64)
    requires
        0 <= i < items.len(),
        items[i].number == 7 && items[i].wire == 2,
        items[i].payload == message_bytes(inner),
        forall|j: int| 0 <= j < inner.len() ==> is_item(#[trigger] inner[j]),
        stands_last(inner, 7, 0, k),
        inner[k].payload == number_bytes(value),
        forall|j: int|
            i < j < items.len() ==> (#[trigger] items[j]).number != 7 || items[j].wire != 2
                || is_absent(wire_items(items[j].payload, 0), 7, 0),
    ensures
        map_entry_flag(items) == (value != 0),
    decreases items.len(),
{
    if i == items.len() - 1 {
        lemma_message_round_trip(inner);
        lemma_last_counts(inner, 7, 0, k);
        lemma_number_read_back(value);
    } else {
        let last = items[items.len() - 1];
        if last.number == 7 && last.wire == 2 {
            lemma_absent(wire_items(last.payload, 0), 7, 0);
        }
        lemma_map_entry(items.drop_last(), i, inner, k, value);
    }
}

/// A message whose options never say so is no map entry.
pub proof fn lemma_no_map_entry(items: Seq<WireItem>)
    requires
        forall|j: int|
            0 <= j < items.len() ==> (#[trigger] items[j]).number != 7 || items[j].wire != 2
                || is_absent(wire_items(items[j].payload, 0), 7, 0),
    ensures
        !map_entry_flag(items),
    decreases items.len(),
{
    if items.len() > 0 {
        let last = items[items.len() - 1];
        if last.number == 7 && last.wire == 2 {
            lemma_absent(wire_items(last.payload, 0), 7, 0);
        }
        lemma_no_map_entry(items.drop_last());
    }
}

/// A message that nests none is alone, at every depth up to the limit.
pub proof fn lemma_leaf(items: Seq<WireItem>, prefix: Seq<char>, depth: nat, room: int)
    requires
        forall|i: int| 0 <= i < items.len() ==> is_item(#[trigger] items[i]),
        is_absent(items, 3, 2),
        room > 0,
    ensures
        depth <= 64 ==> flatten(message_bytes(items), prefix, depth, room) == seq![
            message_model(message_bytes(items), prefix),
        ],
        depth > 64 ==> flatten(message_bytes(items), prefix, depth, room).len() == 0,
{
    lemma_message_round_trip(items);
    lemma_absent(items, 3, 2);
    if depth <= 64 {
        let own = message_model(message_bytes(items), prefix);
        assert(seq![own] + Seq::<PMessageModel>::empty() =~= seq![own]);
    }
}

proof fn lemma_leaves(
    list: Seq<Seq<WireItem>>,
    bytes: Seq<Seq<u8>>,
    prefix: Seq<char>,
    depth: nat,
    room: int,
)
    requires
        bytes.len() == list.len(),
        list.len() <= room,
        depth <= 64,
        forall|k: int| 0 <= k < list.len() ==> bytes[k] == message_bytes(#[trigger] list[k]),
        forall|k: int| 0 <= k < list.len() ==> is_absent(#[trigger] list[k], 3, 2),
        forall|k: int, i: int|
            0 <= k < list.len() && 0 <= i < list[k].len() ==> is_item(#[trigger] list[k][i]),
    ensures
        flatten_all(bytes, prefix, depth, room) == Seq::new(
            list.len(),
            |k: int| message_model(bytes[k], prefix),
        ),
    decreases list.len(),
{
    let want = Seq::new(list.len(), |k: int| message_model(bytes[k], prefix));
    if list.len() == 0 {
        assert(want =~= Seq::empty());
    } else {
        lemma_leaf(list[0], prefix, depth, room);
        let rest = list.drop_first();
        assert forall|k: int, i: int|
            0 <= k < rest.len() && 0 <= i < rest[k].len() implies is_item(
            #[trigger] rest[k][i],
        ) by {
            assert(rest[k] == list[k + 1]);
            assert(is_item(list[k + 1][i]));
        }
        assert forall|k: int| 0 <= k < rest.len() implies bytes.drop_first()[k] == message_bytes(
            #[trigger] rest[k],
        ) && is_absent(rest[k], 3, 2) by {
            assert(rest[k] == list[k + 1]);
        }
        lemma_leaves(rest, bytes.drop_first(), prefix, depth, room - 1);
        assert(flatten_all(bytes, prefix, depth, room) =~= want);
    }
}

/// A message comes before those nested in it, which follow in the order of its
/// field 3, each named behind it.
pub proof fn lemma_nested_follow(
    items: Seq<WireItem>,
    nested: Seq<Seq<WireItem>>,
    prefix: Seq<char>,
    depth: nat,
    room: int,
)
    requires
        forall|i: int| 0 <= i < items.len() ==> is_item(#[trigger] items[i]),
        occurrences(items, 3).len() == nested.len(),
        nested.len() <= 4096,
        nested.len() < room,
        depth < 64,
        forall|k: int|
            0 <= k < nested.len() ==> occurrences(items, 3)[k] == message_bytes(
                #[trigger] nested[k],
            ),
        forall|k: int| 0 <= k < nested.len() ==> is_absent(#[trigger] nested[k], 3, 2),
        forall|k: int, i: int|
            0 <= k < nested.len() && 0 <= i < nested[k].len() ==> is_item(#[trigger] nested[k][i]),
    ensures
        ({
            let out = flatten(message_bytes(items), prefix, depth, room);
            &&& out.len() == 1 + nested.len()
            &&& out[0] == message_model(message_bytes(items), prefix)
            &&& forall|k: int|
                0 <= k < nested.len() ==> #[trigger] out[1 + k] == message_model(
                    message_bytes(nested[k]),
                    out[0].name,
                )
        }),
{
    lemma_message_round_trip(items);
    lemma_payloads(items, 3, 2);
    let own = message_model(message_bytes(items), prefix);
    lemma_leaves(nested, occurrences(items, 3), own.name, depth + 1, room - 1);
}

/// A file lists the messages of its field 4, in order, under their own names.
pub proof fn lemma_file_read_back(items: Seq<WireItem>, messages: Seq<Seq<WireItem>>)
    requires
        forall|i: int| 0 <= i < items.len() ==> is_item(#[trigger] items[i]),
        occurrences(items, 4).len() == messages.len(),
        messages.len() <= 4096,
        forall|k: int|
            0 <= k < messages.len() ==> occurrences(items, 4)[k] == message_bytes(
                #[trigger] messages[k],
            ),
        forall|k: int| 0 <= k < messages.len() ==> is_absent(#[trigger] messages[k], 3, 2),
        forall|k: int, i: int|
            0 <= k < messages.len() && 0 <= i < messages[k].len() ==> is_item(
                #[trigger] messages[k][i],
            ),
    ensures
        file_messages(message_bytes(items)).len() == messages.len(),
        forall|k: int|
            0 <= k < messages.len() ==> #[trigger] file_messages(message_bytes(items))[k]
                == message_model(message_bytes(messages[k]), Seq::empty()),
{
    lemma_message_round_trip(items);
    lemma_payloads(items, 4, 2);
    lemma_leaves(messages, occurrences(items, 4), Seq::empty(), 0, 4096);
}

/// No file gives more than 4096 messages.
pub proof fn lemma_file_bounded(buf: Seq<u8>)
    ensures
        file_messages(buf).len() <= 4096,
{
    lemma_flatten_all_bounded(payloads(wire_items(buf, 0), 4, 2), Seq::empty(), 0, 4096);
}

/// A type name without dots names the message that it is or that it ends with
/// behind an underscore.
pub proof fn lemma_plain_type(field_type: Seq<char>, message: Seq<char>)
    requires
        forall|i: int| 0 <= i < field_type.len() ==> field_type[i] != '.',
    ensures
        names_type(field_type, message) <==> field_type == message || (seq!['_']
            + message).is_suffix_of(field_type),
{
    assert(flattened(field_type) =~= field_type);
    let at = field_type.len() - message.len();
    let tail = seq!['_'] + message;
    if at > 0 {
        assert(field_type.subrange(at - 1, field_type.len() as int)[0] == field_type[at - 1]);
        if tail.is_suffix_of(field_type) {
            assert(field_type.subrange(at - 1, field_type.len() as int) =~= tail);
            assert(field_type.subrange(at, field_type.len() as int) =~= message) by {
                assert forall|i: int| 0 <= i < message.len() implies field_type.subrange(
                    at,
                    field_type.len() as int,
                )[i] == message[i] by {
                    assert(field_type.subrange(at - 1, field_type.len() as int)[i + 1] == tail[i
                        + 1]);
                }
            }
        } else if field_type.subrange(at, field_type.len() as int) == message && field_type[at - 1]
            == '_' {
            assert(field_type.subrange(at - 1, field_type.len() as int) =~= tail) by {
                assert forall|i: int| 0 < i < tail.len() implies field_type.subrange(
                    at - 1,
                    field_type.len() as int,
                )[i] == tail[i] by {
                    assert(field_type.subrange(at, field_type.len() as int)[i - 1] == message[i
                        - 1]);
                }
            }
        }
    }
}

proof fn lemma_dots_bounded(name: Seq<char>)
    ensures
        0 <= leading_dots(name) <= name.len(),
    decreases name.len(),
{
    if name.len() > 0 && name[0] == '.' {
        lemma_dots_bounded(name.drop_first());
    }
}

/// A leading dot of a type name says nothing.
pub proof fn lemma_leading_dot(field_type: Seq<char>, message: Seq<char>)
    ensures
        names_type(seq!['.'] + field_type, message) == names_type(field_type, message),
{
    let dotted = seq!['.'] + field_type;
    assert(dotted.drop_first() =~= field_type);
    lemma_dots_bounded(field_type);
    let from = leading_dots(field_type);
    assert(leading_dots(dotted) == 1 + from);
    assert forall|i: int| 0 <= i < field_type.len() - from implies dotted[1 + from + i]
        == #[trigger] field_type[from + i] by {}
    assert(flattened(dotted).len() == flattened(field_type).len());
    assert forall|i: int| 0 <= i < flattened(field_type).len() implies flattened(dotted)[i]
        == flattened(field_type)[i] by {
        assert(dotted[1 + from + i] == field_type[from + i]);
    }
    assert(flattened(dotted) =~= flattened(field_type));
}

/// A dot inside a type name stands for an underscore.
pub proof fn lemma_inner_dot(field_type: Seq<char>, i: int, message: Seq<char>)
    requires
        0 < i < field_type.len(),
        field_type[0] != '.',
        field_type[i] == '.',
    ensures
        names_type(field_type, message) == names_type(field_type.update(i, '_'), message),
{
    assert(flattened(field_type) =~= flattened(field_type.update(i, '_')));
}

/// A file descriptor begins with the length and the name of its file: a visible name of
/// six to 127 bytes that ends in `.proto`.
pub proof fn lemma_descriptor_begins(buf: Seq<u8>, i: int, name: Seq<u8>)
    requires
        0 <= i,
        1 <= name.len() < 128,
        stands_at(buf, seq![0x0Au8, name.len() as u8] + name, i),
    ensures
        is_blob(buf, i) <==> {
            &&& name.len() >= 6
            &&& name.subrange(name.len() - 6, name.len() as int) == seq![
                0x2Eu8,
                0x70,
                0x72,
                0x6F,
                0x74,
                0x6F,
            ]
            &&& forall|k: int| 0 <= k < name.len() ==> 0x20 < #[trigger] name[k] < 0x7F
        },
{
    let head = seq![0x0Au8, name.len() as u8] + name;
    let n = name.len() as int;
    assert(buf[i + 0] == head[0] && buf[i + 1] == head[1]);
    assert(is_varint(buf, i + 1, 1)) by {
        let one = buf.subrange(i + 1, i + 2);
        assert(one.drop_last() =~= Seq::<u8>::empty());
        assert(one.last() == n as u8);
        reveal_with_fuel(digits, 2);
        reveal_with_fuel(pow128, 2);
        assert(digits(one) == n);
    }
    lemma_varint(buf, i + 1, 1);
    assert(digits(buf.subrange(i + 1, i + 2)) == n) by {
        let one = buf.subrange(i + 1, i + 2);
        assert(one.drop_last() =~= Seq::<u8>::empty());
        reveal_with_fuel(digits, 2);
        reveal_with_fuel(pow128, 2);
    }
    let from = i + 2;
    assert forall|k: int| 0 <= k < n implies buf[from + k] == #[trigger] name[k] by {
        assert(buf[i + (2 + k)] == head[2 + k]);
    }
    if n >= 6 {
        let tail = name.subrange(n - 6, n);
        let suffix = proto_suffix();
        if stands_at(buf, suffix, from + n - 6) {
            assert forall|k: int| 0 <= k < 6 implies tail[k] == suffix[k] by {
                assert(buf[from + n - 6 + k] == suffix[k]);
                assert(buf[from + (n - 6 + k)] == name[n - 6 + k]);
            }
            assert(tail =~= suffix);
        }
        if tail == suffix {
            assert forall|k: int| 0 <= k < 6 implies #[trigger] buf[from + n - 6 + k]
                == suffix[k] by {
                assert(tail[k] == name[n - 6 + k]);
                assert(buf[from + (n - 6 + k)] == name[n - 6 + k]);
            }
        }
    }
    if forall|k: int| from <= k < from + n ==> 0x21 <= #[trigger] buf[k] <= 0x7e {
        assert forall|k: int| 0 <= k < n implies 0x20 < #[trigger] name[k] < 0x7F by {
            assert(buf[from + k] == name[k]);
        }
    }
    if forall|k: int| 0 <= k < n ==> 0x20 < #[trigger] name[k] < 0x7F {
        assert forall|k: int| from <= k < from + n implies 0x21 <= #[trigger] buf[k] <= 0x7e by {
            assert(buf[from + (k - from)] == name[k - from]);
        }
    }
}

/// The slot at `p` is that of a table which lays out messages: it holds the address of a
/// file descriptor in the image.
#[verifier::opaque]
pub open spec fn lays_out(buf: Seq<u8>, base: u64, p: int) -> bool {
    &&& 8 <= p
    &&& is_blob_va(buf, base, le8(buf, p) as u64)
    &&& descriptor_messages(buf, base, p - 8) is Some
    &&& descriptor_messages(buf, base, p - 8)->0.len() > 0
}

/// The messages that the table with the slot at `p` lays out.
#[verifier::opaque]
pub open spec fn laid_by(buf: Seq<u8>, base: u64, p: int) -> Seq<ProtoMessageModel> {
    descriptor_messages(buf, base, p - 8)->0
}

/// Every descriptor of an image gives the messages of its first table that lays out
/// any.
pub proof fn lemma_tables_found(buf: Seq<u8>, base: u64, p: int, i: int)
    requires
        p % 8 == 0,
        0 <= p,
        p + 8 <= buf.len(),
        lays_out(buf, base, p),
        forall|q: int| 0 <= q < p && #[trigger] lays_out(buf, base, q) ==> le8(buf, q) != le8(buf, p),
        0 <= i < laid_by(buf, base, p).len(),
    ensures
        image_messages(buf, base).contains(laid_by(buf, base, p)[i]),
{
    lemma_scan_finds(buf, base, p, laid_by(buf, base, p)[i], 0, Set::empty());
}

proof fn lemma_scan_step(
    buf: Seq<u8>,
    base: u64,
    from: int,
    done: Set<u64>,
    want: ProtoMessageModel,
)
    requires
        0 <= from,
        from + 8 <= buf.len(),
    ensures
        lays_out(buf, base, from) && !done.contains(le8(buf, from) as u64) && (laid_by(
            buf,
            base,
            from,
        ).contains(want) || scan_from(
            buf,
            base,
            from + 8,
            done.insert(le8(buf, from) as u64),
        ).contains(want)) ==> scan_from(buf, base, from, done).contains(want),
        !(lays_out(buf, base, from) && !done.contains(le8(buf, from) as u64)) && scan_from(
            buf,
            base,
            from + 8,
            done,
        ).contains(want) ==> scan_from(buf, base, from, done).contains(want),
{
    reveal(lays_out);
    reveal(laid_by);
    lemma_joined(
        laid_by(buf, base, from),
        scan_from(buf, base, from + 8, done.insert(le8(buf, from) as u64)),
        want,
    );
}

proof fn lemma_scan_finds(
    buf: Seq<u8>,
    base: u64,
    p: int,
    want: ProtoMessageModel,
    from: int,
    done: Set<u64>,
)
    requires
        p + 8 <= buf.len(),
        lays_out(buf, base, p),
        forall|q: int| 0 <= q < p && #[trigger] lays_out(buf, base, q) ==> le8(buf, q) != le8(buf, p),
        laid_by(buf, base, p).contains(want),
        0 <= from <= p,
        from % 8 == 0,
        p % 8 == 0,
        !done.contains(le8(buf, p) as u64),
    ensures
        scan_from(buf, base, from, done).contains(want),
    decreases p - from,
{
    lemma_scan_step(buf, base, from, done, want);
    if from < p {
        let va = le8(buf, from) as u64;
        if lays_out(buf, base, from) && !done.contains(va) {
            lemma_eight_bytes(buf, from);
            lemma_eight_bytes(buf, p);
            lemma_scan_finds(buf, base, p, want, from + 8, done.insert(va));
        } else {
            lemma_scan_finds(buf, base, p, want, from + 8, done);
        }
    }
}

proof fn lemma_eight_bytes(buf: Seq<u8>, at: int)
    ensures
        0 <= le8(buf, at) <= u64::MAX,
{
}

/// A module with generated code is in the result under its own name, with the messages of
/// its image, where it has any; no other module is.
pub proof fn lemma_modules_searched(
    map: Map<Seq<char>, Vec<ProtoMessage>>,
    images: Seq<ModuleImage>,
    name: Seq<char>,
    i: int,
)
    requires
        messages_by_module(map, images),
        image_at(images, name, i),
    ensures
        map.contains_key(name) <==> image_messages(images[i].bytes@, images[i].base).len() > 0 && (
        name == "client.dll"@ || name == "engine2.dll"@ || name == "networksystem.dll"@ || name
            == "server.dll"@),
        map.contains_key(name) ==> messages_are(
            map[name]@,
            image_messages(images[i].bytes@, images[i].base),
        ),
{
    assert(map.contains_key(name) || !map.contains_key(name));
    assert(images[i].bytes@ == images[i].bytes@);
    assert forall|k: int| image_at(images, name, k) implies k == i by {
        lemma_image_unique(images, name, i, k);
    }
}

} // verus!
