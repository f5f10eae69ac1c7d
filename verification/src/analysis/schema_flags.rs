//! The flag bits of schema classes and enums, as stable labels.

use crate::analysis::schemas::SchemaMap;
use crate::strmap::key_at;
use crate::text::{
    eq_ignore_case, hex, hex_value, lemma_hex_tells, lemma_hex_value, lower_text, push_hex, strings,
};
use vstd::prelude::*;
use vstd::string::*;

verus! {

pub const SCHEMA_CF1_HAS_VIRTUAL_MEMBERS: u32 = 0x1;

pub const SCHEMA_CF1_IS_ABSTRACT: u32 = 0x2;

pub const SCHEMA_CF1_HAS_TRIVIAL_CONSTRUCTOR: u32 = 0x4;

pub const SCHEMA_CF1_HAS_TRIVIAL_DESTRUCTOR: u32 = 0x8;

pub const SCHEMA_CF1_LIMITED_METADATA: u32 = 0x10;

pub const SCHEMA_CF1_INHERITANCE_DEPTH_CALCULATED: u32 = 0x20;

pub const SCHEMA_CF1_MODULE_LOCAL_TYPE_SCOPE: u32 = 0x40;

pub const SCHEMA_CF1_GLOBAL_TYPE_SCOPE: u32 = 0x80;

pub const SCHEMA_CF1_CONSTRUCT_ALLOWED: u32 = 0x100;

pub const SCHEMA_CF1_CONSTRUCT_DISALLOWED: u32 = 0x200;

pub const SCHEMA_CF1_INFO_TAG_MNETWORK_ASSUME_NOT_NETWORKABLE: u32 = 0x400;

pub const SCHEMA_CF1_INFO_TAG_MNETWORK_NO_BASE: u32 = 0x800;

pub const SCHEMA_CF1_INFO_TAG_MIGNORE_TYPE_SCOPE_META_CHECKS: u32 = 0x1000;

pub const SCHEMA_CF1_INFO_TAG_MDISABLE_DATA_DESC_VALIDATION: u32 = 0x2000;

pub const SCHEMA_CF1_INFO_TAG_MCLASS_HAS_ENTITY_LIMITED_DATA_DESC: u32 = 0x4000;

pub const SCHEMA_CF1_INFO_TAG_MCLASS_HAS_CUSTOM_ALIGNED_NEW_DELETE: u32 = 0x8000;

pub const SCHEMA_CF1_UNK016: u32 = 0x1_0000;

pub const SCHEMA_CF1_INFO_TAG_MCONSTRUCTIBLE_CLASS_BASE: u32 = 0x2_0000;

pub const SCHEMA_CF1_INFO_TAG_MHAS_KV3_TRANSFER_POLYMORPHIC_CLASSNAME: u32 = 0x4_0000;

pub const SCHEMA_EF_IS_REGISTERED: u8 = 0x1;

pub const SCHEMA_EF_MODULE_LOCAL_TYPE_SCOPE: u8 = 0x2;

pub const SCHEMA_EF_GLOBAL_TYPE_SCOPE: u8 = 0x4;

/// The labels of the class flags.
pub open spec fn class_table() -> Seq<(u32, Seq<char>)> {
    seq![
        (SCHEMA_CF1_HAS_VIRTUAL_MEMBERS, "Has VTable"@),
        (SCHEMA_CF1_IS_ABSTRACT, "Is Abstract"@),
        (SCHEMA_CF1_HAS_TRIVIAL_CONSTRUCTOR, "Has Trivial Constructor"@),
        (SCHEMA_CF1_HAS_TRIVIAL_DESTRUCTOR, "Has Trivial Destructor"@),
        (SCHEMA_CF1_LIMITED_METADATA, "Limited Metadata"@),
        (SCHEMA_CF1_INHERITANCE_DEPTH_CALCULATED, "Inheritance Depth Calculated"@),
        (SCHEMA_CF1_MODULE_LOCAL_TYPE_SCOPE, "Local Type Scope"@),
        (SCHEMA_CF1_GLOBAL_TYPE_SCOPE, "Global Type Scope"@),
        (SCHEMA_CF1_CONSTRUCT_ALLOWED, "Construct Allowed"@),
        (SCHEMA_CF1_CONSTRUCT_DISALLOWED, "Construct Disallowed"@),
        (
            SCHEMA_CF1_INFO_TAG_MNETWORK_ASSUME_NOT_NETWORKABLE,
            "MNetworkAssumeNotNetworkable"@,
        ),
        (SCHEMA_CF1_INFO_TAG_MNETWORK_NO_BASE, "MNetworkNoBase"@),
        (SCHEMA_CF1_INFO_TAG_MIGNORE_TYPE_SCOPE_META_CHECKS, "MIgnoreTypeScopeMetaChecks"@),
        (SCHEMA_CF1_INFO_TAG_MDISABLE_DATA_DESC_VALIDATION, "MDisableDataDescValidation"@),
        (
            SCHEMA_CF1_INFO_TAG_MCLASS_HAS_ENTITY_LIMITED_DATA_DESC,
            "MClassHasEntityLimitedDataDesc"@,
        ),
        (
            SCHEMA_CF1_INFO_TAG_MCLASS_HAS_CUSTOM_ALIGNED_NEW_DELETE,
            "MClassHasCustomAlignedNewDelete"@,
        ),
        (SCHEMA_CF1_UNK016, "Unknown 0x10000"@),
        (SCHEMA_CF1_INFO_TAG_MCONSTRUCTIBLE_CLASS_BASE, "MConstructibleClassBase"@),
        (
            SCHEMA_CF1_INFO_TAG_MHAS_KV3_TRANSFER_POLYMORPHIC_CLASSNAME,
            "MHasKV3TransferPolymorphicClassname"@,
        ),
    ]
}

/// The labels of the enum flags.
pub open spec fn enum_table() -> Seq<(u32, Seq<char>)> {
    seq![
        (SCHEMA_EF_IS_REGISTERED as u32, "Is Registered"@),
        (SCHEMA_EF_MODULE_LOCAL_TYPE_SCOPE as u32, "Local Type Scope"@),
        (SCHEMA_EF_GLOBAL_TYPE_SCOPE as u32, "Global Type Scope"@),
    ]
}

/// The texts of a table of labels.
pub open spec fn table_of(labels: Seq<(u32, &'static str)>) -> Seq<(u32, Seq<char>)> {
    Seq::new(labels.len(), |i: int| (labels[i].0, labels[i].1@))
}

fn class_labels() -> (labels: Vec<(u32, &'static str)>)
    ensures
        table_of(labels@) == class_table(),
{
    let labels: Vec<(u32, &'static str)> = vec![
        (SCHEMA_CF1_HAS_VIRTUAL_MEMBERS, "Has VTable"),
        (SCHEMA_CF1_IS_ABSTRACT, "Is Abstract"),
        (SCHEMA_CF1_HAS_TRIVIAL_CONSTRUCTOR, "Has Trivial Constructor"),
        (SCHEMA_CF1_HAS_TRIVIAL_DESTRUCTOR, "Has Trivial Destructor"),
        (SCHEMA_CF1_LIMITED_METADATA, "Limited Metadata"),
        (SCHEMA_CF1_INHERITANCE_DEPTH_CALCULATED, "Inheritance Depth Calculated"),
        (SCHEMA_CF1_MODULE_LOCAL_TYPE_SCOPE, "Local Type Scope"),
        (SCHEMA_CF1_GLOBAL_TYPE_SCOPE, "Global Type Scope"),
        (SCHEMA_CF1_CONSTRUCT_ALLOWED, "Construct Allowed"),
        (SCHEMA_CF1_CONSTRUCT_DISALLOWED, "Construct Disallowed"),
        (SCHEMA_CF1_INFO_TAG_MNETWORK_ASSUME_NOT_NETWORKABLE, "MNetworkAssumeNotNetworkable"),
        (SCHEMA_CF1_INFO_TAG_MNETWORK_NO_BASE, "MNetworkNoBase"),
        (SCHEMA_CF1_INFO_TAG_MIGNORE_TYPE_SCOPE_META_CHECKS, "MIgnoreTypeScopeMetaChecks"),
        (SCHEMA_CF1_INFO_TAG_MDISABLE_DATA_DESC_VALIDATION, "MDisableDataDescValidation"),
        (
            SCHEMA_CF1_INFO_TAG_MCLASS_HAS_ENTITY_LIMITED_DATA_DESC,
            "MClassHasEntityLimitedDataDesc",
        ),
        (
            SCHEMA_CF1_INFO_TAG_MCLASS_HAS_CUSTOM_ALIGNED_NEW_DELETE,
            "MClassHasCustomAlignedNewDelete",
        ),
        (SCHEMA_CF1_UNK016, "Unknown 0x10000"),
        (SCHEMA_CF1_INFO_TAG_MCONSTRUCTIBLE_CLASS_BASE, "MConstructibleClassBase"),
        (
            SCHEMA_CF1_INFO_TAG_MHAS_KV3_TRANSFER_POLYMORPHIC_CLASSNAME,
            "MHasKV3TransferPolymorphicClassname",
        ),
    ];
    assert(table_of(labels@) =~= class_table());
    labels
}

fn enum_labels() -> (labels: Vec<(u32, &'static str)>)
    ensures
        table_of(labels@) == enum_table(),
{
    let labels: Vec<(u32, &'static str)> = vec![
        (SCHEMA_EF_IS_REGISTERED as u32, "Is Registered"),
        (SCHEMA_EF_MODULE_LOCAL_TYPE_SCOPE as u32, "Local Type Scope"),
        (SCHEMA_EF_GLOBAL_TYPE_SCOPE as u32, "Global Type Scope"),
    ];
    assert(table_of(labels@) =~= enum_table());
    labels
}

/// The labels of the set bits among the first `n` of a table, in its order.
pub open spec fn labels_set(value: u32, table: Seq<(u32, Seq<char>)>, n: nat) -> Seq<Seq<char>>
    decreases n,
{
    if n == 0 {
        Seq::empty()
    } else {
        let before = labels_set(value, table, (n - 1) as nat);
        if value & table[n - 1].0 != 0 {
            before.push(table[n - 1].1)
        } else {
            before
        }
    }
}

/// The bits that the first `n` of a table name, where they are set.
pub open spec fn bits_known(value: u32, table: Seq<(u32, Seq<char>)>, n: nat) -> u32
    decreases n,
{
    if n == 0 {
        0
    } else {
        let before = bits_known(value, table, (n - 1) as nat);
        if value & table[n - 1].0 != 0 {
            before | table[n - 1].0
        } else {
            before
        }
    }
}

/// The bits that a table does not name.
pub open spec fn bits_unknown(value: u32, table: Seq<(u32, Seq<char>)>) -> u32 {
    value & !bits_known(value, table, table.len())
}

/// A number behind `0x`, in upper case.
pub open spec fn hex_label(label: Seq<char>, n: u32) -> Seq<char> {
    label + "0x"@ + hex(n as nat)
}

/// The labels of a value: those of its named bits, then what is left over.
pub open spec fn decoded(value: u32, table: Seq<(u32, Seq<char>)>) -> Seq<Seq<char>> {
    let named = labels_set(value, table, table.len());
    let rest = bits_unknown(value, table);
    if rest != 0 {
        named.push(hex_label("Unknown "@, rest))
    } else {
        named
    }
}

/// No bit is lost: a set bit that a table names has its label in the result,
/// and the others are exactly those shown as unknown.
pub proof fn lemma_no_bit_lost(value: u32, table: Seq<(u32, Seq<char>)>, i: int)
    requires
        0 <= i < table.len(),
        value & table[i].0 != 0,
    ensures
        decoded(value, table).contains(table[i].1),
        bits_unknown(value, table) & table[i].0 == 0,
{
    lemma_label_set(value, table, i, table.len());
    let named = labels_set(value, table, table.len());
    let k = choose|k: int| 0 <= k < named.len() && named[k] == table[i].1;
    assert(decoded(value, table)[k] == table[i].1);
    let known = bits_known(value, table, table.len());
    let mask = table[i].0;
    assert((value & !known) & mask == 0) by (bit_vector)
        requires
            known & mask == mask,
    ;
}

proof fn lemma_label_set(value: u32, table: Seq<(u32, Seq<char>)>, i: int, n: nat)
    requires
        0 <= i < n <= table.len(),
        value & table[i].0 != 0,
    ensures
        labels_set(value, table, n).contains(table[i].1),
        bits_known(value, table, n) & table[i].0 == table[i].0,
    decreases n,
{
    let before = labels_set(value, table, (n - 1) as nat);
    let known = bits_known(value, table, (n - 1) as nat);
    let now = labels_set(value, table, n);
    let mask = table[i].0;
    let last = table[n - 1].0;
    if i < n - 1 {
        lemma_label_set(value, table, i, (n - 1) as nat);
        let k = choose|k: int| 0 <= k < before.len() && before[k] == table[i].1;
        assert(now[k] == table[i].1);
        assert((known | last) & mask == mask) by (bit_vector)
            requires
                known & mask == mask,
        ;
    } else {
        assert(now[before.len() as int] == table[i].1);
        assert((known | mask) & mask == mask) by (bit_vector);
    }
}

/// A table whose labels tell which bits are set: each names one bit, no two
/// are alike, and none reads like a number that is left over, but for its own
/// bit.
pub open spec fn telling(table: Seq<(u32, Seq<char>)>) -> bool {
    &&& table.len() <= 32
    &&& forall|i: int| 0 <= i < table.len() ==> (#[trigger] table[i]).0 == 1u32 << (i as u32)
    &&& forall|i: int, j: int|
        0 <= i < j < table.len() ==> (#[trigger] table[i]).1 != (#[trigger] table[j]).1
    &&& forall|i: int, rest: u32|
        0 <= i < table.len() && (#[trigger] table[i]).1 == #[trigger] hex_label("Unknown "@, rest)
            ==> rest == table[i].0
}

/// The place of a label of the class flags, by its length and first letters.
spec fn class_place(label: Seq<char>) -> int {
    let n = label.len();
    if n == 10 {
        0
    } else if n == 11 {
        1
    } else if n == 23 && label[0] == 'H' {
        2
    } else if n == 22 {
        3
    } else if n == 16 && label[1] == 'i' {
        4
    } else if n == 28 && label[0] == 'I' {
        5
    } else if n == 16 {
        6
    } else if n == 17 && label[0] == 'G' {
        7
    } else if n == 17 {
        8
    } else if n == 20 {
        9
    } else if n == 28 {
        10
    } else if n == 14 {
        11
    } else if n == 26 && label[1] == 'I' {
        12
    } else if n == 26 {
        13
    } else if n == 30 {
        14
    } else if n == 31 {
        15
    } else if n == 15 {
        16
    } else if n == 23 {
        17
    } else {
        18
    }
}

proof fn lemma_class_label(i: int)
    requires
        0 <= i < class_table().len(),
    ensures
        class_place(class_table()[i].1) == i,
        class_table()[i].1.len() > 0,
        i != 16 ==> class_table()[i].1[0] != 'U',
        class_table()[i].0 == 1u32 << (i as u32),
{
    if i == 0 {
        reveal_strlit("Has VTable");
    } else if i == 1 {
        reveal_strlit("Is Abstract");
    } else if i == 2 {
        reveal_strlit("Has Trivial Constructor");
    } else if i == 3 {
        reveal_strlit("Has Trivial Destructor");
    } else if i == 4 {
        reveal_strlit("Limited Metadata");
    } else if i == 5 {
        reveal_strlit("Inheritance Depth Calculated");
    } else if i == 6 {
        reveal_strlit("Local Type Scope");
    } else if i == 7 {
        reveal_strlit("Global Type Scope");
    } else if i == 8 {
        reveal_strlit("Construct Allowed");
    } else if i == 9 {
        reveal_strlit("Construct Disallowed");
    } else if i == 10 {
        reveal_strlit("MNetworkAssumeNotNetworkable");
    } else if i == 11 {
        reveal_strlit("MNetworkNoBase");
    } else if i == 12 {
        reveal_strlit("MIgnoreTypeScopeMetaChecks");
    } else if i == 13 {
        reveal_strlit("MDisableDataDescValidation");
    } else if i == 14 {
        reveal_strlit("MClassHasEntityLimitedDataDesc");
    } else if i == 15 {
        reveal_strlit("MClassHasCustomAlignedNewDelete");
    } else if i == 16 {
        reveal_strlit("Unknown 0x10000");
    } else if i == 17 {
        reveal_strlit("MConstructibleClassBase");
    } else if i == 18 {
        reveal_strlit("MHasKV3TransferPolymorphicClassname");
    }
    assert(1u32 << 0u32 == 0x1 && 1u32 << 1u32 == 0x2 && 1u32 << 2u32 == 0x4 && 1u32 << 3u32 == 0x8
        && 1u32 << 4u32 == 0x10 && 1u32 << 5u32 == 0x20 && 1u32 << 6u32 == 0x40 && 1u32 << 7u32
        == 0x80 && 1u32 << 8u32 == 0x100 && 1u32 << 9u32 == 0x200 && 1u32 << 10u32 == 0x400 && 1u32
        << 11u32 == 0x800 && 1u32 << 12u32 == 0x1000 && 1u32 << 13u32 == 0x2000 && 1u32 << 14u32
        == 0x4000 && 1u32 << 15u32 == 0x8000 && 1u32 << 16u32 == 0x1_0000 && 1u32 << 17u32
        == 0x2_0000 && 1u32 << 18u32 == 0x4_0000) by (bit_vector);
}

proof fn lemma_unknown_label(rest: u32)
    ensures
        hex_label("Unknown "@, rest).len() > 0,
        hex_label("Unknown "@, rest)[0] == 'U',
        hex_label("Unknown "@, rest) == "Unknown 0x10000"@ ==> rest == 0x1_0000,
{
    reveal_strlit("Unknown ");
    reveal_strlit("0x");
    reveal_strlit("Unknown 0x10000");
    let text = hex_label("Unknown "@, rest);
    if text == "Unknown 0x10000"@ {
        reveal_with_fuel(hex, 6);
        assert(hex(0x1_0000) =~= seq!['1', '0', '0', '0', '0']);
        assert(text.subrange(10, text.len() as int) =~= hex(rest as nat));
        assert("Unknown 0x10000"@.subrange(10, 15) =~= hex(0x1_0000));
        lemma_hex_tells(rest as nat, 0x1_0000);
    }
}

proof fn lemma_class_telling()
    ensures
        telling(class_table()),
{
    let table = class_table();
    assert forall|i: int| 0 <= i < table.len() implies (#[trigger] table[i]).0 == 1u32 << (
    i as u32) by {
        lemma_class_label(i);
    }
    assert forall|i: int, j: int| 0 <= i < j < table.len() implies (#[trigger] table[i]).1 != (
    #[trigger] table[j]).1 by {
        lemma_class_label(i);
        lemma_class_label(j);
    }
    assert forall|i: int, rest: u32|
        0 <= i < table.len() && (#[trigger] table[i]).1 == #[trigger] hex_label(
            "Unknown "@,
            rest,
        ) implies rest == table[i].0 by {
        lemma_class_label(i);
        lemma_unknown_label(rest);
    }
}

proof fn lemma_enum_telling()
    ensures
        telling(enum_table()),
{
    let table = enum_table();
    reveal_strlit("Is Registered");
    reveal_strlit("Local Type Scope");
    reveal_strlit("Global Type Scope");
    assert(1u32 << 0u32 == 0x1 && 1u32 << 1u32 == 0x2 && 1u32 << 2u32 == 0x4) by (bit_vector);
    assert(table[0].1.len() == 13 && table[1].1.len() == 16 && table[2].1.len() == 17);
    assert(table[0].1[0] == 'I' && table[1].1[0] == 'L' && table[2].1[0] == 'G');
    assert forall|i: int, rest: u32|
        0 <= i < table.len() && (#[trigger] table[i]).1 == #[trigger] hex_label(
            "Unknown "@,
            rest,
        ) implies rest == table[i].0 by {
        lemma_unknown_label(rest);
    }
}

proof fn lemma_label_listed(value: u32, table: Seq<(u32, Seq<char>)>, n: nat, k: int)
    requires
        n <= table.len(),
        0 <= k < labels_set(value, table, n).len(),
    ensures
        exists|i: int|
            0 <= i < n && (#[trigger] table[i]).1 == labels_set(value, table, n)[k],
    decreases n,
{
    if n > 0 {
        let before = labels_set(value, table, (n - 1) as nat);
        if k < before.len() {
            lemma_label_listed(value, table, (n - 1) as nat, k);
            let i = choose|i: int| 0 <= i < n - 1 && (#[trigger] table[i]).1 == before[k];
            assert(table[i].1 == labels_set(value, table, n)[k]);
        } else {
            assert(table[n - 1].1 == labels_set(value, table, n)[k]);
        }
    }
}

proof fn lemma_same_known(a: u32, b: u32, table: Seq<(u32, Seq<char>)>, n: nat)
    requires
        telling(table),
        n <= table.len(),
        labels_set(a, table, n) == labels_set(b, table, n),
    ensures
        bits_known(a, table, n) == bits_known(b, table, n),
        bits_known(a, table, n) & a == bits_known(a, table, n),
    decreases n,
{
    if n > 0 {
        let last = (n - 1) as nat;
        let mask = table[n - 1].0;
        let in_a = labels_set(a, table, last);
        let in_b = labels_set(b, table, last);
        if a & mask != 0 {
            if b & mask == 0 {
                assert(in_b == in_a.push(table[n - 1].1));
                lemma_label_listed(b, table, last, in_a.len() as int);
                assert(false);
            }
            assert(in_a.push(table[n - 1].1).drop_last() =~= in_a);
            assert(in_b.push(table[n - 1].1).drop_last() =~= in_b);
        } else if b & mask != 0 {
            assert(in_a == in_b.push(table[n - 1].1));
            lemma_label_listed(a, table, last, in_b.len() as int);
            assert(false);
        }
        lemma_same_known(a, b, table, last);
        let known = bits_known(a, table, last);
        let place = (n - 1) as u32;
        assert(mask == 1u32 << place);
        assert(a & mask != 0 ==> (known | mask) & a == (known | mask)) by (bit_vector)
            requires
                known & a == known,
                mask == 1u32 << place,
                place < 32,
        ;
    } else {
        assert(0u32 & a == 0) by (bit_vector);
    }
}

proof fn lemma_rest_unnamed(value: u32, table: Seq<(u32, Seq<char>)>, i: int)
    requires
        0 <= i < table.len(),
    ensures
        bits_unknown(value, table) & table[i].0 == 0,
{
    let known = bits_known(value, table, table.len());
    let mask = table[i].0;
    if value & mask != 0 {
        lemma_no_bit_lost(value, table, i);
    } else {
        assert((value & !known) & mask == 0) by (bit_vector)
            requires
                value & mask == 0,
        ;
    }
}

proof fn lemma_rest_told(a: u32, b: u32, table: Seq<(u32, Seq<char>)>)
    requires
        telling(table),
        decoded(a, table) == decoded(b, table),
        bits_unknown(a, table) != 0,
    ensures
        bits_unknown(a, table) == bits_unknown(b, table),
        labels_set(a, table, table.len()) == labels_set(b, table, table.len()),
{
    let in_a = labels_set(a, table, table.len());
    let in_b = labels_set(b, table, table.len());
    let rest = bits_unknown(a, table);
    let other = bits_unknown(b, table);
    let text = hex_label("Unknown "@, rest);
    let list = in_a.push(text);
    assert(list.last() == text);
    assert(list.drop_last() =~= in_a);
    if other != 0 {
        let told = hex_label("Unknown "@, other);
        assert(in_b.push(told).last() == told);
        assert(in_b.push(told).drop_last() =~= in_b);
        let start = ("Unknown "@ + "0x"@).len() as int;
        assert(text.subrange(start, text.len() as int) =~= hex(rest as nat));
        assert(told.subrange(start, told.len() as int) =~= hex(other as nat));
        lemma_hex_tells(rest as nat, other as nat);
    } else {
        assert(in_b == list);
        lemma_label_listed(b, table, table.len(), in_a.len() as int);
        let i = choose|i: int| 0 <= i < table.len() && (#[trigger] table[i]).1 == text;
        lemma_rest_unnamed(a, table, i);
        assert(rest & rest == rest) by (bit_vector);
        assert(false);
    }
}

proof fn lemma_labels_tell(a: u32, b: u32, table: Seq<(u32, Seq<char>)>)
    requires
        telling(table),
        decoded(a, table) == decoded(b, table),
    ensures
        a == b,
{
    if bits_unknown(a, table) != 0 {
        lemma_rest_told(a, b, table);
    } else if bits_unknown(b, table) != 0 {
        lemma_rest_told(b, a, table);
    }
    lemma_same_known(a, b, table, table.len());
    lemma_same_known(b, a, table, table.len());
    let known = bits_known(a, table, table.len());
    assert(a == b) by (bit_vector)
        requires
            known & a == known,
            known & b == known,
            a & !known == b & !known,
    ;
}

/// The labels of a class's flags tell the flags: no two values have the same.
pub proof fn lemma_class_flags_tell(a: u32, b: u32)
    ensures
        decoded(a, class_table()) == decoded(b, class_table()) <==> a == b,
{
    lemma_class_telling();
    if decoded(a, class_table()) == decoded(b, class_table()) {
        lemma_labels_tell(a, b, class_table());
    }
}

/// The labels of an enum's flags tell the flags: no two values have the same.
pub proof fn lemma_enum_flags_tell(a: u32, b: u32)
    ensures
        decoded(a, enum_table()) == decoded(b, enum_table()) <==> a == b,
{
    lemma_enum_telling();
    if decoded(a, enum_table()) == decoded(b, enum_table()) {
        lemma_labels_tell(a, b, enum_table());
    }
}

fn labelled(label: &str, n: u32) -> (text: String)
    ensures
        text@ == hex_label(label@, n),
{
    let mut out = label.to_owned();
    out.append("0x");
    push_hex(&mut out, n as u64);
    out
}

/// The labels of the set bits, then the bits that no label names.
pub fn decode_bits(value: u32, labels: &Vec<(u32, &'static str)>) -> (names: Vec<String>)
    ensures
        strings(names@) == decoded(value, table_of(labels@)),
{
    let ghost table = table_of(labels@);
    let mut names: Vec<String> = Vec::new();
    let mut known: u32 = 0;
    let mut i: usize = 0;
    assert(strings(names@) =~= Seq::<Seq<char>>::empty());
    while i < labels.len()
        invariant
            i <= labels@.len(),
            table == table_of(labels@),
            strings(names@) == labels_set(value, table, i as nat),
            known == bits_known(value, table, i as nat),
        decreases labels@.len() - i,
    {
        let (mask, label) = labels[i];
        assert(table[i as int] == (mask, label@));
        if value & mask != 0 {
            let ghost before = strings(names@);
            names.push(label.to_owned());
            assert(strings(names@) =~= before.push(label@));
            known = known | mask;
        }
        i = i + 1;
    }
    let rest: u32 = value & !known;
    if rest != 0 {
        let ghost before = strings(names@);
        let text = labelled("Unknown ", rest);
        names.push(text);
        assert(strings(names@) =~= before.push(text@));
    }
    names
}

/// The labels of a class's flags.
pub fn class_flag_names(flags: u32) -> (names: Vec<String>)
    ensures
        strings(names@) == decoded(flags, class_table()),
{
    let labels = class_labels();
    decode_bits(flags, &labels)
}

/// The labels of a class: its flags, its second flags as a number, and whether
/// it has a manipulator.
pub open spec fn class_labelled(class_flags: u32, flags2: u32, has_manipulator: bool) -> Seq<
    Seq<char>,
> {
    let named = decoded(class_flags, class_table());
    let second = if flags2 != 0 {
        named.push(hex_label("Flags2 "@, flags2))
    } else {
        named
    };
    if has_manipulator {
        second.push("Has Manipulator"@)
    } else {
        second
    }
}

pub fn class_flag_labels(class_flags: u32, flags2: u32, has_manipulator: bool) -> (names: Vec<
    String,
>)
    ensures
        strings(names@) == class_labelled(class_flags, flags2, has_manipulator),
{
    let mut names = class_flag_names(class_flags);
    if flags2 != 0 {
        let ghost before = strings(names@);
        let text = labelled("Flags2 ", flags2);
        names.push(text);
        assert(strings(names@) =~= before.push(text@));
    }
    if has_manipulator {
        let ghost before = strings(names@);
        names.push("Has Manipulator".to_owned());
        assert(strings(names@) =~= before.push("Has Manipulator"@));
    }
    names
}

/// The labels of an enum's flags.
pub fn enum_flag_names(flags: u8) -> (names: Vec<String>)
    ensures
        strings(names@) == decoded(flags as u32, enum_table()),
{
    let labels = enum_labels();
    decode_bits(flags as u32, &labels)
}

/// The modules that register schemas.
pub open spec fn known_modules() -> Seq<Seq<char>> {
    seq![
        "client.dll"@,
        "server.dll"@,
        "engine2.dll"@,
        "schemasystem.dll"@,
        "animationsystem.dll"@,
        "materialsystem2.dll"@,
        "particles.dll"@,
        "scenesystem.dll"@,
        "soundsystem.dll"@,
        "vphysics2.dll"@,
        "networksystem.dll"@,
        "host.dll"@,
        "panorama.dll"@,
        "panorama_text_pango.dll"@,
        "panorama_ui_client.dll"@,
        "rendersystemdx11.dll"@,
        "resourcesystem.dll"@,
        "worldrenderer.dll"@,
        "pulse_system.dll"@,
        "steamaudio.dll"@,
        "meshsystem.dll"@,
        "scenefilecache.dll"@,
        "filesystem_stdio.dll"@,
        "inputsystem.dll"@,
        "localize.dll"@,
        "matchmaking.dll"@,
        "navsystem.dll"@,
        "vscript.dll"@,
        "v8system.dll"@,
        "vconcomm.dll"@,
    ]
}

/// The modules that register schemas. A process shows only those that it has
/// loaded.
pub fn known_schema_modules() -> (modules: Vec<&'static str>)
    ensures
        modules@.len() == known_modules().len(),
        forall|i: int| 0 <= i < modules@.len() ==> (#[trigger] modules@[i])@ == known_modules()[i],
{
    vec![
        "client.dll",
        "server.dll",
        "engine2.dll",
        "schemasystem.dll",
        "animationsystem.dll",
        "materialsystem2.dll",
        "particles.dll",
        "scenesystem.dll",
        "soundsystem.dll",
        "vphysics2.dll",
        "networksystem.dll",
        "host.dll",
        "panorama.dll",
        "panorama_text_pango.dll",
        "panorama_ui_client.dll",
        "rendersystemdx11.dll",
        "resourcesystem.dll",
        "worldrenderer.dll",
        "pulse_system.dll",
        "steamaudio.dll",
        "meshsystem.dll",
        "scenefilecache.dll",
        "filesystem_stdio.dll",
        "inputsystem.dll",
        "localize.dll",
        "matchmaking.dll",
        "navsystem.dll",
        "vscript.dll",
        "v8system.dll",
        "vconcomm.dll",
    ]
}

/// A map holds a module, whatever the case of its name.
pub open spec fn has_module(keys: Set<Seq<char>>, module: Seq<char>) -> bool {
    exists|key: Seq<char>| #[trigger] keys.contains(key) && lower_text(key) == lower_text(module)
}

/// The first `n` of the known modules that a map does not hold.
pub open spec fn missing_modules(keys: Set<Seq<char>>, n: nat) -> Seq<Seq<char>>
    decreases n,
{
    if n == 0 {
        Seq::empty()
    } else {
        let before = missing_modules(keys, (n - 1) as nat);
        if has_module(keys, known_modules()[n - 1]) {
            before
        } else {
            before.push(known_modules()[n - 1])
        }
    }
}

fn schemas_hold(schemas: &SchemaMap, module: &str) -> (found: bool)
    requires
        schemas.wf(),
    ensures
        found == has_module(schemas.map().dom(), module@),
{
    let mut i: usize = 0;
    while i < schemas.entries.len()
        invariant
            schemas.wf(),
            i <= schemas.entries@.len(),
            forall|k: int|
                0 <= k < i ==> lower_text(#[trigger] schemas.entries@[k].0@) != lower_text(module@),
        decreases schemas.entries@.len() - i,
    {
        if eq_ignore_case(schemas.entries[i].0.as_str(), module) {
            proof {
                schemas.lemma_entry(i as int);
                assert(schemas.map().dom().contains(schemas.entries@[i as int].0@));
            }
            return true;
        }
        i = i + 1;
    }
    proof {
        if has_module(schemas.map().dom(), module@) {
            let key = choose|key: Seq<char>| #[trigger]
                schemas.map().dom().contains(key) && lower_text(key) == lower_text(module@);
            let k = choose|k: int| key_at(schemas.entries@, key, k);
            assert(schemas.entries@[k].0@ == key);
        }
    }
    false
}

/// The known modules of which a dump holds no schemas.
pub fn missing_schema_modules(schemas: &SchemaMap) -> (missing: Vec<String>)
    requires
        schemas.wf(),
    ensures
        strings(missing@) == missing_modules(schemas.map().dom(), known_modules().len()),
{
    let modules = known_schema_modules();
    let mut missing: Vec<String> = Vec::new();
    let mut i: usize = 0;
    assert(strings(missing@) =~= Seq::<Seq<char>>::empty());
    while i < modules.len()
        invariant
            schemas.wf(),
            i <= modules@.len(),
            modules@.len() == known_modules().len(),
            forall|k: int|
                0 <= k < modules@.len() ==> (#[trigger] modules@[k])@ == known_modules()[k],
            strings(missing@) == missing_modules(schemas.map().dom(), i as nat),
        decreases modules@.len() - i,
    {
        assert(modules@[i as int]@ == known_modules()[i as int]);
        if !schemas_hold(schemas, modules[i]) {
            let ghost before = strings(missing@);
            missing.push(modules[i].to_owned());
            assert(strings(missing@) =~= before.push(known_modules()[i as int]));
        }
        i = i + 1;
    }
    missing
}

/// Each flag of a class that is set is labelled.
pub proof fn lemma_class_flags_labelled(flags: u32)
    ensures
        flags & 0x1 != 0 ==> decoded(flags, class_table()).contains("Has VTable"@),
        flags & 0x2 != 0 ==> decoded(flags, class_table()).contains("Is Abstract"@),
        flags & 0x4 != 0 ==> decoded(flags, class_table()).contains("Has Trivial Constructor"@),
        flags & 0x8 != 0 ==> decoded(flags, class_table()).contains("Has Trivial Destructor"@),
        flags & 0x10 != 0 ==> decoded(flags, class_table()).contains("Limited Metadata"@),
        flags & 0x20 != 0 ==> decoded(flags, class_table()).contains("Inheritance Depth Calculated"@),
        flags & 0x40 != 0 ==> decoded(flags, class_table()).contains("Local Type Scope"@),
        flags & 0x80 != 0 ==> decoded(flags, class_table()).contains("Global Type Scope"@),
        flags & 0x100 != 0 ==> decoded(flags, class_table()).contains("Construct Allowed"@),
        flags & 0x200 != 0 ==> decoded(flags, class_table()).contains("Construct Disallowed"@),
        flags & 0x400 != 0 ==> decoded(flags, class_table()).contains("MNetworkAssumeNotNetworkable"@),
        flags & 0x800 != 0 ==> decoded(flags, class_table()).contains("MNetworkNoBase"@),
        flags & 0x1000 != 0 ==> decoded(flags, class_table()).contains("MIgnoreTypeScopeMetaChecks"@),
        flags & 0x2000 != 0 ==> decoded(flags, class_table()).contains("MDisableDataDescValidation"@),
        flags & 0x4000 != 0 ==> decoded(flags, class_table()).contains("MClassHasEntityLimitedDataDesc"@),
        flags & 0x8000 != 0 ==> decoded(flags, class_table()).contains("MClassHasCustomAlignedNewDelete"@),
        flags & 0x1_0000 != 0 ==> decoded(flags, class_table()).contains("Unknown 0x10000"@),
        flags & 0x2_0000 != 0 ==> decoded(flags, class_table()).contains("MConstructibleClassBase"@),
        flags & 0x4_0000 != 0 ==> decoded(flags, class_table()).contains("MHasKV3TransferPolymorphicClassname"@),
{
    if flags & 0x1 != 0 {
        lemma_no_bit_lost(flags, class_table(), 0);
    }
    if flags & 0x2 != 0 {
        lemma_no_bit_lost(flags, class_table(), 1);
    }
    if flags & 0x4 != 0 {
        lemma_no_bit_lost(flags, class_table(), 2);
    }
    if flags & 0x8 != 0 {
        lemma_no_bit_lost(flags, class_table(), 3);
    }
    if flags & 0x10 != 0 {
        lemma_no_bit_lost(flags, class_table(), 4);
    }
    if flags & 0x20 != 0 {
        lemma_no_bit_lost(flags, class_table(), 5);
    }
    if flags & 0x40 != 0 {
        lemma_no_bit_lost(flags, class_table(), 6);
    }
    if flags & 0x80 != 0 {
        lemma_no_bit_lost(flags, class_table(), 7);
    }
    if flags & 0x100 != 0 {
        lemma_no_bit_lost(flags, class_table(), 8);
    }
    if flags & 0x200 != 0 {
        lemma_no_bit_lost(flags, class_table(), 9);
    }
    if flags & 0x400 != 0 {
        lemma_no_bit_lost(flags, class_table(), 10);
    }
    if flags & 0x800 != 0 {
        lemma_no_bit_lost(flags, class_table(), 11);
    }
    if flags & 0x1000 != 0 {
        lemma_no_bit_lost(flags, class_table(), 12);
    }
    if flags & 0x2000 != 0 {
        lemma_no_bit_lost(flags, class_table(), 13);
    }
    if flags & 0x4000 != 0 {
        lemma_no_bit_lost(flags, class_table(), 14);
    }
    if flags & 0x8000 != 0 {
        lemma_no_bit_lost(flags, class_table(), 15);
    }
    if flags & 0x1_0000 != 0 {
        lemma_no_bit_lost(flags, class_table(), 16);
    }
    if flags & 0x2_0000 != 0 {
        lemma_no_bit_lost(flags, class_table(), 17);
    }
    if flags & 0x4_0000 != 0 {
        lemma_no_bit_lost(flags, class_table(), 18);
    }
}

/// Each flag of an enum that is set is labelled.
pub proof fn lemma_enum_flags_labelled(flags: u32)
    ensures
        flags & 1 != 0 ==> decoded(flags, enum_table()).contains("Is Registered"@),
        flags & 2 != 0 ==> decoded(flags, enum_table()).contains("Local Type Scope"@),
        flags & 4 != 0 ==> decoded(flags, enum_table()).contains("Global Type Scope"@),
{
    if flags & 1 != 0 {
        lemma_no_bit_lost(flags, enum_table(), 0);
    }
    if flags & 2 != 0 {
        lemma_no_bit_lost(flags, enum_table(), 1);
    }
    if flags & 4 != 0 {
        lemma_no_bit_lost(flags, enum_table(), 2);
    }
}

/// The labels of a class are those of its flags; its second flags come behind
/// them, as a number that can be read back, where any is set, and the manipulator
/// comes last, where it has one.
pub proof fn lemma_class_labels(flags: u32, second: u32)
    ensures
        class_labelled(flags, 0, false) == decoded(flags, class_table()),
        class_labelled(flags, second, true) == class_labelled(flags, second, false).push(
            "Has Manipulator"@,
        ),
        second != 0 ==> {
            let labels = class_labelled(flags, second, false);
            let text = labels.last();
            &&& labels.drop_last() == class_labelled(flags, 0, false)
            &&& text.subrange(0, 9) == "Flags2 0x"@
            &&& hex_value(text.subrange(9, text.len() as int)) == second
        },
{
    let before = class_labelled(flags, 0, false);
    if second != 0 {
        let labels = class_labelled(flags, second, false);
        let text = hex_label("Flags2 "@, second);
        assert(labels == before.push(text));
        assert(labels.drop_last() =~= before);
        reveal_strlit("Flags2 ");
        reveal_strlit("0x");
        reveal_strlit("Flags2 0x");
        assert(text.subrange(0, 9) =~= "Flags2 0x"@);
        assert(text.subrange(9, text.len() as int) =~= hex(second as nat));
        lemma_hex_value(second as nat);
    }
}

/// The known modules that a dump lacks are named in their order: all those of
/// which, whatever the case, it has no entry, and no others.
pub proof fn lemma_missing_modules(keys: Set<Seq<char>>, n: nat)
    requires
        n <= 30,
    ensures
        missing_modules(keys, n) == known_modules().subrange(0, n as int).filter(
            |module: Seq<char>|
                forall|key: Seq<char>| #[trigger]
                    keys.contains(key) ==> lower_text(key) != lower_text(module),
        ),
    decreases n,
{
    let lacks = |module: Seq<char>|
        forall|key: Seq<char>| #[trigger]
            keys.contains(key) ==> lower_text(key) != lower_text(module);
    reveal(Seq::filter);
    let head = known_modules().subrange(0, n as int);
    if n > 0 {
        lemma_missing_modules(keys, (n - 1) as nat);
        assert(head.drop_last() =~= known_modules().subrange(0, n - 1));
        assert(head.last() == known_modules()[n - 1]);
        assert(lacks(head.last()) <==> !has_module(keys, head.last()));
    } else {
        assert(head =~= Seq::<Seq<char>>::empty());
    }
}

} // verus!
