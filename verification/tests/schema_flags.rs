use cs2_dumper::analysis::schema_flags::{
    class_flag_labels, class_flag_names, decode_bits, enum_flag_names, missing_schema_modules,
    SCHEMA_CF1_CONSTRUCT_ALLOWED, SCHEMA_CF1_HAS_VIRTUAL_MEMBERS,
    SCHEMA_CF1_INFO_TAG_MCONSTRUCTIBLE_CLASS_BASE, SCHEMA_CF1_INFO_TAG_MNETWORK_NO_BASE,
    SCHEMA_CF1_LIMITED_METADATA, SCHEMA_EF_GLOBAL_TYPE_SCOPE, SCHEMA_EF_IS_REGISTERED,
};
use cs2_dumper::analysis::schemas::SchemaMap;

#[test]
fn decodes_shade_class_flags() {
    let flags = SCHEMA_CF1_HAS_VIRTUAL_MEMBERS | SCHEMA_CF1_CONSTRUCT_ALLOWED;
    assert_eq!(
        class_flag_names(flags),
        vec!["Has VTable".to_string(), "Construct Allowed".to_string()]
    );
    assert!(class_flag_names(0).is_empty());
}

#[test]
fn decodes_remaining_shade_class_and_enum_bits() {
    let flags = SCHEMA_CF1_LIMITED_METADATA
        | SCHEMA_CF1_INFO_TAG_MNETWORK_NO_BASE
        | SCHEMA_CF1_INFO_TAG_MCONSTRUCTIBLE_CLASS_BASE;
    let names = class_flag_names(flags);
    assert!(names.iter().any(|n| n == "Limited Metadata"));
    assert!(names.iter().any(|n| n == "MNetworkNoBase"));
    assert!(names.iter().any(|n| n == "MConstructibleClassBase"));
    let labels = class_flag_labels(0, 0x20, true);
    assert_eq!(
        labels,
        vec!["Flags2 0x20".to_string(), "Has Manipulator".to_string()]
    );
    assert_eq!(
        enum_flag_names(SCHEMA_EF_IS_REGISTERED | SCHEMA_EF_GLOBAL_TYPE_SCOPE),
        vec!["Is Registered".to_string(), "Global Type Scope".to_string()]
    );
    assert_eq!(class_flag_names(1 << 30), vec!["Unknown 0x40000000".to_string()]);
}

#[test]
fn reports_schema_modules_the_loadlibrary_dumper_can_see() {
    let mut schemas = SchemaMap::new();
    schemas.insert("client.dll".into(), (Vec::new(), Vec::new()));
    let missing = missing_schema_modules(&schemas);
    assert!(missing.iter().any(|m| m == "meshsystem.dll"));
    assert!(missing.iter().any(|m| m == "vscript.dll"));
    assert!(!missing.iter().any(|m| m == "client.dll"));
}

#[test]
fn bits_without_a_label_are_named_together() {
    let labels = vec![(1u32, "One"), (4u32, "Four")];
    assert_eq!(decode_bits(5, &labels), ["One", "Four"]);
    assert_eq!(decode_bits(0x1A, &labels), ["Unknown 0x1A"]);
    assert_eq!(decode_bits(3, &labels), ["One", "Unknown 0x2"]);
}

/// The label of the seventeenth bit reads like a number that is left over, and
/// still no two values have the same labels.
#[test]
fn no_two_values_have_the_same_labels() {
    let values = [0u32, 0x1, 0x2, 0x3, 0x1_0000, 0x8_0000, 0x9_0000, 0x10_0000, 0x18_0000, !0];
    for (i, a) in values.iter().enumerate() {
        for b in &values[i + 1..] {
            assert_ne!(class_flag_names(*a), class_flag_names(*b));
        }
    }
    for a in 0..=255u8 {
        for b in 0..a {
            assert_ne!(enum_flag_names(a), enum_flag_names(b));
        }
    }
}
