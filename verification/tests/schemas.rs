use cs2_dumper::analysis::analyze::{schemas_from_system_va, Target};
use cs2_dumper::analysis::global_anchor::read_head;
use cs2_dumper::analysis::module_data::ModuleRecord;
use cs2_dumper::analysis::schema_anchor::{
    read_raw_type_scopes, SchemaSystem, SchemaSystemError,
};
use cs2_dumper::analysis::schemas::{
    array_element_address, bounded_schema_count, field_offset, intern_name_bytes,
    read_class_binding, read_class_binding_fields, read_class_binding_metadata, read_enum_binding,
    read_field_metadata, read_type_scopes, schema_name, schemas_from_scopes,
    validate_schema_system, Class, ClassField, ClassMetadata, Enum, RawTypeScope, SchemaError,
    SchemaLayout, SchemaMap, MAX_CLASS_FIELDS, SCHEMA_NAME_MAX, SCHEMA_NAME_SPAN,
};
use cs2_dumper::memory::fake::FakeMemory;
use cs2_dumper::patterns::PatternHit;
use cs2_dumper::process::analyze_process;

/// A shape of the schema records.
fn layout() -> SchemaLayout {
    SchemaLayout {
        class_span: 0x80,
        class_name: 0x08,
        class_size: 0x18,
        class_alignment: 0x20,
        class_field_count: 0x1C,
        class_fields: 0x28,
        class_bases: 0x38,
        class_metadata_count: 0x1E,
        class_metadata: 0x48,
        class_flags: 0x50,
        class_flags2: 0x54,
        class_manipulator: 0x58,
        base_span: 0x10,
        base_class: 0x08,
        field_span: 0x20,
        field_name: 0x00,
        field_type: 0x08,
        field_offset: 0x10,
        field_metadata_count: 0x14,
        field_metadata: 0x18,
        type_span: 0x18,
        type_text: 0x08,
        metadata_span: 0x10,
        metadata_name: 0x00,
        metadata_value: 0x08,
        value_span: 0x10,
        value_name: 0x00,
        value_var_name: 0x00,
        value_var_type: 0x08,
        enum_span: 0x40,
        enum_name: 0x08,
        enum_alignment: 0x18,
        enum_size: 0x19,
        enum_count: 0x1C,
        enum_members: 0x20,
        enum_flags: 0x1A,
        member_span: 0x18,
        member_name: 0x00,
        member_value: 0x08,
    }
}

fn class(name: &str, parent_name: Option<&str>, fields: &[(&str, i32)]) -> Class {
    Class {
        name: name.into(),
        module_name: "client.dll".into(),
        parent_name: parent_name.map(str::to_owned),
        size: 0,
        alignment: 1,
        metadata: Vec::new(),
        fields: fields
            .iter()
            .map(|(name, offset)| ClassField {
                name: (*name).into(),
                field_type: "int".into(),
                offset: *offset,
                metadata: Vec::new(),
            })
            .collect(),
        static_fields: Vec::new(),
        flags: Vec::new(),
    }
}

#[test]
fn enum_storage_bytes_prefers_schema_size_over_alignment() {
    let e = Enum {
        name: "E".into(),
        alignment: 4,
        size: 1,
        members: Vec::new(),
        flags: Vec::new(),
    };
    assert_eq!(e.storage_bytes(), 1);
    let fallback = Enum {
        name: "E".into(),
        alignment: 2,
        size: 0,
        members: Vec::new(),
        flags: Vec::new(),
    };
    assert_eq!(fallback.storage_bytes(), 2);
}

#[test]
fn field_offset_walks_base_classes() {
    let mut schemas = SchemaMap::new();
    schemas.insert(
        "client.dll".into(),
        (
            vec![
                class("Derived", Some("Base"), &[]),
                class("Base", None, &[("m_iHealth", 0x10)]),
            ],
            Vec::new(),
        ),
    );
    assert_eq!(field_offset(&schemas, "Derived", "m_iHealth"), Some(0x10));
    assert_eq!(field_offset(&schemas, "Derived", "missing"), None);
}

#[test]
fn field_offset_stops_on_inheritance_cycles() {
    let mut schemas = SchemaMap::new();
    schemas.insert(
        "client.dll".into(),
        (
            vec![class("A", Some("B"), &[]), class("B", Some("A"), &[])],
            Vec::new(),
        ),
    );
    assert_eq!(field_offset(&schemas, "A", "missing"), None);
}

#[test]
fn intern_cstr_name_utf8_is_exact() {
    assert_eq!(intern_name_bytes(b"client.dll", &Vec::new()), "client.dll");
}

#[test]
fn intern_cstr_name_lossy_on_invalid_utf8() {
    let interned = intern_name_bytes(b"bad\xFFdll", &Vec::new());
    assert!(!interned.as_bytes().contains(&0xFF));
    assert!(interned.starts_with("bad"));
    assert!(interned.ends_with("dll"));
}

#[test]
fn intern_name_bytes_does_not_read_past_a_256_byte_buffer() {
    let bytes = [b'Z'; 256];
    let name = intern_name_bytes(&bytes, &Vec::new());
    assert_eq!(name.len(), 256);
    assert!(name.bytes().all(|b| b == b'Z'));
}

#[test]
fn negative_schema_counts_are_empty_and_do_not_panic() {
    assert_eq!(bounded_schema_count(-1, MAX_CLASS_FIELDS), 0);
    assert_eq!(bounded_schema_count(0, MAX_CLASS_FIELDS), 0);
    assert_eq!(bounded_schema_count(4, MAX_CLASS_FIELDS), 4);
    let mut mem = FakeMemory::new();
    let l = layout();
    let record = mem.allocate(0x80);
    mem.put_u16(record + l.class_field_count, 0xFFFF);
    mem.put_ptr(record + l.class_fields, 0x1000);
    mem.put_u16(record + l.class_metadata_count, 0xFFFF);
    mem.put_ptr(record + l.class_metadata, 0x2000);
    let binding = read_head(mem.memory(), record, l.class_span);
    assert!(read_class_binding_fields(mem.memory(), &l, &binding).is_empty());
    assert!(read_class_binding_metadata(mem.memory(), &l, &binding).is_empty());
    let entry = mem.allocate(0x20);
    mem.put_i32(entry + l.field_metadata_count, -3);
    mem.put_ptr(entry + l.field_metadata, 0x3000);
    let field = read_head(mem.memory(), entry, l.field_span);
    assert!(read_field_metadata(mem.memory(), &l, &field).is_empty());
}

#[test]
fn a_failing_type_scope_does_not_drop_already_read_scopes() {
    let mut mem = FakeMemory::new();
    let scope_va = mem.allocate(0x200);
    let mut name = [0u8; 256];
    name[..10].copy_from_slice(b"client.dll");
    mem.put(scope_va + 8, &name);
    let list = mem.allocate(16);
    mem.put_ptr(list, scope_va);
    mem.put_ptr(list + 8, 0x1);
    let system = SchemaSystem {
        address: 0,
        registration_count: 0,
        scope_count: 2,
        scope_array: list,
    };
    let scopes = read_raw_type_scopes(mem.memory(), &system, &Vec::new());
    assert_eq!(scopes.len(), 1);
    assert_eq!(scopes[0].module_name, "client.dll");
    assert_eq!(scopes[0].address, scope_va);
}

/// An unreadable name arrives as an empty one, and must not become a row.
#[test]
fn a_field_whose_name_is_unreadable_is_dropped_not_emitted_as_anonymous() {
    let mut mem = FakeMemory::new();
    let l = layout();
    let text = mem.alloc_cstr("int32");
    let ty = mem.allocate(0x18);
    mem.put_ptr(ty + 0x08, text);

    let stride = l.field_span as u64;
    let fields = mem.allocate(2 * stride as usize);
    let good = mem.alloc_cstr("m_iHealth");
    mem.put_ptr(fields, good);
    mem.put_ptr(fields + 0x08, ty);
    mem.put_i32(fields + 0x10, 0x10);
    // A plausible pointer that was never mapped — the DMA short-read case.
    let unmapped = 0x0000_7FF0_DEAD_0000u64;
    assert!(!mem.is_mapped(unmapped));
    mem.put_ptr(fields + stride, unmapped);
    mem.put_ptr(fields + stride + 0x08, ty);
    mem.put_i32(fields + stride + 0x10, 0x14);

    let record = mem.allocate(0x80);
    mem.put_u16(record + l.class_field_count, 2);
    mem.put_ptr(record + l.class_fields, fields);
    let binding = read_head(mem.memory(), record, l.class_span);

    let found = read_class_binding_fields(mem.memory(), &l, &binding);
    assert_eq!(found.len(), 1, "the unreadable field must not become a row");
    assert_eq!(found[0].name, "m_iHealth");
    assert_eq!(found[0].field_type, "int32");
}

/// A name that fills the first window has no terminator in it, so the short
/// read cannot be trusted.
#[test]
fn a_name_longer_than_the_first_window_is_read_in_full() {
    let long = format!("CUtlOrderedMap<CUtlString,CUtlVector<{}>>", "C".repeat(120));
    assert!(long.len() > SCHEMA_NAME_SPAN && long.len() < SCHEMA_NAME_MAX);
    let mut mem = FakeMemory::new();
    let at = mem.alloc_cstr(&long);
    assert_eq!(
        schema_name(mem.memory(), at).as_deref(),
        Some(long.as_str())
    );
}

#[test]
fn a_null_or_unreadable_name_pointer_has_no_name() {
    let mem = FakeMemory::new();
    assert_eq!(schema_name(mem.memory(), 0), None);
    assert_eq!(schema_name(mem.memory(), 0x1000), None);
}

/// A class with a base, one field, and one entry of metadata.
fn build_class(mem: &mut FakeMemory, l: &SchemaLayout, tag: &str) -> u64 {
    let base = mem.allocate(0x80);
    let base_name = mem.alloc_cstr("C_Base");
    mem.put_ptr(base + l.class_name, base_name);
    let bases = mem.allocate(0x10);
    mem.put_ptr(bases + l.base_class, base);

    let text = mem.alloc_cstr("CUtlVector< int >");
    let ty = mem.allocate(0x18);
    mem.put_ptr(ty + l.type_text, text);
    let fields = mem.allocate(0x20);
    let field_name = mem.alloc_cstr("m_list");
    mem.put_ptr(fields + l.field_name, field_name);
    mem.put_ptr(fields + l.field_type, ty);
    mem.put_i32(fields + l.field_offset, 0x40);

    let metadata = mem.allocate(0x10);
    let tag_name = mem.alloc_cstr(tag);
    let value = mem.allocate(0x10);
    let var_name = mem.alloc_cstr("m_list");
    let var_type = mem.alloc_cstr("CUtlVector< int >");
    mem.put_ptr(value + l.value_var_name, var_name);
    mem.put_ptr(value + l.value_var_type, var_type);
    mem.put_ptr(metadata + l.metadata_name, tag_name);
    mem.put_ptr(metadata + l.metadata_value, value);

    let class = mem.allocate(0x80);
    let name = mem.alloc_cstr("C_Derived");
    mem.put_ptr(class + l.class_name, name);
    mem.put_i32(class + l.class_size, 0x58);
    mem.put_u8(class + l.class_alignment, 8);
    mem.put_u16(class + l.class_field_count, 1);
    mem.put_ptr(class + l.class_fields, fields);
    mem.put_ptr(class + l.class_bases, bases);
    mem.put_u16(class + l.class_metadata_count, 1);
    mem.put_ptr(class + l.class_metadata, metadata);
    mem.put_u32(class + l.class_flags, 1);
    class
}

#[test]
fn a_class_is_read_with_its_base_fields_and_metadata() {
    let mut mem = FakeMemory::new();
    let l = layout();
    let at = build_class(&mut mem, &l, "MNetworkVarNames");
    let class = read_class_binding(mem.memory(), &l, at, None, "client.dll").expect("class");
    assert_eq!(class.name, "C_Derived");
    assert_eq!(class.module_name, "client.dll");
    assert_eq!(class.parent_name.as_deref(), Some("C_Base"));
    assert_eq!(class.size, 0x58);
    assert_eq!(class.fields.len(), 1);
    assert_eq!(class.fields[0].name, "m_list");
    assert_eq!(class.fields[0].offset, 0x40);
    assert_eq!(class.flags, ["Has VTable"]);
    match &class.metadata[0] {
        ClassMetadata::NetworkVarNames { name, var_type } => {
            assert_eq!(name, "m_list");
            assert_eq!(var_type, "CUtlVector<int>");
        }
        other => panic!("{other:?}"),
    }

    let at = build_class(&mut mem, &l, "MNetworkChangeCallback");
    let class = read_class_binding(mem.memory(), &l, at, None, "client.dll").expect("class");
    assert!(matches!(
        &class.metadata[0],
        ClassMetadata::NetworkChangeCallback { name } if name == "m_list"
    ));
    let at = build_class(&mut mem, &l, "MOther");
    let class = read_class_binding(mem.memory(), &l, at, None, "client.dll").expect("class");
    assert!(matches!(&class.metadata[0], ClassMetadata::Unknown { name } if name == "MOther"));
    assert!(read_class_binding(mem.memory(), &l, 0x10, None, "client.dll").is_none());
}

#[test]
fn an_enum_is_read_with_its_members() {
    let mut mem = FakeMemory::new();
    let l = layout();
    let members = mem.allocate(0x30);
    let first = mem.alloc_cstr("ONE");
    mem.put_ptr(members, first);
    mem.put_u64(members + l.member_value, u64::MAX);
    let at = mem.allocate(0x40);
    let name = mem.alloc_cstr("Numbers_t");
    mem.put_ptr(at + l.enum_name, name);
    mem.put_u8(at + l.enum_alignment, 4);
    mem.put_u8(at + l.enum_size, 4);
    mem.put_u8(at + l.enum_flags, 1);
    mem.put_u16(at + l.enum_count, 2);
    mem.put_ptr(at + l.enum_members, members);
    let e = read_enum_binding(mem.memory(), &l, at).expect("enum");
    assert_eq!(e.name, "Numbers_t");
    assert_eq!(e.storage_bytes(), 4);
    assert_eq!(e.flags, ["Is Registered"]);
    // The second member has no name.
    assert_eq!(e.members.len(), 1);
    assert_eq!(e.members[0].name, "ONE");
    assert_eq!(e.members[0].value, -1);
    assert!(read_enum_binding(mem.memory(), &l, 0x10).is_none());
}

#[test]
fn scopes_without_readable_bindings_are_left_out() {
    let mut mem = FakeMemory::new();
    let l = layout();
    let at = build_class(&mut mem, &l, "MOther");
    let raw = vec![
        RawTypeScope {
            module_name: "client.dll".into(),
            class_bindings: vec![at, 0x10],
            enum_bindings: Vec::new(),
        },
        RawTypeScope {
            module_name: "empty.dll".into(),
            class_bindings: vec![0x10],
            enum_bindings: vec![0x20],
        },
    ];
    let map = schemas_from_scopes(read_type_scopes(mem.memory(), &l, &raw));
    assert_eq!(map.len(), 1);
    assert_eq!(map.get("client.dll").unwrap().0.len(), 1);
    assert_eq!(field_offset(&map, "C_Derived", "m_list"), Some(0x40));
}

#[test]
fn scope_counts_are_validated() {
    assert_eq!(validate_schema_system(0, 5), Err(SchemaError::NoRegistrations));
    assert_eq!(validate_schema_system(5, 0), Err(SchemaError::NoRegistrations));
    assert_eq!(validate_schema_system(5, 513), Err(SchemaError::InvalidScopeCount(513)));
    assert_eq!(validate_schema_system(5, 512), Ok(()));
}

#[test]
fn a_scope_name_is_spelled_as_the_module_list_does() {
    let modules = vec![ModuleRecord { name: "Client.DLL".into(), base: 0, size: 0 }];
    assert_eq!(intern_name_bytes(b"client.dll\0junk", &modules), "Client.DLL");
}

#[test]
fn element_addresses_do_not_wrap() {
    assert_eq!(array_element_address(0x1000, 3, 0x20), Some(0x1060));
    assert_eq!(array_element_address(u64::MAX, 1, 1), None);
    assert_eq!(array_element_address(0, usize::MAX, 2), None);
}

/// A type scope with a name.
fn scope_named(mem: &mut FakeMemory, name: &str) -> u64 {
    let scope = mem.allocate(0x200);
    let mut text = [0u8; 256];
    text[..name.len()].copy_from_slice(name.as_bytes());
    mem.put(scope + 8, &text);
    scope
}

#[test]
fn a_schema_system_at_an_address_must_be_in_use() {
    let mut mem = FakeMemory::new();
    let l = layout();
    let at = build_class(&mut mem, &l, "MOther");
    let client = scope_named(&mut mem, "client.dll");
    let nameless = scope_named(&mut mem, "");
    let server = scope_named(&mut mem, "server.dll");
    let list = mem.allocate(24);
    mem.put_ptr(list, client);
    mem.put_ptr(list + 8, nameless);
    mem.put_ptr(list + 16, server);
    let modules = vec![ModuleRecord { name: "Server.dll".into(), base: 0, size: 0 }];
    let bindings = vec![
        (server, vec![at], Vec::new()),
        (nameless, vec![at], Vec::new()),
        (server, Vec::new(), Vec::new()),
    ];
    let system = mem.allocate(0x284);
    assert_eq!(
        schemas_from_system_va(mem.memory(), system, &l, &modules, &bindings).unwrap_err(),
        SchemaSystemError::Invalid(SchemaError::NoRegistrations)
    );
    mem.put_i32(system + 0x190, 3);
    mem.put_ptr(system + 0x198, list);
    mem.put_i32(system + 0x280, 5);
    let read = |bindings: &Vec<(u64, Vec<u64>, Vec<u64>)>| {
        schemas_from_system_va(mem.memory(), system, &l, &modules, bindings).expect("schemas")
    };
    // Only the scope whose bindings are listed holds anything, and it is spelled
    // as the module list does.
    let map = read(&bindings);
    assert_eq!(map.len(), 1);
    assert_eq!(map.get("Server.dll").unwrap().0.len(), 1);
    let both = vec![(client, vec![at], Vec::new()), (server, vec![at, at], Vec::new())];
    let map = read(&both);
    assert_eq!(map.len(), 2);
    assert_eq!(map.get("client.dll").unwrap().0.len(), 1);
    assert_eq!(map.get("Server.dll").unwrap().0.len(), 2);
    assert!(read(&Vec::new()).is_empty());
}

/// A class binding whose name is the only thing to read.
fn class_named(mem: &mut FakeMemory, l: &SchemaLayout, name: &str) -> u64 {
    let at = mem.allocate(l.class_span);
    let text = mem.alloc_cstr(name);
    mem.put_ptr(at + l.class_name, text);
    at
}

/// A schema system with one scope of a module.
fn system_with(mem: &mut FakeMemory, module: &str) -> (u64, u64) {
    let scope = scope_named(mem, module);
    let list = mem.allocate(8);
    mem.put_ptr(list, scope);
    let system = mem.allocate(0x284);
    mem.put_i32(system + 0x190, 1);
    mem.put_ptr(system + 0x198, list);
    mem.put_i32(system + 0x280, 5);
    (system, scope)
}

#[test]
fn the_loaders_schema_system_comes_before_the_one_of_a_pattern() {
    let mut mem = FakeMemory::new();
    let l = layout();
    let class = class_named(&mut mem, &l, "C_Thing");
    let (loaded, loaded_scope) = system_with(&mut mem, "loaded.dll");
    let (matched, matched_scope) = system_with(&mut mem, "matched.dll");
    let hits = vec![PatternHit {
        name: "pSchemaSystem".into(),
        module: "schemasystem.dll".into(),
        found: true,
        rva: None,
        va: Some(matched),
    }];
    let target = |bindings: Vec<(u64, Vec<u64>, Vec<u64>)>, mem: FakeMemory| Target {
        mem: mem.memory,
        images: Vec::new(),
        pe_images: Vec::new(),
        modules: Vec::new(),
        layout: layout(),
        bindings,
        classes: Vec::new(),
    };
    let mut target = target(
        vec![
            (loaded_scope, vec![class], Vec::new()),
            (matched_scope, vec![class], Vec::new()),
        ],
        mem,
    );
    let found = |target: &Target, hits: &Vec<PatternHit>, va: Option<u64>| -> Vec<String> {
        let dump = analyze_process(target, hits, va, |_bits: Vec<u32>| false);
        dump.result.schemas.entries.iter().map(|entry| entry.0.clone()).collect()
    };
    assert_eq!(found(&target, &hits, Some(loaded)), ["loaded.dll"]);
    assert_eq!(found(&target, &hits, None), ["matched.dll"]);
    // An address that leads nowhere is passed over.
    assert_eq!(found(&target, &hits, Some(0x10)), ["matched.dll"]);
    assert!(found(&target, &Vec::new(), None).is_empty());
    // So is a system that holds nothing.
    target.bindings.remove(0);
    assert_eq!(found(&target, &hits, Some(loaded)), ["matched.dll"]);
}
