use cs2_dumper::analysis::static_fields::{
    candidate_layout, detect_layout, plausible_ident, plausible_type_name, read_static_fields,
    StaticFieldLayout, MIN_EVIDENCE, TYPE_NAME,
};
use cs2_dumper::memory::fake::FakeMemory;

/// Statics laid into every fake binding: (name, type name).
const SAMPLE: &[(&str, &str)] = &[
    ("m_bIsDefault", "bool"),
    ("s_flTickInterval", "float32"),
    ("sm_pInstance", "CGameRules*"),
];

/// Build a `SchemaClassInfoData`-shaped binding whose static-field array
/// uses `layout`, and return its VA plus the array's VA.
fn build_binding_with_array(
    mem: &mut FakeMemory,
    layout: StaticFieldLayout,
    statics: usize,
) -> (u64, u64) {
    let binding = mem.allocate(0x80);
    if statics == 0 {
        return (binding, 0);
    }
    let array = mem.allocate(layout.stride as usize * statics);
    mem.put_u16(binding + layout.count, statics as u16);
    mem.put_ptr(binding + layout.array, array);
    for (index, (name, type_text)) in SAMPLE.iter().cycle().take(statics).enumerate() {
        let entry = array + layout.stride * index as u64;
        let name_ptr = mem.alloc_cstr(name);
        let type_name_ptr = mem.alloc_cstr(type_text);
        // A `CSchemaType` keeps its name at +0x08.
        let type_ptr = mem.allocate(0x20);
        mem.put_ptr(type_ptr + TYPE_NAME, type_name_ptr);
        let storage = mem.allocate(0x10);
        mem.put_ptr(entry + layout.entry_name, name_ptr);
        mem.put_ptr(entry + layout.entry_type, type_ptr);
        mem.put_ptr(entry + layout.entry_instance, storage);
    }
    (binding, array)
}

fn build_binding(mem: &mut FakeMemory, layout: StaticFieldLayout, statics: usize) -> u64 {
    build_binding_with_array(mem, layout, statics).0
}

/// Enough bindings for the probe to clear its evidence floor.
fn build_bindings(mem: &mut FakeMemory, layout: StaticFieldLayout) -> Vec<u64> {
    (0..MIN_EVIDENCE)
        .map(|_| build_binding(mem, layout, SAMPLE.len()))
        .collect()
}

#[test]
fn only_identifier_shaped_names_are_accepted() {
    assert!(plausible_ident("m_bIsDefault"));
    assert!(plausible_ident("_s_count"));
    assert!(!plausible_ident(""));
    assert!(!plausible_ident("9lives"));
    assert!(!plausible_ident("m_b IsDefault"));
    assert!(!plausible_ident("m_b\u{1}IsDefault"));
}

#[test]
fn type_names_may_be_templated_but_must_be_printable() {
    assert!(plausible_type_name("CUtlVector< int >"));
    assert!(plausible_type_name("char*"));
    assert!(!plausible_type_name(""));
    assert!(!plausible_type_name("bad\u{0}type"));
}

/// The point of the probe: a build that moved the static-field array is
/// followed from live evidence instead of a hardcoded offset.
#[test]
fn every_shipped_candidate_layout_is_recovered_from_live_data() {
    for (index, candidate) in (0..5).map(candidate_layout).enumerate() {
        let mut mem = FakeMemory::new();
        let bindings = build_bindings(&mut mem, candidate);
        assert_eq!(
            detect_layout(mem.memory(), &bindings),
            Some(candidate),
            "candidate {index} was not recovered"
        );
    }
}

#[test]
fn reads_every_static_field_of_a_binding_in_declaration_order() {
    let mut mem = FakeMemory::new();
    let layout = candidate_layout(0);
    let binding = build_binding(&mut mem, layout, SAMPLE.len());

    let found = read_static_fields(mem.memory(), binding, layout);
    let seen: Vec<_> = found
        .iter()
        .map(|field| (field.name.as_str(), field.field_type.as_str(), field.index))
        .collect();
    assert_eq!(
        seen,
        vec![
            ("m_bIsDefault", "bool", 0),
            ("s_flTickInterval", "float32", 1),
            ("sm_pInstance", "CGameRules*", 2),
        ]
    );
}

#[test]
fn a_single_binding_is_not_enough_evidence_to_emit_anything() {
    let mut mem = FakeMemory::new();
    let binding = build_binding(&mut mem, candidate_layout(0), SAMPLE.len());
    assert_eq!(detect_layout(mem.memory(), &[binding]), None);
}

#[test]
fn a_process_with_no_bindings_yields_no_layout() {
    let mem = FakeMemory::new();
    assert_eq!(detect_layout(mem.memory(), &[]), None);
}

/// Two candidates that validate equally well mean the geometry is not
/// actually understood. Emitting either would be a guess dressed up as a
/// measurement, so the probe must decline.
#[test]
fn an_ambiguous_probe_is_declined_rather_than_guessed() {
    let layout = candidate_layout(0);
    let mut mem = FakeMemory::new();
    let bindings: Vec<u64> = (0..MIN_EVIDENCE)
        .map(|_| {
            let binding = mem.allocate(0x80);
            let array = mem.allocate(layout.stride as usize * SAMPLE.len());
            mem.put_u16(binding + layout.count, SAMPLE.len() as u16);
            mem.put_ptr(binding + layout.array, array);
            for (index, (name, type_text)) in SAMPLE.iter().enumerate() {
                let entry = array + layout.stride * index as u64;
                let name_ptr = mem.alloc_cstr(name);
                mem.put_ptr(entry + layout.entry_name, name_ptr);
                // Both pointer slots look like a `CSchemaType`, so the
                // type/instance ordering cannot be told apart.
                for slot in [layout.entry_type, layout.entry_instance] {
                    let type_name_ptr = mem.alloc_cstr(type_text);
                    let type_ptr = mem.allocate(0x20);
                    mem.put_ptr(type_ptr + TYPE_NAME, type_name_ptr);
                    mem.put_ptr(entry + slot, type_ptr);
                }
            }
            binding
        })
        .collect();

    assert_eq!(detect_layout(mem.memory(), &bindings), None);
}

#[test]
fn a_class_with_no_statics_reads_as_empty_not_as_garbage() {
    let mut mem = FakeMemory::new();
    let layout = candidate_layout(0);
    let binding = build_binding(&mut mem, layout, 0);
    assert!(read_static_fields(mem.memory(), binding, layout).is_empty());
}

#[test]
fn a_count_without_an_array_reads_as_empty() {
    let mut mem = FakeMemory::new();
    let layout = candidate_layout(0);
    let binding = mem.allocate(0x80);
    mem.put_u16(binding + layout.count, 4);
    assert!(read_static_fields(mem.memory(), binding, layout).is_empty());
}

#[test]
fn an_absurd_count_is_rejected_instead_of_walked() {
    let mut mem = FakeMemory::new();
    let layout = candidate_layout(0);
    let binding = build_binding(&mut mem, layout, SAMPLE.len());
    mem.put_u16(binding + layout.count, 0x7FFF);
    assert!(read_static_fields(mem.memory(), binding, layout).is_empty());
}

/// A binding caught mid-teardown loses rows; it must not gain fabricated
/// ones, and the surviving rows keep their real declaration indices.
#[test]
fn an_entry_that_fails_validation_is_skipped_not_invented() {
    let mut mem = FakeMemory::new();
    let layout = candidate_layout(0);
    let (binding, array) = build_binding_with_array(&mut mem, layout, SAMPLE.len());
    mem.put_ptr(array + layout.stride + layout.entry_instance, 0);

    let found = read_static_fields(mem.memory(), binding, layout);
    let seen: Vec<_> = found
        .iter()
        .map(|field| (field.name.as_str(), field.index))
        .collect();
    assert_eq!(seen, vec![("m_bIsDefault", 0), ("sm_pInstance", 2)]);
}
