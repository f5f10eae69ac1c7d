use cs2_dumper::analysis::interfaces::InterfaceMap;
use cs2_dumper::analysis::vtables::{VTableInfo, VTableMap, VTableMethod};
use cs2_dumper::report::{
    dump_outcome, iface_classes_from_vtables, renders_pattern_file, write_merged_offset_artifacts,
    write_pattern_artifacts, PatternWrites,
};
use cs2_dumper::strmap::StrMap;

fn good() -> PatternWrites {
    PatternWrites {
        patterns_json: true,
        repairs: None,
        languages: Vec::new(),
        patterns_md: true,
        patterns_hpp: true,
    }
}

#[test]
fn write_pattern_artifacts_propagates_required_write_failures() {
    let mut writes = good();
    assert_eq!(write_pattern_artifacts(&writes), Ok(()));
    writes.patterns_json = false;
    let err = write_pattern_artifacts(&writes)
        .expect_err("required artifact write failure must be returned");
    assert!(err.contains("patterns.json"), "failure must name the missing artifact: {err}");
}

#[test]
fn write_pattern_artifacts_propagates_markdown_write_failures() {
    let mut writes = good();
    writes.patterns_md = false;
    let err =
        write_pattern_artifacts(&writes).expect_err("markdown write failure must be returned");
    assert!(err.contains("patterns.md"), "failure must name the markdown artifact: {err}");
}

#[test]
fn write_pattern_artifacts_propagates_requested_language_write_failures() {
    assert!(renders_pattern_file("cs"));
    assert!(!renders_pattern_file("hpp"));
    let mut writes = good();
    writes.languages = vec![("cs".to_string(), false)];
    let err = write_pattern_artifacts(&writes)
        .expect_err("requested language write failure must be returned");
    assert!(err.contains("patterns.cs"), "failure must name the language artifact: {err}");
}

#[test]
fn every_failed_file_is_named_in_order() {
    let writes = PatternWrites {
        patterns_json: false,
        repairs: Some((false, Some(false))),
        languages: vec![("rs".to_string(), false), ("zig".to_string(), true)],
        patterns_md: false,
        patterns_hpp: false,
    };
    assert_eq!(
        write_pattern_artifacts(&writes).unwrap_err(),
        "failed to write required pattern artifacts: patterns.json, patterns.repair.json, \
         patterns.repair.patch.json, patterns.rs, patterns.md, patterns.hpp"
    );
    assert_eq!(write_merged_offset_artifacts(true, true), Ok(()));
    assert_eq!(
        write_merged_offset_artifacts(false, false).unwrap_err(),
        "failed to write required pattern artifacts: offsets_merged.hpp, offsets_merged.json"
    );
}

#[test]
fn the_first_error_counts_behind_that_of_the_closing_file() {
    let stages = vec![Ok(()), Err("second".to_string()), Err("third".to_string())];
    assert_eq!(dump_outcome(Ok(()), &stages).unwrap_err(), "second");
    assert_eq!(dump_outcome(Err("closing".to_string()), &stages).unwrap_err(), "closing");
    assert_eq!(dump_outcome(Ok(()), &vec![Ok(())]), Ok(()));
}

#[test]
fn classes_find_their_objects_whatever_the_case() {
    let info = VTableInfo {
        vtable_rva: 0x10,
        vtable_module: "client.dll".into(),
        rtti_class: Some("CSource2Client".into()),
        methods: vec![
            VTableMethod { module: "client.dll".into(), rva: 1, name: Some("Connect".into()) },
            VTableMethod { module: "client.dll".into(), rva: 2, name: None },
        ],
    };
    let mut tables = StrMap::new();
    tables.insert("Source2Client002".to_string(), info);
    let mut vtables = VTableMap::new();
    vtables.insert("client.dll".to_string(), tables);
    let mut objects = StrMap::new();
    objects.insert("SOURCE2CLIENT002".to_string(), 0x1234u64);
    let mut interfaces = InterfaceMap::new();
    interfaces.insert("CLIENT.dll".to_string(), objects);

    let classes = iface_classes_from_vtables(&vtables, &interfaces);
    assert_eq!(classes.len(), 1);
    assert_eq!(classes[0].module, "client.dll");
    assert_eq!(classes[0].iface_name, "Source2Client002");
    assert_eq!(classes[0].instance_rva, Some(0x1234));
    assert_eq!(classes[0].rtti_class.as_deref(), Some("CSource2Client"));
    assert_eq!(classes[0].methods, [Some("Connect".to_string()), None]);
    assert!(!classes[0].manual);
}
