use cs2_dumper::analysis::module_data::ModuleRecord;
use cs2_dumper::analysis::offsets::OffsetMap;
use cs2_dumper::dump::{
    fnv1a64_head_tail, hex16_lower, is_offset_symbol, named_offset_rva, overlay_dynamic_offsets,
    plausible_engine_build, read_build_number, resolved_pattern_rva, resolved_pattern_va,
    sanitize_offset_map, u32_at_module_rva, validate_file_types,
};
use cs2_dumper::memory::fake::FakeMemory;
use cs2_dumper::patterns::PatternHit;
use cs2_dumper::strmap::StrMap;

const FILE_TYPES: [&str; 5] = ["cs", "hpp", "json", "rs", "zig"];

fn offset_map(module: &str, list: &[(&str, u32)]) -> OffsetMap {
    let mut inner: StrMap<u32> = StrMap::new();
    for (name, rva) in list {
        inner.insert(name.to_string(), *rva);
    }
    let mut map = OffsetMap::new();
    map.insert(module.to_string(), inner);
    map
}

fn offset(map: &OffsetMap, module: &str, name: &str) -> Option<u32> {
    map.get(module).and_then(|inner| inner.get(name)).copied()
}

fn sizes(name: &str, size: u64) -> Vec<ModuleRecord> {
    vec![ModuleRecord { name: name.to_string(), base: 0, size }]
}

#[test]
fn fnv1a64_head_tail_is_stable_and_covers_both_ends() {
    let head = [0x41u8; 8];
    let tail = [0x42u8; 8];
    assert_eq!(
        fnv1a64_head_tail(&head, &tail),
        fnv1a64_head_tail(&head, &tail)
    );
    assert_ne!(
        fnv1a64_head_tail(&head, &tail),
        fnv1a64_head_tail(&head, &[])
    );
    assert_ne!(
        fnv1a64_head_tail(&head, &tail),
        fnv1a64_head_tail(&tail, &head)
    );
}

#[test]
fn hex16_lower_matches_zero_padded_hex() {
    assert_eq!(hex16_lower(0), "0000000000000000");
    assert_eq!(hex16_lower(0x1), "0000000000000001");
    assert_eq!(hex16_lower(0xdead_beef), "00000000deadbeef");
}

#[test]
fn overlay_and_live_rvas_outside_the_module_image_are_discarded() {
    let mut offsets = offset_map("client.dll", &[("dwLocalPlayerPawn", 0x10)]);
    let report = vec![PatternHit {
            name: "dwGlowManager".into(),
            module: "client.dll".into(),
            found: true,
            rva: Some(0x5000),
            va: Some(0x5000),
        }];
    let added = overlay_dynamic_offsets(&mut offsets, &report);
    assert_eq!(added, 1);
    let removed = sanitize_offset_map(&mut offsets, &sizes("client.dll", 0x1000));
    assert_eq!(removed, 1);
    assert_eq!(
        offset(&offsets, "client.dll", "dwLocalPlayerPawn"),
        Some(0x10)
    );
    assert!(
        offset(&offsets, "client.dll", "dwGlowManager").is_none(),
        "RVA 0x5000 is past a 0x1000 image"
    );
}

#[test]
fn rejects_uninitialized_engine_build_sentinels() {
    assert_eq!(plausible_engine_build(0), None);
    assert_eq!(plausible_engine_build(1), None);
    assert_eq!(plausible_engine_build(u32::MAX), None);
    assert_eq!(plausible_engine_build(2000885), None);
    assert_eq!(plausible_engine_build(14152), Some(14152));
}

#[test]
fn named_offset_rva_matches_build_number_case_insensitively() {
    let offsets = offset_map("engine2.dll", &[("DWBUILDNUMBER", 0xABCC)]);
    assert_eq!(
        named_offset_rva(&offsets, "dwBuildNumber"),
        Some(("engine2.dll", 0xABCC))
    );
    assert_eq!(named_offset_rva(&offsets, "dwLocalPlayerPawn"), None);
}

#[test]
fn rejects_unknown_output_file_types_before_attach() {
    let shipped: Vec<String> = FILE_TYPES.iter().map(|kind| kind.to_string()).collect();
    assert!(
        validate_file_types(&shipped).is_ok(),
        "CLI default types must be exactly the dump's supported set"
    );
    for kind in FILE_TYPES {
        assert!(
            validate_file_types(&vec![kind.to_string()]).is_ok(),
            "shipped type {kind} must validate"
        );
    }
    let error = validate_file_types(&vec!["hpp".into(), "lua".into()])
        .expect_err("unknown output type must be rejected");
    assert!(error.message().contains("lua"));
    assert!(error.message().contains("cs"));

    let duplicate = validate_file_types(&vec!["json".into(), "json".into()])
        .expect_err("duplicate output types must be rejected");
    assert!(duplicate.message().contains("duplicate"));
    assert!(duplicate.message().contains("json"));
}

#[test]
fn dynamic_offsets_fill_only_missing_symbols() {
    let mut offsets = offset_map("client.dll", &[("dwExisting", 0x111)]);
    let report = vec![
            PatternHit {
                name: "dwExisting".into(),
                module: "client.dll".into(),
                found: true,
                rva: Some(0x222),
                va: Some(0x222),
            },
            PatternHit {
                name: "dwAdded".into(),
                module: "client.dll".into(),
                found: true,
                rva: Some(0x333),
                va: Some(0x333),
            },
        ];
    assert_eq!(overlay_dynamic_offsets(&mut offsets, &report), 1);
    assert_eq!(offset(&offsets, "client.dll", "dwExisting"), Some(0x111));
    assert_eq!(offset(&offsets, "client.dll", "dwAdded"), Some(0x333));
}

#[test]
fn overlay_accepts_dw_prefix_regardless_of_ascii_case() {
    assert!(is_offset_symbol("dwEntityList"));
    assert!(is_offset_symbol("DwEntityList"));
    assert!(is_offset_symbol("DWENTITYLIST"));
    assert!(!is_offset_symbol("pEntityList"));
    assert!(!is_offset_symbol("dw"));
    let mut offsets = OffsetMap::new();
    let report = vec![PatternHit {
            name: "DwEntityList".into(),
            module: "client.dll".into(),
            found: true,
            rva: Some(0xABC),
            va: Some(0xABC),
        }];
    assert_eq!(overlay_dynamic_offsets(&mut offsets, &report), 1);
    assert_eq!(offset(&offsets, "client.dll", "DwEntityList"), Some(0xABC));
}

#[test]
fn resolved_pattern_rva_does_not_use_the_absolute_va() {
    let report = vec![PatternHit {
            name: "pCSGOInput".into(),
            module: "client.dll".into(),
            found: true,
            rva: Some(0x222),
            va: Some(0x7FF6_0000_0222),
        }];
    assert_eq!(resolved_pattern_rva(&report, "pCSGOInput"), Some(0x222));
    assert_eq!(
        resolved_pattern_va(&report, "pCSGOInput"),
        Some(0x7FF6_0000_0222)
    );
}

#[test]
fn overlay_fills_existing_module_when_hit_module_case_differs() {
    let mut offsets = offset_map("CLIENT.DLL", &[("dwExisting", 0x111)]);
    let report = vec![
            PatternHit {
                name: "dwExisting".into(),
                module: "client.dll".into(),
                found: true,
                rva: Some(0x222),
                va: Some(0x222),
            },
            PatternHit {
                name: "dwAdded".into(),
                module: "client.dll".into(),
                found: true,
                rva: Some(0x333),
                va: Some(0x333),
            },
        ];
    assert_eq!(overlay_dynamic_offsets(&mut offsets, &report), 1);
    assert_eq!(offsets.len(), 1, "mixed-case module must not fork the map");
    assert_eq!(offset(&offsets, "CLIENT.DLL", "dwExisting"), Some(0x111));
    assert_eq!(offset(&offsets, "CLIENT.DLL", "dwAdded"), Some(0x333));
    assert!(!offsets.contains_key("client.dll"));
}

#[test]
fn offset_symbol_filter_excludes_non_offsets() {
    assert!(is_offset_symbol("dwEntityList"));
    assert!(!is_offset_symbol("pEntitySystem"));
    assert!(!is_offset_symbol("dw_lowercase"));
}

#[test]
fn sanitizes_only_out_of_image_offsets() {
    let mut offsets = offset_map("client.dll", &[("dwValid", 0x100), ("dwInvalid", 0x1000)]);
    let sizes = sizes("client.dll", 0x800);
    assert_eq!(sanitize_offset_map(&mut offsets, &sizes), 1);
    assert!(offset(&offsets, "client.dll", "dwValid").is_some());
    assert!(!offset(&offsets, "client.dll", "dwInvalid").is_some());
}

#[test]
fn sanitizes_offsets_when_module_name_case_differs() {
    let mut offsets = offset_map("CLIENT.DLL", &[("dwValid", 0x100), ("dwInvalid", 0x1000)]);
    let sizes = sizes("client.dll", 0x800);
    assert_eq!(sanitize_offset_map(&mut offsets, &sizes), 1);
    assert!(offset(&offsets, "CLIENT.DLL", "dwValid").is_some());
    assert!(!offset(&offsets, "CLIENT.DLL", "dwInvalid").is_some());
}

#[test]
fn resolves_external_pattern_anchor_case_insensitively() {
    let report = vec![PatternHit {
            name: "pentitysystem".into(),
            module: "client.dll".into(),
            found: true,
            rva: Some(0x100),
            va: Some(0x0001_8000_0100),
        }];
    assert_eq!(
        resolved_pattern_va(&report, "pEntitySystem"),
        Some(0x0001_8000_0100)
    );
}


#[test]
fn the_hash_is_the_published_one() {
    assert_eq!(fnv1a64_head_tail(b"", b""), 0xcbf29ce484222325);
    assert_eq!(fnv1a64_head_tail(b"a", b""), 0xaf63dc4c8601ec8c);
    assert_eq!(fnv1a64_head_tail(b"foo", b"bar"), 0x85944171f73967e8);
}

#[test]
fn the_same_hits_add_nothing_a_second_time() {
    let mut offsets = offset_map("client.dll", &[("dwLocalPlayerPawn", 0x10)]);
    let hit = |name: &str, module: &str| PatternHit {
        name: name.into(),
        module: module.into(),
        found: true,
        rva: Some(0x20),
        va: None,
    };
    let hits = vec![
        hit("dwLocalPlayerPawn", "client.dll"),
        hit("dwNew", "Client.dll"),
        hit("DWNEW", "client.dll"),
        hit("dwOther", "engine2.dll"),
    ];
    assert_eq!(overlay_dynamic_offsets(&mut offsets, &hits), 2);
    assert_eq!(offset(&offsets, "client.dll", "dwLocalPlayerPawn"), Some(0x10));
    assert_eq!(overlay_dynamic_offsets(&mut offsets, &hits), 0);
    let symbols: usize = offsets.entries.iter().map(|entry| entry.1.len()).sum();
    assert_eq!(symbols, 3);
    assert_eq!(offset(&offsets, "client.dll", "dwNew"), Some(0x20));
    assert_eq!(offset(&offsets, "engine2.dll", "dwOther"), Some(0x20));
}

#[test]
fn a_number_is_read_in_a_module_whatever_the_case_of_its_name() {
    let mut mem = FakeMemory::new();
    let at = mem.allocate(0x10);
    mem.put_u32(at + 4, 14_000);
    let modules =
        vec![ModuleRecord { name: "Engine2.DLL".to_string(), base: at, size: 0x10 }];
    assert_eq!(u32_at_module_rva(mem.memory(), &modules, "engine2.dll", 4), Some(14_000));
    assert_eq!(u32_at_module_rva(mem.memory(), &modules, "client.dll", 4), None);
    let offsets = offset_map("engine2.dll", &[("dwBuildNumber", 4)]);
    assert_eq!(read_build_number(mem.memory(), &modules, &offsets), Some(14_000));
}
