use cs2_dumper::analysis::module_data::ModuleRecord;
use cs2_dumper::analysis::vtables::{
    classify, dump_one, recover_names, VTableClass, VTableInfo, VTableMap, VTableMethod,
};
use cs2_dumper::memory::fake::FakeMemory;
use cs2_dumper::patterns::PatternHit;
use cs2_dumper::strmap::StrMap;

fn one_table(name: &str, info: VTableInfo) -> VTableMap {
    let mut tables = StrMap::new();
    tables.insert(name.to_string(), info);
    let mut map = VTableMap::new();
    map.insert("client.dll".to_string(), tables);
    map
}

fn hit(name: &'static str, module: &str, rva: u64) -> PatternHit {
    PatternHit {
        name: name.into(),
        module: module.into(),
        found: true,
        rva: Some(rva),
        va: Some(rva),
    }
}

#[test]
fn recover_names_matches_module_case_insensitively() {
    let mut map = one_table(
        "Source2Client002",
        VTableInfo {
                vtable_rva: 0x1000,
                vtable_module: "client.dll".into(),
                rtti_class: None,
                methods: vec![VTableMethod {
                    module: "client.dll".into(),
                    rva: 0x2000,
                    name: None,
                }],
            },
    );
    recover_names(&mut map, &vec![hit("Connect", "CLIENT.DLL", 0x2000)]);
    assert_eq!(
        map.get("client.dll").unwrap().get("Source2Client002").unwrap().methods[0]
            .name
            .as_deref(),
        Some("Connect")
    );
}

#[test]
fn recover_names_ignores_rva_mismatch() {
    let mut map = one_table(
        "Source2Client002",
        VTableInfo {
                vtable_rva: 0x1000,
                vtable_module: "client.dll".into(),
                rtti_class: None,
                methods: vec![VTableMethod {
                    module: "client.dll".into(),
                    rva: 0x2000,
                    name: None,
                }],
            },
    );
    recover_names(&mut map, &vec![hit("Connect", "client.dll", 0x9999)]);
    assert!(
        map.get("client.dll").unwrap().get("Source2Client002").unwrap().methods[0]
            .name
            .is_none()
    );
}

#[test]
fn a_table_ends_at_the_first_slot_outside_every_module() {
    let mut mem = FakeMemory::new();
    let modules = vec![
        ModuleRecord { name: "client.dll".into(), base: 0x1_8000_0000, size: 0x10_0000 },
        ModuleRecord { name: "tier0.dll".into(), base: 0x1_9000_0000, size: 0x1000 },
    ];
    let table = 0x1_8000_4000u64;
    mem.put_ptr(table, 0x1_8000_2000);
    mem.put_ptr(table + 8, 0x1_9000_0010);
    mem.put_ptr(table + 16, 0x10);
    mem.put_ptr(table + 24, 0x1_8000_3000);
    let object = mem.allocate(8);
    mem.put_ptr(object, table);
    let classes = vec![VTableClass { vtable: table, class: "CSource2Client".into() }];

    let info = dump_one(mem.memory(), object, &modules, &classes).expect("table");
    assert_eq!(info.vtable_rva, 0x4000);
    assert_eq!(info.vtable_module, "client.dll");
    assert_eq!(info.rtti_class.as_deref(), Some("CSource2Client"));
    let slots: Vec<(&str, u64)> =
        info.methods.iter().map(|method| (method.module.as_str(), method.rva)).collect();
    assert_eq!(slots, [("client.dll", 0x2000), ("tier0.dll", 0x10)]);
}

#[test]
fn an_address_belongs_to_the_module_that_holds_it() {
    let modules = vec![ModuleRecord { name: "client.dll".into(), base: 0x10_0000, size: 0x100 }];
    assert_eq!(classify(0x10_00FF, &modules), Some(("client.dll".to_string(), 0xFF)));
    assert_eq!(classify(0x10_0100, &modules), None);
    assert_eq!(classify(0xF_FFFF, &modules), None);
}
