use cs2_dumper::analysis::convars::{
    cc_candidate, cv_candidate, decode_flags, decode_value, detect_layout, find_registry_in,
    plausible_name, read_concommand, read_convar, type_label, walk, ConVarError, ConVarValue,
    RegistryLayout, CC_DESC, CC_FLAGS, CC_NAME, CVI_DESC, CVI_FLAGS, CVI_NAME, CVI_TYPE, CVI_VALUE,
    LIST_END,
};
use cs2_dumper::memory::fake::FakeMemory;

const OFF_CV_BASE: u64 = 0x50;
const OFF_CV_HEAD: u64 = 0x58;
const CV_STRIDE: u64 = 16;
const CV_ELEM_NEXT: u64 = 10;
const OFF_CC_BASE: u64 = 0x108;
const OFF_CC_HEAD: u64 = 0x110;
const CC_STRIDE: u64 = 56;
const CC_ELEM_NEXT: u64 = 0x32;

fn fmt_f32(v: f32) -> String {
    if v == 0.0 {
        "0".into()
    } else {
        format!("{v}")
    }
}

fn shown(value: &ConVarValue) -> String {
    match value {
        ConVarValue::Text(text) => text.clone(),
        ConVarValue::Float32(bits) => fmt_f32(f32::from_bits(*bits)),
        ConVarValue::Float64(bits) => format!("{}", f64::from_bits(*bits)),
        ConVarValue::Vector(list) => list
            .iter()
            .map(|bits| fmt_f32(f32::from_bits(*bits)))
            .collect::<Vec<_>>()
            .join(" "),
    }
}

/// Convars used by the layout probe tests, as (name, type id, value).
const SAMPLE_CONVARS: &[(&str, u16)] =
    &[("sv_cheats", 0), ("mp_freezetime", 3), ("cl_name", 9)];
const SAMPLE_COMMANDS: &[&str] = &["help", "status", "quit"];

/// Build a `CCvar` instance whose storage uses the given candidate layout,
/// so the probe has to recover that layout from live data alone.
fn build_registry(
    mem: &mut FakeMemory,
    cv: (u64, u64, u64, u64),
    cc: (u64, u64, u64, u64),
) -> u64 {
    let (cv_base_off, cv_head_off, cv_stride, cv_next_off) = cv;
    let (cc_base_off, cc_head_off, cc_stride, cc_next_off) = cc;

    let inst = mem.allocate(0x200);

    let cv_base = mem.allocate(cv_stride as usize * SAMPLE_CONVARS.len());
    for (index, (name, type_id)) in SAMPLE_CONVARS.iter().enumerate() {
        let info = mem.allocate(0x80);
        let name_ptr = mem.alloc_cstr(name);
        let desc_ptr = mem.alloc_cstr("sample description");
        mem.put_ptr(info + CVI_NAME, name_ptr);
        mem.put_ptr(info + CVI_DESC, desc_ptr);
        mem.put_u16(info + CVI_TYPE, *type_id);
        mem.put_u32(info + CVI_FLAGS, 0x00080000);

        let elem = cv_base + cv_stride * index as u64;
        mem.put_ptr(elem, info);
        let next = if index + 1 == SAMPLE_CONVARS.len() {
            LIST_END
        } else {
            index as u16 + 1
        };
        mem.put_u16(elem + cv_next_off, next);
    }
    mem.put_ptr(inst + cv_base_off, cv_base);
    mem.put_u16(inst + cv_head_off, 0);

    let cc_base = mem.allocate(cc_stride as usize * SAMPLE_COMMANDS.len());
    for (index, name) in SAMPLE_COMMANDS.iter().enumerate() {
        let elem = cc_base + cc_stride * index as u64;
        let name_ptr = mem.alloc_cstr(name);
        let desc_ptr = mem.alloc_cstr("sample command");
        mem.put_ptr(elem + CC_NAME, name_ptr);
        mem.put_ptr(elem + CC_DESC, desc_ptr);
        mem.put_u32(elem + CC_FLAGS, 0x00080000);
        let next = if index + 1 == SAMPLE_COMMANDS.len() {
            LIST_END
        } else {
            index as u16 + 1
        };
        mem.put_u16(elem + cc_next_off, next);
    }
    mem.put_ptr(inst + cc_base_off, cc_base);
    mem.put_u16(inst + cc_head_off, 0);

    inst
}

#[test]
fn default_registry_layout_preserves_known_fallback() {
    let layout = RegistryLayout::default();
    assert_eq!(layout.cv_base, OFF_CV_BASE);
    assert_eq!(layout.cv_head, OFF_CV_HEAD);
    assert_eq!(layout.cv_stride, CV_STRIDE);
    assert_eq!(layout.cv_next, CV_ELEM_NEXT);
    assert_eq!(layout.cc_base, OFF_CC_BASE);
    assert_eq!(layout.cc_head, OFF_CC_HEAD);
    assert_eq!(layout.cc_stride, CC_STRIDE);
    assert_eq!(layout.cc_next, CC_ELEM_NEXT);
}

#[test]
fn plausible_names_reject_pointer_garbage() {
    assert!(plausible_name("sv_cheats"));
    assert!(plausible_name("cmd help text"));
    assert!(!plausible_name(""));
    assert!(!plausible_name("bad\0name"));
    assert!(!plausible_name(&"x".repeat(129)));
}

/// Every candidate pair is recovered from live list data.
#[test]
fn detects_every_shipped_candidate_layout_pair() {
    for cv in (0..4).map(cv_candidate) {
        for cc in (0..4).map(cc_candidate) {
            let mut mem = FakeMemory::new();
            let inst = build_registry(&mut mem, cv, cc);
            let layout = detect_layout(mem.memory(), inst);
            assert_eq!(
                (
                    layout.cv_base,
                    layout.cv_head,
                    layout.cv_stride,
                    layout.cv_next
                ),
                cv,
                "convar layout {cv:?} not recovered"
            );
            assert_eq!(
                (
                    layout.cc_base,
                    layout.cc_head,
                    layout.cc_stride,
                    layout.cc_next
                ),
                cc,
                "concommand layout {cc:?} not recovered"
            );
        }
    }
}

#[test]
fn an_empty_registry_keeps_the_fallback_layout() {
    let mut mem = FakeMemory::new();
    let inst = mem.allocate(0x200);
    let layout = detect_layout(mem.memory(), inst);
    assert_eq!(layout.cv_base, OFF_CV_BASE);
    assert_eq!(layout.cc_base, OFF_CC_BASE);
}

#[test]
fn decodes_each_convar_value_type_from_its_union() {
    let mut mem = FakeMemory::new();
    let info = mem.allocate(0x80);
    let name_ptr = mem.alloc_cstr("sv_gravity");
    mem.put_ptr(info + CVI_NAME, name_ptr);
    mem.put_u16(info + CVI_TYPE, 7); // float32
    mem.put_u32(info + CVI_VALUE, (800.0 as f32).to_bits());
    let convar = read_convar(mem.memory(), info).expect("float convar");
    assert_eq!(convar.name, "sv_gravity");
    assert_eq!(convar.type_label, "float32");
    assert_eq!(shown(&convar.value), "800");

    mem.put_u16(info + CVI_TYPE, 0); // bool
    mem.put_u8(info + CVI_VALUE, 1);
    assert_eq!(shown(&read_convar(mem.memory(), info).expect("bool").value), "true");

    mem.put_u16(info + CVI_TYPE, 12); // vector3
    mem.put_u32(info + CVI_VALUE, (1.5 as f32).to_bits());
    mem.put_u32(info + CVI_VALUE + 4, (-2.0 as f32).to_bits());
    mem.put_u32(info + CVI_VALUE + 8, (0.25 as f32).to_bits());
    assert_eq!(
        shown(&read_convar(mem.memory(), info).expect("vector3").value),
        "1.5 -2 0.25"
    );

    mem.put_u16(info + CVI_TYPE, 9); // string: char* in the union slot
    let value_ptr = mem.alloc_cstr("de_dust2");
    mem.put_ptr(info + CVI_VALUE, value_ptr);
    assert_eq!(
        shown(&read_convar(mem.memory(), info).expect("string").value),
        "de_dust2"
    );
}

#[test]
fn a_nameless_convar_is_rejected_rather_than_emitted_blank() {
    let mut mem = FakeMemory::new();
    let info = mem.allocate(0x80);
    assert!(read_convar(mem.memory(), info).is_none());
    assert!(read_concommand(mem.memory(), info).is_none());
}

/// Base VA of the synthetic tier0 image, away from where [`FakeMemory`]
/// hands out object addresses.
const BASE: u64 = 0x0000_7FFA_2000_0000;
const DATA_RVA: u64 = 0x1000;
const DATA_SIZE: u64 = 0x2000;

fn image() -> Vec<u8> {
    vec![0u8; (DATA_RVA + DATA_SIZE) as usize]
}

fn ranges() -> Vec<(u64, u64)> {
    vec![(DATA_RVA, DATA_SIZE)]
}

/// Publish `target` through a global at `rva`, the way tier0 does.
fn place(image: &mut [u8], rva: u64, target: u64) {
    image[rva as usize..][..8].copy_from_slice(&target.to_le_bytes());
}

/// A registry using the shipped fallback layout.
fn default_registry(mem: &mut FakeMemory) -> u64 {
    build_registry(mem, cv_candidate(0), cc_candidate(0))
}

/// The point of the scan: `g_pCVar` is located by describing the registry,
/// with no signature over the code that touches it.
#[test]
fn finds_the_cvar_registry_global_without_a_signature() {
    let mut mem = FakeMemory::new();
    let inst = default_registry(&mut mem);
    let mut image = image();
    place(&mut image, DATA_RVA + 0x400, inst);

    assert_eq!(
        find_registry_in(mem.memory(), &image, BASE, &ranges()),
        Some(BASE + DATA_RVA + 0x400)
    );
}

/// The geometry is not assumed either: a build that moved the list arrays
/// is still recognised, because the scan scores the same candidates the
/// walker decodes with.
#[test]
fn every_shipped_registry_layout_is_recognised_by_the_scan() {
    for (index, cv) in (0..4).map(cv_candidate).enumerate() {
        let mut mem = FakeMemory::new();
        let inst = build_registry(&mut mem, cv, cc_candidate(0));
        let mut image = image();
        place(&mut image, DATA_RVA + 0x400, inst);

        assert_eq!(
            find_registry_in(mem.memory(), &image, BASE, &ranges()),
            Some(BASE + DATA_RVA + 0x400),
            "convar layout {index} ({cv:?}) was not recognised"
        );
    }
}

#[test]
fn a_module_without_a_registry_yields_nothing() {
    let mem = FakeMemory::new();
    assert_eq!(find_registry_in(mem.memory(), &image(), BASE, &ranges()), None);
}

/// Two globals reaching *different* registries mean the scan cannot tell
/// which one the game uses, and a wrong one dumps confident nonsense, so it
/// declines. Aliases of one registry are not a contradiction and resolve.
#[test]
fn rival_registries_decline_while_aliases_resolve() {
    let mut mem = FakeMemory::new();
    let first = default_registry(&mut mem);
    let second = default_registry(&mut mem);

    let mut rivals = image();
    place(&mut rivals, DATA_RVA + 0x400, first);
    place(&mut rivals, DATA_RVA + 0x1200, second);
    assert_eq!(find_registry_in(mem.memory(), &rivals, BASE, &ranges()), None);

    let mut aliases = image();
    place(&mut aliases, DATA_RVA + 0x400, first);
    place(&mut aliases, DATA_RVA + 0x1200, first);
    assert_eq!(
        find_registry_in(mem.memory(), &aliases, BASE, &ranges()),
        Some(BASE + DATA_RVA + 0x400)
    );
}

/// An object whose convar list holds a single node is what a partially
/// initialised tier0 looks like, so it is below the evidence floor.
#[test]
fn a_nearly_empty_registry_is_not_enough_evidence() {
    let mut mem = FakeMemory::new();
    let inst = mem.allocate(0x200);
    let (cv_base_off, cv_head_off, cv_stride, cv_next_off) = cv_candidate(0);
    let cv_base = mem.allocate(cv_stride as usize);
    let info = mem.allocate(0x80);
    let name_ptr = mem.alloc_cstr("sv_cheats");
    mem.put_ptr(info + CVI_NAME, name_ptr);
    mem.put_u16(info + CVI_TYPE, 0);
    mem.put_ptr(cv_base, info);
    mem.put_u16(cv_base + cv_next_off, LIST_END);
    mem.put_ptr(inst + cv_base_off, cv_base);
    mem.put_u16(inst + cv_head_off, 0);

    let mut image = image();
    place(&mut image, DATA_RVA + 0x400, inst);
    assert_eq!(find_registry_in(mem.memory(), &image, BASE, &ranges()), None);
}

#[test]
fn walks_both_lists_in_name_order() {
    let mut mem = FakeMemory::new();
    let inst = default_registry(&mut mem);
    let global = mem.alloc_ptrs(1);
    mem.put_ptr(global, inst);

    let dump = walk(mem.memory(), global).expect("walk");
    let convars: Vec<&str> = dump.convars.iter().map(|c| c.name.as_str()).collect();
    assert_eq!(convars, ["cl_name", "mp_freezetime", "sv_cheats"]);
    let commands: Vec<&str> = dump.commands.iter().map(|c| c.name.as_str()).collect();
    assert_eq!(commands, ["help", "quit", "status"]);
    assert_eq!(dump.convars[1].type_id, 3);
    assert_eq!(dump.convars[1].description, "sample description");
    assert_eq!(dump.convars[1].flags, 0x00080000);
}

#[test]
fn a_null_registry_is_an_error() {
    let mut mem = FakeMemory::new();
    let global = mem.alloc_ptrs(1);
    assert_eq!(walk(mem.memory(), global).unwrap_err(), ConVarError::NullRegistry(global));
}

#[test]
fn every_plain_type_is_decoded() {
    let mut mem = FakeMemory::new();
    let at = mem.allocate(0x10);
    mem.put_u64(at, 0xFFFF_FFFF_8000_00FE);
    let text = |type_id: u16| shown(&decode_value(mem.memory(), at, type_id));
    assert_eq!(text(0), "true");
    assert_eq!(text(1), "254");
    assert_eq!(text(2), "254");
    assert_eq!(text(3), "-2147483394");
    assert_eq!(text(4), "2147483902");
    assert_eq!(text(5), "-2147483394");
    assert_eq!(text(6), "18446744071562068222");
    assert_eq!(text(10), "254 0 0 128");
    assert_eq!(text(15), "0xFFFFFFFF800000FE");
    assert_eq!(type_label(14), "qangle");
    assert_eq!(type_label(15), "unknown");
    assert!(decode_flags(0).is_empty());
}
