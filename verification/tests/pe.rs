use cs2_dumper::analysis::analyze::{analyze_all, schemas, Target};
use cs2_dumper::analysis::buttons::{buttons, ButtonsError};
use cs2_dumper::analysis::interfaces::interfaces;
use cs2_dumper::analysis::module_data::{
    map_file_pe_to_image, writable_ranges, ModuleImage, ModuleRecord,
};
use cs2_dumper::analysis::offsets::{client_offsets, offsets, second_store_global};
use cs2_dumper::analysis::pe::{find_all_code, find_code, find_export, is_image};
use cs2_dumper::analysis::schema_anchor::{read_schema_system, SchemaSystemError};
use cs2_dumper::analysis::schemas::SchemaLayout;
use cs2_dumper::memory::fake::FakeMemory;
use cs2_dumper::patterns::PatternHit;
use cs2_dumper::process::analyze_process;

const BASE: u64 = 0x0000_7FF8_1000_0000;
/// Where the code of an image begins.
const TEXT: u32 = 0x1000;

fn put_u16(buf: &mut [u8], off: usize, value: u16) {
    buf[off..off + 2].copy_from_slice(&value.to_le_bytes());
}

fn put_u32(buf: &mut [u8], off: usize, value: u32) {
    buf[off..off + 4].copy_from_slice(&value.to_le_bytes());
}

fn put_u64(buf: &mut [u8], off: usize, value: u64) {
    buf[off..off + 8].copy_from_slice(&value.to_le_bytes());
}

/// An image with one section of code and this export directory.
fn code_image(payload: &[u8], exports: (u32, u32)) -> Vec<u8> {
    code_image_at(0x80, payload, exports)
}

/// Such an image with its headers at this offset.
fn code_image_at(nt: usize, payload: &[u8], exports: (u32, u32)) -> Vec<u8> {
    const OPT_SIZE: usize = 0xF0;
    const FILE_ALIGN: u32 = 0x200;
    const SEC_ALIGN: u32 = 0x1000;
    const TEXT_VA: u32 = 0x1000;
    const TEXT_RAW: u32 = 0x200;
    let raw_size = payload.len() as u32;
    let raw_size = raw_size.div_ceil(FILE_ALIGN) * FILE_ALIGN;
    let mut file = vec![0u8; (TEXT_RAW + raw_size) as usize];
    file[0] = b'M';
    file[1] = b'Z';
    put_u32(&mut file, 0x3C, nt as u32);
    file[nt..nt + 4].copy_from_slice(b"PE\0\0");
    put_u16(&mut file, nt + 4, 0x8664);
    put_u16(&mut file, nt + 6, 1);
    put_u16(&mut file, nt + 20, OPT_SIZE as u16);
    put_u16(&mut file, nt + 22, 0x0022);
    let opt = nt + 24;
    put_u16(&mut file, opt, 0x20B);
    put_u32(&mut file, opt + 4, SEC_ALIGN);
    put_u32(&mut file, opt + 16, TEXT_VA);
    put_u32(&mut file, opt + 20, TEXT_VA);
    put_u64(&mut file, opt + 24, 0x1400_0000);
    put_u32(&mut file, opt + 32, SEC_ALIGN);
    put_u32(&mut file, opt + 36, FILE_ALIGN);
    put_u16(&mut file, opt + 40, 6);
    put_u16(&mut file, opt + 48, 6);
    put_u32(&mut file, opt + 56, TEXT_VA + SEC_ALIGN);
    put_u32(&mut file, opt + 60, TEXT_RAW);
    put_u16(&mut file, opt + 68, 3);
    put_u64(&mut file, opt + 72, 0x100000);
    put_u64(&mut file, opt + 80, 0x1000);
    put_u64(&mut file, opt + 88, 0x100000);
    put_u64(&mut file, opt + 96, 0x1000);
    put_u32(&mut file, opt + 108, 16);
    let sec = opt + OPT_SIZE;
    file[sec..sec + 5].copy_from_slice(b".text");
    put_u32(&mut file, sec + 8, payload.len() as u32);
    put_u32(&mut file, sec + 12, TEXT_VA);
    put_u32(&mut file, sec + 16, raw_size);
    put_u32(&mut file, sec + 20, TEXT_RAW);
    put_u32(&mut file, sec + 36, 0x6000_0020);
    put_u32(&mut file, opt + 112, exports.0);
    put_u32(&mut file, opt + 116, exports.1);
    let raw = TEXT_RAW as usize;
    file[raw..raw + payload.len()].copy_from_slice(payload);
    map_file_pe_to_image(&file).expect("image")
}

/// A load of the four bytes behind `opcode` at `offset` that leads to `target`.
fn load(code: &mut [u8], offset: usize, opcode: &[u8], target: u32, tail: &[u8]) {
    code[offset..offset + opcode.len()].copy_from_slice(opcode);
    let field = offset + opcode.len();
    let next = TEXT as i64 + field as i64 + 4;
    let disp = (target as i64 - next) as i32;
    code[field..field + 4].copy_from_slice(&disp.to_le_bytes());
    code[field + 4..field + 4 + tail.len()].copy_from_slice(tail);
}

/// A directory at the end of a payload that exports the code at `rva` by name.
fn export_directory(code: &mut Vec<u8>, name: &str, rva: u32) -> (u32, u32) {
    let at = TEXT + code.len() as u32;
    let functions = at + 40;
    let names = functions + 4;
    let ordinals = names + 4;
    let text = ordinals + 4;
    let mut dir = vec![0u8; 40];
    put_u32(&mut dir, 12, text);
    put_u32(&mut dir, 16, 1);
    put_u32(&mut dir, 20, 1);
    put_u32(&mut dir, 24, 1);
    put_u32(&mut dir, 28, functions);
    put_u32(&mut dir, 32, names);
    put_u32(&mut dir, 36, ordinals);
    code.extend(dir);
    code.extend(rva.to_le_bytes());
    code.extend(text.to_le_bytes());
    code.extend([0, 0, 0, 0]);
    code.extend(name.as_bytes());
    code.push(0);
    (at, code.len() as u32 + TEXT - at)
}

const BUTTONS: &[u8] = &[0x48, 0x85, 0xD2, 0x74, 0x00, 0x48, 0x8B, 0x02, 0x48, 0x85, 0xC0];
const BUTTON_PATTERN: &str = "488b15${'} 4885d2 74? 488b02 4885c0";

#[test]
fn the_only_match_gives_what_it_captures() {
    let mut code = vec![0x90u8; 0x200];
    load(&mut code, 0x20, &[0x48, 0x8B, 0x15], 0x1800, BUTTONS);
    let image = code_image(&code, (0, 0));
    assert_eq!(find_code(&image, BUTTON_PATTERN), Some(0x1800));
    assert_eq!(find_all_code(&image, BUTTON_PATTERN), [0x1800]);
    assert_eq!(find_code(&image, "cccccccc"), None);
    // Alignment tests are not among the patterns that are matched.
    assert_eq!(find_code(&image, "@4 90"), None);
    assert_eq!(find_code(b"MZ not a pe", BUTTON_PATTERN), None);
}

#[test]
fn two_matches_give_no_single_place() {
    let mut code = vec![0x90u8; 0x200];
    load(&mut code, 0x20, &[0x48, 0x8B, 0x15], 0x1800, BUTTONS);
    load(&mut code, 0x80, &[0x48, 0x8B, 0x15], 0x1900, BUTTONS);
    let image = code_image(&code, (0, 0));
    assert_eq!(find_code(&image, BUTTON_PATTERN), None);
    assert_eq!(find_all_code(&image, BUTTON_PATTERN), [0x1800, 0x1900]);
}

#[test]
fn exports_are_found_by_name() {
    let mut code = vec![0x90u8; 0x40];
    let exports = export_directory(&mut code, "CreateInterface", TEXT + 0x10);
    let image = code_image(&code, exports);
    assert_eq!(find_export(&image, "CreateInterface"), Some(TEXT + 0x10));
    assert_eq!(find_export(&image, "Other"), None);
    let odd = code_image(&code, (0xFFFF_FFF0, 0x100));
    assert_eq!(find_export(&odd, "CreateInterface"), None);
}

#[test]
fn a_client_image_gives_its_offsets() {
    let mut code = vec![0x90u8; 0x200];
    load(&mut code, 0x20, &[0x48, 0x8D, 0x0D], 0x1800, &[0x48, 0xC1, 0xE0, 0x06]);
    let image = code_image(&code, (0, 0));
    let map = client_offsets(&image);
    assert_eq!(map.get("dwViewMatrix"), Some(&0x1800));
    assert_eq!(map.get("dwGameRules"), None);
    assert_eq!(second_store_global(&image, 0x1800), None);
}

fn module(name: &str, bytes: Vec<u8>) -> ModuleImage {
    ModuleImage { name: name.to_string(), base: BASE, bytes }
}

/// A client module whose code names a list of one button.
fn button_client(mem: &mut FakeMemory) -> ModuleImage {
    let mut code = vec![0x90u8; 0x200];
    load(&mut code, 0x20, &[0x48, 0x8B, 0x15], 0x1800, BUTTONS);
    let node = BASE + 0x1900;
    let name = mem.alloc_cstr("in_jump");
    mem.put(node, &[0u8; 0x90]);
    mem.put_ptr(node + 0x08, name);
    mem.put_ptr(BASE + 0x1800, node);
    module("client.dll", code_image(&code, (0, 0)))
}

#[test]
fn the_buttons_are_those_of_the_list_that_the_code_names() {
    let mut mem = FakeMemory::new();
    let client = button_client(&mut mem);
    let map = buttons(mem.memory(), &client).expect("buttons");
    assert_eq!(map.len(), 1);
    assert_eq!(map.get("in_jump"), Some(&0x1930));
    let other = module("client.dll", code_image(&[0x90; 16], (0, 0)));
    assert!(matches!(buttons(mem.memory(), &other), Err(ButtonsError::OutdatedPattern)));
}

#[test]
fn the_interfaces_are_those_behind_the_exported_factory() {
    let mut mem = FakeMemory::new();
    let mut code = vec![0x90u8; 0x40];
    let exports = export_directory(&mut code, "CreateInterface", TEXT + 0x10);
    mem.put_rip(BASE + TEXT as u64 + 0x10, &[0x4C, 0x8B, 0x0D], BASE + 0x1800);
    let factory = BASE + 0x1A00;
    mem.put_rip(factory, &[0x48, 0x8D, 0x05], BASE + 0x1234);
    let name = mem.alloc_cstr("Source2Client002");
    let reg = mem.allocate(0x18);
    mem.put_ptr(reg, factory);
    mem.put_ptr(reg + 8, name);
    mem.put_ptr(BASE + 0x1800, reg);
    let images = vec![module("Client.DLL", code_image(&code, exports))];
    let map = interfaces(mem.memory(), &images);
    assert_eq!(map.len(), 1);
    assert_eq!(map.get("client.dll").unwrap().get("Source2Client002"), Some(&0x1234));
}

#[test]
fn the_schema_system_that_the_code_names_comes_first() {
    let mut mem = FakeMemory::new();
    let mut code = vec![0x90u8; 0x200];
    load(&mut code, 0x20, &[0x4C, 0x8D, 0x35], 0x1800, &[0x0F, 0x28, 0x45]);
    let image = module("schemasystem.dll", code_image(&code, (0, 0)));
    assert_eq!(read_schema_system(mem.memory(), &image), Err(SchemaSystemError::NotFound));
    mem.put(BASE + 0x1800, &[0; 0x284]);
    mem.put_i32(BASE + 0x1800 + 0x190, 3);
    mem.put_ptr(BASE + 0x1800 + 0x198, 0x1234_5678);
    mem.put_i32(BASE + 0x1800 + 0x280, 40);
    let system = read_schema_system(mem.memory(), &image).expect("system");
    assert_eq!(system.address, BASE + 0x1800);
    assert_eq!(system.scope_count, 3);
    let broken = module("schemasystem.dll", vec![0; 16]);
    assert_eq!(read_schema_system(mem.memory(), &broken), Err(SchemaSystemError::NotAnImage));
}

fn target() -> Target {
    let mut mem = FakeMemory::new();
    let client = button_client(&mut mem);
    let size = client.bytes.len() as u64;
    Target {
        mem: mem.memory,
        images: vec![client],
        pe_images: Vec::new(),
        modules: vec![ModuleRecord { name: "client.dll".into(), base: BASE, size }],
        layout: SchemaLayout::default(),
        bindings: Vec::new(),
        classes: Vec::new(),
    }
}

#[test]
fn a_pass_that_fails_leaves_its_part_empty() {
    let result = analyze_all(&target());
    assert_eq!(result.buttons.len(), 1);
    // The modules that hold offsets are missing.
    assert!(result.offsets.is_empty());
    assert!(result.interfaces.is_empty());
    assert!(result.schemas.is_empty());
    assert!(result.vtables.is_empty());
}

fn hit(name: &str, rva: u64) -> PatternHit {
    PatternHit {
        name: name.to_string(),
        module: "client.dll".to_string(),
        found: true,
        rva: Some(rva),
        va: Some(BASE + rva),
    }
}

#[test]
fn a_process_is_dumped_with_what_the_hits_add() {
    let target = target();
    let hits = vec![
        hit("dwAdded", 0x1234),
        hit("dwOutside", 0x100_0000),
        hit("pCvarRegistry", 0x500),
        hit("helper", 0x10),
    ];
    let dump = analyze_process(&target, &hits, None, |_bits: Vec<u32>| false);
    assert_eq!(dump.dynamic_offsets_added, 2);
    assert_eq!(dump.removed_invalid_offsets, 1);
    let offsets = dump.result.offsets.get("client.dll").unwrap();
    assert_eq!(offsets.get("dwAdded"), Some(&0x1234));
    assert_eq!(offsets.get("dwOutside"), None);
    assert_eq!(dump.anchors.cvar_registry, Some(BASE + 0x500));
    assert_eq!(dump.anchors.entity_system, None);
    assert_eq!(dump.build_number, None);
    assert_eq!(dump.result.buttons.get("in_jump"), Some(&0x1930));
}

#[test]
fn headers_that_do_not_hold_together_are_refused() {
    let image = code_image(&[0x90; 16], (0, 0));
    assert_eq!(writable_ranges(&image), Some(Vec::new()));
    let nt = 0x80;
    let refused = |offset: usize, bytes: &[u8]| {
        let mut broken = image.clone();
        broken[offset..offset + bytes.len()].copy_from_slice(bytes);
        writable_ranges(&broken).is_none()
    };
    assert!(refused(0, b"ZM"));
    assert!(refused(0x3C, &[0x82, 0, 0, 0]));
    assert!(refused(0x3C, &[0, 0, 0, 0x02]));
    assert!(refused(nt, b"PX\0\0"));
    // The magic number of a 32-bit module.
    assert!(refused(nt + 24, &[0x0B, 0x01]));
    // More headers than bytes, or than the image holds.
    assert!(refused(nt + 84, &[0, 0, 1, 0]));
    assert!(refused(nt + 80, &[0, 1, 0, 0]));
    // More sections than there can be, or than the image has room for.
    assert!(refused(nt + 6, &[97, 0]));
    assert!(refused(nt + 20, &[0xF0, 0xFF]));
    assert_eq!(writable_ranges(&image[..0x3F]), None);
}

#[test]
fn code_behind_the_image_is_not_searched() {
    let mut code = vec![0x90u8; 0x200];
    load(&mut code, 0x20, &[0x48, 0x8B, 0x15], 0x1800, BUTTONS);
    let mut image = code_image(&code, (0, 0));
    // The code would begin behind the image.
    put_u32(&mut image, 0x80 + 44, 0x9000_0000);
    assert_eq!(find_code(&image, BUTTON_PATTERN), None);
    // The code would end before it begins.
    put_u32(&mut image, 0x80 + 44, 0x1000);
    put_u32(&mut image, 0x80 + 28, 0xFFFF_F800);
    assert_eq!(find_code(&image, BUTTON_PATTERN), None);
    put_u32(&mut image, 0x80 + 28, 0x1000);
    assert_eq!(find_code(&image, BUTTON_PATTERN), Some(0x1800));
}

/// Headers need not begin at a multiple of eight.
#[test]
fn headers_at_an_odd_word_are_read_alike() {
    let mut code = vec![0x90u8; 0x200];
    load(&mut code, 0x20, &[0x48, 0x8B, 0x15], 0x1800, BUTTONS);
    let exports = export_directory(&mut code, "CreateInterface", TEXT + 0x10);
    let image = code_image_at(0x84, &code, exports);
    assert_eq!(writable_ranges(&image), Some(Vec::new()));
    assert_eq!(find_code(&image, BUTTON_PATTERN), Some(0x1800));
    assert_eq!(find_all_code(&image, BUTTON_PATTERN), [0x1800]);
    assert_eq!(find_export(&image, "CreateInterface"), Some(TEXT + 0x10));
}

/// Section headers that do not begin at a word cannot be read.
#[test]
fn sections_that_do_not_begin_at_a_word_are_refused() {
    let mut image = code_image(&[0x90; 16], (0, 0));
    put_u16(&mut image, 0x80 + 20, 0xF2);
    assert_eq!(writable_ranges(&image), None);
    put_u16(&mut image, 0x80 + 20, 0xF0);
    assert_eq!(writable_ranges(&image), Some(Vec::new()));
}

#[test]
fn images_are_found_whatever_the_case_of_their_name() {
    let mut mem = FakeMemory::new();
    let mut client = button_client(&mut mem);
    client.name = "Client.DLL".to_string();
    let mut process = target();
    process.images = vec![client];
    assert_eq!(analyze_all(&process).buttons.len(), 1);
}

/// The schema pass starts from the system that the module's code names.
#[test]
fn the_schemas_are_those_of_the_system_that_the_code_names() {
    let mut mem = FakeMemory::new();
    let mut code = vec![0x90u8; 0x200];
    load(&mut code, 0x20, &[0x4C, 0x8D, 0x35], 0x1800, &[0x0F, 0x28, 0x45]);
    let image = module("schemasystem.dll", code_image(&code, (0, 0)));
    let scope = mem.allocate(0x200);
    mem.put(scope + 8, b"client.dll\0");
    let list = mem.allocate(8);
    mem.put_ptr(list, scope);
    mem.put(BASE + 0x1800, &[0; 0x284]);
    mem.put_i32(BASE + 0x1800 + 0x190, 1);
    mem.put_ptr(BASE + 0x1800 + 0x198, list);
    mem.put_i32(BASE + 0x1800 + 0x280, 40);
    let class = mem.allocate(0x40);
    let name = mem.alloc_cstr("C_Thing");
    mem.put_ptr(class + 0x20, name);
    let layout = SchemaLayout { class_span: 0x40, class_name: 0x20, ..SchemaLayout::default() };
    let bindings = vec![(scope, vec![class], Vec::new())];
    let map = schemas(mem.memory(), &image, &layout, &Vec::new(), &bindings).expect("schemas");
    assert_eq!(map.get("client.dll").unwrap().0[0].name, "C_Thing");
    let broken = module("schemasystem.dll", vec![0; 16]);
    assert_eq!(
        schemas(mem.memory(), &broken, &layout, &Vec::new(), &bindings).unwrap_err(),
        SchemaSystemError::NotAnImage
    );
    let mut process = target();
    process.mem = mem.memory;
    process.layout = layout;
    process.bindings = bindings;
    assert!(analyze_all(&process).schemas.is_empty());
    process.images = vec![image];
    assert_eq!(analyze_all(&process).schemas.len(), 1);
}

/// The store that names the view renderer.
const STORE: &[u8] = &[0x48, 0x8B, 0xC8, 0x48, 0x85, 0xC0];

fn stores_to(targets: &[u32]) -> Vec<u8> {
    let mut code = vec![0x90u8; 0x200];
    for (index, target) in targets.iter().enumerate() {
        load(&mut code, 0x20 + 0x40 * index, &[0x48, 0x89, 0x05], *target, STORE);
    }
    code_image(&code, (0, 0))
}

/// The first store is the view renderer's, a single other one the physics
/// world's.
#[test]
fn the_physics_world_is_the_only_other_store() {
    let offsets = |targets: &[u32]| {
        let map = client_offsets(&stores_to(targets));
        (map.get("dwViewRender").copied(), map.get("dwVPhys2World").copied())
    };
    assert_eq!(offsets(&[]), (None, None));
    assert_eq!(offsets(&[0x1800]), (Some(0x1800), None));
    assert_eq!(offsets(&[0x1800, 0x1900]), (Some(0x1800), Some(0x1900)));
    assert_eq!(offsets(&[0x1900, 0x1800]), (Some(0x1900), Some(0x1800)));
    assert_eq!(offsets(&[0x1800, 0x1900, 0x1A00]), (Some(0x1800), None));
    assert_eq!(offsets(&[0x1800, 0x1800]), (Some(0x1800), None));
}

/// Code is searched without a look at the section headers.
#[test]
fn code_is_found_where_the_sections_cannot_be_read() {
    let mut image = stores_to(&[0x1800]);
    put_u16(&mut image, 0x80 + 20, 0xF2);
    assert_eq!(writable_ranges(&image), None);
    assert!(is_image(&image));
    let images: Vec<ModuleImage> = [
        "client.dll",
        "engine2.dll",
        "inputsystem.dll",
        "matchmaking.dll",
        "soundsystem.dll",
        "tier0.dll",
    ]
    .into_iter()
    .map(|name| module(name, image.clone()))
    .collect();
    let map = offsets(&images).expect("offsets");
    assert_eq!(map.get("client.dll").unwrap().get("dwViewRender"), Some(&0x1800));

    let mut mem = FakeMemory::new();
    let mut code = vec![0x90u8; 0x200];
    load(&mut code, 0x20, &[0x4C, 0x8D, 0x35], 0x1800, &[0x0F, 0x28, 0x45]);
    let mut bytes = code_image(&code, (0, 0));
    put_u16(&mut bytes, 0x80 + 20, 0xF2);
    let image = module("schemasystem.dll", bytes);
    assert_eq!(read_schema_system(mem.memory(), &image), Err(SchemaSystemError::NotFound));
    mem.put(BASE + 0x1800, &[0; 0x284]);
    mem.put_i32(BASE + 0x1800 + 0x190, 3);
    mem.put_i32(BASE + 0x1800 + 0x280, 40);
    assert_eq!(read_schema_system(mem.memory(), &image).expect("system").scope_count, 3);
}
