use cs2_dumper::cli::{
    backend_label, choose_backend, choose_target, dump_log_name, terminal_log_level, Backend,
    LogLevel, Target,
};
use cs2_dumper::loadlib::wide;
use cs2_dumper::memory::local::{assemble, read_plan, ChunkRead, PAGE};
use cs2_dumper::memory::snapshot::{
    exe_path, readonly_metadata, ModuleInfo, ProcessInfo, ProcessSnapshot,
};
use cs2_dumper::memory::win::{
    enumerate_modules, find_pid, invalid_handle, wchar_to_string, ModuleEntry, ProcessEntry,
};
use cs2_dumper::memory::Memory;

#[test]
fn dump_log_path_is_inside_the_output_directory() {
    let output = std::path::Path::new(r"C:\dumps\cs2");
    let log = output.join(dump_log_name());
    assert_eq!(log.parent(), Some(output));
    assert_eq!(log.file_name().and_then(|name| name.to_str()), Some("cs2-dumper.log"));
}

#[test]
fn default_terminal_log_level_keeps_warnings_visible() {
    assert_eq!(terminal_log_level(0), LogLevel::Warn);
    assert_eq!(terminal_log_level(1), LogLevel::Info);
    assert_eq!(terminal_log_level(2), LogLevel::Debug);
    assert_eq!(terminal_log_level(3), LogLevel::Trace);
}

#[test]
fn a_connector_stands_for_a_backend() {
    assert_eq!(choose_backend(None), Backend::Native);
    assert_eq!(choose_backend(Some("Syscall")), Backend::Syscall);
    assert_eq!(choose_backend(Some("SHADE")), Backend::Shade);
    assert_eq!(choose_backend(Some("kvm")), Backend::Plugin);
    assert_eq!(choose_backend(Some("native")), Backend::Native);
    assert_eq!(backend_label(None, Target::LiveProcess), "native");
    assert_eq!(backend_label(Some("native"), Target::LiveProcess), "native");
    assert_eq!(backend_label(Some("SHADE"), Target::LiveProcess), "shade");
    assert_eq!(backend_label(Some("SysCall"), Target::LiveProcess), "syscall");
    assert_eq!(backend_label(Some("kvm"), Target::LiveProcess), "kvm");
    assert_eq!(backend_label(None, Target::LoadedModules), "loadlib");
    assert_eq!(backend_label(Some("native"), Target::LoadedModules), "loadlib");
}

#[test]
fn only_the_native_backend_falls_back_on_loaded_modules() {
    assert_eq!(choose_target(Backend::Native, true), Target::LiveProcess);
    assert_eq!(choose_target(Backend::Native, false), Target::LoadedModules);
    assert_eq!(choose_target(Backend::Plugin, false), Target::NotOnConnector);
    assert_eq!(choose_target(Backend::Shade, false), Target::LiveProcess);
}

fn units(text: &str) -> Vec<u16> {
    text.encode_utf16().chain([0, 0x41]).collect()
}

#[test]
fn wide_text_ends_at_its_terminator() {
    assert_eq!(wchar_to_string(&units("cs2.exe")), "cs2.exe");
    assert_eq!(wchar_to_string(&[0x63, 0x73]), "cs");
    assert_eq!(wchar_to_string(&[0xDC00, 0]), "\u{FFFD}");
    assert_eq!(wchar_to_string(&[]), "");
}

#[test]
fn wide_text_comes_back() {
    for text in ["", "cs2.exe", "h\u{e9}\u{20ac}\u{1F600}"] {
        let mut units = wide(text);
        units.extend([0x41, 0x42]);
        assert_eq!(wchar_to_string(&units), text);
    }
}

#[test]
fn handles_of_nothing_are_recognised() {
    assert!(invalid_handle(0));
    assert!(invalid_handle(u64::MAX));
    assert!(!invalid_handle(4));
}

#[test]
fn a_process_is_found_whatever_the_case_of_its_name() {
    let entries = vec![
        ProcessEntry { pid: 4, exe_file: units("System") },
        ProcessEntry { pid: 77, exe_file: units("CS2.exe") },
    ];
    assert_eq!(find_pid(&entries, "cs2.exe"), Some(77));
    assert_eq!(find_pid(&entries, "steam.exe"), None);
}

#[test]
fn entries_without_base_size_or_name_are_no_modules() {
    let entry = |base: u64, size: u32, name: &str| ModuleEntry {
        base,
        size,
        module: units(name),
        exe_path: units("C:\\x"),
    };
    let entries = vec![
        entry(0, 0x1000, "a.dll"),
        entry(0x1000, 0, "b.dll"),
        entry(0x1000, 0x1000, ""),
        entry(0x2000, 0x1000, "client.dll"),
    ];
    let modules = enumerate_modules(&entries, 64).expect("modules");
    assert_eq!(modules.len(), 1);
    assert_eq!(modules[0].name, "client.dll");
    assert_eq!(modules[0].base, 0x2000);
    assert_eq!(modules[0].path, "C:\\x");
    assert!(enumerate_modules(&vec![entry(0, 0, "")], 64).is_none());
}

fn info(name: &str, base: u64, size: u64, arch: u32) -> ModuleInfo {
    ModuleInfo {
        address: base,
        base,
        size,
        name: name.to_string(),
        path: format!("C:\\game\\{name}"),
        arch,
    }
}

fn process(name: &str) -> ProcessInfo {
    ProcessInfo { pid: 7, name: name.to_string(), path: String::new() }
}

fn snapshot() -> ProcessSnapshot {
    ProcessSnapshot::new(
        process("cs2.exe"),
        vec![
            info("ntdll.dll", 0x1000, 0x1000, 64),
            info("CS2.exe", 0x4000, 0x2000, 64),
            info("old.dll", 0x8000, 0x1000, 32),
            info("huge.dll", u64::MAX - 8, 0x1000, 64),
        ],
    )
}

#[test]
fn modules_are_listed_by_architecture() {
    let snapshot = snapshot();
    assert_eq!(snapshot.module_address_list_callback(Some(32)), [(0x8000, 32)]);
    assert_eq!(snapshot.module_address_list_callback(None).len(), 4);
}

#[test]
fn modules_are_found_by_name_and_address() {
    let snapshot = snapshot();
    assert_eq!(snapshot.module_by_name("NTDLL.DLL").unwrap().base, 0x1000);
    assert!(snapshot.module_by_name("gone.dll").is_none());
    assert_eq!(snapshot.module_by_address(0x8000, 32).unwrap().name, "old.dll");
    assert!(snapshot.module_by_address(0x8000, 64).is_none());
}

#[test]
fn the_primary_module_has_the_name_of_the_process() {
    assert_eq!(snapshot().primary_module_address(), Some(0x4000));
    assert_eq!(snapshot().info().pid, 7);
    assert_eq!(exe_path(&snapshot().modules, "cs2.exe"), "C:\\game\\CS2.exe");
    let mut other = snapshot();
    other.info = process("game.exe");
    assert_eq!(exe_path(&other.modules, "game.exe"), "");
    assert_eq!(other.primary_module_address(), Some(0x1000));
    assert_eq!(ProcessSnapshot::new(process(""), Vec::new()).primary_module_address(), None);
}

#[test]
fn mapped_ranges_are_clipped_to_what_was_asked_for() {
    let snapshot = snapshot();
    assert_eq!(snapshot.mapped_mem_range(0x1800, 0x5000), [(0x1800, 0x800), (0x4000, 0x1000)]);
    let all = [(0x1000, 0x1000), (0x4000, 0x2000), (0x8000, 0x1000)];
    assert_eq!(snapshot.mapped_mem_range(0, 0), all);
    assert_eq!(snapshot.mapped_mem_range(0, u64::MAX), all);
    assert_eq!(snapshot.mapped_mem_range(0x9000, 0x9000), []);
}

#[test]
fn a_read_is_split_at_pages() {
    let page = PAGE as u64;
    assert_eq!(
        read_plan(page - 0x10, 0x20),
        [(page - 0x10, 0x10), (page, 0x10)]
    );
    assert!(read_plan(0x1234, 0).is_empty());
}

#[test]
fn runs_are_mapped_where_nothing_is() {
    let mut memory = Memory::new();
    assert!(memory.map_run(0x14, vec![2; 4]));
    assert!(memory.map_run(0x10, vec![1; 4]));
    assert!(memory.map_run(u64::MAX, vec![9]));
    assert_eq!(memory.read_raw(0x12, 8), [1, 1, 2, 2, 2, 2, 0, 0]);
    assert_eq!(memory.read_raw(u64::MAX, 1), [9]);
    assert!(!memory.map_run(0x0E, vec![3; 3]));
    assert!(!memory.map_run(0x17, vec![3; 3]));
    assert!(!memory.map_run(0x0E, vec![3; 0x20]));
    assert!(!memory.map_run(0x40, Vec::new()));
    assert!(!memory.map_run(u64::MAX - 1, vec![3; 3]));
    assert_eq!(memory.read_raw(0x0E, 2), [0, 0]);
}

#[test]
fn what_was_not_read_is_zero_and_reported() {
    let whole = |want: usize, bytes: Vec<u8>, ok: bool| ChunkRead { want, bytes, ok };
    let reads = vec![whole(2, vec![1, 2], true), whole(2, vec![3, 4], true)];
    assert_eq!(assemble(4, &reads), (vec![1, 2, 3, 4], true));
    let short = vec![whole(2, vec![1], true), whole(2, vec![3, 4], true)];
    assert_eq!(assemble(4, &short), (vec![1, 0, 3, 4], false));
    let failed = vec![whole(2, vec![1, 2], false), whole(2, vec![3, 4], true)];
    assert_eq!(assemble(4, &failed), (vec![1, 2, 3, 4], false));
    assert_eq!(assemble(4, &Vec::new()), (vec![0; 4], false));
}

#[test]
fn views_are_read_only() {
    let metadata = readonly_metadata();
    assert!(metadata.readonly && metadata.little_endian);
    assert_eq!(metadata.max_address, u64::MAX);
    assert_eq!(metadata.arch_bits, 64);
}
