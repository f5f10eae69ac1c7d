use cs2_dumper::loadlib::{
    all_steam_roots, cs2_candidates_in_common, dependencies, discover_steam_roots_on_drives,
    drive_letters, find_install, folder_name_lower, install_files, install_rank,
    is_counter_strike_folder, is_cs2_install, library_lists, load, parse_libraryfolders, read_sz,
    resolve_game_file, schema_modules, setup_search_path, steam_install_paths,
    steam_roots_from_vdf, steam_values, steamapps_common, well_known_steam_roots, wide, Attempt,
    Drive, FoundPath, GameFolder, Hive, InstallError, LoadError, LoadOutcome, TopFolder,
};
use cs2_dumper::paths::Style;
use std::path::Path;

/// Most of what follows is said of Windows.
const STYLE: Style = Style::Windows;

/// The rules by which this machine reads paths.
fn host() -> Style {
    if std::path::MAIN_SEPARATOR == '\\' {
        Style::Windows
    } else {
        Style::Unix
    }
}

fn is_install(path: &str) -> bool {
    let (schema_system, executable) = install_files(host(), path);
    is_cs2_install(Path::new(&schema_system).is_file(), Path::new(&executable).is_file())
}

#[test]
fn parses_steam_libraryfolders_paths() {
    let vdf = r#"
"libraryfolders"
{
	"0"
	{
		"path"		"C:\\Program Files (x86)\\Steam"
	}
}
"#;
    let paths = parse_libraryfolders(vdf);
    assert!(paths.iter().any(|p| p.contains("Program Files")));
    assert_eq!(paths, ["C:\\Program Files (x86)\\Steam"]);
}

/// The folders that stand in `path`.
fn folders_in(path: &str) -> Vec<String> {
    let Ok(entries) = Path::new(path).read_dir() else {
        return Vec::new();
    };
    entries
        .flatten()
        .map(|entry| entry.path())
        .filter(|path| path.is_dir())
        .map(|path| path.to_string_lossy().into_owned())
        .collect()
}

fn game_folder(path: String) -> GameFolder {
    let (schema_system, executable) = install_files(host(), &path);
    GameFolder {
        has_schema_system: Path::new(&schema_system).is_file(),
        has_executable: Path::new(&executable).is_file(),
        path,
    }
}

fn folder(path: &str, has_schema_system: bool, has_executable: bool) -> GameFolder {
    GameFolder { path: path.to_string(), has_schema_system, has_executable }
}

#[test]
fn finds_local_counter_strike_install_when_present() {
    let mut present = [false; 24];
    for (index, letter) in ('C'..='Z').enumerate() {
        present[index] = Path::new(&format!("{letter}:\\")).is_dir();
    }
    let is_library =
        |path: &str| Path::new(&resolve_game_file(host(), path, "steamapps/common")).is_dir();
    let drives: Vec<Drive> = drive_letters(&present)
        .into_iter()
        .map(|root| {
            let folders = folders_in(&root)
                .into_iter()
                .map(|path| TopFolder {
                    is_library: is_library(&path),
                    children: folders_in(&path)
                        .into_iter()
                        .map(|child| {
                            let library = is_library(&child);
                            (child, library)
                        })
                        .collect(),
                    path,
                })
                .collect();
            Drive { root, folders }
        })
        .collect();
    let discovered: Vec<FoundPath> = discover_steam_roots_on_drives(host(), &drives)
        .into_iter()
        .map(|path| FoundPath { is_dir: Path::new(&path).is_dir(), path })
        .collect();
    let none: Vec<FoundPath> = Vec::new();
    // What is found on the drives, and beside it a library whose only installs
    // have another name: these must never be the answer.
    let mut folders = vec![folder("/lib/CS2D", true, true), folder("/lib/mod", true, false)];
    for steam in all_steam_roots(&none, &none, &none, &discovered) {
        if let Some(common) = steamapps_common(host(), &steam, is_library(&steam)) {
            folders.extend(folders_in(&common).into_iter().map(game_folder));
        }
    }
    let Ok(path) = find_install(host(), &folders) else {
        return;
    };
    assert!(is_install(&path), "discovered path is not a CS2 install: {path}");
    assert!(
        is_counter_strike_folder(host(), &path),
        "discovered path is not a Counter-Strike folder: {path}"
    );
}

#[test]
fn ranks_counter_strike_folder_names() {
    for style in [Style::Windows, Style::Unix] {
        let named = |path: &str| is_counter_strike_folder(style, path);
        assert!(named("steamapps/common/Counter-Strike Global Offensive"));
        assert!(named(r"E:\SteamLibrary\steamapps\common\Counter-Strike 2"));
        assert!(!named("steamapps/common/CS2D"));
        assert!(
            install_rank(style, "Counter-Strike 2")
                < install_rank(style, "Counter-Strike Global Offensive")
        );
    }
}

#[test]
fn joins_cs2_relative_module_paths() {
    for style in [Style::Windows, Style::Unix] {
        let path = resolve_game_file(
            style,
            "D:/Steam/steamapps/common/Counter-Strike Global Offensive",
            "game\\csgo\\bin\\win64\\client.dll",
        );
        let text = path.replace('\\', "/").to_ascii_lowercase();
        assert!(text.ends_with("game/csgo/bin/win64/client.dll"));
    }
}

#[test]
fn either_file_makes_an_install() {
    assert!(is_cs2_install(true, false));
    assert!(is_cs2_install(false, true));
    assert!(!is_cs2_install(false, false));
}

#[test]
fn the_better_ranked_install_is_taken_and_none_is_an_error() {
    let list = vec![
        folder("C:\\a\\Counter-Strike Global Offensive", true, true),
        folder("D:\\b\\Counter-Strike 2", true, true),
        folder("C:\\z\\Counter-Strike 2", true, true),
        folder("A:\\a\\Counter-Strike 2", false, false),
    ];
    assert_eq!(find_install(STYLE, &list).unwrap(), "C:\\z\\Counter-Strike 2");
    assert!(matches!(find_install(STYLE, &Vec::new()), Err(InstallError::NotFound)));
}

#[test]
fn only_games_with_the_right_name_are_candidates() {
    let all = vec![
        folder("C:\\x\\mod", true, true),
        folder("C:\\x\\Counter-Strike 2", false, true),
        folder("C:\\x\\Counter-Strike Source", false, false),
    ];
    assert_eq!(cs2_candidates_in_common(STYLE, &all), ["C:\\x\\Counter-Strike 2"]);
    let odd = vec![folder("C:\\x\\mod", true, true), folder("C:\\x\\CS2D", true, true)];
    assert!(cs2_candidates_in_common(STYLE, &odd).is_empty());
    assert!(matches!(find_install(STYLE, &odd), Err(InstallError::NotFound)));
}

#[test]
fn a_path_is_ordered_by_its_components() {
    let pair = |a: &str, b: &str| {
        find_install(STYLE, &vec![folder(a, true, true), folder(b, true, true)]).unwrap()
    };
    // A separator comes before every other character, and several are one.
    assert_eq!(
        pair("C:\\a-b\\Counter-Strike 2", "C:\\a\\Counter-Strike 2"),
        "C:\\a\\Counter-Strike 2"
    );
    assert_eq!(
        pair("C:\\a\\\\Counter-Strike 2", "C:\\a/Counter-Strike 2"),
        "C:\\a\\\\Counter-Strike 2"
    );
}

#[test]
fn a_part_with_a_drive_takes_the_place_of_the_path() {
    assert_eq!(resolve_game_file(STYLE, "C:\\game", "D:\\bin"), "D:bin");
    assert_eq!(resolve_game_file(STYLE, "C:\\game", "bin\\win64"), "C:\\game\\bin\\win64");
    assert_eq!(resolve_game_file(STYLE, "C:\\", "bin"), "C:\\bin");
}

#[test]
fn paths_are_joined_as_the_system_does() {
    let unix = Style::Unix;
    assert_eq!(resolve_game_file(unix, "/home/me", "game\\bin/win64"), "/home/me/game/bin/win64");
    assert_eq!(
        steamapps_common(unix, "/home/me/Steam", true).unwrap(),
        "/home/me/Steam/steamapps/common"
    );
    assert_eq!(
        well_known_steam_roots(unix, &Vec::new(), Some("/home/me")),
        [
            "/home/me/.steam/steam",
            "/home/me/.steam/root",
            "/home/me/.local/share/Steam",
            "/home/me/Steam",
        ]
    );
    assert_eq!(
        library_lists(unix, "/steam"),
        ["/steam/steamapps/libraryfolders.vdf", "/steam/config/libraryfolders.vdf"]
    );
    assert_eq!(
        setup_search_path(unix, "/cs", true, true).unwrap().dll_directory,
        "/cs/game/bin/win64"
    );
}

#[test]
fn libraries_are_listed_in_two_places() {
    assert_eq!(
        library_lists(STYLE, "C:\\Steam"),
        [
            "C:\\Steam\\steamapps/libraryfolders.vdf",
            "C:\\Steam\\config/libraryfolders.vdf",
        ]
    );
}

#[test]
fn the_registry_is_asked_for_three_values() {
    let values: Vec<(Hive, &str, &str)> =
        steam_values().iter().map(|item| (item.hive, item.key, item.value)).collect();
    assert_eq!(
        values,
        [
            (Hive::CurrentUser, "Software\\Valve\\Steam", "SteamPath"),
            (Hive::LocalMachine, "SOFTWARE\\WOW6432Node\\Valve\\Steam", "InstallPath"),
            (Hive::LocalMachine, "SOFTWARE\\Valve\\Steam", "InstallPath"),
        ]
    );
}

#[test]
fn a_folder_name_is_the_last_part_in_lower_case() {
    assert_eq!(folder_name_lower(STYLE, "C:\\Games\\Counter-Strike 2"), "counter-strike 2");
    assert_eq!(folder_name_lower(STYLE, "C:/Games/CSGO/"), "csgo");
}

#[test]
fn well_known_roots_lie_below_programs_and_home() {
    let programs = vec!["C:\\Program Files".to_string()];
    assert_eq!(
        well_known_steam_roots(STYLE, &programs, Some("C:\\Users\\me")),
        [
            "C:\\Program Files\\Steam",
            "C:\\Users\\me\\.steam\\steam",
            "C:\\Users\\me\\.steam\\root",
            "C:\\Users\\me\\.local\\share\\Steam",
            "C:\\Users\\me\\Steam",
        ]
    );
    assert!(well_known_steam_roots(STYLE, &Vec::new(), None).is_empty());
}

#[test]
fn drives_are_searched_one_level_deep() {
    let drives = vec![Drive {
        root: "D:\\".to_string(),
        folders: vec![TopFolder {
            path: "D:\\games".to_string(),
            is_library: false,
            children: vec![
                ("D:\\games\\Steam".to_string(), true),
                ("D:\\games\\other".to_string(), false),
            ],
        }],
    }];
    assert_eq!(
        discover_steam_roots_on_drives(STYLE, &drives),
        [
            "D:\\Steam",
            "D:\\SteamLibrary",
            "D:\\Program Files (x86)\\Steam",
            "D:\\Program Files\\Steam",
            "D:\\games\\Steam",
        ]
    );
}

#[test]
fn drive_letters_begin_at_c() {
    let mut present = [false; 24];
    present[0] = true;
    present[23] = true;
    assert_eq!(drive_letters(&present), ["C:\\", "Z:\\"]);
}

#[test]
fn registry_text_ends_before_its_terminators() {
    let mut buf: Vec<u16> = "C:\\Steam".encode_utf16().collect();
    buf.extend([0, 0, 0]);
    assert_eq!(read_sz(&buf, 18), "C:\\Steam");
    assert_eq!(read_sz(&buf, 22), "C:\\Steam");
    assert_eq!(read_sz(&buf, 0), "");
    assert_eq!(read_sz(&buf, 4), "C");
    // An unpaired surrogate is replaced.
    assert_eq!(read_sz(&[0xD800, 0x41, 0], 6), "\u{FFFD}A");
}

#[test]
fn registry_values_that_are_missing_are_left_out() {
    let values = vec![None, Some("C:\\Steam".to_string())];
    assert_eq!(steam_install_paths(&values), ["C:\\Steam"]);
}

#[test]
fn the_root_itself_is_the_first_library() {
    let listed = vec![
        FoundPath { path: "E:\\lib".to_string(), is_dir: true },
        FoundPath { path: "F:\\gone".to_string(), is_dir: false },
    ];
    assert_eq!(steam_roots_from_vdf("C:\\Steam", &listed), ["C:\\Steam", "E:\\lib"]);
}

#[test]
fn the_mods_folder_is_searched_before_the_games() {
    let path = setup_search_path(STYLE, "C:\\cs", true, true).unwrap();
    assert_eq!(path.dll_directory, "C:\\cs\\game\\bin\\win64");
    assert_eq!(path.added, ["C:\\cs\\game\\csgo\\bin\\win64", "C:\\cs\\game\\bin\\win64"]);
    assert_eq!(setup_search_path(STYLE, "C:\\cs", false, true).unwrap_err(), "C:\\cs\\game\\bin\\win64");
}

#[test]
fn wide_text_is_terminated_and_uses_surrogates() {
    assert_eq!(wide("aé"), [0x61, 0xE9, 0]);
    assert_eq!(wide("\u{1F600}"), [0xD83D, 0xDE00, 0]);
}

fn attempt(path: &str, outcome: LoadOutcome, status: Option<u64>) -> Attempt {
    Attempt { relative: path.to_string(), outcome, status }
}

#[test]
fn a_run_reports_what_was_loaded_and_registered() {
    let schema = attempt("game\\bin\\win64\\schemasystem.dll", LoadOutcome::Loaded, Some(0));
    let deps = vec![attempt(
        "game\\bin\\win64\\tier0.dll",
        LoadOutcome::Failed("no".to_string()),
        None,
    )];
    let modules = vec![
        attempt("game\\bin\\win64\\client.dll", LoadOutcome::Loaded, Some(0xC000_0001)),
        attempt("game\\bin\\win64\\server.dll", LoadOutcome::Loaded, Some(2)),
    ];
    let report = load(&deps, &schema, 0x1234, &modules).expect("report");
    assert_eq!(report.schema_system, Some(0x1234));
    assert_eq!(report.loaded, ["schemasystem.dll", "client.dll", "server.dll"]);
    assert_eq!(report.bindings, ["schemasystem.dll", "client.dll"]);
    assert_eq!(report.failed[0], ("tier0.dll".to_string(), "no".to_string()));
    assert_eq!(report.failed[1], ("server.dll".to_string(), "status 0x2".to_string()));

    assert!(matches!(load(&deps, &schema, 0, &modules), Err(LoadError::NoInterface)));
}

#[test]
fn a_run_without_any_registration_is_an_error() {
    let schema = attempt("game\\bin\\win64\\schemasystem.dll", LoadOutcome::Loaded, None);
    assert!(matches!(load(&Vec::new(), &schema, 1, &Vec::new()), Err(LoadError::NoBindings)));
    let gone = attempt(
        "game\\bin\\win64\\schemasystem.dll",
        LoadOutcome::Missing("C:\\x".to_string()),
        None,
    );
    match load(&Vec::new(), &gone, 1, &Vec::new()) {
        Err(LoadError::SchemaSystem(message)) => assert_eq!(message, "file not found: C:\\x"),
        other => panic!("{other:?}"),
    }
}

#[test]
fn the_schema_system_registers_first_and_again_with_the_modules() {
    assert_eq!(dependencies().len(), 4);
    assert_eq!(schema_modules().len(), 31);
    let loaded = |path: &&str| attempt(path, LoadOutcome::Loaded, Some(0));
    let deps: Vec<Attempt> = dependencies().iter().map(loaded).collect();
    let modules: Vec<Attempt> = schema_modules().iter().map(loaded).collect();
    let report = load(&deps, &modules[0], 0x1000, &modules).expect("report");
    assert_eq!(report.loaded.len(), 35);
    assert_eq!(report.bindings.len(), 32);
    assert_eq!(report.bindings[..2], ["schemasystem.dll", "schemasystem.dll"]);
}
