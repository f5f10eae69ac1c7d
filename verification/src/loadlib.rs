//! Finds the game's install, and decides what loading its modules means.
//!
//! Asking the file system and the registry, and loading libraries, is the
//! caller's work: it hands in what it found, and the rules by which the system
//! reads paths. The game's own relative paths are the same on every system.

use crate::memory::win::{from_utf16_lossy, to_wide_path, utf16, utf16_lossy};
use crate::paths::{
    comes_before, file_name, join, lemma_path_order, name_of_path, path_before, pushed, string_of,
    Style,
};
use crate::text::{
    ascii_lower, chars_of, hex, hex_value, holds_string, holds_text, lemma_hex_value, lower_text,
    push_hex, str_contains, str_eq, strings,
};
use vstd::prelude::*;
use vstd::slice::*;
use vstd::string::*;
use vstd::utf8::*;

verus! {

/// A separator of the game's relative paths.
pub open spec fn is_separator(c: char) -> bool {
    c == '\\' || c == '/'
}

fn separates(c: char) -> (yes: bool)
    ensures
        yes == is_separator(c),
{
    c == '\\' || c == '/'
}

/// Where the last part of a relative path begins.
pub open spec fn component_start(path: Seq<char>, end: int) -> int
    decreases end,
{
    if end <= 0 {
        0
    } else if is_separator(path[end - 1]) {
        end
    } else {
        component_start(path, end - 1)
    }
}

/// The name of a folder in lower case.
pub open spec fn folder_text(style: Style, dir: Seq<char>) -> Seq<char> {
    lower_text(file_name(style, dir))
}

pub fn folder_name_lower(style: Style, dir: &str) -> (name: String)
    ensures
        name@ == folder_text(style, dir@),
{
    ascii_lower(name_of_path(style, dir).as_str())
}

/// Whether a folder has the name of a Counter-Strike game.
pub fn is_counter_strike_folder(style: Style, dir: &str) -> (yes: bool)
    ensures
        yes == holds_text(folder_text(style, dir@), "counter-strike"@),
{
    str_contains(folder_name_lower(style, dir).as_str(), "counter-strike")
}

/// How much a folder's name speaks for the current game: the smaller, the more.
pub open spec fn rank_of(style: Style, dir: Seq<char>) -> u8 {
    let name = folder_text(style, dir);
    if name == "counter-strike 2"@ {
        0
    } else if holds_text(name, "counter-strike 2"@) {
        1
    } else if holds_text(name, "global offensive"@) {
        2
    } else if holds_text(name, "counter-strike"@) {
        3
    } else {
        4
    }
}

pub fn install_rank(style: Style, dir: &str) -> (rank: u8)
    ensures
        rank == rank_of(style, dir@),
{
    let name = folder_name_lower(style, dir);
    if str_eq(name.as_str(), "counter-strike 2") {
        0
    } else if str_contains(name.as_str(), "counter-strike 2") {
        1
    } else if str_contains(name.as_str(), "global offensive") {
        2
    } else if str_contains(name.as_str(), "counter-strike") {
        3
    } else {
        4
    }
}

/// A path with the parts of a relative one behind it: `from` is where the part
/// at hand begins, and `at` how far it was read.
pub open spec fn resolved(
    style: Style,
    path: Seq<char>,
    relative: Seq<char>,
    from: int,
    at: int,
) -> Seq<char>
    decreases relative.len() - at,
{
    if at >= relative.len() {
        if from < at {
            pushed(style, path, relative.subrange(from, at))
        } else {
            path
        }
    } else if is_separator(relative[at]) {
        if from < at {
            resolved(
                style,
                pushed(style, path, relative.subrange(from, at)),
                relative,
                at + 1,
                at + 1,
            )
        } else {
            resolved(style, path, relative, at + 1, at + 1)
        }
    } else {
        resolved(style, path, relative, from, at + 1)
    }
}

/// The path of a file of the game, given its path below the game's folder.
pub fn resolve_game_file(style: Style, game_dir: &str, relative: &str) -> (path: String)
    ensures
        path@ == resolved(style, game_dir@, relative@, 0, 0),
{
    let rel = chars_of(relative);
    let size: usize = rel.len();
    let mut path = game_dir.to_owned();
    let mut from: usize = 0;
    let mut at: usize = 0;
    while at < size
        invariant
            rel@ == relative@,
            size == rel@.len(),
            from <= at <= size,
            resolved(style, game_dir@, relative@, 0, 0) == resolved(
                style,
                path@,
                relative@,
                from as int,
                at as int,
            ),
        decreases size - at,
    {
        if separates(rel[at]) {
            if from < at {
                let part = string_of(&rel, from, at);
                path = join(style, path.as_str(), part.as_str());
            }
            from = at + 1;
        }
        at = at + 1;
    }
    if from < at {
        let part = string_of(&rel, from, at);
        path = join(style, path.as_str(), part.as_str());
    }
    path
}

/// The texts of a list of paths.
pub open spec fn texts(list: Seq<&'static str>) -> Seq<Seq<char>> {
    Seq::new(list.len(), |i: int| list[i]@)
}

/// The libraries that are loaded before any schema is registered.
pub open spec fn dependency_paths() -> Seq<Seq<char>> {
    seq![
        "game\\bin\\win64\\tier0.dll"@,
        "game\\bin\\win64\\vstdlib.dll"@,
        "game\\bin\\win64\\steam_api64.dll"@,
        "game\\bin\\win64\\steamnetworkingsockets.dll"@,
    ]
}

/// The libraries that are loaded before any schema is registered.
pub fn dependencies() -> (paths: Vec<&'static str>)
    ensures
        texts(paths@) == dependency_paths(),
{
    let paths: Vec<&'static str> = vec![
        "game\\bin\\win64\\tier0.dll",
        "game\\bin\\win64\\vstdlib.dll",
        "game\\bin\\win64\\steam_api64.dll",
        "game\\bin\\win64\\steamnetworkingsockets.dll",
    ];
    assert(texts(paths@) =~= dependency_paths());
    paths
}

/// The libraries that register schemas. The schema system's own is the first, and
/// registers again here.
pub open spec fn module_paths() -> Seq<Seq<char>> {
    seq![
        "game\\bin\\win64\\schemasystem.dll"@,
        "game\\bin\\win64\\animationsystem.dll"@,
        "game\\bin\\win64\\engine2.dll"@,
        "game\\bin\\win64\\filesystem_stdio.dll"@,
        "game\\bin\\win64\\inputsystem.dll"@,
        "game\\bin\\win64\\imemanager.dll"@,
        "game\\bin\\win64\\localize.dll"@,
        "game\\bin\\win64\\materialsystem2.dll"@,
        "game\\bin\\win64\\meshsystem.dll"@,
        "game\\bin\\win64\\navsystem.dll"@,
        "game\\bin\\win64\\networksystem.dll"@,
        "game\\bin\\win64\\panorama.dll"@,
        "game\\bin\\win64\\panorama_text_pango.dll"@,
        "game\\bin\\win64\\panoramauiclient.dll"@,
        "game\\bin\\win64\\particles.dll"@,
        "game\\bin\\win64\\pulse_system.dll"@,
        "game\\bin\\win64\\rendersystemdx11.dll"@,
        "game\\bin\\win64\\resourcesystem.dll"@,
        "game\\bin\\win64\\scenefilecache.dll"@,
        "game\\bin\\win64\\scenesystem.dll"@,
        "game\\bin\\win64\\soundsystem.dll"@,
        "game\\bin\\win64\\steamaudio.dll"@,
        "game\\bin\\win64\\v8system.dll"@,
        "game\\bin\\win64\\vconcomm.dll"@,
        "game\\bin\\win64\\vphysics2.dll"@,
        "game\\bin\\win64\\vscript.dll"@,
        "game\\bin\\win64\\worldrenderer.dll"@,
        "game\\csgo\\bin\\win64\\client.dll"@,
        "game\\csgo\\bin\\win64\\server.dll"@,
        "game\\csgo\\bin\\win64\\host.dll"@,
        "game\\csgo\\bin\\win64\\matchmaking.dll"@,
    ]
}

/// The libraries that register schemas. The schema system's own is the first, and
/// registers again here.
pub fn schema_modules() -> (paths: Vec<&'static str>)
    ensures
        texts(paths@) == module_paths(),
{
    let paths: Vec<&'static str> = vec![
        "game\\bin\\win64\\schemasystem.dll",
        "game\\bin\\win64\\animationsystem.dll",
        "game\\bin\\win64\\engine2.dll",
        "game\\bin\\win64\\filesystem_stdio.dll",
        "game\\bin\\win64\\inputsystem.dll",
        "game\\bin\\win64\\imemanager.dll",
        "game\\bin\\win64\\localize.dll",
        "game\\bin\\win64\\materialsystem2.dll",
        "game\\bin\\win64\\meshsystem.dll",
        "game\\bin\\win64\\navsystem.dll",
        "game\\bin\\win64\\networksystem.dll",
        "game\\bin\\win64\\panorama.dll",
        "game\\bin\\win64\\panorama_text_pango.dll",
        "game\\bin\\win64\\panoramauiclient.dll",
        "game\\bin\\win64\\particles.dll",
        "game\\bin\\win64\\pulse_system.dll",
        "game\\bin\\win64\\rendersystemdx11.dll",
        "game\\bin\\win64\\resourcesystem.dll",
        "game\\bin\\win64\\scenefilecache.dll",
        "game\\bin\\win64\\scenesystem.dll",
        "game\\bin\\win64\\soundsystem.dll",
        "game\\bin\\win64\\steamaudio.dll",
        "game\\bin\\win64\\v8system.dll",
        "game\\bin\\win64\\vconcomm.dll",
        "game\\bin\\win64\\vphysics2.dll",
        "game\\bin\\win64\\vscript.dll",
        "game\\bin\\win64\\worldrenderer.dll",
        "game\\csgo\\bin\\win64\\client.dll",
        "game\\csgo\\bin\\win64\\server.dll",
        "game\\csgo\\bin\\win64\\host.dll",
        "game\\csgo\\bin\\win64\\matchmaking.dll",
    ];
    assert(texts(paths@) =~= module_paths());
    paths
}

/// The two files by which an install is known.
pub fn install_files(style: Style, dir: &str) -> (files: (String, String))
    ensures
        files.0@ == resolved(style, dir@, "game\\bin\\win64\\schemasystem.dll"@, 0, 0),
        files.1@ == resolved(style, dir@, "game\\bin\\win64\\cs2.exe"@, 0, 0),
{
    (
        resolve_game_file(style, dir, "game\\bin\\win64\\schemasystem.dll"),
        resolve_game_file(style, dir, "game\\bin\\win64\\cs2.exe"),
    )
}

/// Whether a folder is an install of the game, by which of its files exist: the
/// schema system's library, or the game's executable.
pub fn is_cs2_install(has_schema_system: bool, has_executable: bool) -> (yes: bool)
    ensures
        yes == (has_schema_system || has_executable),
{
    has_schema_system || has_executable
}

/// Where a Steam library keeps its games, if that folder exists.
pub fn steamapps_common(style: Style, steam_root: &str, exists: bool) -> (common: Option<String>)
    ensures
        match common {
            Some(path) => exists && path@ == pushed(
                style,
                pushed(style, steam_root@, "steamapps"@),
                "common"@,
            ),
            None => !exists,
        },
{
    if !exists {
        return None;
    }
    Some(join(style, join(style, steam_root, "steamapps").as_str(), "common"))
}

/// The first quotation mark at or after `i`.
pub open spec fn quote_from(text: Seq<char>, i: int) -> Option<int>
    decreases text.len() - i,
{
    if i >= text.len() {
        None
    } else if text[i] == '"' {
        Some(i)
    } else {
        quote_from(text, i + 1)
    }
}

/// The quoted strings of a text from `i` on.
pub open spec fn quoted_from(text: Seq<char>, i: int) -> Seq<Seq<char>>
    decreases text.len() - i,
{
    match quote_from(text, i) {
        None => Seq::empty(),
        Some(a) => match quote_from(text, a + 1) {
            None => Seq::empty(),
            Some(b) => if i <= a < b < text.len() {
                seq![text.subrange(a + 1, b)] + quoted_from(text, b + 1)
            } else {
                Seq::empty()
            },
        },
    }
}

/// A quoted string that is the path of a library.
pub open spec fn is_library_path(token: Seq<char>) -> bool {
    let lower = lower_text(token);
    &&& encode_utf8(token).len() >= 2
    &&& holds_text(lower, ":\\"@) || holds_text(lower, "steam"@)
    &&& !holds_text(lower, ".vdf"@)
    &&& !holds_text(lower, ".dll"@)
}

/// A text from `i` on with one backslash for each pair of them.
pub open spec fn unescaped_from(text: Seq<char>, i: int) -> Seq<char>
    decreases text.len() - i,
{
    if i >= text.len() {
        Seq::empty()
    } else if i + 1 < text.len() && text[i] == '\\' && text[i + 1] == '\\' {
        seq!['\\'] + unescaped_from(text, i + 2)
    } else {
        seq![text[i]] + unescaped_from(text, i + 1)
    }
}

/// The library paths among the first `n` of a list of quoted strings.
pub open spec fn library_paths(tokens: Seq<Seq<char>>, n: nat) -> Seq<Seq<char>>
    decreases n,
{
    if n == 0 {
        Seq::empty()
    } else {
        let before = library_paths(tokens, (n - 1) as nat);
        if is_library_path(tokens[n - 1]) {
            before.push(unescaped_from(tokens[n - 1], 0))
        } else {
            before
        }
    }
}

fn find_quote(text: &Vec<char>, from: usize) -> (place: Option<usize>)
    requires
        from <= text@.len(),
    ensures
        match place {
            Some(i) => quote_from(text@, from as int) == Some(i as int) && from <= i < text@.len(),
            None => quote_from(text@, from as int) is None,
        },
{
    let mut i: usize = from;
    while i < text.len()
        invariant
            from <= i <= text@.len(),
            quote_from(text@, from as int) == quote_from(text@, i as int),
        decreases text@.len() - i,
    {
        if text[i] == '"' {
            return Some(i);
        }
        i = i + 1;
    }
    None
}

fn quoted_strings(text: &Vec<char>) -> (tokens: Vec<String>)
    ensures
        strings(tokens@) == quoted_from(text@, 0),
{
    let mut tokens: Vec<String> = Vec::new();
    let mut at: usize = 0;
    assert(strings(tokens@) + quoted_from(text@, 0) =~= quoted_from(text@, 0));
    while at <= text.len()
        invariant
            at <= text@.len(),
            strings(tokens@) + quoted_from(text@, at as int) == quoted_from(text@, 0),
        ensures
            strings(tokens@) =~= quoted_from(text@, 0),
        decreases text@.len() + 1 - at,
    {
        let a: usize = match find_quote(text, at) {
            Some(i) => i,
            None => {
                break ;
            },
        };
        let b: usize = match find_quote(text, a + 1) {
            Some(i) => i,
            None => {
                break ;
            },
        };
        let token = string_of(text, a + 1, b);
        let ghost done = strings(tokens@);
        let ghost item = token@;
        tokens.push(token);
        at = b + 1;
        proof {
            assert(strings(tokens@) =~= done.push(item));
            assert(done + (seq![item] + quoted_from(text@, at as int)) =~= done.push(item)
                + quoted_from(text@, at as int));
        }
    }
    tokens
}

fn unescape(text: &str) -> (out: String)
    ensures
        out@ == unescaped_from(text@, 0),
{
    let chars = chars_of(text);
    let size: usize = chars.len();
    let mut out = String::new();
    let mut i: usize = 0;
    assert(out@ + unescaped_from(text@, 0) =~= unescaped_from(text@, 0));
    while i < size
        invariant
            chars@ == text@,
            size == chars@.len(),
            i <= size,
            out@ + unescaped_from(text@, i as int) == unescaped_from(text@, 0),
        decreases size - i,
    {
        let ghost done = out@;
        if size - i > 1 && chars[i] == '\\' && chars[i + 1] == '\\' {
            out.push('\\');
            assert(done + (seq!['\\'] + unescaped_from(text@, i + 2)) =~= out@ + unescaped_from(
                text@,
                i + 2,
            ));
            i = i + 2;
        } else {
            out.push(chars[i]);
            assert(done + (seq![chars@[i as int]] + unescaped_from(text@, i + 1)) =~= out@
                + unescaped_from(text@, i + 1));
            i = i + 1;
        }
    }
    assert(out@ + Seq::<char>::empty() =~= out@);
    out
}

fn names_library(token: &str) -> (yes: bool)
    ensures
        yes == is_library_path(token@),
{
    if token.as_bytes().len() < 2 {
        return false;
    }
    let lower = ascii_lower(token);
    let text = lower.as_str();
    (str_contains(text, ":\\") || str_contains(text, "steam")) && !str_contains(text, ".vdf")
        && !str_contains(text, ".dll")
}

/// The library paths that Steam's list of library folders names.
pub fn parse_libraryfolders(text: &str) -> (paths: Vec<String>)
    ensures
        strings(paths@) == library_paths(
            quoted_from(text@, 0),
            quoted_from(text@, 0).len(),
        ),
{
    let chars = chars_of(text);
    let tokens = quoted_strings(&chars);
    let ghost list = quoted_from(text@, 0);
    let mut paths: Vec<String> = Vec::new();
    let mut i: usize = 0;
    assert(strings(tokens@).len() == tokens@.len());
    assert(strings(paths@) =~= Seq::<Seq<char>>::empty());
    while i < tokens.len()
        invariant
            i <= tokens@.len(),
            list == strings(tokens@),
            strings(paths@) == library_paths(list, i as nat),
        decreases tokens@.len() - i,
    {
        assert(list[i as int] == tokens@[i as int]@);
        if names_library(tokens[i].as_str()) {
            let ghost before = strings(paths@);
            let path = unescape(tokens[i].as_str());
            let ghost item = path@;
            paths.push(path);
            assert(strings(paths@) =~= before.push(item));
        }
        i = i + 1;
    }
    paths
}

/// A path, and whether a folder stands there.
#[derive(Debug)]
pub struct FoundPath {
    pub path: String,
    pub is_dir: bool,
}

/// The first `n` paths at which a folder stands.
pub open spec fn folders(list: Seq<FoundPath>, n: nat) -> Seq<Seq<char>>
    decreases n,
{
    if n == 0 {
        Seq::empty()
    } else {
        let before = folders(list, (n - 1) as nat);
        if list[n - 1].is_dir {
            before.push(list[n - 1].path@)
        } else {
            before
        }
    }
}

fn push_folders(out: &mut Vec<String>, list: &Vec<FoundPath>)
    ensures
        strings(final(out)@) == strings(old(out)@) + folders(list@, list@.len()),
{
    let ghost start = strings(out@);
    let mut i: usize = 0;
    assert(start + folders(list@, 0) =~= start);
    while i < list.len()
        invariant
            i <= list@.len(),
            strings(out@) == start + folders(list@, i as nat),
        decreases list@.len() - i,
    {
        if list[i].is_dir {
            let ghost before = strings(out@);
            out.push(list[i].path.clone());
            assert(strings(out@) =~= before.push(list@[i as int].path@));
            assert(before.push(list@[i as int].path@) =~= start + folders(list@, i as nat).push(
                list@[i as int].path@,
            ));
        }
        i = i + 1;
    }
}

/// The texts of a list with one more behind them.
proof fn lemma_strings_push(list: Seq<String>, item: String)
    ensures
        strings(list.push(item)) == strings(list).push(item@),
{
    assert(strings(list.push(item)) =~= strings(list).push(item@));
}

/// Steam's folder below each of the first `n` folders of programs.
pub open spec fn below_programs(style: Style, programs: Seq<String>, n: nat) -> Seq<Seq<char>>
    decreases n,
{
    if n == 0 {
        Seq::empty()
    } else {
        below_programs(style, programs, (n - 1) as nat).push(
            pushed(style, programs[n - 1]@, "Steam"@),
        )
    }
}

/// Steam's folders below a user's home.
pub open spec fn below_home(style: Style, home: Seq<char>) -> Seq<Seq<char>> {
    seq![
        pushed(style, pushed(style, home, ".steam"@), "steam"@),
        pushed(style, pushed(style, home, ".steam"@), "root"@),
        pushed(style, pushed(style, pushed(style, home, ".local"@), "share"@), "Steam"@),
        pushed(style, home, "Steam"@),
    ]
}

/// The usual places of Steam: below the folders of programs, and below the
/// user's home where it is known.
pub fn well_known_steam_roots(style: Style, programs: &Vec<String>, home: Option<&str>) -> (roots:
    Vec<String>)
    ensures
        strings(roots@) == below_programs(style, programs@, programs@.len()) + (match home {
            Some(path) => below_home(style, path@),
            None => Seq::empty(),
        }),
{
    let mut roots: Vec<String> = Vec::new();
    let mut i: usize = 0;
    assert(strings(roots@) =~= Seq::<Seq<char>>::empty());
    while i < programs.len()
        invariant
            i <= programs@.len(),
            strings(roots@) == below_programs(style, programs@, i as nat),
        decreases programs@.len() - i,
    {
        let root = join(style, programs[i].as_str(), "Steam");
        proof {
            lemma_strings_push(roots@, root);
        }
        roots.push(root);
        i = i + 1;
    }
    let ghost start = strings(roots@);
    match home {
        Some(path) => {
            let dot = join(style, path, ".steam");
            let steam = join(style, dot.as_str(), "steam");
            let root = join(style, dot.as_str(), "root");
            let local = join(style, join(style, path, ".local").as_str(), "share");
            let share = join(style, local.as_str(), "Steam");
            let plain = join(style, path, "Steam");
            proof {
                lemma_strings_push(roots@, steam);
                lemma_strings_push(roots@.push(steam), root);
                lemma_strings_push(roots@.push(steam).push(root), share);
                lemma_strings_push(roots@.push(steam).push(root).push(share), plain);
            }
            roots.push(steam);
            roots.push(root);
            roots.push(share);
            roots.push(plain);
            assert(strings(roots@) =~= start + below_home(style, path@));
        },
        None => {
            assert(start + Seq::<Seq<char>>::empty() =~= start);
        },
    }
    roots
}

/// A folder at the root of a drive, with the folders in it.
#[derive(Debug)]
pub struct TopFolder {
    pub path: String,
    /// Whether it is a Steam library.
    pub is_library: bool,
    /// The folders in it, and whether each is a Steam library.
    pub children: Vec<(String, bool)>,
}

/// A drive with the folders at its root.
#[derive(Debug)]
pub struct Drive {
    pub root: String,
    pub folders: Vec<TopFolder>,
}

/// The libraries among the first `n` children of a folder.
pub open spec fn nested_libraries(children: Seq<(String, bool)>, n: nat) -> Seq<Seq<char>>
    decreases n,
{
    if n == 0 {
        Seq::empty()
    } else {
        let before = nested_libraries(children, (n - 1) as nat);
        if children[n - 1].1 {
            before.push(children[n - 1].0@)
        } else {
            before
        }
    }
}

/// The libraries among the first `n` folders of a drive and their children.
pub open spec fn top_libraries(folders: Seq<TopFolder>, n: nat) -> Seq<Seq<char>>
    decreases n,
{
    if n == 0 {
        Seq::empty()
    } else {
        let folder = folders[n - 1];
        let before = top_libraries(folders, (n - 1) as nat);
        let with_folder = if folder.is_library {
            before.push(folder.path@)
        } else {
            before
        };
        with_folder + nested_libraries(folder.children@, folder.children@.len())
    }
}

/// The places of Steam on a drive that are looked at whatever it holds.
pub open spec fn usual_places(style: Style, root: Seq<char>) -> Seq<Seq<char>> {
    seq![
        pushed(style, root, "Steam"@),
        pushed(style, root, "SteamLibrary"@),
        pushed(style, root, "Program Files (x86)\\Steam"@),
        pushed(style, root, "Program Files\\Steam"@),
    ]
}

/// The places of Steam on the first `n` drives.
pub open spec fn on_drives(style: Style, drives: Seq<Drive>, n: nat) -> Seq<Seq<char>>
    decreases n,
{
    if n == 0 {
        Seq::empty()
    } else {
        let drive = drives[n - 1];
        on_drives(style, drives, (n - 1) as nat) + usual_places(style, drive.root@) + top_libraries(
            drive.folders@,
            drive.folders@.len(),
        )
    }
}

fn push_children(out: &mut Vec<String>, children: &Vec<(String, bool)>)
    ensures
        strings(final(out)@) == strings(old(out)@) + nested_libraries(
            children@,
            children@.len(),
        ),
{
    let ghost start = strings(out@);
    let mut i: usize = 0;
    assert(start + nested_libraries(children@, 0) =~= start);
    while i < children.len()
        invariant
            i <= children@.len(),
            strings(out@) == start + nested_libraries(children@, i as nat),
        decreases children@.len() - i,
    {
        let (path, is_library) = &children[i];
        if *is_library {
            let item = path.clone();
            proof {
                lemma_strings_push(out@, item);
                assert((start + nested_libraries(children@, i as nat)).push(item@) =~= start
                    + nested_libraries(children@, i as nat).push(item@));
            }
            out.push(item);
        }
        i = i + 1;
    }
}

fn push_top(out: &mut Vec<String>, folders: &Vec<TopFolder>)
    ensures
        strings(final(out)@) == strings(old(out)@) + top_libraries(folders@, folders@.len()),
{
    let ghost start = strings(out@);
    let mut i: usize = 0;
    assert(start + top_libraries(folders@, 0) =~= start);
    while i < folders.len()
        invariant
            i <= folders@.len(),
            strings(out@) == start + top_libraries(folders@, i as nat),
        decreases folders@.len() - i,
    {
        let folder = &folders[i];
        let ghost before = top_libraries(folders@, i as nat);
        let ghost mut with_folder = before;
        if folder.is_library {
            let item = folder.path.clone();
            proof {
                lemma_strings_push(out@, item);
                with_folder = before.push(item@);
                assert((start + before).push(item@) =~= start + with_folder);
            }
            out.push(item);
        }
        push_children(out, &folder.children);
        proof {
            let nested = nested_libraries(folder.children@, folder.children@.len());
            assert((start + with_folder) + nested =~= start + (with_folder + nested));
        }
        i = i + 1;
    }
}

/// The places of Steam on the drives: the usual ones, and the libraries among
/// the folders at a drive's root and one level below.
pub fn discover_steam_roots_on_drives(style: Style, drives: &Vec<Drive>) -> (roots: Vec<String>)
    ensures
        strings(roots@) == on_drives(style, drives@, drives@.len()),
{
    let mut roots: Vec<String> = Vec::new();
    let mut i: usize = 0;
    assert(strings(roots@) =~= Seq::<Seq<char>>::empty());
    while i < drives.len()
        invariant
            i <= drives@.len(),
            strings(roots@) == on_drives(style, drives@, i as nat),
        decreases drives@.len() - i,
    {
        let drive = &drives[i];
        let ghost before = strings(roots@);
        let a = join(style, drive.root.as_str(), "Steam");
        let b = join(style, drive.root.as_str(), "SteamLibrary");
        let c = join(style, drive.root.as_str(), "Program Files (x86)\\Steam");
        let d = join(style, drive.root.as_str(), "Program Files\\Steam");
        proof {
            lemma_strings_push(roots@, a);
            lemma_strings_push(roots@.push(a), b);
            lemma_strings_push(roots@.push(a).push(b), c);
            lemma_strings_push(roots@.push(a).push(b).push(c), d);
        }
        roots.push(a);
        roots.push(b);
        roots.push(c);
        roots.push(d);
        assert(strings(roots@) =~= before + usual_places(style, drive.root@));
        push_top(&mut roots, &drive.folders);
        i = i + 1;
    }
    roots
}

/// How many units of a value of the registry are its text, by the size in bytes
/// that was reported for it: all but the terminator, as far as the buffer goes.
pub open spec fn value_units(len: nat, size: u32) -> int {
    let units = size as int / 2 - 1;
    if units < 0 {
        0
    } else if units < len {
        units
    } else {
        len as int
    }
}

/// A text without the terminators at its end.
pub open spec fn without_nuls(text: Seq<char>) -> Seq<char>
    decreases text.len(),
{
    if text.len() > 0 && text.last() == '\0' {
        without_nuls(text.drop_last())
    } else {
        text
    }
}

/// The text of a value of the registry.
pub fn read_sz(buf: &[u16], size: u32) -> (text: String)
    ensures
        text@ == without_nuls(utf16_lossy(buf@.subrange(0, value_units(buf@.len(), size)))),
{
    let units: u32 = if size / 2 > 0 {
        size / 2 - 1
    } else {
        0
    };
    let n: usize = if (units as u64) < buf.len() as u64 {
        units as usize
    } else {
        buf.len()
    };
    assert(n == value_units(buf@.len(), size));
    let whole = from_utf16_lossy(slice_subrange(buf, 0, n));
    let chars = chars_of(whole.as_str());
    let mut end: usize = chars.len();
    assert(chars@.subrange(0, end as int) =~= chars@);
    while end > 0 && chars[end - 1] == '\0'
        invariant
            end <= chars@.len(),
            without_nuls(chars@) == without_nuls(chars@.subrange(0, end as int)),
        decreases end,
    {
        assert(chars@.subrange(0, end as int).drop_last() =~= chars@.subrange(0, end - 1));
        end = end - 1;
    }
    string_of(&chars, 0, end)
}

/// The folders in which the loader looks for libraries.
#[derive(Debug)]
pub struct SearchPath {
    pub dll_directory: String,
    /// Those that are added, in order.
    pub added: Vec<String>,
}

/// The game's own folder of libraries.
pub open spec fn bin_folder(style: Style, game_dir: Seq<char>) -> Seq<char> {
    resolved(style, game_dir, "game\\bin\\win64"@, 0, 0)
}

/// The mod's folder of libraries.
pub open spec fn mod_folder(style: Style, game_dir: Seq<char>) -> Seq<char> {
    resolved(style, game_dir, "game\\csgo\\bin\\win64"@, 0, 0)
}

/// The folders in which the libraries of an install lie: the mod's, where it
/// exists, before the game's own. The error names the game's own folder, where
/// that is missing.
pub fn setup_search_path(
    style: Style,
    game_dir: &str,
    has_bin: bool,
    has_mod: bool,
) -> (path: Result<SearchPath, String>)
    ensures
        match path {
            Ok(search) => {
                &&& has_bin
                &&& search.dll_directory@ == bin_folder(style, game_dir@)
                &&& strings(search.added@) == if has_mod {
                    seq![mod_folder(style, game_dir@), bin_folder(style, game_dir@)]
                } else {
                    seq![bin_folder(style, game_dir@)]
                }
            },
            Err(missing) => !has_bin && missing@ == bin_folder(style, game_dir@),
        },
{
    let bin = resolve_game_file(style, game_dir, "game\\bin\\win64");
    if !has_bin {
        return Err(bin);
    }
    let mut added: Vec<String> = Vec::new();
    if has_mod {
        added.push(resolve_game_file(style, game_dir, "game\\csgo\\bin\\win64"));
    }
    added.push(bin.clone());
    assert(strings(added@) =~= if has_mod {
        seq![mod_folder(style, game_dir@), bin_folder(style, game_dir@)]
    } else {
        seq![bin_folder(style, game_dir@)]
    });
    Ok(SearchPath { dll_directory: bin, added })
}

/// Where Steam can be installed: what the registry says, what the environment
/// says, the usual places, and what the drives hold, as far as a folder stands
/// there.
pub fn all_steam_roots(
    registry: &Vec<FoundPath>,
    environment: &Vec<FoundPath>,
    well_known: &Vec<FoundPath>,
    discovered: &Vec<FoundPath>,
) -> (roots: Vec<String>)
    ensures
        strings(roots@) == folders(registry@, registry@.len()) + folders(
            environment@,
            environment@.len(),
        ) + folders(well_known@, well_known@.len()) + folders(discovered@, discovered@.len()),
{
    let mut roots: Vec<String> = Vec::new();
    push_folders(&mut roots, registry);
    assert(strings(roots@) =~= folders(registry@, registry@.len()));
    push_folders(&mut roots, environment);
    push_folders(&mut roots, well_known);
    push_folders(&mut roots, discovered);
    roots
}

/// Where a Steam install lists its libraries.
pub fn library_lists(style: Style, steam_root: &str) -> (files: Vec<String>)
    ensures
        strings(files@) == seq![
            pushed(style, steam_root@, "steamapps/libraryfolders.vdf"@),
            pushed(style, steam_root@, "config/libraryfolders.vdf"@),
        ],
{
    let mut files: Vec<String> = Vec::new();
    files.push(join(style, steam_root, "steamapps/libraryfolders.vdf"));
    files.push(join(style, steam_root, "config/libraryfolders.vdf"));
    assert(strings(files@) =~= seq![
        pushed(style, steam_root@, "steamapps/libraryfolders.vdf"@),
        pushed(style, steam_root@, "config/libraryfolders.vdf"@),
    ]);
    files
}

/// The libraries of a Steam install: its own folder, then the folders that its
/// lists name.
pub fn steam_roots_from_vdf(steam_root: &str, listed: &Vec<FoundPath>) -> (roots: Vec<String>)
    ensures
        strings(roots@) == seq![steam_root@] + folders(listed@, listed@.len()),
{
    let mut roots: Vec<String> = Vec::new();
    roots.push(steam_root.to_owned());
    assert(strings(roots@) =~= seq![steam_root@]);
    push_folders(&mut roots, listed);
    roots
}

/// A part of the registry.
#[derive(Clone, Copy, Debug, PartialEq, Eq, Structural)]
pub enum Hive {
    CurrentUser,
    LocalMachine,
}

/// A value of the registry.
#[derive(Clone, Copy, Debug)]
pub struct RegistryValue {
    pub hive: Hive,
    pub key: &'static str,
    pub value: &'static str,
}

/// The values that can hold the place of a Steam install, in the order in which
/// they are asked for.
pub open spec fn steam_value_texts() -> Seq<(Hive, Seq<char>, Seq<char>)> {
    seq![
        (Hive::CurrentUser, "Software\\Valve\\Steam"@, "SteamPath"@),
        (Hive::LocalMachine, "SOFTWARE\\WOW6432Node\\Valve\\Steam"@, "InstallPath"@),
        (Hive::LocalMachine, "SOFTWARE\\Valve\\Steam"@, "InstallPath"@),
    ]
}

/// The contents of a list of values.
pub open spec fn value_texts(list: Seq<RegistryValue>) -> Seq<(Hive, Seq<char>, Seq<char>)> {
    Seq::new(list.len(), |i: int| (list[i].hive, list[i].key@, list[i].value@))
}

/// The values that can hold the place of a Steam install.
pub fn steam_values() -> (values: Vec<RegistryValue>)
    ensures
        value_texts(values@) == steam_value_texts(),
{
    let mut values: Vec<RegistryValue> = Vec::new();
    values.push(
        RegistryValue {
            hive: Hive::CurrentUser,
            key: "Software\\Valve\\Steam",
            value: "SteamPath",
        },
    );
    values.push(
        RegistryValue {
            hive: Hive::LocalMachine,
            key: "SOFTWARE\\WOW6432Node\\Valve\\Steam",
            value: "InstallPath",
        },
    );
    values.push(
        RegistryValue {
            hive: Hive::LocalMachine,
            key: "SOFTWARE\\Valve\\Steam",
            value: "InstallPath",
        },
    );
    assert(value_texts(values@) =~= steam_value_texts());
    values
}

/// The values among the first `n` that were read.
pub open spec fn present(list: Seq<Option<String>>, n: nat) -> Seq<Seq<char>>
    decreases n,
{
    if n == 0 {
        Seq::empty()
    } else {
        let before = present(list, (n - 1) as nat);
        match list[n - 1] {
            Some(text) => before.push(text@),
            None => before,
        }
    }
}

/// The install paths that the registry holds, of the values of [`steam_values`]
/// as they were read.
pub fn steam_install_paths(values: &Vec<Option<String>>) -> (paths: Vec<String>)
    ensures
        strings(paths@) == present(values@, values@.len()),
{
    let mut paths: Vec<String> = Vec::new();
    let mut i: usize = 0;
    assert(strings(paths@) =~= Seq::<Seq<char>>::empty());
    while i < values.len()
        invariant
            i <= values@.len(),
            strings(paths@) == present(values@, i as nat),
        decreases values@.len() - i,
    {
        match &values[i] {
            Some(text) => {
                let ghost before = strings(paths@);
                paths.push(text.clone());
                assert(strings(paths@) =~= before.push(text@));
            },
            None => {},
        }
        i = i + 1;
    }
    paths
}

/// The root of the drive with number `i`, from `C:` on: the first two can hang
/// on an empty drive.
pub open spec fn drive_root(i: int) -> Seq<char> {
    seq![(0x43 + i) as char, ':', '\\']
}

/// The roots of the first `n` drives that exist.
pub open spec fn drives(exists: Seq<bool>, n: nat) -> Seq<Seq<char>>
    decreases n,
{
    if n == 0 {
        Seq::empty()
    } else {
        let before = drives(exists, (n - 1) as nat);
        if exists[n - 1] {
            before.push(drive_root(n - 1))
        } else {
            before
        }
    }
}

/// The roots of the drives from `C:` to `Z:` that exist.
pub fn drive_letters(exists: &[bool; 24]) -> (roots: Vec<String>)
    ensures
        strings(roots@) == drives(exists@, 24),
{
    let mut roots: Vec<String> = Vec::new();
    let mut i: usize = 0;
    assert(strings(roots@) =~= Seq::<Seq<char>>::empty());
    while i < 24
        invariant
            i <= 24,
            strings(roots@) == drives(exists@, i as nat),
        decreases 24 - i,
    {
        if exists[i] {
            let ghost before = strings(roots@);
            let mut root = String::new();
            let letter: u8 = 0x43 + i as u8;
            root.push(letter as char);
            root.push(':');
            root.push('\\');
            assert(root@ =~= drive_root(i as int));
            roots.push(root);
            assert(strings(roots@) =~= before.push(drive_root(i as int)));
        }
        i = i + 1;
    }
    roots
}

/// A folder of a library, and which of the two files of an install it holds.
#[derive(Debug)]
pub struct GameFolder {
    pub path: String,
    pub has_schema_system: bool,
    pub has_executable: bool,
}

/// A folder is an install of the game: it holds one of the files and has the
/// name of a Counter-Strike game.
pub open spec fn is_game(style: Style, folder: GameFolder) -> bool {
    &&& folder.has_schema_system || folder.has_executable
    &&& holds_text(folder_text(style, folder.path@), "counter-strike"@)
}

/// The installs among the first `n` folders.
pub open spec fn games(style: Style, folders: Seq<GameFolder>, n: nat) -> Seq<Seq<char>>
    decreases n,
{
    if n == 0 {
        Seq::empty()
    } else {
        let before = games(style, folders, (n - 1) as nat);
        if is_game(style, folders[n - 1]) {
            before.push(folders[n - 1].path@)
        } else {
            before
        }
    }
}

/// The installs among the folders of a library.
pub fn cs2_candidates_in_common(style: Style, folders: &Vec<GameFolder>) -> (candidates: Vec<String>)
    ensures
        strings(candidates@) == games(style, folders@, folders@.len()),
{
    let mut candidates: Vec<String> = Vec::new();
    let mut i: usize = 0;
    assert(strings(candidates@) =~= Seq::<Seq<char>>::empty());
    while i < folders.len()
        invariant
            i <= folders@.len(),
            strings(candidates@) == games(style, folders@, i as nat),
        decreases folders@.len() - i,
    {
        let folder = &folders[i];
        if is_cs2_install(folder.has_schema_system, folder.has_executable)
            && is_counter_strike_folder(style, folder.path.as_str()) {
            let path = folder.path.clone();
            proof {
                lemma_strings_push(candidates@, path);
            }
            candidates.push(path);
        }
        i = i + 1;
    }
    candidates
}

proof fn lemma_game_source(style: Style, folders: Seq<GameFolder>, n: nat, k: int)
    requires
        n <= folders.len(),
        0 <= k < games(style, folders, n).len(),
    ensures
        exists|i: int|
            0 <= i < n && is_game(style, #[trigger] folders[i]) && folders[i].path@ == games(style, folders, n)[k],
    decreases n,
{
    if n > 0 {
        let before = games(style, folders, (n - 1) as nat);
        if k < before.len() {
            lemma_game_source(style, folders, (n - 1) as nat, k);
            let i = choose|i: int|
                0 <= i < n - 1 && is_game(style, #[trigger] folders[i]) && folders[i].path@ == before[k];
            assert(is_game(style, folders[i]) && folders[i].path@ == games(style, folders, n)[k]);
        } else {
            assert(is_game(style, folders[n - 1]));
        }
    }
}

/// A path that is chosen over another: by its rank, then by its order.
pub open spec fn preferred(style: Style, a: Seq<char>, b: Seq<char>) -> bool {
    rank_of(style, a) < rank_of(style, b) || (rank_of(style, a) == rank_of(style, b)
        && path_before(style, a, b))
}

fn prefers(style: Style, a: &str, b: &str) -> (yes: bool)
    ensures
        yes == preferred(style, a@, b@),
{
    let x: u8 = install_rank(style, a);
    let y: u8 = install_rank(style, b);
    if x != y {
        return x < y;
    }
    comes_before(style, a, b)
}

/// Candidate `k` is the first over which no other is chosen.
pub open spec fn best_install(style: Style, candidates: Seq<Seq<char>>, k: int) -> bool {
    &&& 0 <= k < candidates.len()
    &&& forall|j: int|
        0 <= j < candidates.len() ==> !preferred(style, #[trigger] candidates[j], candidates[k])
    &&& forall|j: int| 0 <= j < k ==> preferred(style, candidates[k], #[trigger] candidates[j])
}

/// One candidate at most is the best.
pub proof fn lemma_best_install_once(style: Style, candidates: Seq<Seq<char>>, i: int, j: int)
    requires
        best_install(style, candidates, i),
        best_install(style, candidates, j),
    ensures
        i == j,
{
    if i < j {
        assert(preferred(style, candidates[j], candidates[i]));
    } else if j < i {
        assert(preferred(style, candidates[i], candidates[j]));
    }
}

/// Why there is no install.
#[derive(Clone, Copy, Debug, PartialEq, Eq, Structural)]
pub enum InstallError {
    /// No candidate was found.
    NotFound,
}

proof fn lemma_preferred_order(style: Style, a: Seq<char>, b: Seq<char>, c: Seq<char>)
    ensures
        preferred(style, a, b) ==> !preferred(style, b, a),
        preferred(style, a, b) && preferred(style, b, c) ==> preferred(style, a, c),
        !preferred(style, b, a) && preferred(style, b, c) ==> preferred(style, a, c),
        preferred(style, a, b) && !preferred(style, c, b) ==> preferred(style, a, c),
        !preferred(style, b, a) && !preferred(style, c, b) ==> !preferred(style, c, a),
{
    lemma_path_order(style, a, b, c);
    lemma_path_order(style, b, a, b);
    lemma_path_order(style, b, c, a);
    lemma_path_order(style, c, b, a);
    lemma_path_order(style, a, c, b);
    lemma_path_order(style, c, a, b);
}

/// The install to take, of the folders of all libraries: of the installs among
/// them the one whose name speaks most for the current game, and of several such
/// the first in order.
pub fn find_install(style: Style, folders: &Vec<GameFolder>) -> (install: Result<
    String,
    InstallError,
>)
    ensures
        match install {
            Ok(path) => {
                &&& exists|k: int| #[trigger]
                    best_install(style, games(style, folders@, folders@.len()), k) && path@ == games(
                        style,
                        folders@,
                        folders@.len(),
                    )[k]
                &&& exists|i: int|
                    0 <= i < folders@.len() && is_game(style, #[trigger] folders@[i])
                        && folders@[i].path@ == path@
            },
            Err(_) => games(style, folders@, folders@.len()).len() == 0,
        },
        games(style, folders@, folders@.len()).len() > 0 ==> install is Ok,
{
    let candidates = cs2_candidates_in_common(style, folders);
    let ghost all = games(style, folders@, folders@.len());
    assert(all.len() == candidates@.len());
    if candidates.len() == 0 {
        return Err(InstallError::NotFound);
    }
    let mut best: usize = 0;
    let mut i: usize = 1;
    proof {
        lemma_preferred_order(style, all[0], all[0], all[0]);
    }
    while i < candidates.len()
        invariant
            1 <= i <= candidates@.len(),
            best < i,
            all == strings(candidates@),
            all == games(style, folders@, folders@.len()),
            forall|j: int| 0 <= j < i ==> !preferred(style, #[trigger] all[j], all[best as int]),
            forall|j: int| 0 <= j < best ==> preferred(style, all[best as int], #[trigger] all[j]),
        decreases candidates@.len() - i,
    {
        assert(all[i as int] == candidates@[i as int]@);
        assert(all[best as int] == candidates@[best as int]@);
        if prefers(style, candidates[i].as_str(), candidates[best].as_str()) {
            proof {
                lemma_preferred_order(style, all[i as int], all[i as int], all[i as int]);
                assert forall|j: int| 0 <= j < i + 1 implies !preferred(
                    style,
                    #[trigger] all[j],
                    all[i as int],
                ) by {
                    lemma_preferred_order(style, all[i as int], all[best as int], all[j]);
                    lemma_preferred_order(style, all[j], all[i as int], all[best as int]);
                }
                assert forall|j: int| 0 <= j < i implies preferred(
                    style,
                    all[i as int],
                    #[trigger] all[j],
                ) by {
                    lemma_preferred_order(style, all[i as int], all[best as int], all[j]);
                }
            }
            best = i;
        }
        i = i + 1;
    }
    assert(best_install(style, all, best as int));
    assert(all[best as int] == candidates@[best as int]@);
    proof {
        lemma_game_source(style, folders@, folders@.len(), best as int);
    }
    Ok(candidates[best].clone())
}

/// A text in UTF-16 with a terminator, as system calls take it.
pub fn wide(text: &str) -> (units: Vec<u16>)
    ensures
        units@ == utf16(text@).push(0),
{
    to_wide_path(text)
}

/// What became of loading the game's modules.
#[derive(Debug)]
pub struct LoadLibReport {
    pub loaded: Vec<String>,
    pub bindings: Vec<String>,
    pub failed: Vec<(String, String)>,
    pub schema_system: Option<u64>,
}

pub struct LoadModel {
    pub loaded: Seq<Seq<char>>,
    pub bindings: Seq<Seq<char>>,
    pub failed: Seq<(Seq<char>, Seq<char>)>,
    pub schema_system: Option<u64>,
}

/// The texts of a list of pairs.
pub open spec fn pairs(list: Seq<(String, String)>) -> Seq<(Seq<char>, Seq<char>)> {
    Seq::new(list.len(), |i: int| (list[i].0@, list[i].1@))
}

impl LoadLibReport {
    pub open spec fn model(&self) -> LoadModel {
        LoadModel {
            loaded: strings(self.loaded@),
            bindings: strings(self.bindings@),
            failed: pairs(self.failed@),
            schema_system: self.schema_system,
        }
    }
}

/// What came of the attempt to load a library: it is not there, it could not be
/// loaded for a reason, or it was loaded.
#[derive(Debug)]
pub enum LoadOutcome {
    Missing(String),
    Failed(String),
    Loaded,
}

/// An attempt to load a library, by its path below the game's folder, and what
/// its schema registration returned where it has one.
#[derive(Debug)]
pub struct Attempt {
    pub relative: String,
    pub outcome: LoadOutcome,
    pub status: Option<u64>,
}

/// The name of the library of an attempt.
pub open spec fn library_name(relative: Seq<char>) -> Seq<char> {
    lower_text(
        relative.subrange(
            component_start(relative, relative.len() as int),
            relative.len() as int,
        ),
    )
}

/// The name of a library, in lower case.
pub fn file_name_lower(relative: &str) -> (name: String)
    ensures
        name@ == library_name(relative@),
{
    let path = chars_of(relative);
    let end: usize = path.len();
    let mut start: usize = end;
    while start > 0 && !separates(path[start - 1])
        invariant
            path@ == relative@,
            end == path@.len(),
            start <= end,
            component_start(relative@, end as int) == component_start(relative@, start as int),
        decreases start,
    {
        start = start - 1;
    }
    let name = string_of(&path, start, end);
    ascii_lower(name.as_str())
}

/// The message on a library that failed to load.
pub open spec fn failure_text(outcome: LoadOutcome) -> Seq<char> {
    match outcome {
        LoadOutcome::Missing(path) => "file not found: "@ + path@,
        LoadOutcome::Failed(message) => message@,
        LoadOutcome::Loaded => Seq::empty(),
    }
}

/// A report after an attempt: a library that is loaded already is not loaded
/// again. `Err` holds the message where a library that is needed failed.
pub open spec fn after_load(report: LoadModel, attempt: Attempt, required: bool) -> Result<
    LoadModel,
    Seq<char>,
> {
    let name = library_name(attempt.relative@);
    if report.loaded.contains(name) {
        Ok(report)
    } else if attempt.outcome is Loaded {
        Ok(LoadModel { loaded: report.loaded.push(name), ..report })
    } else if required {
        Err(failure_text(attempt.outcome))
    } else {
        Ok(
            LoadModel {
                failed: report.failed.push((name, failure_text(attempt.outcome))),
                ..report
            },
        )
    }
}

fn outcome_text(outcome: &LoadOutcome) -> (text: String)
    ensures
        text@ == failure_text(*outcome),
{
    match outcome {
        LoadOutcome::Missing(path) => {
            let mut out = "file not found: ".to_owned();
            out.append(path.as_str());
            out
        },
        LoadOutcome::Failed(message) => message.clone(),
        LoadOutcome::Loaded => String::new(),
    }
}

/// Records an attempt to load a library.
pub fn load_one(report: &mut LoadLibReport, attempt: &Attempt, required: bool) -> (done: Result<
    (),
    String,
>)
    ensures
        match after_load(old(report).model(), *attempt, required) {
            Ok(model) => done is Ok && final(report).model() == model,
            Err(message) => done is Err && done->Err_0@ == message && final(report).model() == old(
                report,
            ).model(),
        },
{
    let ghost before = report.model();
    let name = file_name_lower(attempt.relative.as_str());
    if holds_string(&report.loaded, name.as_str()) {
        return Ok(());
    }
    let loaded = match &attempt.outcome {
        LoadOutcome::Loaded => true,
        _ => false,
    };
    let ghost text = name@;
    if loaded {
        report.loaded.push(name);
        assert(strings(report.loaded@) =~= before.loaded.push(text));
        return Ok(());
    }
    let message = outcome_text(&attempt.outcome);
    if required {
        return Err(message);
    }
    let ghost words = message@;
    report.failed.push((name, message));
    assert(pairs(report.failed@) =~= before.failed.push((text, words)));
    Ok(())
}

/// The registration returned success.
pub open spec fn status_ok(status: u64) -> bool {
    status == 0xC000_0001 || status == 0
}

/// A report after a loaded library's schema registration returned.
pub open spec fn after_install(report: LoadModel, name: Seq<char>, status: Option<u64>) -> LoadModel {
    if !report.loaded.contains(name) || status is None {
        report
    } else if status_ok(status->0) {
        LoadModel { bindings: report.bindings.push(name), ..report }
    } else {
        LoadModel {
            failed: report.failed.push((name, "status 0x"@ + hex(status->0 as nat))),
            ..report
        }
    }
}

/// Records what a library's schema registration returned.
pub fn install_bindings(report: &mut LoadLibReport, name: &str, status: Option<u64>)
    ensures
        final(report).model() == after_install(old(report).model(), name@, status),
{
    let ghost before = report.model();
    if !holds_string(&report.loaded, name) {
        return;
    }
    match status {
        Some(code) => {
            if code == 0xC000_0001 || code == 0 {
                report.bindings.push(name.to_owned());
                assert(strings(report.bindings@) =~= before.bindings.push(name@));
            } else {
                let mut message = "status 0x".to_owned();
                push_hex(&mut message, code);
                let ghost words = message@;
                report.failed.push((name.to_owned(), message));
                assert(pairs(report.failed@) =~= before.failed.push((name@, words)));
            }
        },
        None => {},
    }
}

/// A report after the first `n` attempts on libraries that are not needed, with
/// their registrations where `install` says so.
pub open spec fn after_all(
    report: LoadModel,
    attempts: Seq<Attempt>,
    n: nat,
    install: bool,
) -> LoadModel
    decreases n,
{
    if n == 0 {
        report
    } else {
        let before = after_all(report, attempts, (n - 1) as nat, install);
        let loaded = after_load(before, attempts[n - 1], false)->Ok_0;
        if install {
            after_install(
                loaded,
                library_name(attempts[n - 1].relative@),
                attempts[n - 1].status,
            )
        } else {
            loaded
        }
    }
}

fn load_all(report: &mut LoadLibReport, attempts: &Vec<Attempt>, install: bool)
    ensures
        final(report).model() == after_all(
            old(report).model(),
            attempts@,
            attempts@.len(),
            install,
        ),
{
    let ghost start = report.model();
    let mut i: usize = 0;
    while i < attempts.len()
        invariant
            i <= attempts@.len(),
            report.model() == after_all(start, attempts@, i as nat, install),
        decreases attempts@.len() - i,
    {
        let _done = load_one(report, &attempts[i], false);
        if install {
            let name = file_name_lower(attempts[i].relative.as_str());
            install_bindings(report, name.as_str(), attempts[i].status);
        }
        i = i + 1;
    }
}

/// Why the modules could not be loaded.
#[derive(Debug)]
pub enum LoadError {
    /// The schema system's library failed, for this reason.
    SchemaSystem(String),
    /// The schema system's library gave no interface.
    NoInterface,
    /// No registration succeeded.
    NoBindings,
}

/// The report on a run, from the attempts on the libraries that the schema
/// system needs, on its own library, and on the modules that register schemas,
/// and from the address of its interface. The schema system's own library is
/// the only one that is needed, but some registration must succeed.
pub fn load(
    dependencies: &Vec<Attempt>,
    schema_library: &Attempt,
    schema_system: u64,
    modules: &Vec<Attempt>,
) -> (report: Result<LoadLibReport, LoadError>)
    ensures
        ({
            let blank = LoadModel {
                loaded: Seq::empty(),
                bindings: Seq::empty(),
                failed: Seq::empty(),
                schema_system: None,
            };
            let first = after_all(blank, dependencies@, dependencies@.len(), false);
            match after_load(first, *schema_library, true) {
                Err(message) => report matches Err(LoadError::SchemaSystem(text)) && text@
                    == message,
                Ok(second) => if schema_system == 0 {
                    report matches Err(LoadError::NoInterface)
                } else {
                    let third = after_install(
                        (LoadModel { schema_system: Some(schema_system), ..second }),
                        library_name(schema_library.relative@),
                        schema_library.status,
                    );
                    let last = after_all(third, modules@, modules@.len(), true);
                    if last.bindings.len() == 0 {
                        report matches Err(LoadError::NoBindings)
                    } else {
                        report matches Ok(r) && r.model() == last
                    }
                },
            }
        }),
{
    let mut report = LoadLibReport {
        loaded: Vec::new(),
        bindings: Vec::new(),
        failed: Vec::new(),
        schema_system: None,
    };
    let ghost blank = LoadModel {
        loaded: Seq::empty(),
        bindings: Seq::empty(),
        failed: Seq::empty(),
        schema_system: None,
    };
    assert(report.model().loaded =~= blank.loaded);
    assert(report.model().bindings =~= blank.bindings);
    assert(report.model().failed =~= blank.failed);
    load_all(&mut report, dependencies, false);
    match load_one(&mut report, schema_library, true) {
        Err(message) => {
            return Err(LoadError::SchemaSystem(message));
        },
        Ok(()) => {},
    }
    if schema_system == 0 {
        return Err(LoadError::NoInterface);
    }
    report.schema_system = Some(schema_system);
    let name = file_name_lower(schema_library.relative.as_str());
    install_bindings(&mut report, name.as_str(), schema_library.status);
    load_all(&mut report, modules, true);
    assert(strings(report.bindings@).len() == report.bindings@.len());
    if report.bindings.len() == 0 {
        return Err(LoadError::NoBindings);
    }
    Ok(report)
}

/// Text without quotes in it.
pub open spec fn unquoted(text: Seq<char>) -> bool {
    forall|i: int| 0 <= i < text.len() ==> #[trigger] text[i] != '"'
}

/// Tokens in quotes, each behind something else.
pub open spec fn in_quotes(gaps: Seq<Seq<char>>, tokens: Seq<Seq<char>>, n: nat) -> Seq<char>
    decreases n,
{
    if n == 0 {
        Seq::empty()
    } else {
        in_quotes(gaps, tokens, (n - 1) as nat) + gaps[n - 1] + seq!['"'] + tokens[n - 1] + seq!['"']
    }
}

proof fn lemma_quote_at(text: Seq<char>, i: int, a: int)
    requires
        0 <= i <= a < text.len(),
        text[a] == '"',
        forall|k: int| i <= k < a ==> #[trigger] text[k] != '"',
    ensures
        quote_from(text, i) == Some(a),
    decreases a - i,
{
    if i < a {
        assert(text[i] != '"');
        lemma_quote_at(text, i + 1, a);
    }
}

proof fn lemma_no_quote(text: Seq<char>, i: int)
    requires
        0 <= i <= text.len(),
        forall|k: int| i <= k < text.len() ==> #[trigger] text[k] != '"',
    ensures
        quote_from(text, i) is None,
    decreases text.len() - i,
{
    if i < text.len() {
        assert(text[i] != '"');
        lemma_no_quote(text, i + 1);
    }
}

proof fn lemma_quoted_from(
    gaps: Seq<Seq<char>>,
    tokens: Seq<Seq<char>>,
    n: nat,
    m: nat,
    rest: Seq<char>,
)
    requires
        m <= n <= tokens.len(),
        tokens.len() == gaps.len(),
        forall|i: int| 0 <= i < tokens.len() ==> unquoted(#[trigger] tokens[i]),
        forall|i: int| 0 <= i < gaps.len() ==> unquoted(#[trigger] gaps[i]),
        unquoted(rest),
    ensures
        quoted_from(
            in_quotes(gaps, tokens, n) + rest,
            in_quotes(gaps, tokens, m).len() as int,
        ) == tokens.subrange(m as int, n as int),
        in_quotes(gaps, tokens, m).len() <= in_quotes(gaps, tokens, n).len(),
        forall|k: int|
            0 <= k < in_quotes(gaps, tokens, m).len() ==> #[trigger] in_quotes(gaps, tokens, n)[k]
                == in_quotes(gaps, tokens, m)[k],
    decreases n - m,
{
    let text = in_quotes(gaps, tokens, n) + rest;
    let from = in_quotes(gaps, tokens, m).len() as int;
    if m < n {
        lemma_quoted_from(gaps, tokens, n, m + 1, rest);
        let done = in_quotes(gaps, tokens, m);
        let now = in_quotes(gaps, tokens, m + 1);
        let (gap, token) = (gaps[m as int], tokens[m as int]);
        assert(unquoted(gap) && unquoted(token));
        assert(now == done + gap + seq!['"'] + token + seq!['"']);
        let a = from + gap.len();
        let b = a + 1 + token.len();
        assert forall|k: int| 0 <= k < now.len() implies #[trigger] text[k] == now[k] by {
            assert(in_quotes(gaps, tokens, n)[k] == now[k]);
        }
        assert(text[a] == '"' && text[b] == '"');
        assert forall|k: int| from <= k < a implies #[trigger] text[k] != '"' by {
            assert(now[k] == gap[k - from]);
        }
        assert forall|k: int| a + 1 <= k < b implies #[trigger] text[k] != '"' by {
            assert(now[k] == token[k - (a + 1)]);
        }
        lemma_quote_at(text, from, a);
        lemma_quote_at(text, a + 1, b);
        assert(text.subrange(a + 1, b) =~= token) by {
            assert forall|k: int| 0 <= k < token.len() implies text.subrange(a + 1, b)[k]
                == token[k] by {
                assert(text[a + 1 + k] == now[a + 1 + k]);
            }
        }
        assert(b + 1 == now.len());
        assert(tokens.subrange(m as int, n as int) =~= seq![token] + tokens.subrange(
            m as int + 1,
            n as int,
        ));
        assert forall|k: int| 0 <= k < done.len() implies #[trigger] in_quotes(gaps, tokens, n)[k]
            == done[k] by {
            assert(now[k] == done[k]);
        }
    } else {
        assert forall|k: int| from <= k < text.len() implies #[trigger] text[k] != '"' by {
            assert(text[k] == rest[k - from]);
        }
        lemma_no_quote(text, from);
        assert(tokens.subrange(m as int, n as int) =~= Seq::<Seq<char>>::empty());
    }
}

/// The quoted strings of a text are read back in their order, whatever stands
/// between them.
pub proof fn lemma_quoted_read_back(
    gaps: Seq<Seq<char>>,
    tokens: Seq<Seq<char>>,
    rest: Seq<char>,
)
    requires
        tokens.len() == gaps.len(),
        forall|i: int| 0 <= i < tokens.len() ==> unquoted(#[trigger] tokens[i]),
        forall|i: int| 0 <= i < gaps.len() ==> unquoted(#[trigger] gaps[i]),
        unquoted(rest),
    ensures
        quoted_from(in_quotes(gaps, tokens, tokens.len()) + rest, 0) == tokens,
{
    lemma_quoted_from(gaps, tokens, tokens.len(), 0, rest);
    assert(tokens.subrange(0, tokens.len() as int) =~= tokens);
}

/// A text with each backslash twice.
pub open spec fn escaped(text: Seq<char>) -> Seq<char>
    decreases text.len(),
{
    if text.len() == 0 {
        Seq::empty()
    } else if text[0] == '\\' {
        seq!['\\', '\\'] + escaped(text.drop_first())
    } else {
        seq![text[0]] + escaped(text.drop_first())
    }
}

proof fn lemma_unescaped_tail(before: Seq<char>, text: Seq<char>)
    ensures
        unescaped_from(before + escaped(text), before.len() as int) == text,
    decreases text.len(),
{
    let all = before + escaped(text);
    let at = before.len() as int;
    if text.len() > 0 {
        let tail = text.drop_first();
        if text[0] == '\\' {
            let more = before + seq!['\\', '\\'];
            assert(all =~= more + escaped(tail));
            lemma_unescaped_tail(more, tail);
            assert(all[at] == '\\' && all[at + 1] == '\\');
        } else {
            let more = before.push(text[0]);
            assert(all =~= more + escaped(tail));
            lemma_unescaped_tail(more, tail);
            assert(all[at] == text[0]);
        }
        assert(text =~= seq![text[0]] + tail);
    }
}

/// A path whose backslashes were written twice is read as the path.
pub proof fn lemma_unescaped_read_back(text: Seq<char>)
    ensures
        unescaped_from(escaped(text), 0) == text,
{
    lemma_unescaped_tail(Seq::empty(), text);
    assert(Seq::<char>::empty() + escaped(text) =~= escaped(text));
}

/// The library paths are the quoted strings that are paths of one, unescaped and
/// in their order.
pub proof fn lemma_library_paths(tokens: Seq<Seq<char>>, n: nat)
    requires
        n <= tokens.len(),
    ensures
        library_paths(tokens, n) == tokens.subrange(0, n as int).filter(
            |t: Seq<char>| is_library_path(t),
        ).map_values(|t: Seq<char>| unescaped_from(t, 0)),
    decreases n,
{
    reveal(Seq::filter);
    let keep = |t: Seq<char>| is_library_path(t);
    let shown = |t: Seq<char>| unescaped_from(t, 0);
    let part = tokens.subrange(0, n as int);
    if n > 0 {
        lemma_library_paths(tokens, (n - 1) as nat);
        let before = tokens.subrange(0, n - 1);
        assert(part.drop_last() =~= before);
        assert(part.last() == tokens[n - 1]);
        assert(before.filter(keep).push(part.last()).map_values(shown) =~= before.filter(
            keep,
        ).map_values(shown).push(shown(part.last())));
    } else {
        assert(library_paths(tokens, n) =~= part.filter(keep).map_values(shown));
    }
}

/// The roots of the drives are those of the letters from `C` to `Z` whose drive
/// exists, in the order of the alphabet.
pub proof fn lemma_drives(exists: Seq<bool>, n: nat, c: char)
    requires
        n <= exists.len(),
        n <= 24,
    ensures
        drives(exists, n).contains(seq![c, ':', '\\']) <==> 'C' <= c && (c as int - 'C' as int) < n
            && exists[c as int - 'C' as int],
        forall|i: int, j: int|
            0 <= i < j < drives(exists, n).len() ==> (#[trigger] drives(exists, n)[i])[0] < (
            #[trigger] drives(exists, n)[j])[0],
        forall|i: int|
            0 <= i < drives(exists, n).len() ==> 'C' <= (#[trigger] drives(exists, n)[i])[0] && (
            drives(exists, n)[i][0] as int - 'C' as int) < n && drives(exists, n)[i].len() == 3,
    decreases n,
{
    let all = drives(exists, n);
    let root = seq![c, ':', '\\'];
    if n > 0 {
        lemma_drives(exists, (n - 1) as nat, c);
        let before = drives(exists, (n - 1) as nat);
        let own = drive_root(n - 1);
        assert(own[0] as int == 0x43 + (n - 1));
        if exists[n - 1] {
            assert(all == before.push(own));
            assert forall|i: int, j: int| 0 <= i < j < all.len() implies (#[trigger] all[i])[0] < (
            #[trigger] all[j])[0] by {
                assert(all[i] == before[i]);
                if j < before.len() {
                    assert(all[j] == before[j]);
                }
            }
            assert forall|i: int| 0 <= i < all.len() implies 'C' <= (#[trigger] all[i])[0] && (
            all[i][0] as int - 'C' as int) < n && all[i].len() == 3 by {
                if i < before.len() {
                    assert(all[i] == before[i]);
                }
            }
            if c as int - 'C' as int == n - 1 {
                assert(own =~= root);
                assert(all[before.len() as int] == root);
            }
            if all.contains(root) {
                let k = choose|k: int| 0 <= k < all.len() && all[k] == root;
                if k < before.len() {
                    assert(before[k] == root);
                } else {
                    assert(root[0] == own[0]);
                }
            }
            if before.contains(root) {
                let k = choose|k: int| 0 <= k < before.len() && before[k] == root;
                assert(all[k] == root);
            }
        }
    }
}

/// The installs among folders are those that hold the game's schema system or its
/// program and have the name of a Counter-Strike game, in their order.
pub proof fn lemma_games(style: Style, folders: Seq<GameFolder>, n: nat)
    requires
        n <= folders.len(),
    ensures
        games(style, folders, n) == folders.subrange(0, n as int).filter(
            |f: GameFolder|
                (f.has_schema_system || f.has_executable) && holds_text(
                    lower_text(file_name(style, f.path@)),
                    "counter-strike"@,
                ),
        ).map_values(|f: GameFolder| f.path@),
    decreases n,
{
    reveal(Seq::filter);
    let keep = |f: GameFolder|
        (f.has_schema_system || f.has_executable) && holds_text(
            lower_text(file_name(style, f.path@)),
            "counter-strike"@,
        );
    let shown = |f: GameFolder| f.path@;
    let part = folders.subrange(0, n as int);
    if n > 0 {
        lemma_games(style, folders, (n - 1) as nat);
        let before = folders.subrange(0, n - 1);
        assert(part.drop_last() =~= before);
        assert(part.last() == folders[n - 1]);
        assert(before.filter(keep).push(part.last()).map_values(shown) =~= before.filter(
            keep,
        ).map_values(shown).push(shown(part.last())));
    } else {
        assert(games(style, folders, n) =~= part.filter(keep).map_values(shown));
    }
}

/// A folder that is the current game's own by its name comes before one that only
/// holds that name, that before Global Offensive, and that before any other
/// Counter-Strike; a folder without any of the names comes last.
pub proof fn lemma_rank(style: Style, a: Seq<char>, b: Seq<char>)
    ensures
        folder_text(style, a) == "counter-strike 2"@ && folder_text(style, b)
            != "counter-strike 2"@ ==> rank_of(style, a) < rank_of(style, b),
        holds_text(folder_text(style, a), "counter-strike 2"@) && !holds_text(
            folder_text(style, b),
            "counter-strike 2"@,
        ) && folder_text(style, b) != "counter-strike 2"@ ==> rank_of(style, a) < rank_of(style, b),
        (holds_text(folder_text(style, a), "counter-strike"@) || holds_text(
            folder_text(style, a),
            "global offensive"@,
        )) && !holds_text(folder_text(style, b), "counter-strike 2"@) && !holds_text(
            folder_text(style, b),
            "global offensive"@,
        ) && !holds_text(folder_text(style, b), "counter-strike"@) && folder_text(style, b)
            != "counter-strike 2"@ ==> rank_of(style, a) < rank_of(style, b),
{
}

/// A value of the registry is without the terminators behind it.
pub proof fn lemma_without_nuls(text: Seq<char>, n: nat)
    requires
        text.len() > 0 ==> text.last() != '\0',
    ensures
        without_nuls(text + Seq::new(n, |i: int| '\0')) == text,
    decreases n,
{
    let all = text + Seq::new(n, |i: int| '\0');
    if n > 0 {
        lemma_without_nuls(text, (n - 1) as nat);
        assert(all.drop_last() =~= text + Seq::new((n - 1) as nat, |i: int| '\0'));
        assert(all.last() == '\0');
    } else {
        assert(all =~= text);
    }
}

/// A relative path is resolved part by part: the first part is added to the path,
/// and the rest to what that gives.
pub proof fn lemma_resolved_parts(
    style: Style,
    path: Seq<char>,
    relative: Seq<char>,
    from: int,
    at: int,
    end: int,
)
    requires
        0 <= from <= at <= end <= relative.len(),
        from < end,
        forall|k: int| from <= k < end ==> !is_separator(#[trigger] relative[k]),
        end < relative.len() ==> relative[end] == '\\' || relative[end] == '/',
    ensures
        resolved(style, path, relative, from, at) == (if end == relative.len() {
            pushed(style, path, relative.subrange(from, end))
        } else {
            resolved(
                style,
                pushed(style, path, relative.subrange(from, end)),
                relative,
                end + 1,
                end + 1,
            )
        }),
    decreases end - at,
{
    if at < end {
        assert(!is_separator(relative[at]));
        lemma_resolved_parts(style, path, relative, from, at + 1, end);
    }
}

proof fn lemma_component_start(path: Seq<char>, start: int, end: int)
    requires
        0 <= start <= end <= path.len(),
        forall|k: int| start <= k < end ==> #[trigger] path[k] != '\\' && path[k] != '/',
        start > 0 ==> path[start - 1] == '\\' || path[start - 1] == '/',
    ensures
        component_start(path, end) == start,
    decreases end - start,
{
    if start < end {
        assert(path[end - 1] != '\\' && path[end - 1] != '/');
        lemma_component_start(path, start, end - 1);
    }
}

/// The name of a library is what stands behind the last separator of its path, in
/// lower case.
pub proof fn lemma_library_name(folder: Seq<char>, separator: char, name: Seq<char>)
    requires
        separator == '\\' || separator == '/',
        forall|k: int| 0 <= k < name.len() ==> #[trigger] name[k] != '\\' && name[k] != '/',
    ensures
        library_name(folder.push(separator) + name) == lower_text(name),
        library_name(name) == lower_text(name),
{
    let path = folder.push(separator) + name;
    let start = folder.len() as int + 1;
    assert forall|k: int| start <= k < path.len() implies #[trigger] path[k] != '\\' && path[k]
        != '/' by {
        assert(path[k] == name[k - start]);
    }
    lemma_component_start(path, start, path.len() as int);
    lemma_component_start(name, 0, name.len() as int);
    assert(path.subrange(start, path.len() as int) =~= name);
    assert(name.subrange(0, name.len() as int) =~= name);
}

/// An attempt puts a library that is not loaded yet into exactly one list: among
/// the loaded ones where it was loaded, else among the failed ones; and where the
/// library is needed, the failure is the answer. Nothing leaves a list.
pub proof fn lemma_attempt_recorded(report: LoadModel, attempt: Attempt, required: bool)
    ensures
        ({
            let name = library_name(attempt.relative@);
            let after = after_load(report, attempt, required);
            &&& report.loaded.contains(name) ==> after == Ok::<LoadModel, Seq<char>>(report)
            &&& !report.loaded.contains(name) && attempt.outcome is Loaded ==> (after matches Ok(r)
                && r.loaded == report.loaded.push(name) && r.failed == report.failed && r.bindings
                == report.bindings)
            &&& !report.loaded.contains(name) && !(attempt.outcome is Loaded) && !required ==> (
            after matches Ok(r) && r.loaded == report.loaded && r.failed.len()
                == report.failed.len() + 1 && r.failed.last().0 == name && r.bindings
                == report.bindings)
            &&& after is Err <==> !report.loaded.contains(name) && !(attempt.outcome is Loaded)
                && required
        }),
{
}

/// A registration that returned zero or 0xC0000001 counts as a binding, any other
/// as a failure that shows the number.
pub proof fn lemma_registration_recorded(report: LoadModel, name: Seq<char>, status: u64)
    requires
        report.loaded.contains(name),
    ensures
        status == 0 || status == 0xC000_0001 ==> after_install(report, name, Some(status)).bindings
            == report.bindings.push(name) && after_install(report, name, Some(status)).failed
            == report.failed,
        status != 0 && status != 0xC000_0001 ==> after_install(report, name, Some(status)).bindings
            == report.bindings && after_install(report, name, Some(status)).failed.len()
            == report.failed.len() + 1 && after_install(
            report,
            name,
            Some(status),
        ).failed.last().0 == name && hex_value(
            after_install(report, name, Some(status)).failed.last().1.skip(9),
        ) == status,
{
    reveal_strlit("status 0x");
    lemma_hex_value(status as nat);
    assert(("status 0x"@ + hex(status as nat)).skip(9) =~= hex(status as nat));
}

/// The paths at which a folder stands, in their order.
pub proof fn lemma_folders_kept(list: Seq<FoundPath>, n: nat)
    requires
        n <= list.len(),
    ensures
        folders(list, n) == list.subrange(0, n as int).filter(
            |found: FoundPath| found.is_dir,
        ).map_values(|found: FoundPath| found.path@),
    decreases n,
{
    let kept = |found: FoundPath| found.is_dir;
    let path = |found: FoundPath| found.path@;
    reveal(Seq::filter);
    let head = list.subrange(0, n as int);
    if n > 0 {
        lemma_folders_kept(list, (n - 1) as nat);
        assert(head.drop_last() =~= list.subrange(0, n - 1));
        assert(head.last() == list[n - 1]);
        let before = head.drop_last().filter(kept);
        assert(before.push(head.last()).map_values(path) =~= before.map_values(path).push(
            path(head.last()),
        ));
    } else {
        assert(head.filter(kept).map_values(path) =~= Seq::<Seq<char>>::empty());
    }
}

/// The libraries among the children of a folder, in their order.
pub proof fn lemma_nested_kept(children: Seq<(String, bool)>, n: nat)
    requires
        n <= children.len(),
    ensures
        nested_libraries(children, n) == children.subrange(0, n as int).filter(
            |child: (String, bool)| child.1,
        ).map_values(|child: (String, bool)| child.0@),
    decreases n,
{
    let kept = |child: (String, bool)| child.1;
    let path = |child: (String, bool)| child.0@;
    reveal(Seq::filter);
    let head = children.subrange(0, n as int);
    if n > 0 {
        lemma_nested_kept(children, (n - 1) as nat);
        assert(head.drop_last() =~= children.subrange(0, n - 1));
        assert(head.last() == children[n - 1]);
        let before = head.drop_last().filter(kept);
        assert(before.push(head.last()).map_values(path) =~= before.map_values(path).push(
            path(head.last()),
        ));
    } else {
        assert(head.filter(kept).map_values(path) =~= Seq::<Seq<char>>::empty());
    }
}

/// The values of the registry that were read, in their order.
pub proof fn lemma_present_kept(list: Seq<Option<String>>, n: nat)
    requires
        n <= list.len(),
    ensures
        present(list, n) == list.subrange(0, n as int).filter(
            |value: Option<String>| value is Some,
        ).map_values(|value: Option<String>| value->0@),
    decreases n,
{
    let kept = |value: Option<String>| value is Some;
    let text = |value: Option<String>| value->0@;
    reveal(Seq::filter);
    let head = list.subrange(0, n as int);
    if n > 0 {
        lemma_present_kept(list, (n - 1) as nat);
        assert(head.drop_last() =~= list.subrange(0, n - 1));
        assert(head.last() == list[n - 1]);
        let before = head.drop_last().filter(kept);
        assert(before.push(head.last()).map_values(text) =~= before.map_values(text).push(
            text(head.last()),
        ));
    } else {
        assert(head.filter(kept).map_values(text) =~= Seq::<Seq<char>>::empty());
    }
}

/// Each folder of programs can hold Steam, in a folder of that name.
pub proof fn lemma_below_programs(style: Style, programs: Seq<String>, n: nat)
    requires
        n <= programs.len(),
    ensures
        below_programs(style, programs, n).len() == n,
        forall|i: int|
            0 <= i < n ==> #[trigger] below_programs(style, programs, n)[i] == pushed(
                style,
                programs[i]@,
                "Steam"@,
            ),
    decreases n,
{
    if n > 0 {
        lemma_below_programs(style, programs, (n - 1) as nat);
    }
}

/// A value of the registry that was reported with the size of its text and a
/// terminator, in bytes, is all of its text; one that was reported longer than the
/// buffer ends with it.
pub proof fn lemma_value_units(len: nat, units: u32)
    requires
        units < 0x7FFF_FFFF,
    ensures
        units <= len ==> value_units(len, (2 * (units + 1)) as u32) == units,
        units > len ==> value_units(len, (2 * (units + 1)) as u32) == len,
        value_units(len, 0) == 0,
{
}

/// On each drive Steam is looked for in the usual places, and in every folder that was
/// found to be a library.
pub proof fn lemma_drives_searched(style: Style, drives: Seq<Drive>, n: nat, d: int, f: int)
    requires
        n <= drives.len(),
        0 <= d < n,
    ensures
        on_drives(style, drives, n).contains(pushed(style, drives[d].root@, "Steam"@)),
        on_drives(style, drives, n).contains(pushed(style, drives[d].root@, "SteamLibrary"@)),
        on_drives(style, drives, n).contains(
            pushed(style, drives[d].root@, "Program Files (x86)\\Steam"@),
        ),
        on_drives(style, drives, n).contains(
            pushed(style, drives[d].root@, "Program Files\\Steam"@),
        ),
        0 <= f < drives[d].folders@.len() && drives[d].folders@[f].is_library ==> on_drives(
            style,
            drives,
            n,
        ).contains(drives[d].folders@[f].path@),
    decreases n,
{
    let all = on_drives(style, drives, n);
    let before = on_drives(style, drives, (n - 1) as nat);
    if d < n - 1 {
        lemma_drives_searched(style, drives, (n - 1) as nat, d, f);
        assert forall|x: Seq<char>| before.contains(x) implies all.contains(x) by {
            let i = choose|i: int| 0 <= i < before.len() && before[i] == x;
            assert(all[i] == x);
        }
        let a = pushed(style, drives[d].root@, "Steam"@);
        let b = pushed(style, drives[d].root@, "SteamLibrary"@);
        assert(before.contains(a) && before.contains(b));
    } else {
        let drive = drives[d];
        let usual = usual_places(style, drive.root@);
        let top = top_libraries(drive.folders@, drive.folders@.len());
        let at = before.len() as int;
        assert(all == before + usual + top);
        assert(all[at + 0] == usual[0]);
        assert(all[at + 1] == usual[1]);
        assert(all[at + 2] == usual[2]);
        assert(all[at + 3] == usual[3]);
        if 0 <= f < drive.folders@.len() && drive.folders@[f].is_library {
            lemma_top_library(drive.folders@, drive.folders@.len(), f);
            let i = choose|i: int| 0 <= i < top.len() && top[i] == drive.folders@[f].path@;
            assert(all[at + usual.len() + i] == drive.folders@[f].path@);
        }
    }
}

proof fn lemma_top_library(folders: Seq<TopFolder>, n: nat, f: int)
    requires
        n <= folders.len(),
        0 <= f < n,
        folders[f].is_library,
    ensures
        top_libraries(folders, n).contains(folders[f].path@),
    decreases n,
{
    let all = top_libraries(folders, n);
    let before = top_libraries(folders, (n - 1) as nat);
    if f < n - 1 {
        lemma_top_library(folders, (n - 1) as nat, f);
        let i = choose|i: int| 0 <= i < before.len() && before[i] == folders[f].path@;
        assert(all[i] == folders[f].path@);
    } else {
        assert(all[before.len() as int] == folders[f].path@);
    }
}

/// The best of several installs has the lowest rank.
pub proof fn lemma_best_rank(style: Style, candidates: Seq<Seq<char>>, k: int, j: int)
    requires
        best_install(style, candidates, k),
        0 <= j < candidates.len(),
    ensures
        rank_of(style, candidates[k]) <= rank_of(style, candidates[j]),
{
    assert(!preferred(style, candidates[j], candidates[k]));
}

} // verus!
