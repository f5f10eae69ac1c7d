//! The offsets that patterns over the modules' code give.

use crate::analysis::interfaces::{inner_wf, nested};
use crate::analysis::module_data::{
    find_image, image_at, image_named, lemma_image_unique, ModuleImage,
};
use crate::analysis::pe::{all_captured, captured, find_all_code, find_code, is_image, is_pe64};
use crate::strmap::StrMap;
use crate::text::lower_text;
use vstd::prelude::*;

verus! {

/// The offsets of each module by name.
pub type OffsetMap = StrMap<StrMap<u32>>;

/// A pattern with the name of what it captures.
pub type Pattern = (&'static str, &'static str);

/// The names and patterns of a list.
pub open spec fn pattern_texts(list: Seq<Pattern>) -> Seq<(Seq<char>, Seq<char>)> {
    Seq::new(list.len(), |i: int| (list[i].0@, list[i].1@))
}

/// The patterns of `client.dll`. That of the view renderer is not among them: it
/// can have several hits.
pub open spec fn client_texts() -> Seq<(Seq<char>, Seq<char>)> {
    seq![
        ("dwCSGOInput"@, "488905${'} 0f57c0 0f1105"@),
        ("dwEntityList"@, "48890d${'} e9${} cc"@),
        ("dwGameEntitySystem"@, "488b1d${'} 48891d[4] 4c63b3"@),
        ("dwGameEntitySystem_highestEntityIndex"@, "ff81u4 4885d2"@),
        ("dwGameRules"@, "f6c1010f85${} 4c8b05${'} 4d85"@),
        ("dwGlobalVars"@, "488915${'} 488942"@),
        ("dwGlowManager"@, "488b05${'} c3 cccccccccccccccc 8b41"@),
        ("dwLocalPlayerController"@, "488b05${'} 4189be"@),
        ("dwPlantedC4"@, "488b1d${'} 4532f6"@),
        ("dwPrediction"@, "488d05${'} c3 cccccccccccccccc 405356 4154"@),
        ("dwSensitivity"@, "488d0d${[8]'} 660f6ecd"@),
        ("dwViewMatrix"@, "488d0d${'} 48c1e006"@),
        ("dwWeaponC4"@, "488b15${'} 488b5c24? ffc0 8905${} 488bc6 488934ea 80be"@),
        ("dwCreateMove"@, "'488bc44c89401848894808555341544155"@),
        ("dwParticleManager"@, "488b0d${'} 41b8${} f30f117424? 48c74424? ${}"@),
        ("dwClientMode"@, "488d0d${'} 4869c0${} 4803c1 c3 cccc"@),
    ]
}

fn client_patterns() -> (list: Vec<Pattern>)
    ensures
        pattern_texts(list@) == client_texts(),
{
    let list: Vec<Pattern> = vec![
        ("dwCSGOInput", "488905${'} 0f57c0 0f1105"),
        ("dwEntityList", "48890d${'} e9${} cc"),
        ("dwGameEntitySystem", "488b1d${'} 48891d[4] 4c63b3"),
        ("dwGameEntitySystem_highestEntityIndex", "ff81u4 4885d2"),
        ("dwGameRules", "f6c1010f85${} 4c8b05${'} 4d85"),
        ("dwGlobalVars", "488915${'} 488942"),
        ("dwGlowManager", "488b05${'} c3 cccccccccccccccc 8b41"),
        ("dwLocalPlayerController", "488b05${'} 4189be"),
        ("dwPlantedC4", "488b1d${'} 4532f6"),
        ("dwPrediction", "488d05${'} c3 cccccccccccccccc 405356 4154"),
        ("dwSensitivity", "488d0d${[8]'} 660f6ecd"),
        ("dwViewMatrix", "488d0d${'} 48c1e006"),
        ("dwWeaponC4", "488b15${'} 488b5c24? ffc0 8905${} 488bc6 488934ea 80be"),
        ("dwCreateMove", "'488bc44c89401848894808555341544155"),
        ("dwParticleManager", "488b0d${'} 41b8${} f30f117424? 48c74424? ${}"),
        ("dwClientMode", "488d0d${'} 4869c0${} 4803c1 c3 cccc"),
    ];
    assert(pattern_texts(list@) =~= client_texts());
    list
}

/// The patterns of `engine2.dll`.
pub open spec fn engine_texts() -> Seq<(Seq<char>, Seq<char>)> {
    seq![
        ("dwBuildNumber"@, "8905${'} 488d0d${} ff15${} 488b0d"@),
        ("dwNetworkGameClient"@, "48893d${'} ff87"@),
        ("dwNetworkGameClient_clientTickCount"@, "8b81u4 c3 cccccccccccccccccc 8b81${} c3 cccccccccccccccccc 83b9"@),
        ("dwNetworkGameClient_deltaTick"@, "4c8db7u4 4c897c24"@),
        ("dwNetworkGameClient_isBackgroundMap"@, "0fb681u4 c3 cccccccccccccccc 0fb681${} c3 cccccccccccccccc 4883ec"@),
        ("dwNetworkGameClient_localPlayer"@, "428b94d3u4 5b 49ffe3 32c0 5b c3 cccccccccccccccc 4053"@),
        ("dwNetworkGameClient_maxClients"@, "8b81u4 c3????????? 8b81[4] c3????????? 8b81"@),
        ("dwNetworkGameClient_serverTickCount"@, "8b81u4 c3 cccccccccccccccccc 83b9"@),
        ("dwNetworkGameClient_signOnState"@, "448b81u4 488d0d"@),
        ("dwWindowHeight"@, "8b05${'} 8903"@),
        ("dwWindowWidth"@, "8b05${'} 8907"@),
        ("dwPVSManager"@, "488d0d${'} 33d2 ff50"@),
    ]
}

fn engine_patterns() -> (list: Vec<Pattern>)
    ensures
        pattern_texts(list@) == engine_texts(),
{
    let list: Vec<Pattern> = vec![
        ("dwBuildNumber", "8905${'} 488d0d${} ff15${} 488b0d"),
        ("dwNetworkGameClient", "48893d${'} ff87"),
        ("dwNetworkGameClient_clientTickCount", "8b81u4 c3 cccccccccccccccccc 8b81${} c3 cccccccccccccccccc 83b9"),
        ("dwNetworkGameClient_deltaTick", "4c8db7u4 4c897c24"),
        ("dwNetworkGameClient_isBackgroundMap", "0fb681u4 c3 cccccccccccccccc 0fb681${} c3 cccccccccccccccc 4883ec"),
        ("dwNetworkGameClient_localPlayer", "428b94d3u4 5b 49ffe3 32c0 5b c3 cccccccccccccccc 4053"),
        ("dwNetworkGameClient_maxClients", "8b81u4 c3????????? 8b81[4] c3????????? 8b81"),
        ("dwNetworkGameClient_serverTickCount", "8b81u4 c3 cccccccccccccccccc 83b9"),
        ("dwNetworkGameClient_signOnState", "448b81u4 488d0d"),
        ("dwWindowHeight", "8b05${'} 8903"),
        ("dwWindowWidth", "8b05${'} 8907"),
        ("dwPVSManager", "488d0d${'} 33d2 ff50"),
    ];
    assert(pattern_texts(list@) =~= engine_texts());
    list
}

/// The patterns of `inputsystem.dll`.
pub open spec fn input_texts() -> Seq<(Seq<char>, Seq<char>)> {
    seq![
        ("dwInputSystem"@, "488905${'} 33c0"@),
    ]
}

fn input_patterns() -> (list: Vec<Pattern>)
    ensures
        pattern_texts(list@) == input_texts(),
{
    let list: Vec<Pattern> = vec![
        ("dwInputSystem", "488905${'} 33c0"),
    ];
    assert(pattern_texts(list@) =~= input_texts());
    list
}

/// The patterns of `matchmaking.dll`.
pub open spec fn matchmaking_texts() -> Seq<(Seq<char>, Seq<char>)> {
    seq![
        ("dwGameTypes"@, "488d0d${'} ff90"@),
    ]
}

fn matchmaking_patterns() -> (list: Vec<Pattern>)
    ensures
        pattern_texts(list@) == matchmaking_texts(),
{
    let list: Vec<Pattern> = vec![
        ("dwGameTypes", "488d0d${'} ff90"),
    ];
    assert(pattern_texts(list@) =~= matchmaking_texts());
    list
}

/// The patterns of `soundsystem.dll`.
pub open spec fn sound_texts() -> Seq<(Seq<char>, Seq<char>)> {
    seq![
        ("dwSoundSystem"@, "488d0d${'} e8${} 488b0d${} [3] 4c8b82"@),
        ("dwSoundSystem_engineViewData"@, "0f1147u1 0f104e? 0f118f"@),
    ]
}

fn sound_patterns() -> (list: Vec<Pattern>)
    ensures
        pattern_texts(list@) == sound_texts(),
{
    let list: Vec<Pattern> = vec![
        ("dwSoundSystem", "488d0d${'} e8${} 488b0d${} [3] 4c8b82"),
        ("dwSoundSystem_engineViewData", "0f1147u1 0f104e? 0f118f"),
    ];
    assert(pattern_texts(list@) =~= sound_texts());
    list
}

/// The patterns of `tier0.dll`.
pub open spec fn tier0_texts() -> Seq<(Seq<char>, Seq<char>)> {
    seq![
        ("dwCVar"@, "488d05${'} c3 cccccccccccccccc e9"@),
    ]
}

fn tier0_patterns() -> (list: Vec<Pattern>)
    ensures
        pattern_texts(list@) == tier0_texts(),
{
    let list: Vec<Pattern> = vec![
        ("dwCVar", "488d05${'} c3 cccccccccccccccc e9"),
    ];
    assert(pattern_texts(list@) =~= tier0_texts());
    list
}

/// The places of the first `n` names that have one.
pub open spec fn placed(names: Seq<Seq<char>>, hits: Seq<Option<u32>>, n: nat) -> Map<Seq<char>, u32>
    decreases n,
{
    if n == 0 {
        Map::empty()
    } else {
        let before = placed(names, hits, (n - 1) as nat);
        match hits[n - 1] {
            Some(place) => before.insert(names[n - 1], place),
            None => before,
        }
    }
}

/// The names of a list of patterns.
pub open spec fn pattern_names(list: Seq<(Seq<char>, Seq<char>)>) -> Seq<Seq<char>> {
    Seq::new(list.len(), |i: int| list[i].0)
}

/// What each pattern of a list captures in an image.
pub open spec fn pattern_hits(image: Seq<u8>, list: Seq<(Seq<char>, Seq<char>)>) -> Seq<
    Option<u32>,
> {
    Seq::new(list.len(), |i: int| captured(image, list[i].1))
}

/// The map of the names whose pattern has a hit.
pub fn offsets_from_hits(list: &Vec<Pattern>, hits: &Vec<Option<u32>>) -> (map: StrMap<u32>)
    requires
        hits@.len() == list@.len(),
    ensures
        map.wf(),
        map.map() == placed(pattern_names(pattern_texts(list@)), hits@, list@.len()),
{
    let ghost names = pattern_names(pattern_texts(list@));
    let mut map: StrMap<u32> = StrMap::new();
    let mut i: usize = 0;
    while i < list.len()
        invariant
            hits@.len() == list@.len(),
            names == pattern_names(pattern_texts(list@)),
            i <= list@.len(),
            map.wf(),
            map.map() == placed(names, hits@, i as nat),
        decreases list@.len() - i,
    {
        assert(names[i as int] == list@[i as int].0@);
        match hits[i] {
            Some(place) => {
                let _previous = map.insert(list[i].0.to_owned(), place);
            },
            None => {},
        }
        i = i + 1;
    }
    map
}

/// Of names that differ each has the place of its own hit, and nothing else is
/// in the map.
pub proof fn lemma_each_hit_placed(names: Seq<Seq<char>>, hits: Seq<Option<u32>>, n: nat)
    requires
        n <= names.len(),
        n <= hits.len(),
        forall|i: int, j: int| 0 <= i < j < n ==> #[trigger] names[i] != #[trigger] names[j],
    ensures
        forall|i: int|
            0 <= i < n ==> placed(names, hits, n).contains_key(#[trigger] names[i]) == (
            hits[i] is Some),
        forall|i: int|
            0 <= i < n && hits[i] is Some ==> placed(names, hits, n)[#[trigger] names[i]]
                == hits[i]->0,
        forall|name: Seq<char>| #[trigger]
            placed(names, hits, n).contains_key(name) ==> exists|i: int|
                0 <= i < n && #[trigger] names[i] == name,
    decreases n,
{
    if n > 0 {
        lemma_each_hit_placed(names, hits, (n - 1) as nat);
        let before = placed(names, hits, (n - 1) as nat);
        let now = placed(names, hits, n);
        assert(!before.contains_key(names[n - 1])) by {
            if before.contains_key(names[n - 1]) {
                let i = choose|i: int| 0 <= i < n - 1 && #[trigger] names[i] == names[n - 1];
                assert(names[i] != names[n - 1]);
            }
        }
        assert forall|i: int| 0 <= i < n implies now.contains_key(#[trigger] names[i]) == (
        hits[i] is Some) && (hits[i] is Some ==> now[names[i]] == hits[i]->0) by {
            if i < n - 1 {
                assert(names[i] != names[n - 1]);
            }
        }
        assert forall|name: Seq<char>| #[trigger] now.contains_key(name) implies exists|i: int|
            0 <= i < n && #[trigger] names[i] == name by {
            if name == names[n - 1] {
            } else {
                assert(before.contains_key(name));
                let i = choose|i: int| 0 <= i < n - 1 && #[trigger] names[i] == name;
                assert(names[i] == name);
            }
        }
    }
}

/// The offsets that a list of patterns gives in an image.
pub open spec fn module_map(image: Seq<u8>, list: Seq<(Seq<char>, Seq<char>)>) -> Map<
    Seq<char>,
    u32,
> {
    placed(pattern_names(list), pattern_hits(image, list), list.len())
}

fn scan_patterns(image: &[u8], list: &Vec<Pattern>) -> (map: StrMap<u32>)
    ensures
        map.wf(),
        map.map() == module_map(image@, pattern_texts(list@)),
{
    let ghost texts = pattern_texts(list@);
    let mut hits: Vec<Option<u32>> = Vec::new();
    let mut i: usize = 0;
    while i < list.len()
        invariant
            i <= list@.len(),
            texts == pattern_texts(list@),
            hits@.len() == i,
            forall|k: int| 0 <= k < i ==> hits@[k] == pattern_hits(image@, texts)[k],
        decreases list@.len() - i,
    {
        assert(texts[i as int].1 == list@[i as int].1@);
        hits.push(find_code(image, list[i].1));
        i = i + 1;
    }
    assert(hits@ =~= pattern_hits(image@, texts));
    offsets_from_hits(list, &hits)
}

/// The sum of two offsets in 32-bit arithmetic.
pub open spec fn plus32(a: u32, b: u32) -> u32 {
    if a + b > u32::MAX {
        (a + b - 0x1_0000_0000) as u32
    } else {
        (a + b) as u32
    }
}

/// The hits other than `first`.
pub open spec fn other_hits(first: u32, hits: Seq<u32>) -> Seq<u32>
    decreases hits.len(),
{
    if hits.len() == 0 {
        Seq::empty()
    } else {
        let before = other_hits(first, hits.drop_last());
        if hits.last() != first {
            before.push(hits.last())
        } else {
            before
        }
    }
}

/// The only hit other than `first`.
pub open spec fn extra_hit(first: u32, hits: Seq<u32>) -> Option<u32> {
    let others = other_hits(first, hits);
    if others.len() == 1 {
        Some(others[0])
    } else {
        None
    }
}

/// The hit at `i` is the only one that is not `first`.
pub open spec fn only_other(first: u32, hits: Seq<u32>, i: int) -> bool {
    &&& 0 <= i < hits.len()
    &&& hits[i] != first
    &&& forall|j: int| 0 <= j < hits.len() && j != i ==> #[trigger] hits[j] == first
}

proof fn lemma_other_hits(first: u32, hits: Seq<u32>)
    ensures
        other_hits(first, hits).len() == 0 <==> forall|j: int|
            0 <= j < hits.len() ==> #[trigger] hits[j] == first,
        forall|i: int| #[trigger]
            only_other(first, hits, i) ==> other_hits(first, hits) == seq![hits[i]],
        other_hits(first, hits).len() == 1 ==> exists|i: int|
            only_other(first, hits, i) && other_hits(first, hits)[0] == hits[i],
    decreases hits.len(),
{
    if hits.len() > 0 {
        let before = hits.drop_last();
        let last = hits.len() - 1;
        lemma_other_hits(first, before);
        let all = other_hits(first, hits);
        if hits.last() != first {
            assert(hits[last] != first);
            assert forall|i: int| #[trigger] only_other(first, hits, i) implies all == seq![
                hits[i],
            ] by {
                assert(i == last);
                assert forall|j: int| 0 <= j < before.len() implies #[trigger] before[j]
                    == first by {
                    assert(hits[j] == first);
                }
                assert(all =~= seq![hits[i]]);
            }
            if all.len() == 1 {
                assert forall|j: int| 0 <= j < hits.len() && j != last implies #[trigger] hits[j]
                    == first by {
                    assert(before[j] == first);
                }
                assert(only_other(first, hits, last));
            }
        } else {
            assert(forall|j: int| 0 <= j < before.len() ==> before[j] == hits[j]);
            if all.len() == 0 {
                assert forall|j: int| 0 <= j < hits.len() implies #[trigger] hits[j] == first by {
                    if j < last {
                        assert(before[j] == first);
                    }
                }
            }
            assert forall|i: int| #[trigger] only_other(first, hits, i) implies all == seq![
                hits[i],
            ] by {
                assert(only_other(first, before, i));
            }
            if all.len() == 1 {
                let i = choose|i: int| only_other(first, before, i) && all[0] == before[i];
                assert(only_other(first, hits, i));
            }
        }
    }
}

/// There is an extra hit exactly where one hit is not the first one and every
/// other is, and it is that hit.
pub proof fn lemma_extra_hit(first: u32, hits: Seq<u32>, x: u32)
    ensures
        extra_hit(first, hits) == Some(x) <==> exists|i: int| #[trigger]
            only_other(first, hits, i) && hits[i] == x,
{
    lemma_other_hits(first, hits);
}

/// The only hit of a pattern besides `first`, so that a name is not bound to
/// the place of another.
pub fn unique_extra_hit(first: u32, hits: &[u32]) -> (extra: Option<u32>)
    ensures
        extra == extra_hit(first, hits@),
{
    let mut others: Vec<u32> = Vec::new();
    let mut i: usize = 0;
    assert(hits@.subrange(0, 0) =~= Seq::<u32>::empty());
    while i < hits.len()
        invariant
            i <= hits@.len(),
            others@ == other_hits(first, hits@.subrange(0, i as int)),
        decreases hits@.len() - i,
    {
        let ghost head = hits@.subrange(0, i + 1);
        assert(head.drop_last() =~= hits@.subrange(0, i as int));
        assert(head.last() == hits@[i as int]);
        if hits[i] != first {
            others.push(hits[i]);
        }
        i = i + 1;
    }
    assert(hits@.subrange(0, i as int) =~= hits@);
    if others.len() == 1 {
        Some(others[0])
    } else {
        None
    }
}

/// The pattern of the store that names the view renderer. It is an idiom of the
/// compiler: another global can be stored in the same way.
pub open spec fn store_pattern() -> Seq<char> {
    "488905${'} 488bc8 4885c0"@
}

/// The only other global that is stored like the view renderer.
pub fn second_store_global(image: &[u8], view_render: u32) -> (place: Option<u32>)
    ensures
        place == extra_hit(view_render, all_captured(image@, store_pattern())),
{
    let hits = find_all_code(image, "488905${'} 488bc8 4885c0");
    unique_extra_hit(view_render, hits.as_slice())
}

/// A map with an entry whose value hangs on that of another: `name` is set where
/// the map holds `anchor` and there is a value for it.
pub open spec fn hung(
    map: Map<Seq<char>, u32>,
    anchor: Seq<char>,
    name: Seq<char>,
    value: Option<u32>,
) -> Map<Seq<char>, u32> {
    if map.contains_key(anchor) && value is Some {
        map.insert(name, value->0)
    } else {
        map
    }
}

/// The client's offsets with those of the stores: the first hit is the view
/// renderer, and the only hit besides is the physics world.
pub open spec fn with_stores(map: Map<Seq<char>, u32>, stores: Seq<u32>) -> Map<Seq<char>, u32> {
    if stores.len() == 0 {
        map
    } else {
        hung(
            map.insert("dwViewRender"@, stores[0]),
            "dwViewRender"@,
            "dwVPhys2World"@,
            extra_hit(stores[0], stores),
        )
    }
}

/// The client's offsets with those that hang on others: the view angles and the
/// local pawn stand at a displacement behind their anchors, the sensitivity at a
/// fixed place, and the view renderer and the physics world where the stores go.
pub open spec fn with_extras(
    map: Map<Seq<char>, u32>,
    view_angles: Option<u32>,
    local_pawn: Option<u32>,
    stores: Seq<u32>,
) -> Map<Seq<char>, u32> {
    let angles = match view_angles {
        Some(d) => Some(plus32(map["dwCSGOInput"@], d)),
        None => None,
    };
    let pawn = match local_pawn {
        Some(d) => Some(plus32(map["dwPrediction"@], d)),
        None => None,
    };
    let one = hung(map, "dwCSGOInput"@, "dwViewAngles"@, angles);
    let two = hung(one, "dwPrediction"@, "dwLocalPlayerPawn"@, pawn);
    let three = hung(two, "dwSensitivity"@, "dwSensitivity_sensitivity"@, Some(0x58));
    with_stores(three, stores)
}

/// What the client's offsets gain. The local pawn stands its displacement behind
/// the prediction and the view angles theirs behind the input, in 32-bit
/// arithmetic; the sensitivity stands at 0x58; the first store is the view
/// renderer, and a single other store the physics world. What is asked for
/// without its anchor is not set, and every other offset stays as it was.
pub proof fn lemma_client_extras(
    map: Map<Seq<char>, u32>,
    view_angles: Option<u32>,
    local_pawn: Option<u32>,
    stores: Seq<u32>,
)
    ensures
        ({
            let out = with_extras(map, view_angles, local_pawn, stores);
            &&& map.contains_key("dwPrediction"@) && local_pawn is Some ==> {
                &&& out.contains_key("dwPrediction"@)
                &&& out.contains_key("dwLocalPlayerPawn"@)
                &&& map["dwPrediction"@] + local_pawn->0 < 0x1_0000_0000
                    ==> out["dwLocalPlayerPawn"@] - out["dwPrediction"@] == local_pawn->0
                &&& map["dwPrediction"@] + local_pawn->0 >= 0x1_0000_0000
                    ==> out["dwLocalPlayerPawn"@] - out["dwPrediction"@] == local_pawn->0
                    - 0x1_0000_0000
            }
            &&& map.contains_key("dwCSGOInput"@) && view_angles is Some ==> {
                &&& out.contains_key("dwCSGOInput"@)
                &&& out.contains_key("dwViewAngles"@)
                &&& map["dwCSGOInput"@] + view_angles->0 < 0x1_0000_0000
                    ==> out["dwViewAngles"@] - out["dwCSGOInput"@] == view_angles->0
                &&& map["dwCSGOInput"@] + view_angles->0 >= 0x1_0000_0000
                    ==> out["dwViewAngles"@] - out["dwCSGOInput"@] == view_angles->0
                    - 0x1_0000_0000
            }
            &&& !map.contains_key("dwPrediction"@) || local_pawn is None ==> out.contains_key(
                "dwLocalPlayerPawn"@,
            ) == map.contains_key("dwLocalPlayerPawn"@)
            &&& !map.contains_key("dwCSGOInput"@) || view_angles is None ==> out.contains_key(
                "dwViewAngles"@,
            ) == map.contains_key("dwViewAngles"@)
            &&& map.contains_key("dwSensitivity"@) ==> out.contains_key(
                "dwSensitivity_sensitivity"@,
            ) && out["dwSensitivity_sensitivity"@] == 0x58
            &&& !map.contains_key("dwSensitivity"@) ==> out.contains_key(
                "dwSensitivity_sensitivity"@,
            ) == map.contains_key("dwSensitivity_sensitivity"@)
            &&& stores.len() > 0 ==> out.contains_key("dwViewRender"@) && out["dwViewRender"@]
                == stores[0]
            &&& stores.len() == 0 ==> out.contains_key("dwViewRender"@) == map.contains_key(
                "dwViewRender"@,
            )
            &&& forall|i: int|
                stores.len() > 0 && #[trigger] only_other(stores[0], stores, i)
                    ==> out.contains_key("dwVPhys2World"@) && out["dwVPhys2World"@] == stores[i]
            &&& (forall|i: int| !(stores.len() > 0 && #[trigger] only_other(stores[0], stores, i)))
                ==> out.contains_key("dwVPhys2World"@) == map.contains_key("dwVPhys2World"@)
            &&& forall|name: Seq<char>|
                name != "dwLocalPlayerPawn"@ && name != "dwViewAngles"@ && name
                    != "dwSensitivity_sensitivity"@ && name != "dwViewRender"@ && name
                    != "dwVPhys2World"@ ==> (#[trigger] out.contains_key(name)
                    == map.contains_key(name)) && (map.contains_key(name) ==> out[name]
                    == map[name])
        }),
{
    reveal_strlit("dwCSGOInput");
    reveal_strlit("dwViewAngles");
    reveal_strlit("dwPrediction");
    reveal_strlit("dwLocalPlayerPawn");
    reveal_strlit("dwSensitivity");
    reveal_strlit("dwSensitivity_sensitivity");
    reveal_strlit("dwViewRender");
    reveal_strlit("dwVPhys2World");
    assert("dwPrediction"@[2] != "dwViewAngles"@[2]);
    assert("dwPrediction"@[2] != "dwViewRender"@[2]);
    assert("dwViewAngles"@[6] != "dwViewRender"@[6]);
    assert("dwSensitivity"@[2] != "dwVPhys2World"@[2]);
    assert("dwCSGOInput"@.len() == 11 && "dwPrediction"@.len() == 12 && "dwViewAngles"@.len() == 12
        && "dwViewRender"@.len() == 12 && "dwSensitivity"@.len() == 13 && "dwVPhys2World"@.len()
        == 13 && "dwLocalPlayerPawn"@.len() == 17 && "dwSensitivity_sensitivity"@.len() == 25);
    if stores.len() > 0 {
        match extra_hit(stores[0], stores) {
            Some(x) => {
                lemma_extra_hit(stores[0], stores, x);
            },
            None => {},
        }
        assert forall|i: int| #[trigger] only_other(stores[0], stores, i) implies extra_hit(
            stores[0],
            stores,
        ) == Some(stores[i]) by {
            lemma_extra_hit(stores[0], stores, stores[i]);
        }
    }
}

fn hang(map: &mut StrMap<u32>, anchor: &str, name: &str, value: Option<u32>)
    requires
        old(map).wf(),
    ensures
        final(map).wf(),
        final(map).map() == hung(old(map).map(), anchor@, name@, value),
{
    match value {
        Some(v) => {
            if map.contains_key(anchor) {
                let _previous = map.insert(name.to_owned(), v);
            }
        },
        None => {},
    }
}

fn behind(map: &StrMap<u32>, anchor: &str, displacement: Option<u32>) -> (value: Option<u32>)
    requires
        map.wf(),
        map.map().contains_key(anchor@),
    ensures
        value == (match displacement {
            Some(d) => Some(plus32(map.map()[anchor@], d)),
            None => None,
        }),
{
    match (map.get(anchor), displacement) {
        (Some(place), Some(d)) => Some(place.wrapping_add(d)),
        _ => None,
    }
}

/// Adds the client's offsets that hang on others.
pub fn add_client_extras(
    map: &mut StrMap<u32>,
    view_angles: Option<u32>,
    local_pawn: Option<u32>,
    stores: &Vec<u32>,
)
    requires
        old(map).wf(),
    ensures
        final(map).wf(),
        final(map).map() == with_extras(old(map).map(), view_angles, local_pawn, stores@),
{
    let angles = if map.contains_key("dwCSGOInput") {
        behind(map, "dwCSGOInput", view_angles)
    } else {
        None
    };
    let pawn = if map.contains_key("dwPrediction") {
        behind(map, "dwPrediction", local_pawn)
    } else {
        None
    };
    proof {
        reveal_strlit("dwPrediction");
        reveal_strlit("dwViewAngles");
        assert("dwPrediction"@[2] != "dwViewAngles"@[2]);
    }
    hang(map, "dwCSGOInput", "dwViewAngles", angles);
    hang(map, "dwPrediction", "dwLocalPlayerPawn", pawn);
    hang(map, "dwSensitivity", "dwSensitivity_sensitivity", Some(0x58));
    if stores.len() > 0 {
        let first: u32 = stores[0];
        let world = unique_extra_hit(first, stores.as_slice());
        let _previous = map.insert("dwViewRender".to_owned(), first);
        hang(map, "dwViewRender", "dwVPhys2World", world);
    }
}

/// The client's offsets.
pub open spec fn client_map(image: Seq<u8>) -> Map<Seq<char>, u32> {
    with_extras(
        module_map(image, client_texts()),
        captured(image, "f2420f108428u4"@),
        captured(image, "4c39b6u4 74? 4488be"@),
        all_captured(image, store_pattern()),
    )
}

/// Finds the client's offsets in its image.
pub fn client_offsets(image: &[u8]) -> (map: StrMap<u32>)
    ensures
        map.wf(),
        map.map() == client_map(image@),
{
    let list = client_patterns();
    let mut map = scan_patterns(image, &list);
    let view_angles = find_code(image, "f2420f108428u4");
    let local_pawn = find_code(image, "4c39b6u4 74? 4488be");
    let stores = find_all_code(image, "488905${'} 488bc8 4885c0");
    add_client_extras(&mut map, view_angles, local_pawn, &stores);
    map
}

/// The name of module `i` of six.
pub open spec fn module_name(i: int) -> Seq<char> {
    if i == 0 {
        "client.dll"@
    } else if i == 1 {
        "engine2.dll"@
    } else if i == 2 {
        "inputsystem.dll"@
    } else if i == 3 {
        "matchmaking.dll"@
    } else if i == 4 {
        "soundsystem.dll"@
    } else {
        "tier0.dll"@
    }
}

fn module_at(i: usize) -> (name: &'static str)
    ensures
        name@ == module_name(i as int),
{
    if i == 0 {
        "client.dll"
    } else if i == 1 {
        "engine2.dll"
    } else if i == 2 {
        "inputsystem.dll"
    } else if i == 3 {
        "matchmaking.dll"
    } else if i == 4 {
        "soundsystem.dll"
    } else {
        "tier0.dll"
    }
}

/// The offsets of module `i`.
pub open spec fn offsets_of(i: int, image: Seq<u8>) -> Map<Seq<char>, u32> {
    if i == 0 {
        client_map(image)
    } else if i == 1 {
        module_map(image, engine_texts())
    } else if i == 2 {
        module_map(image, input_texts())
    } else if i == 3 {
        module_map(image, matchmaking_texts())
    } else if i == 4 {
        module_map(image, sound_texts())
    } else {
        module_map(image, tier0_texts())
    }
}

fn scan_module(i: usize, image: &[u8]) -> (map: StrMap<u32>)
    ensures
        map.wf(),
        map.map() == offsets_of(i as int, image@),
{
    if i == 0 {
        client_offsets(image)
    } else if i == 1 {
        let list = engine_patterns();
        scan_patterns(image, &list)
    } else if i == 2 {
        let list = input_patterns();
        scan_patterns(image, &list)
    } else if i == 3 {
        let list = matchmaking_patterns();
        scan_patterns(image, &list)
    } else if i == 4 {
        let list = sound_patterns();
        scan_patterns(image, &list)
    } else {
        let list = tier0_patterns();
        scan_patterns(image, &list)
    }
}

/// Why the offsets could not be found.
#[derive(Clone, Copy, Debug)]
pub enum OffsetsError {
    /// There is no image of this module.
    MissingModule(&'static str),
    /// The image of this module is not a PE image.
    InvalidImage(&'static str),
}

/// What goes wrong with the modules from `i` on: the first that is missing or
/// invalid, and whether it is missing.
pub open spec fn trouble(images: Seq<ModuleImage>, i: int) -> Option<(Seq<char>, bool)>
    decreases 6 - i,
{
    if i >= 6 {
        None
    } else {
        match image_named(images, module_name(i)) {
            None => Some((module_name(i), true)),
            Some(k) => if !is_pe64(images[k].bytes@) {
                Some((module_name(i), false))
            } else {
                trouble(images, i + 1)
            },
        }
    }
}

/// The image of module `i`.
pub open spec fn image_of(images: Seq<ModuleImage>, i: int) -> Seq<u8> {
    images[image_named(images, module_name(i))->0].bytes@
}

/// The offsets of the first `n` modules.
pub open spec fn offsets_upto(images: Seq<ModuleImage>, n: nat) -> Map<
    Seq<char>,
    Map<Seq<char>, u32>,
>
    decreases n,
{
    if n == 0 {
        Map::empty()
    } else {
        offsets_upto(images, (n - 1) as nat).insert(
            module_name(n - 1),
            offsets_of(n - 1, image_of(images, n - 1)),
        )
    }
}

/// Finds the offsets of all six modules. All of them are needed.
pub fn offsets(images: &Vec<ModuleImage>) -> (map: Result<OffsetMap, OffsetsError>)
    ensures
        match trouble(images@, 0) {
            Some((name, missing)) => match map {
                Err(OffsetsError::MissingModule(module)) => missing && module@ == name,
                Err(OffsetsError::InvalidImage(module)) => !missing && module@ == name,
                Ok(_) => false,
            },
            None => {
                &&& map is Ok
                &&& map->Ok_0.wf()
                &&& inner_wf(map->Ok_0.map())
                &&& nested(map->Ok_0.map()) == offsets_upto(images@, 6)
            },
        },
{
    let mut map: OffsetMap = StrMap::new();
    let mut i: usize = 0;
    assert(nested(map.map()) =~= Map::<Seq<char>, Map<Seq<char>, u32>>::empty());
    while i < 6
        invariant
            i <= 6,
            map.wf(),
            inner_wf(map.map()),
            nested(map.map()) == offsets_upto(images@, i as nat),
            trouble(images@, 0) == trouble(images@, i as int),
        decreases 6 - i,
    {
        let name = module_at(i);
        let place: usize = match find_image(images, name) {
            Some(k) => k,
            None => {
                return Err(OffsetsError::MissingModule(name));
            },
        };
        let image = images[place].bytes.as_slice();
        if !is_image(image) {
            return Err(OffsetsError::InvalidImage(name));
        }
        let found = scan_module(i, image);
        let ghost was = map.map();
        let ghost inner = found;
        let _previous = map.insert(name.to_owned(), found);
        assert(nested(map.map()) =~= nested(was).insert(name@, inner.map()));
        i = i + 1;
    }
    Ok(map)
}

/// The first image of a name is the one that is found.
pub proof fn lemma_image_named(images: Seq<ModuleImage>, name: Seq<char>, k: int)
    requires
        image_at(images, name, k),
    ensures
        image_named(images, name) == Some(k),
{
    let j = choose|j: int| image_at(images, name, j);
    assert(image_at(images, name, j));
    lemma_image_unique(images, name, j, k);
}

/// With an image of each of the six modules there are offsets, and they are those
/// of these images, each under the name of its module.
pub proof fn lemma_modules_scanned(
    images: Seq<ModuleImage>,
    client: int,
    engine: int,
    input: int,
    matchmaking: int,
    sound: int,
    tier0: int,
)
    requires
        image_at(images, "client.dll"@, client),
        image_at(images, "engine2.dll"@, engine),
        image_at(images, "inputsystem.dll"@, input),
        image_at(images, "matchmaking.dll"@, matchmaking),
        image_at(images, "soundsystem.dll"@, sound),
        image_at(images, "tier0.dll"@, tier0),
        is_pe64(images[client].bytes@),
        is_pe64(images[engine].bytes@),
        is_pe64(images[input].bytes@),
        is_pe64(images[matchmaking].bytes@),
        is_pe64(images[sound].bytes@),
        is_pe64(images[tier0].bytes@),
    ensures
        trouble(images, 0) is None,
        ({
            let all = offsets_upto(images, 6);
            &&& all.dom() == set![
                "client.dll"@,
                "engine2.dll"@,
                "inputsystem.dll"@,
                "matchmaking.dll"@,
                "soundsystem.dll"@,
                "tier0.dll"@,
            ]
            &&& all["client.dll"@] == client_map(images[client].bytes@)
            &&& all["engine2.dll"@] == module_map(images[engine].bytes@, engine_texts())
            &&& all["inputsystem.dll"@] == module_map(images[input].bytes@, input_texts())
            &&& all["matchmaking.dll"@] == module_map(
                images[matchmaking].bytes@,
                matchmaking_texts(),
            )
            &&& all["soundsystem.dll"@] == module_map(images[sound].bytes@, sound_texts())
            &&& all["tier0.dll"@] == module_map(images[tier0].bytes@, tier0_texts())
        }),
{
    lemma_image_named(images, "client.dll"@, client);
    lemma_image_named(images, "engine2.dll"@, engine);
    lemma_image_named(images, "inputsystem.dll"@, input);
    lemma_image_named(images, "matchmaking.dll"@, matchmaking);
    lemma_image_named(images, "soundsystem.dll"@, sound);
    lemma_image_named(images, "tier0.dll"@, tier0);
    reveal_with_fuel(trouble, 7);
    lemma_module_names();
    reveal_with_fuel(offsets_upto, 7);
    assert(offsets_upto(images, 6).dom() =~= set![
        "client.dll"@,
        "engine2.dll"@,
        "inputsystem.dll"@,
        "matchmaking.dll"@,
        "soundsystem.dll"@,
        "tier0.dll"@,
    ]);
}

proof fn lemma_module_names()
    ensures
        "client.dll"@.len() == 10,
        "engine2.dll"@.len() == 11,
        "tier0.dll"@.len() == 9,
        "inputsystem.dll"@.len() == 15,
        "matchmaking.dll"@.len() == 15,
        "soundsystem.dll"@.len() == 15,
        "inputsystem.dll"@ != "matchmaking.dll"@,
        "inputsystem.dll"@ != "soundsystem.dll"@,
        "matchmaking.dll"@ != "soundsystem.dll"@,
{
    reveal_strlit("client.dll");
    reveal_strlit("engine2.dll");
    reveal_strlit("inputsystem.dll");
    reveal_strlit("matchmaking.dll");
    reveal_strlit("soundsystem.dll");
    reveal_strlit("tier0.dll");
    assert("inputsystem.dll"@[0] != "matchmaking.dll"@[0]);
    assert("inputsystem.dll"@[0] != "soundsystem.dll"@[0]);
    assert("matchmaking.dll"@[0] != "soundsystem.dll"@[0]);
}

/// The first of the six modules that is missing, or has no valid image, is what
/// the refusal names.
pub proof fn lemma_module_refused(images: Seq<ModuleImage>, i: int, k: int)
    requires
        0 <= i < 6,
        forall|j: int|
            0 <= j < i ==> (image_named(images, #[trigger] module_name(j)) is Some && is_pe64(
                images[image_named(images, module_name(j))->0].bytes@,
            )),
    ensures
        (forall|j: int|
            0 <= j < images.len() ==> lower_text((#[trigger] images[j]).name@) != lower_text(
                module_name(i),
            )) ==> trouble(images, 0) == Some((module_name(i), true)),
        image_at(images, module_name(i), k) && !is_pe64(images[k].bytes@) ==> trouble(images, 0)
            == Some((module_name(i), false)),
{
    if image_at(images, module_name(i), k) {
        lemma_image_named(images, module_name(i), k);
    }
    lemma_trouble_from(images, i, 0);
}

proof fn lemma_trouble_from(images: Seq<ModuleImage>, i: int, from: int)
    requires
        0 <= from <= i < 6,
        forall|j: int|
            0 <= j < i ==> (image_named(images, #[trigger] module_name(j)) is Some && is_pe64(
                images[image_named(images, module_name(j))->0].bytes@,
            )),
    ensures
        trouble(images, from) == trouble(images, i),
    decreases i - from,
{
    if from < i {
        assert(image_named(images, module_name(from)) is Some);
        lemma_trouble_from(images, i, from + 1);
    }
}

/// Offsets are given for six modules.
pub proof fn lemma_six_modules(images: Seq<ModuleImage>)
    ensures
        offsets_upto(images, 6).dom().len() == 6,
        offsets_upto(images, 6).dom().finite(),
{
    lemma_module_names();
    reveal_with_fuel(offsets_upto, 7);
    let all = set![
        "client.dll"@,
        "engine2.dll"@,
        "inputsystem.dll"@,
        "matchmaking.dll"@,
        "soundsystem.dll"@,
        "tier0.dll"@,
    ];
    assert(offsets_upto(images, 6).dom() =~= all);
    assert(all.len() == 6);
}

/// A name has the place that a pattern captures, and is missing where it captures
/// none.
pub open spec fn is_placed(map: Map<Seq<char>, u32>, name: Seq<char>, place: Option<u32>) -> bool {
    match place {
        Some(p) => map.contains_key(name) && map[name] == p,
        None => !map.contains_key(name),
    }
}

/// Each of the client's names has the place that its pattern captures.
pub proof fn lemma_client_patterns(image: Seq<u8>)
    ensures
        is_placed(module_map(image, client_texts()), "dwCSGOInput"@, captured(image, "488905${'} 0f57c0 0f1105"@)),
        is_placed(module_map(image, client_texts()), "dwEntityList"@, captured(image, "48890d${'} e9${} cc"@)),
        is_placed(module_map(image, client_texts()), "dwGameEntitySystem"@, captured(image, "488b1d${'} 48891d[4] 4c63b3"@)),
        is_placed(module_map(image, client_texts()), "dwGameEntitySystem_highestEntityIndex"@, captured(image, "ff81u4 4885d2"@)),
        is_placed(module_map(image, client_texts()), "dwGameRules"@, captured(image, "f6c1010f85${} 4c8b05${'} 4d85"@)),
        is_placed(module_map(image, client_texts()), "dwGlobalVars"@, captured(image, "488915${'} 488942"@)),
        is_placed(module_map(image, client_texts()), "dwGlowManager"@, captured(image, "488b05${'} c3 cccccccccccccccc 8b41"@)),
        is_placed(module_map(image, client_texts()), "dwLocalPlayerController"@, captured(image, "488b05${'} 4189be"@)),
        is_placed(module_map(image, client_texts()), "dwPlantedC4"@, captured(image, "488b1d${'} 4532f6"@)),
        is_placed(module_map(image, client_texts()), "dwPrediction"@, captured(image, "488d05${'} c3 cccccccccccccccc 405356 4154"@)),
        is_placed(module_map(image, client_texts()), "dwSensitivity"@, captured(image, "488d0d${[8]'} 660f6ecd"@)),
        is_placed(module_map(image, client_texts()), "dwViewMatrix"@, captured(image, "488d0d${'} 48c1e006"@)),
        is_placed(module_map(image, client_texts()), "dwWeaponC4"@, captured(image, "488b15${'} 488b5c24? ffc0 8905${} 488bc6 488934ea 80be"@)),
        is_placed(module_map(image, client_texts()), "dwCreateMove"@, captured(image, "'488bc44c89401848894808555341544155"@)),
        is_placed(module_map(image, client_texts()), "dwParticleManager"@, captured(image, "488b0d${'} 41b8${} f30f117424? 48c74424? ${}"@)),
        is_placed(module_map(image, client_texts()), "dwClientMode"@, captured(image, "488d0d${'} 4869c0${} 4803c1 c3 cccc"@)),
{
    let names = pattern_names(client_texts());
    let hits = pattern_hits(image, client_texts());
    reveal_strlit("dwCSGOInput");
    reveal_strlit("dwEntityList");
    reveal_strlit("dwGameEntitySystem");
    reveal_strlit("dwGameEntitySystem_highestEntityIndex");
    reveal_strlit("dwGameRules");
    reveal_strlit("dwGlobalVars");
    reveal_strlit("dwGlowManager");
    reveal_strlit("dwLocalPlayerController");
    reveal_strlit("dwPlantedC4");
    reveal_strlit("dwPrediction");
    reveal_strlit("dwSensitivity");
    reveal_strlit("dwViewMatrix");
    reveal_strlit("dwWeaponC4");
    reveal_strlit("dwCreateMove");
    reveal_strlit("dwParticleManager");
    reveal_strlit("dwClientMode");
    assert(names[0].len() == 11);
    assert(names[1].len() == 12);
    assert(names[2].len() == 18);
    assert(names[3].len() == 37);
    assert(names[4].len() == 11);
    assert(names[5].len() == 12);
    assert(names[6].len() == 13);
    assert(names[7].len() == 23);
    assert(names[8].len() == 11);
    assert(names[9].len() == 12);
    assert(names[10].len() == 13);
    assert(names[11].len() == 12);
    assert(names[12].len() == 10);
    assert(names[13].len() == 12);
    assert(names[14].len() == 17);
    assert(names[15].len() == 12);
    assert(names[0][2] != names[4][2]);
    assert(names[0][2] != names[8][2]);
    assert(names[1][2] != names[5][2]);
    assert(names[1][2] != names[9][2]);
    assert(names[1][2] != names[11][2]);
    assert(names[1][2] != names[13][2]);
    assert(names[1][2] != names[15][2]);
    assert(names[4][2] != names[8][2]);
    assert(names[5][2] != names[9][2]);
    assert(names[5][2] != names[11][2]);
    assert(names[5][2] != names[13][2]);
    assert(names[5][2] != names[15][2]);
    assert(names[6][2] != names[10][2]);
    assert(names[9][2] != names[11][2]);
    assert(names[9][2] != names[13][2]);
    assert(names[9][2] != names[15][2]);
    assert(names[11][2] != names[13][2]);
    assert(names[11][2] != names[15][2]);
    assert(names[13][3] != names[15][3]);
    lemma_each_hit_placed(names, hits, 16);
    assert(names[0] == "dwCSGOInput"@ && hits[0] == captured(image, "488905${'} 0f57c0 0f1105"@));
    assert(names[1] == "dwEntityList"@ && hits[1] == captured(image, "48890d${'} e9${} cc"@));
    assert(names[2] == "dwGameEntitySystem"@ && hits[2] == captured(image, "488b1d${'} 48891d[4] 4c63b3"@));
    assert(names[3] == "dwGameEntitySystem_highestEntityIndex"@ && hits[3] == captured(image, "ff81u4 4885d2"@));
    assert(names[4] == "dwGameRules"@ && hits[4] == captured(image, "f6c1010f85${} 4c8b05${'} 4d85"@));
    assert(names[5] == "dwGlobalVars"@ && hits[5] == captured(image, "488915${'} 488942"@));
    assert(names[6] == "dwGlowManager"@ && hits[6] == captured(image, "488b05${'} c3 cccccccccccccccc 8b41"@));
    assert(names[7] == "dwLocalPlayerController"@ && hits[7] == captured(image, "488b05${'} 4189be"@));
    assert(names[8] == "dwPlantedC4"@ && hits[8] == captured(image, "488b1d${'} 4532f6"@));
    assert(names[9] == "dwPrediction"@ && hits[9] == captured(image, "488d05${'} c3 cccccccccccccccc 405356 4154"@));
    assert(names[10] == "dwSensitivity"@ && hits[10] == captured(image, "488d0d${[8]'} 660f6ecd"@));
    assert(names[11] == "dwViewMatrix"@ && hits[11] == captured(image, "488d0d${'} 48c1e006"@));
    assert(names[12] == "dwWeaponC4"@ && hits[12] == captured(image, "488b15${'} 488b5c24? ffc0 8905${} 488bc6 488934ea 80be"@));
    assert(names[13] == "dwCreateMove"@ && hits[13] == captured(image, "'488bc44c89401848894808555341544155"@));
    assert(names[14] == "dwParticleManager"@ && hits[14] == captured(image, "488b0d${'} 41b8${} f30f117424? 48c74424? ${}"@));
    assert(names[15] == "dwClientMode"@ && hits[15] == captured(image, "488d0d${'} 4869c0${} 4803c1 c3 cccc"@));
}

/// Each of the engine's names has the place that its pattern captures.
pub proof fn lemma_engine_patterns(image: Seq<u8>)
    ensures
        is_placed(module_map(image, engine_texts()), "dwBuildNumber"@, captured(image, "8905${'} 488d0d${} ff15${} 488b0d"@)),
        is_placed(module_map(image, engine_texts()), "dwNetworkGameClient"@, captured(image, "48893d${'} ff87"@)),
        is_placed(module_map(image, engine_texts()), "dwNetworkGameClient_clientTickCount"@, captured(image, "8b81u4 c3 cccccccccccccccccc 8b81${} c3 cccccccccccccccccc 83b9"@)),
        is_placed(module_map(image, engine_texts()), "dwNetworkGameClient_deltaTick"@, captured(image, "4c8db7u4 4c897c24"@)),
        is_placed(module_map(image, engine_texts()), "dwNetworkGameClient_isBackgroundMap"@, captured(image, "0fb681u4 c3 cccccccccccccccc 0fb681${} c3 cccccccccccccccc 4883ec"@)),
        is_placed(module_map(image, engine_texts()), "dwNetworkGameClient_localPlayer"@, captured(image, "428b94d3u4 5b 49ffe3 32c0 5b c3 cccccccccccccccc 4053"@)),
        is_placed(module_map(image, engine_texts()), "dwNetworkGameClient_maxClients"@, captured(image, "8b81u4 c3????????? 8b81[4] c3????????? 8b81"@)),
        is_placed(module_map(image, engine_texts()), "dwNetworkGameClient_serverTickCount"@, captured(image, "8b81u4 c3 cccccccccccccccccc 83b9"@)),
        is_placed(module_map(image, engine_texts()), "dwNetworkGameClient_signOnState"@, captured(image, "448b81u4 488d0d"@)),
        is_placed(module_map(image, engine_texts()), "dwWindowHeight"@, captured(image, "8b05${'} 8903"@)),
        is_placed(module_map(image, engine_texts()), "dwWindowWidth"@, captured(image, "8b05${'} 8907"@)),
        is_placed(module_map(image, engine_texts()), "dwPVSManager"@, captured(image, "488d0d${'} 33d2 ff50"@)),
{
    let names = pattern_names(engine_texts());
    let hits = pattern_hits(image, engine_texts());
    reveal_strlit("dwBuildNumber");
    reveal_strlit("dwNetworkGameClient");
    reveal_strlit("dwNetworkGameClient_clientTickCount");
    reveal_strlit("dwNetworkGameClient_deltaTick");
    reveal_strlit("dwNetworkGameClient_isBackgroundMap");
    reveal_strlit("dwNetworkGameClient_localPlayer");
    reveal_strlit("dwNetworkGameClient_maxClients");
    reveal_strlit("dwNetworkGameClient_serverTickCount");
    reveal_strlit("dwNetworkGameClient_signOnState");
    reveal_strlit("dwWindowHeight");
    reveal_strlit("dwWindowWidth");
    reveal_strlit("dwPVSManager");
    assert(names[0].len() == 13);
    assert(names[1].len() == 19);
    assert(names[2].len() == 35);
    assert(names[3].len() == 29);
    assert(names[4].len() == 35);
    assert(names[5].len() == 31);
    assert(names[6].len() == 30);
    assert(names[7].len() == 35);
    assert(names[8].len() == 31);
    assert(names[9].len() == 14);
    assert(names[10].len() == 13);
    assert(names[11].len() == 12);
    assert(names[0][2] != names[10][2]);
    assert(names[2][20] != names[4][20]);
    assert(names[2][20] != names[7][20]);
    assert(names[4][20] != names[7][20]);
    assert(names[5][20] != names[8][20]);
    lemma_each_hit_placed(names, hits, 12);
    assert(names[0] == "dwBuildNumber"@ && hits[0] == captured(image, "8905${'} 488d0d${} ff15${} 488b0d"@));
    assert(names[1] == "dwNetworkGameClient"@ && hits[1] == captured(image, "48893d${'} ff87"@));
    assert(names[2] == "dwNetworkGameClient_clientTickCount"@ && hits[2] == captured(image, "8b81u4 c3 cccccccccccccccccc 8b81${} c3 cccccccccccccccccc 83b9"@));
    assert(names[3] == "dwNetworkGameClient_deltaTick"@ && hits[3] == captured(image, "4c8db7u4 4c897c24"@));
    assert(names[4] == "dwNetworkGameClient_isBackgroundMap"@ && hits[4] == captured(image, "0fb681u4 c3 cccccccccccccccc 0fb681${} c3 cccccccccccccccc 4883ec"@));
    assert(names[5] == "dwNetworkGameClient_localPlayer"@ && hits[5] == captured(image, "428b94d3u4 5b 49ffe3 32c0 5b c3 cccccccccccccccc 4053"@));
    assert(names[6] == "dwNetworkGameClient_maxClients"@ && hits[6] == captured(image, "8b81u4 c3????????? 8b81[4] c3????????? 8b81"@));
    assert(names[7] == "dwNetworkGameClient_serverTickCount"@ && hits[7] == captured(image, "8b81u4 c3 cccccccccccccccccc 83b9"@));
    assert(names[8] == "dwNetworkGameClient_signOnState"@ && hits[8] == captured(image, "448b81u4 488d0d"@));
    assert(names[9] == "dwWindowHeight"@ && hits[9] == captured(image, "8b05${'} 8903"@));
    assert(names[10] == "dwWindowWidth"@ && hits[10] == captured(image, "8b05${'} 8907"@));
    assert(names[11] == "dwPVSManager"@ && hits[11] == captured(image, "488d0d${'} 33d2 ff50"@));
}

/// Each of the input system's names has the place that its pattern captures.
pub proof fn lemma_input_patterns(image: Seq<u8>)
    ensures
        is_placed(module_map(image, input_texts()), "dwInputSystem"@, captured(image, "488905${'} 33c0"@)),
{
    let names = pattern_names(input_texts());
    let hits = pattern_hits(image, input_texts());
    reveal_strlit("dwInputSystem");
    lemma_each_hit_placed(names, hits, 1);
    assert(names[0] == "dwInputSystem"@ && hits[0] == captured(image, "488905${'} 33c0"@));
}

/// Each of the matchmaking's names has the place that its pattern captures.
pub proof fn lemma_matchmaking_patterns(image: Seq<u8>)
    ensures
        is_placed(module_map(image, matchmaking_texts()), "dwGameTypes"@, captured(image, "488d0d${'} ff90"@)),
{
    let names = pattern_names(matchmaking_texts());
    let hits = pattern_hits(image, matchmaking_texts());
    reveal_strlit("dwGameTypes");
    lemma_each_hit_placed(names, hits, 1);
    assert(names[0] == "dwGameTypes"@ && hits[0] == captured(image, "488d0d${'} ff90"@));
}

/// Each of the sound system's names has the place that its pattern captures.
pub proof fn lemma_sound_patterns(image: Seq<u8>)
    ensures
        is_placed(module_map(image, sound_texts()), "dwSoundSystem"@, captured(image, "488d0d${'} e8${} 488b0d${} [3] 4c8b82"@)),
        is_placed(module_map(image, sound_texts()), "dwSoundSystem_engineViewData"@, captured(image, "0f1147u1 0f104e? 0f118f"@)),
{
    let names = pattern_names(sound_texts());
    let hits = pattern_hits(image, sound_texts());
    reveal_strlit("dwSoundSystem");
    reveal_strlit("dwSoundSystem_engineViewData");
    assert(names[0].len() == 13);
    assert(names[1].len() == 28);
    lemma_each_hit_placed(names, hits, 2);
    assert(names[0] == "dwSoundSystem"@ && hits[0] == captured(image, "488d0d${'} e8${} 488b0d${} [3] 4c8b82"@));
    assert(names[1] == "dwSoundSystem_engineViewData"@ && hits[1] == captured(image, "0f1147u1 0f104e? 0f118f"@));
}

/// Each of the tier0's names has the place that its pattern captures.
pub proof fn lemma_tier0_patterns(image: Seq<u8>)
    ensures
        is_placed(module_map(image, tier0_texts()), "dwCVar"@, captured(image, "488d05${'} c3 cccccccccccccccc e9"@)),
{
    let names = pattern_names(tier0_texts());
    let hits = pattern_hits(image, tier0_texts());
    reveal_strlit("dwCVar");
    lemma_each_hit_placed(names, hits, 1);
    assert(names[0] == "dwCVar"@ && hits[0] == captured(image, "488d05${'} c3 cccccccccccccccc e9"@));
}

proof fn lemma_anchor_names()
    ensures
        "dwCSGOInput"@.len() == 11,
        "dwPrediction"@.len() == 12,
        "dwViewAngles"@.len() == 12,
        "dwViewRender"@.len() == 12,
        "dwVPhys2World"@.len() == 13,
        "dwLocalPlayerPawn"@.len() == 17,
        "dwSensitivity_sensitivity"@.len() == 25,
        "dwPrediction"@ != "dwViewAngles"@,
        "dwPrediction"@ != "dwViewRender"@,
{
    reveal_strlit("dwCSGOInput");
    reveal_strlit("dwPrediction");
    reveal_strlit("dwViewAngles");
    reveal_strlit("dwViewRender");
    reveal_strlit("dwVPhys2World");
    reveal_strlit("dwLocalPlayerPawn");
    reveal_strlit("dwSensitivity_sensitivity");
    assert("dwPrediction"@[2] != "dwViewAngles"@[2]);
    assert("dwPrediction"@[2] != "dwViewRender"@[2]);
}

/// The client's offsets that hang on others, as its code gives them: the view
/// angles behind the input, the local pawn behind the prediction, and the view
/// renderer at the first store.
pub proof fn lemma_client_scanned(image: Seq<u8>, at: u32, by: u32)
    requires
        at + by <= u32::MAX,
    ensures
        captured(image, "488905${'} 0f57c0 0f1105"@) == Some(at) && captured(
            image,
            "f2420f108428u4"@,
        ) == Some(by) ==> is_placed(client_map(image), "dwViewAngles"@, Some((at + by) as u32)),
        captured(image, "488d05${'} c3 cccccccccccccccc 405356 4154"@) == Some(at) && captured(
            image,
            "4c39b6u4 74? 4488be"@,
        ) == Some(by) ==> is_placed(client_map(image), "dwLocalPlayerPawn"@, Some((at + by) as u32)),
        all_captured(image, "488905${'} 488bc8 4885c0"@).len() > 0 ==> is_placed(
            client_map(image),
            "dwViewRender"@,
            Some(all_captured(image, "488905${'} 488bc8 4885c0"@)[0]),
        ),
{
    let map = module_map(image, client_texts());
    let angles = captured(image, "f2420f108428u4"@);
    let pawn = captured(image, "4c39b6u4 74? 4488be"@);
    let stores = all_captured(image, "488905${'} 488bc8 4885c0"@);
    lemma_client_patterns(image);
    lemma_client_extras(map, angles, pawn, stores);
    let out = client_map(image);
    assert(out == with_extras(map, angles, pawn, stores));
    lemma_anchor_names();
    assert(out.contains_key("dwCSGOInput"@) == map.contains_key("dwCSGOInput"@));
    assert(out.contains_key("dwPrediction"@) == map.contains_key("dwPrediction"@));
}

} // verus!
