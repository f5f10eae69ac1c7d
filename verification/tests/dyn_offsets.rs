use std::collections::BTreeMap;

use cs2_dumper::analysis::dyn_offsets::{recover_in, Recovered};
use cs2_dumper::analysis::entity_list::{EntityListLayout, HANDLE_INDEX_MASK, SLOT_INDEX_MASK};
use cs2_dumper::analysis::schemas::{Class, ClassField, SchemaMap};
use cs2_dumper::analysis::view_matrix::find_in_image;
use cs2_dumper::memory::fake::FakeMemory;

/// Builds a list incrementally so a test can place identities at arbitrary
/// entity indices, including indices that land in a later chunk.
struct ListBuilder {
    layout: EntityListLayout,
    list: u64,
    chunks: BTreeMap<u32, u64>,
}

impl ListBuilder {
    fn new(mem: &mut FakeMemory) -> Self {
        Self {
            layout: EntityListLayout::default(),
            list: mem.allocate(0x400),
            chunks: BTreeMap::new(),
        }
    }

    /// Reserve chunk `chunk_index`, publishing its pointer in the chunk
    /// array the way the game does.
    fn chunk(&mut self, mem: &mut FakeMemory, chunk_index: u32) -> u64 {
        if let Some(chunk) = self.chunks.get(&chunk_index) {
            return *chunk;
        }
        let slots = SLOT_INDEX_MASK as usize + 1;
        let chunk = mem.allocate(self.layout.chunk_entry_stride as usize * slots);
        mem.put_ptr(
            self.list
                + self.layout.chunk_array_base
                + self.layout.chunk_ptr_stride * chunk_index as u64,
            chunk,
        );
        self.chunks.insert(chunk_index, chunk);
        chunk
    }

    /// VA of the `CEntityIdentity` slot entity `index` lives in.
    fn identity(&mut self, mem: &mut FakeMemory, index: u32) -> u64 {
        let i = index & HANDLE_INDEX_MASK;
        let chunk = self.chunk(mem, i >> 9);
        chunk + self.layout.chunk_entry_stride * (i & SLOT_INDEX_MASK) as u64
    }

    /// Place a live identity at `index` and return its instance VA, which is
    /// where a walker decodes schema fields from.
    fn place(&mut self, mem: &mut FakeMemory, index: u32, classname: &str) -> u64 {
        let ident = self.identity(mem, index);
        let instance = mem.allocate(0x600);
        let name = mem.alloc_cstr(classname);
        mem.put_ptr(ident + self.layout.identity_instance, instance);
        mem.put_ptr(ident + self.layout.identity_designer_name, name);
        instance
    }

    /// VA of the list object itself, which is what a global points at.
    fn list(&self) -> u64 {
        self.list
    }

    /// Publish the list through a global pointer, the way a walk finds it.
    fn global(&self, mem: &mut FakeMemory) -> u64 {
        let global = mem.allocate(0x8);
        mem.put_ptr(global, self.list());
        global
    }
}

fn schema_map(classes: Vec<Class>) -> SchemaMap {
    let mut map = SchemaMap::new();
    map.insert("client.dll".to_string(), (classes, Vec::new()));
    map
}

const SQUARE_TOLERANCE: f32 = 0.02;
const UNIT: (f32, f32) = (0.98, 1.02);

fn is_row_major_projection(m: &[f32; 16]) -> bool {
    let row = |index: usize| [m[index * 4], m[index * 4 + 1], m[index * 4 + 2]];
    let (screen_x, screen_y, depth, w) = (row(0), row(1), row(2), row(3));
    if !(UNIT.0..=UNIT.1).contains(&length(w)) {
        return false;
    }
    if !scaled_axis(screen_x, w) || !scaled_axis(screen_y, w) {
        return false;
    }
    let depth_length = length(depth);
    depth_length > 1.0e-6
        && depth_length < 1.0e4
        && length(cross(depth, w)) <= SQUARE_TOLERANCE * depth_length
}
fn scaled_axis(row: [f32; 3], forward: [f32; 3]) -> bool {
    let length = length(row);
    (0.1..=1.0e4).contains(&length) && dot(row, forward).abs() <= SQUARE_TOLERANCE * length
}

fn dot(a: [f32; 3], b: [f32; 3]) -> f32 {
    a[0] * b[0] + a[1] * b[1] + a[2] * b[2]
}

fn cross(a: [f32; 3], b: [f32; 3]) -> [f32; 3] {
    [
        a[1] * b[2] - a[2] * b[1],
        a[2] * b[0] - a[0] * b[2],
        a[0] * b[1] - a[1] * b[0],
    ]
}

fn length(v: [f32; 3]) -> f32 {
    dot(v, v).sqrt()
}

/// Whether the sixteen numbers with these bits are a projection, row by row.
fn fits(bits: Vec<u32>) -> bool {
    let mut matrix = [0f32; 16];
    for (slot, value) in matrix.iter_mut().zip(bits) {
        *slot = f32::from_bits(value);
    }
    is_row_major_projection(&matrix)
}

fn recover(mem: &FakeMemory, schemas: &SchemaMap, global: Option<u64>, image: &[u8]) -> Vec<Recovered> {
    let view_matrix = find_in_image(image, CLIENT_BASE, &ranges(), fits);
    recover_in(mem.memory(), schemas, global, image, CLIENT_BASE, &ranges(), view_matrix)
}

/// A synthetic `client.dll`: `DATA_RVA` stands in for the writable section
/// the globals live in.
const CLIENT_BASE: u64 = 0x0000_7FF7_1000_0000;
const DATA_RVA: u64 = 0x1000;
const DATA_SIZE: u64 = 0x2000;

const OFF_GAME_RULES: i32 = 0x0058;

fn image() -> Vec<u8> {
    vec![0u8; (DATA_RVA + DATA_SIZE) as usize]
}

/// Publish `object` through the global at `rva` in the writable section.
fn publish(image: &mut [u8], rva: u64, object: u64) {
    image[(DATA_RVA + rva) as usize..][..8].copy_from_slice(&object.to_le_bytes());
}

fn ranges() -> Vec<(u64, u64)> {
    vec![(DATA_RVA, DATA_SIZE)]
}

/// A schema map holding only the field the recovery reads.
fn schemas() -> SchemaMap {
    schema_map(vec![Class {
                name: "C_CSGameRulesProxy".to_string(),
                module_name: "client.dll".to_string(),
                parent_name: None,
                size: 0x1000,
                alignment: 8,
                metadata: Vec::new(),
                fields: vec![ClassField {
                    name: "m_pGameRules".to_string(),
                    field_type: "CCSGameRules*".to_string(),
                    offset: OFF_GAME_RULES,
                    metadata: Vec::new(),
                }],
                static_fields: Vec::new(),
                flags: Vec::new(),
            }])
}

fn recovered(image: &[u8], mem: &FakeMemory, global: u64) -> Vec<Recovered> {
    recover(mem, &schemas(), Some(global), image)
}

fn rva_of(found: &[Recovered], symbol: &str) -> Option<u32> {
    found
        .iter()
        .find(|item| item.symbol == symbol)
        .map(|item| item.rva)
}

/// The whole point: `dwGameRules` is derived from the live world — the entity
/// list names the proxy, the schema locates the rules pointer inside it, and
/// the global is the slot in `client.dll` that holds the same address.
#[test]
fn game_rules_is_recovered_from_the_proxy_entity_and_the_schema() {
    let mut mem = FakeMemory::new();
    let mut list = ListBuilder::new(&mut mem);
    let proxy = list.place(&mut mem, 40, "cs_gamerules");
    let rules = mem.allocate(0x400);
    mem.put_ptr(proxy + OFF_GAME_RULES as u64, rules);
    let global = list.global(&mut mem);

    let mut image = image();
    publish(&mut image, 0x120, rules);

    let found = recovered(&image, &mem, global);
    assert_eq!(found.len(), 1);
    assert_eq!(found[0].module, "client.dll");
    assert_eq!(
        rva_of(&found, "dwGameRules"),
        Some((DATA_RVA + 0x120) as u32)
    );
}

/// A match holds ten controllers and the list cannot say which is yours. The
/// one the client keeps a pointer to is the local player's, and the entities
/// it does not point at must not be reported.
#[test]
fn the_published_player_is_the_local_one() {
    let mut mem = FakeMemory::new();
    let mut list = ListBuilder::new(&mut mem);
    let others: Vec<u64> = (1..10)
        .map(|index| list.place(&mut mem, index, "cs_player_controller"))
        .collect();
    let local = list.place(&mut mem, 10, "cs_player_controller");
    let pawn = list.place(&mut mem, 300, "player");
    let global = list.global(&mut mem);

    let mut image = image();
    publish(&mut image, 0x300, local);
    publish(&mut image, 0x808, pawn);

    let found = recovered(&image, &mem, global);
    assert_eq!(
        rva_of(&found, "dwLocalPlayerController"),
        Some((DATA_RVA + 0x300) as u32)
    );
    assert_eq!(
        rva_of(&found, "dwLocalPlayerPawn"),
        Some((DATA_RVA + 0x808) as u32)
    );
    // Nothing about the other nine was published, so nothing was claimed.
    assert!(others.iter().all(|other| *other != local));
}

/// Publication is the only discriminator, so it has to be unambiguous: two
/// published controllers, or one published twice, leave the symbol missing
/// rather than name a slot a consumer cannot rely on.
#[test]
fn an_ambiguously_published_player_is_declined() {
    let mut mem = FakeMemory::new();
    let mut list = ListBuilder::new(&mut mem);
    let first = list.place(&mut mem, 1, "cs_player_controller");
    let second = list.place(&mut mem, 2, "cs_player_controller");
    let global = list.global(&mut mem);

    let mut two_players = image();
    publish(&mut two_players, 0x300, first);
    publish(&mut two_players, 0x400, second);
    assert_eq!(
        rva_of(
            &recovered(&two_players, &mem, global),
            "dwLocalPlayerController"
        ),
        None
    );

    let mut two_slots = image();
    publish(&mut two_slots, 0x300, first);
    publish(&mut two_slots, 0x400, first);
    assert_eq!(
        rva_of(
            &recovered(&two_slots, &mem, global),
            "dwLocalPlayerController"
        ),
        None
    );
}

/// Nothing is invented when the world does not supply it: an entity list
/// without a game-rules proxy, and a proxy whose rules pointer is null,
/// both yield no symbol.
#[test]
fn a_world_without_the_object_yields_no_symbol() {
    let mut mem = FakeMemory::new();
    let mut list = ListBuilder::new(&mut mem);
    let proxy = list.place(&mut mem, 40, "cs_gamerules");
    let global = list.global(&mut mem);
    let image = image();

    assert!(recovered(&image, &mem, global).is_empty());

    // A rules object that exists but no global holding it: reachable through
    // the entity list, not addressable as an offset symbol.
    let rules = mem.allocate(0x400);
    mem.put_ptr(proxy + OFF_GAME_RULES as u64, rules);
    assert!(recovered(&image, &mem, global).is_empty());
}

/// A null entity-system global means there is no world to read, which is a
/// different thing from a world with nothing in it — neither may produce a
/// symbol.
#[test]
fn no_entity_list_means_no_recovery() {
    let mut mem = FakeMemory::new();
    let null_global = mem.allocate(0x8);
    let image = image();

    assert!(recovered(&image, &mut mem, null_global).is_empty());
    assert!(recover(&mem, &schemas(), None, &image).is_empty());
}

/// A minimal projection the scan's geometry accepts: `w` is a unit axis,
/// both screen rows are perpendicular scalings of it, depth is parallel.
fn projection() -> [f32; 16] {
    [
        0.0, 2.0, 0.0, 0.0, //
        0.0, 0.0, 3.0, 0.0, //
        5.0, 0.0, 0.0, -4.0, //
        1.0, 0.0, 0.0, 0.0,
    ]
}

/// The view matrix needs neither an entity system nor a live world — only
/// its own numbers in the image — so it is recovered even when nothing else
/// is.
#[test]
fn the_view_matrix_is_recovered_without_an_entity_system() {
    let mem = FakeMemory::new();
    let mut image = image();
    for (index, value) in projection().iter().enumerate() {
        image[(DATA_RVA + 0x400 + index as u64 * 4) as usize..][..4]
            .copy_from_slice(&value.to_le_bytes());
    }

    let found = recover(&mem, &schemas(), None, &image);
    assert_eq!(found.len(), 1);
    assert_eq!(
        rva_of(&found, "dwViewMatrix"),
        Some((DATA_RVA + 0x400) as u32)
    );
}

#[test]
fn rules_that_are_published_twice_are_declined() {
    let mut mem = FakeMemory::new();
    let mut list = ListBuilder::new(&mut mem);
    let proxy = list.place(&mut mem, 40, "cs_gamerules");
    let rules = mem.allocate(0x400);
    mem.put_ptr(proxy + OFF_GAME_RULES as u64, rules);
    let global = list.global(&mut mem);
    let mut image = image();
    publish(&mut image, 0x120, rules);
    publish(&mut image, 0x200, rules);
    // The object is published twice, so no slot can be named.
    assert!(recovered(&image, &mem, global).is_empty());
}
