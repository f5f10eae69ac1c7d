use cs2_dumper::analysis::schema_anchor::{
    find_schema_system, plausible_scope_name, read_found_system, SchemaSystemError, MIN_SCOPES,
    REGISTRATION_COUNT, SCOPE_NAME, SPAN, TYPE_SCOPES_COUNT, TYPE_SCOPES_DATA,
};
use cs2_dumper::analysis::schemas::SchemaError;
use cs2_dumper::memory::fake::FakeMemory;

/// Base VA of the synthetic module image.
const BASE: u64 = 0x0000_7FFA_1000_0000;
/// RVA and size of its writable data section.
const DATA_RVA: u64 = 0x1000;
const DATA_SIZE: u64 = 0x2000;

const SCOPES: &[&str] = &["!GlobalTypes", "client.dll", "server.dll"];

/// The image keeps slack past the data section, so a candidate straddling
/// the section boundary is representable and must still be rejected.
fn image() -> Vec<u8> {
    vec![0u8; (DATA_RVA + DATA_SIZE) as usize + SPAN]
}

fn ranges() -> Vec<(u64, u64)> {
    vec![(DATA_RVA, DATA_SIZE)]
}

/// Allocate a live type-scope array whose scopes carry `names`.
fn alloc_scopes(mem: &mut FakeMemory, names: &[&str]) -> u64 {
    let array = mem.alloc_ptrs(names.len().max(1));
    for (index, name) in names.iter().enumerate() {
        let scope = mem.allocate(0x200);
        let name_ptr = scope + SCOPE_NAME;
        mem.put_cstr(name_ptr, name);
        mem.put_ptr(array + 8 * index as u64, scope);
    }
    array
}

/// Lay a `SchemaSystem` into the image at `rva`, pointing at `array`.
fn place(image: &mut [u8], rva: u64, count: i32, array: u64, registrations: i32) {
    let at = rva as usize;
    image[at + TYPE_SCOPES_COUNT..][..4].copy_from_slice(&count.to_le_bytes());
    image[at + TYPE_SCOPES_DATA..][..8].copy_from_slice(&array.to_le_bytes());
    image[at + REGISTRATION_COUNT..][..4].copy_from_slice(&registrations.to_le_bytes());
}

#[test]
fn scope_names_are_short_printable_tokens() {
    assert!(plausible_scope_name("client.dll"));
    assert!(plausible_scope_name("!GlobalTypes"));
    assert!(!plausible_scope_name(""));
    assert!(!plausible_scope_name("client dll"));
    assert!(!plausible_scope_name(&"a".repeat(65)));
}

/// The point of the scan: the schema system is located by describing the
/// object, with no signature over the code that references it.
#[test]
fn finds_the_schema_system_without_a_signature() {
    let mut mem = FakeMemory::new();
    let array = alloc_scopes(&mut mem, SCOPES);
    let mut image = image();
    place(
        &mut image,
        DATA_RVA + 0x400,
        SCOPES.len() as i32,
        array,
        4096,
    );

    assert_eq!(
        find_schema_system(mem.memory(), &image, BASE, &ranges()),
        Some(BASE + DATA_RVA + 0x400)
    );
}

#[test]
fn a_data_section_without_a_schema_system_yields_nothing() {
    let mem = FakeMemory::new();
    assert_eq!(
        find_schema_system(mem.memory(), &image(), BASE, &ranges()),
        None
    );
}

#[test]
fn an_absurd_scope_count_is_rejected_instead_of_walked() {
    let mut mem = FakeMemory::new();
    let array = alloc_scopes(&mut mem, SCOPES);
    let mut image = image();
    place(&mut image, DATA_RVA + 0x400, 0x7FFF_FFFF, array, 4096);

    assert_eq!(find_schema_system(mem.memory(), &image, BASE, &ranges()), None);
}

#[test]
fn a_registration_count_of_zero_is_not_a_live_schema_system() {
    let mut mem = FakeMemory::new();
    let array = alloc_scopes(&mut mem, SCOPES);
    let mut image = image();
    place(&mut image, DATA_RVA + 0x400, SCOPES.len() as i32, array, 0);

    assert_eq!(find_schema_system(mem.memory(), &image, BASE, &ranges()), None);
}

/// A run of repeated pointers has as many "scopes" as the real vector, so
/// only *distinct* names count as evidence.
#[test]
fn a_vector_of_one_repeated_scope_is_not_enough_evidence() {
    let mut mem = FakeMemory::new();
    let scope = mem.allocate(0x200);
    mem.put_cstr(scope + SCOPE_NAME, "client.dll");
    let array = mem.alloc_ptrs(8);
    for index in 0..8u64 {
        mem.put_ptr(array + 8 * index, scope);
    }
    let mut image = image();
    place(&mut image, DATA_RVA + 0x400, 8, array, 4096);

    assert_eq!(find_schema_system(mem.memory(), &image, BASE, &ranges()), None);
}

#[test]
fn scopes_without_names_are_not_evidence() {
    let mut mem = FakeMemory::new();
    // Real pointers, but the scopes hold no readable name.
    let array = mem.alloc_ptrs(4);
    for index in 0..4u64 {
        let scope = mem.allocate(0x200);
        mem.put_ptr(array + 8 * index, scope);
    }
    let mut image = image();
    place(&mut image, DATA_RVA + 0x400, 4, array, 4096);

    assert_eq!(find_schema_system(mem.memory(), &image, BASE, &ranges()), None);
}

/// Two candidates describing *different* schema systems mean the scan does
/// not actually know which one the game uses, so it must decline.
#[test]
fn two_unrelated_candidates_are_declined_rather_than_guessed() {
    let mut mem = FakeMemory::new();
    let first = alloc_scopes(&mut mem, SCOPES);
    let second = alloc_scopes(&mut mem, SCOPES);
    let mut image = image();
    place(
        &mut image,
        DATA_RVA + 0x400,
        SCOPES.len() as i32,
        first,
        4096,
    );
    place(
        &mut image,
        DATA_RVA + 0x1000,
        SCOPES.len() as i32,
        second,
        4096,
    );

    assert_eq!(find_schema_system(mem.memory(), &image, BASE, &ranges()), None);
}

/// Two slots that reach the *same* type-scope vector are two views of one
/// object, not a contradiction, so the scan still resolves it.
#[test]
fn aliases_of_one_schema_system_still_resolve() {
    let mut mem = FakeMemory::new();
    let array = alloc_scopes(&mut mem, SCOPES);
    let mut image = image();
    place(
        &mut image,
        DATA_RVA + 0x400,
        SCOPES.len() as i32,
        array,
        4096,
    );
    place(
        &mut image,
        DATA_RVA + 0x1000,
        SCOPES.len() as i32,
        array,
        4096,
    );

    assert_eq!(
        find_schema_system(mem.memory(), &image, BASE, &ranges()),
        Some(BASE + DATA_RVA + 0x400)
    );
}

/// Stronger evidence wins outright: a candidate naming more scopes is the
/// real object, and it settles an earlier tie rather than inheriting it.
#[test]
fn the_candidate_naming_the_most_scopes_wins() {
    let mut mem = FakeMemory::new();
    let weak_a = alloc_scopes(&mut mem, &SCOPES[..MIN_SCOPES]);
    let weak_b = alloc_scopes(&mut mem, &SCOPES[..MIN_SCOPES]);
    let strong = alloc_scopes(&mut mem, &["a.dll", "b.dll", "c.dll", "d.dll"]);
    let mut image = image();
    place(
        &mut image,
        DATA_RVA + 0x400,
        MIN_SCOPES as i32,
        weak_a,
        4096,
    );
    place(
        &mut image,
        DATA_RVA + 0x800,
        MIN_SCOPES as i32,
        weak_b,
        4096,
    );
    place(&mut image, DATA_RVA + 0xC00, 4, strong, 4096);

    assert_eq!(
        find_schema_system(mem.memory(), &image, BASE, &ranges()),
        Some(BASE + DATA_RVA + 0xC00)
    );
}

/// A section whose tail is shorter than the object must not be completed
/// with whatever follows it in the image.
#[test]
fn a_candidate_that_does_not_fit_the_section_is_not_read() {
    let mut mem = FakeMemory::new();
    let array = alloc_scopes(&mut mem, SCOPES);
    let mut image = image();
    let rva = DATA_RVA + DATA_SIZE - SPAN as u64 + 8;
    place(&mut image, rva, SCOPES.len() as i32, array, 4096);

    assert_eq!(
        find_schema_system(mem.memory(), &image, BASE, &ranges()),
        None,
        "the object extends past the section and must not be trusted"
    );
}

/// Sections are described by the caller; a range past the end of the image
/// is clipped instead of panicking.
#[test]
fn schema_anchor_a_range_beyond_the_image_is_clipped() {
    let mut mem = FakeMemory::new();
    let array = alloc_scopes(&mut mem, SCOPES);
    let mut image = image();
    place(
        &mut image,
        DATA_RVA + 0x400,
        SCOPES.len() as i32,
        array,
        4096,
    );

    let oversized = vec![(DATA_RVA, DATA_SIZE * 16)];
    assert_eq!(
        find_schema_system(mem.memory(), &image, BASE, &oversized),
        Some(BASE + DATA_RVA + 0x400)
    );
}

#[test]
fn a_found_system_is_read_back_from_memory() {
    let mut mem = FakeMemory::new();
    let at = mem.allocate(SPAN);
    mem.put_i32(at + TYPE_SCOPES_COUNT as u64, 3);
    mem.put_ptr(at + TYPE_SCOPES_DATA as u64, 0x1234_5678);
    mem.put_i32(at + REGISTRATION_COUNT as u64, 40);
    let system = read_found_system(mem.memory(), Some(at)).unwrap();
    assert_eq!(system.address, at);
    assert_eq!(system.scope_count, 3);
    assert_eq!(system.registration_count, 40);
    assert_eq!(system.scope_array, 0x1234_5678);

    mem.put_i32(at + TYPE_SCOPES_COUNT as u64, 513);
    assert_eq!(
        read_found_system(mem.memory(), Some(at)),
        Err(SchemaSystemError::Invalid(SchemaError::InvalidScopeCount(513)))
    );
    mem.put_i32(at + REGISTRATION_COUNT as u64, 0);
    assert_eq!(
        read_found_system(mem.memory(), Some(at)),
        Err(SchemaSystemError::Invalid(SchemaError::NoRegistrations))
    );
    assert_eq!(read_found_system(mem.memory(), None), Err(SchemaSystemError::NotFound));
}
