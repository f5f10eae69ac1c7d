use cs2_dumper::analysis::module_data::{
    accept_image, ascii_lower_cow, cached_module_list, choose_pe_image, map_file_pe_to_image,
    module_list, ranges_of, read_image,
    read_pe_image, writable_ranges, ImageError, ImageSession, ModuleRecord, PeError, PeImage,
    PeImageError,
};
use cs2_dumper::memory::snapshot::ModuleInfo;
use pelite::image::{
    IMAGE_SCN_CNT_INITIALIZED_DATA, IMAGE_SCN_MEM_EXECUTE, IMAGE_SCN_MEM_READ, IMAGE_SCN_MEM_WRITE,
};

/// Only sections that can hold mutable globals are scanned.
#[test]
fn only_writable_non_executable_sections_are_scanned() {
    let text = IMAGE_SCN_MEM_EXECUTE | IMAGE_SCN_MEM_READ;
    let rdata = IMAGE_SCN_CNT_INITIALIZED_DATA | IMAGE_SCN_MEM_READ;
    let data = IMAGE_SCN_CNT_INITIALIZED_DATA | IMAGE_SCN_MEM_READ | IMAGE_SCN_MEM_WRITE;
    // Some linkers emit writable code sections; those are not data.
    let wx = IMAGE_SCN_MEM_EXECUTE | IMAGE_SCN_MEM_READ | IMAGE_SCN_MEM_WRITE;

    let ranges = ranges_of(&vec![
        (text, 0x1000, 0x8000),
        (rdata, 0x9000, 0x2000),
        (data, 0xB000, 0x3000),
        (wx, 0xE000, 0x1000),
        // An empty writable section has nothing to find in it.
        (data, 0xF000, 0),
        (data, 0x10000, 0x400),
    ]);

    assert_eq!(ranges, vec![(0xB000, 0x3000), (0x10000, 0x400)]);
}

fn put_u16(buf: &mut [u8], off: usize, value: u16) {
    buf[off..off + 2].copy_from_slice(&value.to_le_bytes());
}

fn put_u32(buf: &mut [u8], off: usize, value: u32) {
    buf[off..off + 4].copy_from_slice(&value.to_le_bytes());
}

fn put_u64(buf: &mut [u8], off: usize, value: u64) {
    buf[off..off + 8].copy_from_slice(&value.to_le_bytes());
}

fn minimal_pe64_with_text(payload: &[u8]) -> Vec<u8> {
    const E_LFANEW: usize = 0x80;
    const OPT_SIZE: usize = 0xF0;
    const FILE_ALIGN: u32 = 0x200;
    const SEC_ALIGN: u32 = 0x1000;
    const TEXT_VA: u32 = 0x1000;
    const TEXT_RAW: u32 = 0x200;
    let raw_size = payload.len() as u32;
    let raw_size = raw_size.div_ceil(FILE_ALIGN) * FILE_ALIGN;
    let mut file = vec![0u8; (TEXT_RAW + raw_size) as usize];
    file[0] = b'M';
    file[1] = b'Z';
    put_u32(&mut file, 0x3C, E_LFANEW as u32);
    let nt = E_LFANEW;
    file[nt..nt + 4].copy_from_slice(b"PE\0\0");
    put_u16(&mut file, nt + 4, 0x8664);
    put_u16(&mut file, nt + 6, 1);
    put_u16(&mut file, nt + 20, OPT_SIZE as u16);
    put_u16(&mut file, nt + 22, 0x0022);
    let opt = nt + 24;
    put_u16(&mut file, opt, 0x20B);
    put_u32(&mut file, opt + 16, TEXT_VA);
    put_u32(&mut file, opt + 20, TEXT_VA);
    put_u64(&mut file, opt + 24, 0x1400_0000);
    put_u32(&mut file, opt + 32, SEC_ALIGN);
    put_u32(&mut file, opt + 36, FILE_ALIGN);
    put_u16(&mut file, opt + 40, 6);
    put_u16(&mut file, opt + 48, 6);
    put_u32(&mut file, opt + 56, TEXT_VA + SEC_ALIGN);
    put_u32(&mut file, opt + 60, TEXT_RAW);
    put_u16(&mut file, opt + 68, 3);
    put_u64(&mut file, opt + 72, 0x100000);
    put_u64(&mut file, opt + 80, 0x1000);
    put_u64(&mut file, opt + 88, 0x100000);
    put_u64(&mut file, opt + 96, 0x1000);
    put_u32(&mut file, opt + 108, 16);
    let sec = opt + OPT_SIZE;
    file[sec..sec + 5].copy_from_slice(b".text");
    put_u32(&mut file, sec + 8, payload.len() as u32);
    put_u32(&mut file, sec + 12, TEXT_VA);
    put_u32(&mut file, sec + 16, raw_size);
    put_u32(&mut file, sec + 20, TEXT_RAW);
    put_u32(&mut file, sec + 36, 0x6000_0020);
    let raw = TEXT_RAW as usize;
    file[raw..raw + payload.len()].copy_from_slice(payload);
    file
}

#[test]
fn map_file_pe_to_image_places_sections_at_virtual_addresses() {
    let payload = [0x90u8, 0x90, 0xC3];
    let file = minimal_pe64_with_text(&payload);
    assert_eq!(&file[0x200..0x203], &payload);
    let mapped = map_file_pe_to_image(&file).expect("map file PE");
    assert_eq!(mapped.len(), 0x2000);
    assert_eq!(&mapped[0x1000..0x1003], &payload);
    assert_ne!(
        &mapped[0x200..0x203],
        &payload,
        "file offset 0x200 must not be treated as the .text RVA"
    );
    assert_eq!(
        mapped[0x1003], 0,
        "bytes past VirtualSize stay zero in the mapped image"
    );
}

#[test]
fn map_file_pe_to_image_rejects_non_pe_bytes() {
    assert_eq!(map_file_pe_to_image(b"MZ not a pe").unwrap_err(), PeError::Invalid);
}

#[test]
fn cached_live_is_none_outside_a_session() {
    assert!(ImageSession::begin().cached_live("client.dll").is_none());
}

#[test]
fn cached_live_round_trips_inside_a_session() {
    let mut session = ImageSession::begin();
    assert!(session.cached_live("client.dll").is_none());
    session.keep_live("client.dll", 0x1800_0000, b"MZ\x00\x00".to_vec());
    let hit = session.cached_live("client.dll").expect("cached");
    assert_eq!(hit.0, 0x1800_0000);
    assert_eq!(hit.1, b"MZ\x00\x00");
}

#[test]
fn intern_loaded_name_is_none_outside_a_session() {
    assert!(ImageSession::begin().intern_loaded_name("client.dll").is_none());
}

#[test]
fn intern_loaded_name_reuses_session_module_arc() {
    let mut session = ImageSession::begin();
    session.publish_modules(vec![ModuleRecord {
        name: "client.dll".into(),
        base: 0x1000,
        size: 0x2000,
    }]);
    assert_eq!(session.intern_loaded_name("client.dll").as_deref(), Some("client.dll"));
    let mixed = session.intern_loaded_name("CLIENT.DLL").expect("case-insensitive intern");
    assert_eq!(mixed, "client.dll");
    assert!(session.intern_loaded_name("engine2.dll").is_none());
}

#[test]
fn image_session_drop_clears_module_list_cache() {
    let mut session = ImageSession::begin();
    session.publish_modules(Vec::new());
    assert!(session.modules.is_some());
    session = ImageSession::begin();
    assert!(session.modules.is_none());
}

#[test]
fn cached_live_lookup_is_case_insensitive() {
    let mut session = ImageSession::begin();
    session.keep_live("client.dll", 0x1800_0000, b"MZ\x00\x00".to_vec());
    let hit = session.cached_live("CLIENT.DLL").expect("cached");
    assert_eq!(hit.0, 0x1800_0000);
    assert_eq!(hit.1, b"MZ\x00\x00");
}

#[test]
fn ascii_lower_cow_borrows_already_lowercase() {
    let name = "client.dll";
    assert_eq!(ascii_lower_cow(name), name);
    assert_eq!(ascii_lower_cow("CLIENT.DLL"), "client.dll");
}

#[test]
fn a_headless_live_image_gives_way_to_the_file() {
    let file = minimal_pe64_with_text(&[0x90, 0x90, 0xC3]);
    let live = map_file_pe_to_image(&file).expect("image");
    match choose_pe_image(Some(live.clone()), live.len() as u64, None).unwrap() {
        PeImage::Live(bytes) => assert_eq!(bytes, live),
        other => panic!("{other:?}"),
    }
    let blank = vec![0u8; 0x2000];
    match choose_pe_image(Some(blank.clone()), 0x2000, Some(file.clone())).unwrap() {
        PeImage::Disk(bytes) => assert_eq!(bytes, live),
        other => panic!("{other:?}"),
    }
    match choose_pe_image(Some(blank.clone()), 0x2000, None).unwrap() {
        PeImage::Headless(bytes) => assert_eq!(bytes, blank),
        other => panic!("{other:?}"),
    }
    assert_eq!(
        choose_pe_image(Some(blank.clone()), 0x3000, None).unwrap_err(),
        PeImageError::Short(0x2000, 0x3000)
    );
    assert_eq!(choose_pe_image(None, 0x3000, None).unwrap_err(), PeImageError::Unreadable);
    assert_eq!(
        choose_pe_image(None, 0x3000, Some(b"MZ".repeat(0x20))).unwrap_err(),
        PeImageError::Disk(PeError::Invalid)
    );
}

#[test]
fn the_sections_of_an_image_give_its_ranges() {
    let mut file = minimal_pe64_with_text(&[0x90, 0x90, 0xC3]);
    let image = map_file_pe_to_image(&file).expect("image");
    assert_eq!(writable_ranges(&image), Some(Vec::new()));
    // The same section as writable data.
    put_u32(&mut file, 0x80 + 24 + 0xF0 + 36, 0xC000_0040);
    let image = map_file_pe_to_image(&file).expect("image");
    assert_eq!(writable_ranges(&image), Some(vec![(0x1000, 3)]));
    assert_eq!(writable_ranges(b"MZ not a pe"), None);
}

#[test]
fn an_image_of_unreasonable_size_is_refused() {
    let mut file = minimal_pe64_with_text(&[0xC3]);
    put_u32(&mut file, 0x80 + 24 + 56, 0xFFFF_F000);
    assert_eq!(
        map_file_pe_to_image(&file).unwrap_err(),
        PeError::UnreasonableSize(0xFFFF_F000)
    );
}

#[test]
fn a_live_image_is_taken_whole_or_not_at_all() {
    assert_eq!(accept_image(Some(vec![1, 2, 3]), 3), Ok(vec![1, 2, 3]));
    assert_eq!(accept_image(Some(vec![1, 2]), 3), Err(ImageError::Short(2, 3)));
    assert_eq!(accept_image(None, 3), Err(ImageError::Unreadable));
}

#[test]
fn an_image_is_read_once_in_a_session() {
    let mut session = ImageSession::begin();
    assert_eq!(
        read_image(&mut session, "Client.dll", 0x1000, 4, Some(vec![1, 2])),
        Err(ImageError::Short(2, 4))
    );
    assert!(session.cached_live("client.dll").is_none());
    assert_eq!(read_image(&mut session, "Client.dll", 0x1000, 2, Some(vec![1, 2])), Ok(()));
    assert_eq!(read_image(&mut session, "client.dll", 0x9000, 2, Some(vec![8, 9])), Ok(()));
    assert_eq!(session.cached_live("CLIENT.DLL"), Some(&(0x1000, vec![1, 2])));
}

#[test]
fn a_pattern_image_is_kept_beside_the_live_one() {
    let file = minimal_pe64_with_text(&[0x90, 0x90, 0xC3]);
    let live = map_file_pe_to_image(&file).expect("image");
    let size = live.len() as u64;
    let mut session = ImageSession::begin();
    let none = read_pe_image(&mut session, "client.dll", 0x1000, size, None, None);
    assert_eq!(none, Err(PeImageError::Unreadable));
    read_pe_image(&mut session, "client.dll", 0x1000, size, None, Some(file)).unwrap();
    assert!(session.cached_live("client.dll").is_none());
    assert_eq!(session.cached_pe("Client.DLL"), Some(&(0x1000, live.clone())));

    let mut session = ImageSession::begin();
    read_pe_image(&mut session, "client.dll", 0x1000, size, Some(live.clone()), None).unwrap();
    assert_eq!(session.cached_live("client.dll"), Some(&(0x1000, live)));
}

#[test]
fn module_names_are_listed_in_lower_case() {
    let modules = vec![ModuleInfo {
        address: 0x1000,
        base: 0x1000,
        size: 0x2000,
        name: "Client.DLL".into(),
        path: String::new(),
        arch: 64,
    }];
    let mut session = ImageSession::begin();
    cached_module_list(&mut session, &modules);
    cached_module_list(&mut session, &Vec::new());
    assert_eq!(session.modules.as_ref().map(|list| list.len()), Some(1));
    let list = module_list(&modules);
    assert_eq!(list.len(), 1);
    assert_eq!(list[0].name, "client.dll");
    assert_eq!((list[0].base, list[0].size), (0x1000, 0x2000));
}

#[test]
fn image_session_drop_clears_the_flag() {
    {
        let mut session = ImageSession::begin();
        session.keep_live("client.dll", 0x1000, vec![1]);
        assert!(session.cached_live("client.dll").is_some());
    }
    assert!(ImageSession::begin().cached_live("client.dll").is_none());
}
