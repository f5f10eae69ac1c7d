use cs2_dumper::memory::syscall::{
    check_window, extract_ssn, is_readable_protection, is_syscall_connector, ssn_from_ntdll_window,
    stub_bytes, stub_window, RegionInfo, WindowError, MEM_COMMIT,
};

#[test]
fn recognises_syscall_connector_name() {
    assert!(is_syscall_connector(Some("syscall")));
    assert!(is_syscall_connector(Some("SYSCALL")));
    assert!(!is_syscall_connector(Some("pcileech")));
    assert!(!is_syscall_connector(None));
}

#[test]
fn extracts_classic_ntdll_stub_ssn() {
    let stub = [
        0x4C, 0x8B, 0xD1, 0xB8, 0x3F, 0x00, 0x00, 0x00, 0x0F, 0x05, 0xC3,
    ];
    assert_eq!(extract_ssn(&stub), Some(0x3F));
}

#[test]
fn extracts_five_byte_fallback_stub() {
    assert_eq!(extract_ssn(&[0xB8, 0x3F, 0x00, 0x00, 0x00]), Some(0x3F));
}

#[test]
fn hooked_export_recovers_ssn_from_next_stub() {
    let stride = 32usize;
    let mut window = vec![0xE9u8; stride * 3];
    let neighbor = [
        0x4C, 0x8B, 0xD1, 0xB8, 0x40, 0x00, 0x00, 0x00, 0x0F, 0x05, 0xC3,
    ];
    window[stride * 2..stride * 2 + neighbor.len()].copy_from_slice(&neighbor);
    assert_eq!(ssn_from_ntdll_window(&window, 1, stride), Some(0x3F));
}

#[test]
fn malformed_window_indices_are_rejected_without_panicking() {
    assert_eq!(ssn_from_ntdll_window(&[], usize::MAX, usize::MAX), None);
    assert_eq!(ssn_from_ntdll_window(&[0; 8], isize::MAX as usize, 8), None);
}

/// A buffer too short to hold `mov eax, imm32` declines.
#[test]
fn buffers_too_short_for_a_stub_decline_instead_of_panicking() {
    assert_eq!(extract_ssn(&[]), None);
    assert_eq!(extract_ssn(&[0xB8]), None);
    assert_eq!(extract_ssn(&[0xB8, 0x3F, 0x00, 0x00]), None);
    // Five bytes is the shortest buffer that can carry one.
    assert_eq!(extract_ssn(&[0xB8, 0x3F, 0x00, 0x00, 0x00]), Some(0x3F));
}

#[test]
fn the_nearest_clean_stub_decides_and_its_distance_is_taken_off() {
    let stride = 16usize;
    let mut window = vec![0u8; stride * 5];
    let far = [0x4C, 0x8B, 0xD1, 0xB8, 0x10, 0x00, 0x00, 0x00];
    let near = [0x4C, 0x8B, 0xD1, 0xB8, 0x51, 0x00, 0x00, 0x00];
    window[..8].copy_from_slice(&far);
    window[stride..stride + 8].copy_from_slice(&near);
    // The stub before the wanted one has a number that is one lower.
    assert_eq!(ssn_from_ntdll_window(&window, 2, stride), Some(0x52));
    // A clean stub at the center itself needs no neighbour.
    assert_eq!(ssn_from_ntdll_window(&window, 1, stride), Some(0x51));
}

#[test]
fn guarded_and_inaccessible_pages_are_not_readable() {
    assert!(is_readable_protection(0x02));
    assert!(is_readable_protection(0x04));
    assert!(is_readable_protection(0x20));
    assert!(is_readable_protection(0x40));
    assert!(!is_readable_protection(0x01));
    assert!(!is_readable_protection(0x00));
    assert!(!is_readable_protection(0x104));
}

#[test]
fn the_window_has_sixteen_stubs_on_either_side() {
    assert_eq!(stub_window(0x1_0000), Ok((0x1_0000 - 0x200, 0x1_0000 + 0x220)));
    assert_eq!(stub_window(0x1FF), Err(WindowError::TooLow));
    assert_eq!(stub_window(u64::MAX - 0x10), Err(WindowError::Overflow));
}

#[test]
fn the_window_must_lie_in_a_readable_region_of_the_library() {
    let region = RegionInfo {
        base: 0x1000,
        size: 0x1000,
        allocation: 0x7000,
        state: MEM_COMMIT,
        protect: 0x20,
    };
    assert_eq!(check_window(0x1000, 0x2000, 0x7000, &region), Ok(()));
    assert_eq!(check_window(0xFFF, 0x2000, 0x7000, &region), Err(WindowError::Outside));
    assert_eq!(check_window(0x1000, 0x2001, 0x7000, &region), Err(WindowError::Outside));
    assert_eq!(check_window(0x1000, 0x2000, 0x8000, &region), Err(WindowError::Outside));
    let guarded = RegionInfo { protect: 0x120, ..region };
    assert_eq!(check_window(0x1000, 0x2000, 0x7000, &guarded), Err(WindowError::Outside));
    let endless = RegionInfo { size: u64::MAX, ..region };
    assert_eq!(check_window(0x1000, 0x2000, 0x7000, &endless), Err(WindowError::RegionOverflow));
}

#[test]
fn the_number_is_read_back_from_the_stub_that_holds_it() {
    assert_eq!(
        stub_bytes(0x3F),
        [0x4C, 0x8B, 0xD1, 0xB8, 0x3F, 0x00, 0x00, 0x00, 0x0F, 0x05, 0xC3]
    );
    assert_eq!(stub_bytes(0x1234_5678)[4..8], [0x78, 0x56, 0x34, 0x12]);
    for number in [0u32, 0x3F, 0x0F05, 0xB8B8_B8B8, u32::MAX] {
        assert_eq!(extract_ssn(&stub_bytes(number)), Some(number));
    }
}
