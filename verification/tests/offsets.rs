use cs2_dumper::analysis::module_data::ModuleImage;
use cs2_dumper::analysis::offsets::{
    client_offsets, offsets, offsets_from_hits, second_store_global, unique_extra_hit, OffsetsError,
};

#[test]
fn vphys2_world_is_only_bound_when_the_store_idiom_has_one_extra_hit() {
    assert_eq!(unique_extra_hit(0x1000, &[0x1000]), None);
    assert_eq!(unique_extra_hit(0x1000, &[0x1000, 0x2000]), Some(0x2000));
    assert_eq!(unique_extra_hit(0x1000, &[0x1000, 0x2000, 0x3000]), None);
    assert_eq!(unique_extra_hit(0x1000, &[0x2000, 0x1000]), Some(0x2000));
}

#[test]
fn patterns_without_a_hit_give_no_offset() {
    let list = vec![("dwOne", "48"), ("dwTwo", "49")];
    let map = offsets_from_hits(&list, &vec![Some(0x10), None]);
    assert_eq!(map.len(), 1);
    assert_eq!(map.get("dwOne"), Some(&0x10));
}

#[test]
fn a_missing_module_is_named() {
    match offsets(&Vec::new()) {
        Err(OffsetsError::MissingModule(name)) => assert_eq!(name, "client.dll"),
        other => panic!("{other:?}"),
    }
    let broken = vec![ModuleImage { name: "client.dll".into(), base: 0, bytes: vec![0; 16] }];
    match offsets(&broken) {
        Err(OffsetsError::InvalidImage(name)) => assert_eq!(name, "client.dll"),
        other => panic!("{other:?}"),
    }
}

#[test]
fn an_image_without_headers_gives_nothing() {
    assert!(client_offsets(&[0u8; 64]).is_empty());
    assert_eq!(second_store_global(&[0u8; 64], 0x10), None);
}
