use cs2_dumper::analysis::protobufs::{
    parse_descriptor_proto, parse_descriptor_table, parse_field_descriptor, parse_file_descriptor,
    scan_module, type_name_matches, va_to_rva, MAX_PROTO_NESTING,
};
use cs2_dumper::analysis::wire::{for_each_field, read_varint, varint_of};

fn encode_varint(mut value: usize) -> Vec<u8> {
    let mut out = Vec::new();
    loop {
        let mut byte = (value & 0x7F) as u8;
        value >>= 7;
        if value != 0 {
            byte |= 0x80;
        }
        out.push(byte);
        if value == 0 {
            return out;
        }
    }
}

/// A `DescriptorProto` naming `message` and declaring `fields` in the given
/// order: field 1 = name, field 2 = FieldDescriptorProto (whose field 1 is
/// the name and field 3 the number).
fn descriptor_proto(message: &str, fields: &[(&str, usize)]) -> Vec<u8> {
    let mut out = vec![0x0A];
    out.extend(encode_varint(message.len()));
    out.extend(message.as_bytes());
    for (name, number) in fields {
        let mut field = vec![0x0A];
        field.extend(encode_varint(name.len()));
        field.extend(name.as_bytes());
        field.push(0x18);
        field.extend(encode_varint(*number));
        out.push(0x12);
        out.extend(encode_varint(field.len()));
        out.extend(field);
    }
    out
}

/// `offsets[]` is indexed by declaration position, so the parsed fields stay
/// in the order the `DescriptorProto` listed them.
#[test]
fn parsed_fields_keep_declaration_order_not_field_number_order() {
    let descriptor = descriptor_proto("M", &[("late", 7), ("early", 1)]);
    let mut messages = Vec::new();
    parse_descriptor_proto(&descriptor, "", 0, &mut messages);
    assert_eq!(messages.len(), 1);
    let names: Vec<&str> = messages[0].fields.iter().map(|f| f.name.as_str()).collect();
    assert_eq!(names, vec!["late", "early"]);
    let numbers: Vec<i64> = messages[0].fields.iter().map(|f| f.number).collect();
    assert_eq!(numbers, vec![7, 1]);
}

#[test]
fn truncated_wire_fields_are_rejected_instead_of_truncated() {
    // field 1, length-delimited, claims five bytes but only two remain.
    assert_eq!(for_each_field(&[0x0A, 0x05, b'a', b'b']).len(), 0);

    // fixed-width fields must also be complete before being exposed.
    assert_eq!(for_each_field(&[0x09, 1, 2, 3]).len(), 0);
}

#[test]
fn complete_wire_fields_are_forwarded() {
    let fields: Vec<(u64, u64, Vec<u8>)> =
        for_each_field(&[0x08, 0x96, 0x01, 0x12, 0x02, b'o', b'k'])
            .into_iter()
            .map(|item| (item.number, item.wire, item.payload.to_vec()))
            .collect();
    assert_eq!(fields.len(), 2);
    assert_eq!(fields[0], (1, 0, vec![0x96, 0x01]));
    assert_eq!(fields[1], (2, 2, b"ok".to_vec()));
}

#[test]
fn varint_rejects_overflowing_tenth_byte() {
    let mut malformed = vec![0x80; 9];
    malformed.push(0x02);
    assert_eq!(read_varint(&malformed, 0), None);

    let mut max = vec![0xFF; 9];
    max.push(0x01);
    assert_eq!(read_varint(&max, 0), Some((u64::MAX, 10)));
}

#[test]
fn oversized_oneof_index_is_not_truncated_into_range() {
    let valid = parse_field_descriptor(&[0x48, 0x01]);
    assert_eq!(valid.oneof_index, Some(1));

    // Field 9 with value 2^32.
    let oversized = parse_field_descriptor(&[0x48, 0x80, 0x80, 0x80, 0x80, 0x10]);
    assert_eq!(oversized.oneof_index, None);
}

#[test]
fn descriptor_nesting_is_bounded() {
    let mut descriptor = vec![0x0A, 0x01, b'X'];
    for _ in 0..MAX_PROTO_NESTING + 10 {
        let mut parent = vec![0x0A, 0x01, b'X', 0x1A];
        parent.extend(encode_varint(descriptor.len()));
        parent.extend(descriptor);
        descriptor = parent;
    }

    let mut messages = Vec::new();
    parse_descriptor_proto(&descriptor, "", 0, &mut messages);
    assert_eq!(messages.len(), MAX_PROTO_NESTING + 1);
}

#[test]
fn a_varint_reads_what_was_written() {
    for value in [0usize, 1, 127, 128, 300, 1 << 32, usize::MAX] {
        let bytes = encode_varint(value);
        assert_eq!(read_varint(&bytes, 0), Some((value as u64, bytes.len())));
    }
    assert_eq!(varint_of(&[0xFF, 0xFF, 0xFF, 0xFF, 0xFF, 0xFF, 0xFF, 0xFF, 0xFF, 0x01]), -1);
    assert_eq!(read_varint(&[0x80], 0), None);
    assert_eq!(read_varint(&[1], 1), None);
}

#[test]
fn nested_messages_are_flattened_behind_their_parents() {
    let inner = descriptor_proto("Inner", &[("a", 1)]);
    let mut outer = descriptor_proto("Outer", &[("b", 2)]);
    outer.push(0x1A);
    outer.extend(encode_varint(inner.len()));
    outer.extend(inner);
    let mut file = vec![0x22];
    file.extend(encode_varint(outer.len()));
    file.extend(outer);
    let messages = parse_file_descriptor(&file);
    let names: Vec<&str> = messages.iter().map(|message| message.name.as_str()).collect();
    assert_eq!(names, ["Outer", "Outer_Inner"]);
}

#[test]
fn a_field_type_names_a_flattened_message() {
    assert!(type_name_matches(".Outer.Inner", "Outer_Inner"));
    assert!(type_name_matches("Outer", "Outer"));
    assert!(!type_name_matches(".Outer", "Inner"));
}

#[test]
fn an_address_outside_the_image_has_no_offset() {
    assert_eq!(va_to_rva(0x1010, 0x1000, 0x20), Some(0x10));
    assert_eq!(va_to_rva(0x1020, 0x1000, 0x20), None);
    assert_eq!(va_to_rva(0xFFF, 0x1000, 0x20), None);
}

#[test]
fn an_image_without_tables_has_no_messages() {
    let image = vec![0u8; 0x400];
    assert!(scan_module(&image, 0x1_8000_0000).is_empty());
    assert!(parse_descriptor_table(&image, 0x1_8000_0000, 0).is_none());
    assert!(parse_descriptor_table(&image, 0x1_8000_0000, 0x3F0).is_none());
}

#[test]
fn the_fields_of_a_message_come_back_in_order() {
    let mut message: Vec<u8> = Vec::new();
    // Field 1 as a varint, field 2 with a length, field 3 fixed, field 4 short.
    message.extend(encode_varint(1 << 3));
    message.extend(encode_varint(300));
    message.extend(encode_varint(2 << 3 | 2));
    message.extend(encode_varint(200));
    message.extend([7u8; 200]);
    message.extend(encode_varint(3 << 3 | 1));
    message.extend([1u8; 8]);
    message.extend(encode_varint(4 << 3 | 5));
    message.extend([2u8; 4]);
    let fields = for_each_field(&message);
    let shape: Vec<(u64, u64, usize)> =
        fields.iter().map(|item| (item.number, item.wire, item.payload.len())).collect();
    assert_eq!(shape, [(1, 0, 2), (2, 2, 200), (3, 1, 8), (4, 5, 4)]);
    // A group ends the message.
    message.extend(encode_varint(5 << 3 | 3));
    assert_eq!(for_each_field(&message).len(), 4);
}
