use tpk::model::{blob_type_byte, marker_type_byte, size_byte, string_type_byte};
use tpk::read::Error;
use tpk::write::{dyn_size, static_size};
use tpk::{Element, Reader, Writer};

fn encode(element: &Element) -> Vec<u8> {
    let mut writer = Writer::new(Vec::new());
    writer.write_element(element).unwrap();
    writer.into_inner()
}

fn decode(input: Vec<u8>) -> Result<Option<Element>, Error> {
    Reader::new(input).read_element()
}

/// Two elements hold the same: `Element` has no `==`.
fn same(a: &Element, b: &Element) -> bool {
    match (a, b) {
        (Element::Marker(x), Element::Marker(y)) => x == y,
        (Element::Folder, Element::Folder) => true,
        (Element::Collection, Element::Collection) => true,
        (Element::Integer8(x), Element::Integer8(y)) => x == y,
        (Element::Integer16(x), Element::Integer16(y)) => x == y,
        (Element::Integer32(x), Element::Integer32(y)) => x == y,
        (Element::Integer64(x), Element::Integer64(y)) => x == y,
        (Element::UInteger8(x), Element::UInteger8(y)) => x == y,
        (Element::UInteger16(x), Element::UInteger16(y)) => x == y,
        (Element::UInteger32(x), Element::UInteger32(y)) => x == y,
        (Element::UInteger64(x), Element::UInteger64(y)) => x == y,
        (Element::Float32(x), Element::Float32(y)) => x == y,
        (Element::Float64(x), Element::Float64(y)) => x == y,
        (Element::Boolean(x), Element::Boolean(y)) => x == y,
        (Element::String(x), Element::String(y)) => x == y,
        (Element::Blob(x), Element::Blob(y)) => x == y,
        _ => false,
    }
}

fn assert_round_trip(element: Element) {
    let bytes = encode(&element);
    assert_eq!(bytes[0], element.get_type_byte());
    let mut reader = Reader::new(bytes);
    let back = reader.read_element().unwrap().unwrap();
    assert!(same(&back, &element), "{:?} came back as {:?}", element, back);
    assert_eq!(back.get_type_byte(), element.get_type_byte());
    assert!(reader.read_element().unwrap().is_none());
}

const BOUNDARY_LENGTHS: [usize; 7] = [0, 63, 64, 255, 256, 65535, 65536];

#[test]
fn test_round_trip_structural() {
    assert_round_trip(Element::Folder);
    assert_round_trip(Element::Collection);
    assert_round_trip(Element::Boolean(false));
    assert_round_trip(Element::Boolean(true));
}

#[test]
fn test_round_trip_unsigned() {
    for value in [0u8, 1, 127, 128, 255] {
        assert_round_trip(Element::UInteger8(value));
    }
    for value in [0u16, 255, 256, 1337, u16::MAX] {
        assert_round_trip(Element::UInteger16(value));
    }
    for value in [0u32, 65535, 65536, 22101995, u32::MAX] {
        assert_round_trip(Element::UInteger32(value));
    }
    for value in [0u64, 4294967295, 4294967296, 987654321123456789, u64::MAX] {
        assert_round_trip(Element::UInteger64(value));
    }
}

#[test]
fn test_round_trip_signed() {
    for value in [i8::MIN, -42, -1, 0, 1, i8::MAX] {
        assert_round_trip(Element::Integer8(value));
    }
    for value in [i16::MIN, -1337, -1, 0, 1, i16::MAX] {
        assert_round_trip(Element::Integer16(value));
    }
    for value in [i32::MIN, -22101995, -1, 0, 1, i32::MAX] {
        assert_round_trip(Element::Integer32(value));
    }
    for value in [i64::MIN, -987654321123456789, -1, 0, 1, i64::MAX] {
        assert_round_trip(Element::Integer64(value));
    }
}

#[test]
fn test_round_trip_floats() {
    for value in [0.0f32, -0.0, 1.5, -738.775, f32::MAX, f32::MIN_POSITIVE, f32::INFINITY] {
        assert_round_trip(Element::Float32(value.to_bits()));
    }
    for value in [0.0f64, -0.0, 1.5, -45743210879.529548, f64::MAX, f64::NEG_INFINITY] {
        assert_round_trip(Element::Float64(value.to_bits()));
    }
    // Not-a-number keeps its bits.
    assert_round_trip(Element::Float32(f32::NAN.to_bits()));
    assert_round_trip(Element::Float64(0x7FF8_0000_0000_1234));
    match decode(encode(&Element::Float32((-738.775f32).to_bits()))).unwrap() {
        Some(Element::Float32(bits)) => assert_eq!(f32::from_bits(bits), -738.775f32),
        other => panic!("unexpected {:?}", other),
    }
}

#[test]
fn test_round_trip_marker_boundaries() {
    for len in BOUNDARY_LENGTHS {
        assert_round_trip(Element::Marker("m".repeat(len)));
    }
    assert_round_trip(Element::Marker(String::from("/")));
    assert_round_trip(Element::Marker(String::from("h\u{e9}llo \u{4e16}\u{754c} \u{1f600}")));
}

#[test]
fn test_round_trip_string_boundaries() {
    for len in BOUNDARY_LENGTHS {
        assert_round_trip(Element::String("s".repeat(len)));
    }
    assert_round_trip(Element::String(String::from("h\u{e9}llo \u{4e16}\u{754c} \u{1f600}")));
}

#[test]
fn test_round_trip_blob_boundaries() {
    for len in BOUNDARY_LENGTHS {
        assert_round_trip(Element::Blob(vec![0xFFu8; len]));
    }
    assert_round_trip(Element::Blob(vec![0x00, 0x80, 0xFF, 0x7F]));
}

#[test]
fn test_round_trip_in_a_stream() {
    let elements = vec![
        Element::Marker(String::from("first")),
        Element::UInteger8(7),
        Element::Blob(vec![1, 2, 3]),
        Element::Marker("n".repeat(100)),
        Element::String(String::from("text")),
        Element::Integer64(-5),
        Element::Folder,
    ];
    let mut writer = Writer::new(Vec::new());
    for element in &elements {
        writer.write_element(element).unwrap();
    }
    let mut reader = Reader::new(writer.into_inner());
    for element in &elements {
        let back = reader.read_element().unwrap().unwrap();
        assert!(same(&back, element));
    }
    assert!(reader.read_element().unwrap().is_none());
    assert!(reader.read_element().unwrap().is_none());
}

#[test]
fn test_length_field_is_minimal() {
    // The size on the wire is the tag, the length field and the payload.
    for (len, width, class) in [
        (0usize, 1usize, 0u8),
        (1, 1, 0),
        (255, 1, 0),
        (256, 2, 1),
        (65535, 2, 1),
        (65536, 4, 2),
        (70000, 4, 2),
    ] {
        let string = encode(&Element::String("a".repeat(len)));
        assert_eq!(string.len(), 1 + width + len);
        assert_eq!(string[0], 0b0001_0000 | class);
        let blob = encode(&Element::Blob(vec![7u8; len]));
        assert_eq!(blob.len(), 1 + width + len);
        assert_eq!(blob[0], 0b0001_0100 | class);
        // The field holds the length, least significant byte first.
        let mut held = 0usize;
        for i in (0..width).rev() {
            held = held * 256 + blob[1 + i] as usize;
        }
        assert_eq!(held, len);
    }
}

#[test]
fn test_static_size_values() {
    assert_eq!(static_size(0), vec![0u8]);
    assert_eq!(static_size(52), vec![52u8]);
    assert_eq!(static_size(255), vec![255u8]);
    assert_eq!(static_size(256), vec![0u8, 1]);
    assert_eq!(static_size(500), vec![0xF4u8, 0x01]);
    assert_eq!(static_size(65535), vec![255u8, 255]);
    assert_eq!(static_size(65536), vec![0u8, 0, 1, 0]);
    assert_eq!(static_size(987654), vec![0x06u8, 0x12, 0x0F, 0x00]);
    assert_eq!(static_size(4294967295), vec![255u8, 255, 255, 255]);
    assert_eq!(static_size(4294967296), vec![0u8, 0, 0, 0, 1, 0, 0, 0]);
    assert_eq!(
        static_size(0x0102_0304_0506_0708),
        vec![8u8, 7, 6, 5, 4, 3, 2, 1]
    );
}

#[test]
fn test_size_byte_values() {
    assert_eq!(size_byte(0), 0);
    assert_eq!(size_byte(255), 0);
    assert_eq!(size_byte(256), 1);
    assert_eq!(size_byte(65535), 1);
    assert_eq!(size_byte(65536), 2);
    assert_eq!(size_byte(4294967295), 2);
    assert_eq!(size_byte(4294967296), 3);
    assert_eq!(size_byte(usize::MAX), 3);
}

#[test]
fn test_dyn_size_values() {
    assert_eq!(dyn_size(0), vec![0u8]);
    assert_eq!(dyn_size(1), vec![1u8]);
    assert_eq!(dyn_size(127), vec![0x7Fu8]);
    assert_eq!(dyn_size(128), vec![0x80u8, 0x01]);
    assert_eq!(dyn_size(300), vec![0xACu8, 0x02]);
    assert_eq!(dyn_size(987654 >> 6), vec![0b11001000u8, 0b01111000]);
    assert_eq!(dyn_size(16383), vec![0xFFu8, 0x7F]);
    assert_eq!(dyn_size(16384), vec![0x80u8, 0x80, 0x01]);
}

#[test]
fn test_type_bytes() {
    assert_eq!(Element::Marker(String::new()).get_type_byte(), 0b1000_0000);
    assert_eq!(Element::Marker("a".repeat(63)).get_type_byte(), 0b1011_1111);
    assert_eq!(Element::Marker("a".repeat(64)).get_type_byte(), 0b1100_0000);
    assert_eq!(Element::Marker("a".repeat(65)).get_type_byte(), 0b1100_0001);
    assert_eq!(Element::Marker("a".repeat(987654)).get_type_byte(), 0b1100_0110);
    // The length is counted in bytes, not in characters.
    assert_eq!(Element::Marker(String::from("\u{e9}")).get_type_byte(), 0b1000_0010);
    assert_eq!(Element::Folder.get_type_byte(), 0x00);
    assert_eq!(Element::Collection.get_type_byte(), 0x01);
    assert_eq!(Element::UInteger8(0).get_type_byte(), 0x20);
    assert_eq!(Element::UInteger16(0).get_type_byte(), 0x21);
    assert_eq!(Element::UInteger32(0).get_type_byte(), 0x22);
    assert_eq!(Element::UInteger64(0).get_type_byte(), 0x23);
    assert_eq!(Element::Integer8(0).get_type_byte(), 0x24);
    assert_eq!(Element::Integer16(0).get_type_byte(), 0x25);
    assert_eq!(Element::Integer32(0).get_type_byte(), 0x26);
    assert_eq!(Element::Integer64(0).get_type_byte(), 0x27);
    assert_eq!(Element::Float32(0).get_type_byte(), 0x2E);
    assert_eq!(Element::Float64(0).get_type_byte(), 0x2F);
    assert_eq!(Element::Boolean(false).get_type_byte(), 0x30);
    assert_eq!(Element::Boolean(true).get_type_byte(), 0x31);
    assert_eq!(Element::String(String::new()).get_type_byte(), 0x10);
    assert_eq!(Element::String("a".repeat(256)).get_type_byte(), 0x11);
    assert_eq!(Element::String("a".repeat(65536)).get_type_byte(), 0x12);
    assert_eq!(Element::Blob(Vec::new()).get_type_byte(), 0x14);
    assert_eq!(Element::Blob(vec![0; 256]).get_type_byte(), 0x15);
    assert_eq!(Element::Blob(vec![0; 65536]).get_type_byte(), 0x16);
}

#[test]
fn test_marker_of_63_bytes_has_no_continuation() {
    let output = encode(&Element::Marker("a".repeat(63)));
    assert_eq!(output.len(), 64);
    assert_eq!(output[0], 0b1011_1111);
    assert_eq!(output[1..], vec![b'a'; 63]);
}

#[test]
fn test_marker_of_64_bytes_has_one_continuation_byte() {
    let output = encode(&Element::Marker("a".repeat(64)));
    assert_eq!(output.len(), 66);
    assert_eq!(output[0], 0b1100_0000);
    assert_eq!(output[1], 1);
    assert_eq!(output[2..], vec![b'a'; 64]);
}

#[test]
fn test_marker_of_8192_bytes_has_two_continuation_bytes() {
    let output = encode(&Element::Marker("a".repeat(8191)));
    assert_eq!(output.len(), 1 + 1 + 8191);
    assert_eq!(output[..2], vec![0b1111_1111u8, 0x7F]);
    let output = encode(&Element::Marker("a".repeat(8192)));
    assert_eq!(output.len(), 1 + 2 + 8192);
    assert_eq!(output[..3], vec![0b1100_0000u8, 0x80, 0x01]);
}

#[test]
fn test_writer_appends() {
    let mut writer = Writer::new(vec![0xAA, 0xBB]);
    writer.write_element(&Element::Folder).unwrap();
    writer.write_element(&Element::UInteger16(1337)).unwrap();
    writer.write_element(&Element::Boolean(true)).unwrap();
    assert_eq!(
        writer.into_inner(),
        vec![0xAA, 0xBB, 0x00, 0x21, 0x39, 0x05, 0x31]
    );
}

#[test]
fn test_read_unsigned_numbers() {
    assert!(matches!(decode(vec![0x20, 42]), Ok(Some(Element::UInteger8(42)))));
    assert!(matches!(
        decode(vec![0x21, 0x39, 0x05]),
        Ok(Some(Element::UInteger16(1337)))
    ));
    assert!(matches!(
        decode(vec![0x22, 0xEB, 0x3F, 0x51, 0x01]),
        Ok(Some(Element::UInteger32(22101995)))
    ));
    assert!(matches!(
        decode(vec![0x23, 0x15, 0x77, 0x71, 0x4B, 0x5F, 0xDA, 0xB4, 0x0D]),
        Ok(Some(Element::UInteger64(987654321123456789)))
    ));
    assert!(matches!(
        decode(vec![0x23, 1, 2, 3, 4, 5, 6, 7, 8]),
        Ok(Some(Element::UInteger64(0x0807_0605_0403_0201)))
    ));
}

#[test]
fn test_read_signed_numbers() {
    assert!(matches!(decode(vec![0x24, 0xD6]), Ok(Some(Element::Integer8(-42)))));
    assert!(matches!(decode(vec![0x24, 0x7F]), Ok(Some(Element::Integer8(127)))));
    assert!(matches!(decode(vec![0x24, 0x80]), Ok(Some(Element::Integer8(-128)))));
    assert!(matches!(
        decode(vec![0x25, 0xC7, 0xFA]),
        Ok(Some(Element::Integer16(-1337)))
    ));
    assert!(matches!(
        decode(vec![0x25, 0x39, 0x05]),
        Ok(Some(Element::Integer16(1337)))
    ));
    assert!(matches!(
        decode(vec![0x26, 0x15, 0xC0, 0xAE, 0xFE]),
        Ok(Some(Element::Integer32(-22101995)))
    ));
    assert!(matches!(
        decode(vec![0x27, 0xEB, 0x88, 0x8E, 0xB4, 0xA0, 0x25, 0x4B, 0xF2]),
        Ok(Some(Element::Integer64(-987654321123456789)))
    ));
}

#[test]
fn test_read_floats() {
    match decode(vec![0x2E, 0x9A, 0xB1, 0x38, 0xC4]).unwrap() {
        Some(Element::Float32(bits)) => {
            assert_eq!(bits, 0xC438_B19A);
            assert_eq!(f32::from_bits(bits), -738.775f32);
        }
        other => panic!("unexpected {:?}", other),
    }
    match decode(vec![0x2F, 0x21, 0x0F, 0xFF, 0x02, 0x04, 0x4D, 0x25, 0xC2]).unwrap() {
        Some(Element::Float64(bits)) => {
            assert_eq!(bits, 0xC225_4D04_02FF_0F21);
            assert_eq!(f64::from_bits(bits), -45743210879.52954864501953125f64);
        }
        other => panic!("unexpected {:?}", other),
    }
}

#[test]
fn test_read_lengths_of_every_width() {
    // The decoder takes a length field of any width, minimal or not.
    for input in [
        vec![0x10, 2, b'h', b'i'],
        vec![0x11, 2, 0, b'h', b'i'],
        vec![0x12, 2, 0, 0, 0, b'h', b'i'],
        vec![0x13, 2, 0, 0, 0, 0, 0, 0, 0, b'h', b'i'],
    ] {
        match decode(input).unwrap() {
            Some(Element::String(text)) => assert_eq!(text, "hi"),
            other => panic!("unexpected {:?}", other),
        }
    }
    for input in [
        vec![0x14, 2, 0xFE, 0xFF],
        vec![0x15, 2, 0, 0xFE, 0xFF],
        vec![0x16, 2, 0, 0, 0, 0xFE, 0xFF],
        vec![0x17, 2, 0, 0, 0, 0, 0, 0, 0, 0xFE, 0xFF],
    ] {
        match decode(input).unwrap() {
            Some(Element::Blob(bytes)) => assert_eq!(bytes, vec![0xFE, 0xFF]),
            other => panic!("unexpected {:?}", other),
        }
    }
}

#[test]
fn test_read_empty_input() {
    let mut reader = Reader::new(Vec::new());
    assert!(reader.read_element().unwrap().is_none());
    assert!(reader.read_element().unwrap().is_none());
    assert!(reader.read_entry().unwrap().is_none());
}

#[test]
fn test_read_does_not_read_beyond_the_element() {
    let mut reader = Reader::new(vec![0x20, 1, 0x20, 2, 0x00]);
    assert!(matches!(reader.read_element(), Ok(Some(Element::UInteger8(1)))));
    assert!(matches!(reader.read_element(), Ok(Some(Element::UInteger8(2)))));
    assert!(matches!(reader.read_element(), Ok(Some(Element::Folder))));
    assert!(matches!(reader.read_element(), Ok(None)));
}

#[test]
fn test_unknown_types() {
    for tag in [0x02u8, 0x0F, 0x28, 0x2D, 0x32, 0x3F, 0x40, 0x4A, 0x50, 0x6F] {
        match decode(vec![tag, 0, 0, 0, 0, 0, 0, 0, 0, 0]) {
            Err(Error::UnknownType(pos, byte)) => {
                assert_eq!(pos, 0);
                assert_eq!(byte, tag);
            }
            other => panic!("tag {:#X}: unexpected {:?}", tag, other),
        }
    }
    // The offset is that of the tag, wherever the element stands.
    let mut reader = Reader::new(vec![0x00, 0x31, 0x20, 9, 0x45]);
    reader.read_element().unwrap();
    reader.read_element().unwrap();
    reader.read_element().unwrap();
    assert!(matches!(reader.read_element(), Err(Error::UnknownType(4, 0x45))));
}

#[test]
fn test_unknown_string_blob_sub_types() {
    // The tag is refused as it stands, whatever follows it.
    for tag in 0x18u8..0x20 {
        assert!(matches!(
            decode(vec![tag, 0, 0, 0, 0, 0, 0, 0, 0]),
            Err(Error::UnknownType(0, byte)) if byte == tag
        ));
        assert!(matches!(
            decode(vec![tag]),
            Err(Error::UnknownType(0, byte)) if byte == tag
        ));
    }
    assert!(matches!(decode(vec![0x18]), Err(Error::UnknownType(0, 0x18))));
    assert!(matches!(decode(vec![0x1B, 0, 0]), Err(Error::UnknownType(0, 0x1B))));
    // Nothing behind the tag is consumed.
    let mut reader = Reader::new(vec![0x00, 0x1B, 0x00, 0x31]);
    reader.read_element().unwrap();
    assert!(matches!(reader.read_element(), Err(Error::UnknownType(1, 0x1B))));
    assert!(matches!(reader.read_element(), Ok(Some(Element::Folder))));
    assert!(matches!(reader.read_element(), Ok(Some(Element::Boolean(true)))));
    assert!(matches!(reader.read_element(), Ok(None)));
}

#[test]
fn test_unsupported_types() {
    for tag in 0x70u8..0x80 {
        match decode(vec![tag]) {
            Err(Error::UnsupportedType(pos, label)) => {
                assert_eq!(pos, 0);
                assert_eq!(label, "extension");
            }
            other => panic!("tag {:#X}: unexpected {:?}", tag, other),
        }
    }
    let mut reader = Reader::new(vec![0x00, 0x7A, 0x00]);
    reader.read_element().unwrap();
    assert!(matches!(
        reader.read_element(),
        Err(Error::UnsupportedType(1, "extension"))
    ));
    // Only the tag was consumed.
    assert!(matches!(reader.read_element(), Ok(Some(Element::Folder))));
}

#[test]
fn test_invalid_utf8_in_string() {
    match decode(vec![0x10, 5, b'a', b'b', 0xC3, 0x28, b'c']) {
        Err(Error::InvalidString { pos, source }) => {
            assert_eq!(pos, 4);
            assert_eq!(source.utf8_error().valid_up_to(), 2);
            assert_eq!(source.into_bytes(), vec![b'a', b'b', 0xC3, 0x28, b'c']);
        }
        other => panic!("unexpected {:?}", other),
    }
    // A character cut short at the end of the text.
    match decode(vec![0x00 | 0x10, 3, b'a', 0xE4, 0xB8]) {
        Err(Error::InvalidString { pos, .. }) => assert_eq!(pos, 3),
        other => panic!("unexpected {:?}", other),
    }
    // The offset is absolute.
    let mut reader = Reader::new(vec![0x00, 0x00, 0x11, 2, 0, 0xFF, b'a']);
    reader.read_element().unwrap();
    reader.read_element().unwrap();
    assert!(matches!(
        reader.read_element(),
        Err(Error::InvalidString { pos: 5, .. })
    ));
}

#[test]
fn test_invalid_utf8_in_long_marker() {
    let mut input = vec![0b1100_0000u8, 0x01];
    input.extend_from_slice(&[b'a'; 60]);
    input.extend_from_slice(&[0x80, b'b', b'c', b'd']);
    match decode(input) {
        Err(Error::InvalidString { pos, .. }) => assert_eq!(pos, 62),
        other => panic!("unexpected {:?}", other),
    }
}

#[test]
fn test_blob_takes_any_bytes() {
    match decode(vec![0x14, 3, 0xFF, 0xFE, 0x80]).unwrap() {
        Some(Element::Blob(bytes)) => assert_eq!(bytes, vec![0xFF, 0xFE, 0x80]),
        other => panic!("unexpected {:?}", other),
    }
}

#[test]
fn test_redundant_marker_continuation() {
    // Bit 6 of the tag announces more length bytes, which then add nothing.
    match decode(vec![0b1100_0100, 0x00, b't', b'e', b's', b't']) {
        Err(Error::Syntax(pos, msg)) => {
            assert_eq!(pos, 2);
            assert_eq!(msg, "redundant marker length continuation");
        }
        other => panic!("unexpected {:?}", other),
    }
    match decode(vec![0b1100_0100, 0x80, 0x80, 0x00, b't', b'e', b's', b't']) {
        Err(Error::Syntax(pos, msg)) => {
            assert_eq!(pos, 4);
            assert_eq!(msg, "redundant marker length continuation");
        }
        other => panic!("unexpected {:?}", other),
    }
    let mut reader = Reader::new(vec![0x00, 0b1100_0000, 0x00]);
    reader.read_element().unwrap();
    assert!(matches!(reader.read_element(), Err(Error::Syntax(3, _))));
}

#[test]
fn test_marker_continuation_with_idle_groups() {
    // A group of zero after a group that counts is taken.
    let mut input = vec![0b1100_0100u8, 0x81, 0x00];
    input.extend_from_slice(&[b'a'; 68]);
    match decode(input).unwrap() {
        Some(Element::Marker(name)) => assert_eq!(name, "a".repeat(68)),
        other => panic!("unexpected {:?}", other),
    }
    let mut input = vec![0b1100_0000u8, 0x80, 0x01];
    input.extend_from_slice(&[b'b'; 8192]);
    match decode(input).unwrap() {
        Some(Element::Marker(name)) => assert_eq!(name, "b".repeat(8192)),
        other => panic!("unexpected {:?}", other),
    }
}

#[test]
fn test_marker_continuation_cut_short() {
    for input in [
        vec![0b1100_0100u8],
        vec![0b1100_0100u8, 0x80],
        vec![0b1100_0100u8, 0x81, 0xFF, 0x80],
    ] {
        let len = input.len();
        match decode(input) {
            Err(Error::Syntax(pos, msg)) => {
                assert_eq!(pos, len);
                assert_eq!(msg, "expected more, got EOF");
            }
            other => panic!("unexpected {:?}", other),
        }
    }
}

#[test]
fn test_marker_length_beyond_any_input() {
    // Lengths that no machine word holds: the input is sure to end first.
    let mut huge = vec![0b1100_0001u8];
    huge.extend_from_slice(&[0xFF; 9]);
    huge.push(0x7F);
    huge.extend_from_slice(b"some name");
    let mut shifted_out = vec![0b1100_0000u8];
    shifted_out.extend_from_slice(&[0x80; 12]);
    shifted_out.push(0x01);
    shifted_out.extend_from_slice(b"some name");
    let mut just_too_long = vec![0b1100_0000u8];
    just_too_long.extend_from_slice(&[0x80; 8]);
    just_too_long.push(0x02);
    for input in [huge, shifted_out, just_too_long] {
        let len = input.len();
        let mut reader = Reader::new(input);
        match reader.read_element() {
            Err(Error::Syntax(pos, msg)) => {
                assert_eq!(pos, len);
                assert_eq!(msg, "expected more, got EOF");
            }
            other => panic!("unexpected {:?}", other),
        }
        assert!(matches!(reader.read_element(), Ok(None)));
    }
}

#[test]
fn test_length_beyond_the_input() {
    match decode(vec![0x17, 0xFF, 0xFF, 0xFF, 0xFF, 0xFF, 0xFF, 0xFF, 0xFF, 1, 2, 3]) {
        Err(Error::Syntax(pos, msg)) => {
            assert_eq!(pos, 12);
            assert_eq!(msg, "expected more, got EOF");
        }
        other => panic!("unexpected {:?}", other),
    }
    match decode(vec![0x13, 0, 0, 0, 0, 1, 0, 0, 0, b'a']) {
        Err(Error::Syntax(pos, _)) => assert_eq!(pos, 10),
        other => panic!("unexpected {:?}", other),
    }
}

#[test]
fn test_truncated_numbers() {
    for (tag, width) in [
        (0x20u8, 1usize),
        (0x21, 2),
        (0x22, 4),
        (0x23, 8),
        (0x24, 1),
        (0x25, 2),
        (0x26, 4),
        (0x27, 8),
        (0x2E, 4),
        (0x2F, 8),
    ] {
        for have in 0..width {
            let mut input = vec![tag];
            input.extend_from_slice(&vec![0x11u8; have]);
            match decode(input) {
                Err(Error::Syntax(pos, msg)) => {
                    assert_eq!(pos, 1 + have);
                    assert_eq!(msg, "expected more, got EOF");
                }
                other => panic!("tag {:#X}: unexpected {:?}", tag, other),
            }
        }
    }
}

#[test]
fn test_every_cut_of_an_encoding_is_a_syntax_error_at_its_end() {
    let elements = vec![
        Element::Marker(String::from("name")),
        Element::Marker("n".repeat(64)),
        Element::Marker("n".repeat(9000)),
        Element::UInteger8(1),
        Element::UInteger32(1651906455),
        Element::Integer64(-1),
        Element::Float64(1.5f64.to_bits()),
        Element::String(String::from("unix_time")),
        Element::String("s".repeat(300)),
        Element::Blob(vec![1, 2, 3]),
        Element::Blob(vec![9; 70000]),
    ];
    for element in &elements {
        let whole = encode(element);
        let cuts: Vec<usize> = if whole.len() > 400 {
            vec![1, 2, 3, 4, 5, 6, 100, whole.len() - 1]
        } else {
            (1..whole.len()).collect()
        };
        for cut in cuts {
            // Behind two elements, to see that the offset is absolute.
            let mut input = vec![0x00, 0x31];
            input.extend_from_slice(&whole[..cut]);
            let mut reader = Reader::new(input);
            reader.read_element().unwrap();
            reader.read_element().unwrap();
            match reader.read_element() {
                Err(Error::Syntax(pos, msg)) => {
                    assert_eq!(pos, 2 + cut);
                    assert_eq!(msg, "expected more, got EOF");
                }
                other => panic!("{:?} cut at {}: unexpected {:?}", element, cut, other),
            }
            // All that was there has been consumed.
            assert!(matches!(reader.read_element(), Ok(None)));
        }
    }
}

#[test]
fn test_corrupted_length_tag_is_reported_where_it_stands() {
    let mut writer = Writer::new(Vec::new());
    writer.write_element(&Element::Marker(String::from("name"))).unwrap();
    writer.write_element(&Element::UInteger32(1651906455)).unwrap();
    writer.write_element(&Element::String(String::from("unix_time"))).unwrap();
    let clean = writer.into_inner();
    assert_eq!(clean.len(), 21);

    // The tag of the string, turned into one with an unknown sub-type.
    let mut input = clean.clone();
    input[10] = 0b0001_1000;
    let mut reader = Reader::new(input);
    assert!(matches!(reader.read_entry(), Err(Error::UnknownType(10, 0x18))));

    // The tag of the integer, turned into an unknown number.
    let mut input = clean.clone();
    input[5] = 0b0010_1000;
    let mut reader = Reader::new(input);
    assert!(matches!(reader.read_entry(), Err(Error::UnknownType(5, 0x28))));

    // The length of the string, made longer than what is left.
    let mut input = clean.clone();
    input[11] = 10;
    let mut reader = Reader::new(input);
    assert!(matches!(
        reader.read_entry(),
        Err(Error::Syntax(21, "expected more, got EOF"))
    ));
}

#[test]
fn test_read_entry_without_elements() {
    let mut reader = Reader::new(vec![0x81, b'a', 0x81, b'b']);
    let first = reader.read_entry().unwrap().unwrap();
    assert_eq!(first.name, "a");
    assert!(first.elements.is_empty());
    let second = reader.read_entry().unwrap().unwrap();
    assert_eq!(second.name, "b");
    assert!(second.elements.is_empty());
    assert!(reader.read_entry().unwrap().is_none());
}

#[test]
fn test_retained_marker_is_handed_out_by_read_element() {
    let mut reader = Reader::new(vec![0x20, 1, 0x81, b'x', 0x20, 2]);
    let first = reader.read_entry().unwrap().unwrap();
    assert_eq!(first.name, "/");
    assert_eq!(first.elements.len(), 1);
    assert!(matches!(first.elements[0], Element::UInteger8(1)));
    // The marker that ended the entry comes next, once.
    match reader.read_element().unwrap() {
        Some(Element::Marker(name)) => assert_eq!(name, "x"),
        other => panic!("unexpected {:?}", other),
    }
    // The entry that follows has no marker of its own left: it takes the
    // name of the last marker read.
    let second = reader.read_entry().unwrap().unwrap();
    assert_eq!(second.name, "x");
    assert_eq!(second.elements.len(), 1);
    assert!(matches!(second.elements[0], Element::UInteger8(2)));
    assert!(reader.read_entry().unwrap().is_none());
}

#[test]
fn test_read_entry_keeps_structural_elements() {
    let mut reader = Reader::new(vec![0x84, b'r', b'o', b'o', b't', 0x00, 0x01, 0x30, 0x14, 0]);
    let entry = reader.read_entry().unwrap().unwrap();
    assert_eq!(entry.name, "root");
    assert_eq!(entry.elements.len(), 4);
    assert!(matches!(entry.elements[0], Element::Folder));
    assert!(matches!(entry.elements[1], Element::Collection));
    assert!(matches!(entry.elements[2], Element::Boolean(false)));
    assert!(matches!(&entry.elements[3], Element::Blob(bytes) if bytes.is_empty()));
}

#[test]
fn test_read_entry_stops_at_an_error() {
    let mut reader = Reader::new(vec![0x81, b'a', 0x20, 1, 0x21, 5]);
    assert!(matches!(
        reader.read_entry(),
        Err(Error::Syntax(6, "expected more, got EOF"))
    ));
    assert!(reader.read_entry().unwrap().is_none());
}

#[test]
fn test_read_entry_with_error_in_first_element() {
    let mut reader = Reader::new(vec![0x42, 0x00]);
    assert!(matches!(reader.read_entry(), Err(Error::UnknownType(0, 0x42))));
    // The reader goes on behind the byte that it refused.
    let entry = reader.read_entry().unwrap().unwrap();
    assert_eq!(entry.name, "/");
    assert_eq!(entry.elements.len(), 1);
}

#[test]
fn test_entry_written_is_entry_read() {
    let elements = vec![
        Element::UInteger32(1651906455),
        Element::String(String::from("unix_time")),
        Element::Blob(vec![0xDE, 0xAD]),
        Element::Collection,
    ];
    let mut writer = Writer::new(Vec::new());
    writer.write_element(&Element::Marker(String::from("name"))).unwrap();
    for element in &elements {
        writer.write_element(element).unwrap();
    }
    let mut reader = Reader::new(writer.into_inner());
    let entry = reader.read_entry().unwrap().unwrap();
    assert_eq!(entry.name, "name");
    assert_eq!(entry.elements.len(), elements.len());
    for (read, written) in entry.elements.iter().zip(&elements) {
        assert!(same(read, written));
    }
    assert!(reader.read_entry().unwrap().is_none());
    assert!(reader.read_element().unwrap().is_none());
}

#[test]
fn test_entries_written_are_entries_read() {
    let mut writer = Writer::new(Vec::new());
    for (name, count) in [("first", 2u8), ("second", 0), ("third", 3)] {
        writer.write_element(&Element::Marker(String::from(name))).unwrap();
        for i in 0..count {
            writer.write_element(&Element::UInteger8(i)).unwrap();
        }
    }
    let mut reader = Reader::new(writer.into_inner());
    for (name, count) in [("first", 2usize), ("second", 0), ("third", 3)] {
        let entry = reader.read_entry().unwrap().unwrap();
        assert_eq!(entry.name, name);
        assert_eq!(entry.elements.len(), count);
        for (i, element) in entry.elements.iter().enumerate() {
            assert!(matches!(element, Element::UInteger8(value) if *value as usize == i));
        }
    }
    assert!(reader.read_entry().unwrap().is_none());
}

/// Reads one element as one who fetches the input piece by piece does:
/// what the reader misses is fetched from `source` and supplied, until the
/// reader misses nothing or the source comes short.
fn read_by_pieces(reader: &mut Reader, source: &mut &[u8]) -> Result<Option<Element>, Error> {
    loop {
        let missing = reader.missing();
        if missing == 0 {
            break;
        }
        let fetched = missing.min(source.len());
        reader.supply(&source[..fetched]);
        *source = &source[fetched..];
        if fetched != missing {
            break;
        }
    }
    reader.read_element()
}

#[test]
fn test_missing_asks_for_each_part_in_turn() {
    let mut reader = Reader::new(Vec::new());
    // The tag.
    assert_eq!(reader.missing(), 1);
    reader.supply(&[0x11]);
    // The length field of two bytes.
    assert_eq!(reader.missing(), 2);
    reader.supply(&[0x03]);
    assert_eq!(reader.missing(), 1);
    reader.supply(&[0x00]);
    // The payload of three bytes.
    assert_eq!(reader.missing(), 3);
    reader.supply(b"ab");
    assert_eq!(reader.missing(), 1);
    reader.supply(b"c");
    assert_eq!(reader.missing(), 0);
    assert_eq!(reader.position(), 0);
    match reader.read_element().unwrap() {
        Some(Element::String(text)) => assert_eq!(text, "abc"),
        other => panic!("unexpected {:?}", other),
    }
    assert_eq!(reader.position(), 6);
    assert_eq!(reader.missing(), 1);
}

#[test]
fn test_missing_of_each_kind() {
    let missing = |bytes: &[u8]| Reader::new(bytes.to_vec()).missing();
    assert_eq!(missing(&[]), 1);
    // What is there in full, and what is refused as it stands.
    for tag in [0x00u8, 0x01, 0x30, 0x31, 0x02, 0x18, 0x1F, 0x28, 0x32, 0x40, 0x70, 0x7F] {
        assert_eq!(missing(&[tag]), 0, "tag {:#X}", tag);
    }
    // Numbers.
    for (tag, width) in [
        (0x20u8, 1usize),
        (0x21, 2),
        (0x22, 4),
        (0x23, 8),
        (0x24, 1),
        (0x25, 2),
        (0x26, 4),
        (0x27, 8),
        (0x2E, 4),
        (0x2F, 8),
    ] {
        for have in 0..=width {
            let mut input = vec![tag];
            input.extend_from_slice(&vec![7u8; have]);
            assert_eq!(missing(&input), width - have);
        }
    }
    // Strings and blobs: the length field, then the payload.
    assert_eq!(missing(&[0x10]), 1);
    assert_eq!(missing(&[0x15]), 2);
    assert_eq!(missing(&[0x12, 0]), 3);
    assert_eq!(missing(&[0x17, 0, 0, 0]), 5);
    assert_eq!(missing(&[0x10, 0]), 0);
    assert_eq!(missing(&[0x14, 9, 1, 2]), 7);
    assert_eq!(missing(&[0x11, 0x00, 0x01]), 256);
    assert_eq!(missing(&[0x12, 0x06, 0x12, 0x0F, 0x00, b'a']), 987653);
    assert_eq!(
        missing(&[0x17, 0xFF, 0xFF, 0xFF, 0xFF, 0xFF, 0xFF, 0xFF, 0x7F, 1, 2]),
        0x7FFF_FFFF_FFFF_FFFF - 2
    );
    assert_eq!(
        missing(&[0x17, 0xFF, 0xFF, 0xFF, 0xFF, 0xFF, 0xFF, 0xFF, 0xFF]),
        usize::MAX
    );
    // Markers: the length in the tag, or group by group behind it.
    assert_eq!(missing(&[0x80]), 0);
    assert_eq!(missing(&[0x84]), 4);
    assert_eq!(missing(&[0x84, b't', b'e']), 2);
    assert_eq!(missing(&[0xBF]), 63);
    assert_eq!(missing(&[0xC0]), 1);
    assert_eq!(missing(&[0xC0, 0x80]), 1);
    assert_eq!(missing(&[0xC0, 0x80, 0x80]), 1);
    assert_eq!(missing(&[0xC0, 0x01]), 64);
    assert_eq!(missing(&[0xC6, 0xC8, 0x78]), 987654);
    assert_eq!(missing(&[0xC6, 0xC8, 0x78, b'a', b'a']), 987652);
    // A continuation that adds nothing is refused as it stands.
    assert_eq!(missing(&[0xC4, 0x00]), 0);
    assert_eq!(missing(&[0xC4, 0x80, 0x00]), 0);
    // A length beyond any machine word.
    let mut huge = vec![0xC1u8];
    huge.extend_from_slice(&[0xFF; 17]);
    huge.push(0x7F);
    assert_eq!(missing(&huge), usize::MAX);
    // A retained element is there.
    let mut reader = Reader::new(vec![0x00, 0x80, 0x22]);
    reader.read_entry().unwrap();
    assert_eq!(reader.missing(), 0);
    assert!(matches!(reader.read_element(), Ok(Some(Element::Marker(_)))));
    assert_eq!(reader.missing(), 4);
}

#[test]
fn test_supply_appends_to_the_input() {
    let mut reader = Reader::new(vec![0x00, 0x21]);
    assert!(matches!(reader.read_element(), Ok(Some(Element::Folder))));
    assert_eq!(reader.position(), 1);
    reader.supply(&[0x39]);
    reader.supply(&[]);
    reader.supply(&[0x05, 0x31]);
    assert_eq!(reader.position(), 1);
    assert!(matches!(reader.read_element(), Ok(Some(Element::UInteger16(1337)))));
    assert_eq!(reader.position(), 4);
    assert!(matches!(reader.read_element(), Ok(Some(Element::Boolean(true)))));
    assert!(matches!(reader.read_element(), Ok(None)));
    assert_eq!(reader.position(), 5);
}

#[test]
fn test_reading_piece_by_piece_is_reading_the_whole() {
    let elements = vec![
        Element::Marker(String::from("first")),
        Element::UInteger8(7),
        Element::Blob(vec![1, 2, 3]),
        Element::Marker("n".repeat(9000)),
        Element::String("s".repeat(300)),
        Element::Integer64(-5),
        Element::Float32(1.5f32.to_bits()),
        Element::Folder,
        Element::Boolean(true),
        Element::String(String::new()),
    ];
    let mut writer = Writer::new(Vec::new());
    for element in &elements {
        writer.write_element(element).unwrap();
    }
    let stream = writer.into_inner();
    // Something that is no part of the data follows it in the source.
    let mut source_bytes = stream.clone();
    source_bytes.extend_from_slice(&[0xAB; 10]);

    let mut whole = Reader::new(stream.clone());
    let mut pieces = Reader::new(Vec::new());
    let mut source = &source_bytes[..];
    for element in &elements {
        let expected = whole.read_element().unwrap().unwrap();
        let read = read_by_pieces(&mut pieces, &mut source).unwrap().unwrap();
        assert!(same(&read, element));
        assert!(same(&read, &expected));
        // No byte behind the element has been fetched.
        assert_eq!(pieces.position(), whole.position());
        assert_eq!(source_bytes.len() - source.len(), pieces.position());
    }
    assert_eq!(source, &[0xAB; 10]);
}

#[test]
fn test_reading_piece_by_piece_from_a_source_that_ends() {
    let whole = encode(&Element::String("s".repeat(300)));
    for cut in [1usize, 2, 3, 4, 200, whole.len() - 1] {
        let mut source = &whole[..cut];
        let mut reader = Reader::new(Vec::new());
        match read_by_pieces(&mut reader, &mut source) {
            Err(Error::Syntax(pos, msg)) => {
                assert_eq!(pos, cut);
                assert_eq!(msg, "expected more, got EOF");
            }
            other => panic!("cut at {}: unexpected {:?}", cut, other),
        }
        assert!(matches!(read_by_pieces(&mut reader, &mut source), Ok(None)));
    }
    let mut source: &[u8] = &[];
    let mut reader = Reader::new(Vec::new());
    assert!(matches!(read_by_pieces(&mut reader, &mut source), Ok(None)));
}

#[test]
fn test_entries_read_piece_by_piece() {
    let mut writer = Writer::new(Vec::new());
    for (name, count) in [("first", 2u8), ("second", 0), ("third", 3)] {
        writer.write_element(&Element::Marker(String::from(name))).unwrap();
        for i in 0..count {
            writer.write_element(&Element::UInteger8(i)).unwrap();
        }
    }
    let stream = writer.into_inner();
    let mut source = &stream[..];
    let mut reader = Reader::new(Vec::new());
    for (name, count) in [("first", 2usize), ("second", 0), ("third", 3)] {
        let first = read_by_pieces(&mut reader, &mut source).unwrap().unwrap();
        let mut entry = reader.open_entry(first);
        loop {
            let next = read_by_pieces(&mut reader, &mut source).unwrap();
            if reader.extend_entry(&mut entry, next) {
                break;
            }
        }
        assert_eq!(entry.name, name);
        assert_eq!(entry.elements.len(), count);
        for (i, element) in entry.elements.iter().enumerate() {
            assert!(matches!(element, Element::UInteger8(value) if *value as usize == i));
        }
    }
    assert!(matches!(read_by_pieces(&mut reader, &mut source), Ok(None)));
}

#[test]
fn test_entry_steps() {
    let mut reader = Reader::new(Vec::new());
    // A marker opens an entry under its own name.
    let entry = reader.open_entry(Element::Marker(String::from("name")));
    assert_eq!(entry.name, "name");
    assert!(entry.elements.is_empty());
    // Another element opens one under the current name, and is its first.
    let mut entry = reader.open_entry(Element::UInteger8(1));
    assert_eq!(entry.name, "/");
    assert_eq!(entry.elements.len(), 1);
    // Elements join the entry.
    assert!(!reader.extend_entry(&mut entry, Some(Element::Folder)));
    assert!(!reader.extend_entry(&mut entry, Some(Element::Boolean(true))));
    assert_eq!(entry.elements.len(), 3);
    assert!(matches!(entry.elements[0], Element::UInteger8(1)));
    assert!(matches!(entry.elements[1], Element::Folder));
    assert!(matches!(entry.elements[2], Element::Boolean(true)));
    // A marker ends it, and is retained.
    assert!(reader.extend_entry(&mut entry, Some(Element::Marker(String::from("next")))));
    assert_eq!(entry.elements.len(), 3);
    assert_eq!(entry.name, "/");
    assert_eq!(reader.missing(), 0);
    match reader.read_element().unwrap() {
        Some(Element::Marker(name)) => assert_eq!(name, "next"),
        other => panic!("unexpected {:?}", other),
    }
    // The end of the input ends it too.
    assert!(reader.extend_entry(&mut entry, None));
    assert_eq!(entry.elements.len(), 3);
    assert!(reader.read_element().unwrap().is_none());
}

#[test]
fn test_type_bytes_by_length() {
    for len in [0usize, 1, 62, 63, 64, 65, 127, 128, 8191, 8192, 987654, usize::MAX] {
        let expected = 0x80 | (if len > 63 { 0x40 } else { 0 }) | (len & 0x3F) as u8;
        assert_eq!(marker_type_byte(len), expected);
    }
    assert_eq!(marker_type_byte(4), 0b1000_0100);
    assert_eq!(marker_type_byte(987654), 0b1100_0110);
    for (len, class) in [
        (0usize, 0u8),
        (255, 0),
        (256, 1),
        (65535, 1),
        (65536, 2),
        (4294967295, 2),
        (4294967296, 3),
    ] {
        assert_eq!(string_type_byte(len), 0x10 | class);
        assert_eq!(blob_type_byte(len), 0x14 | class);
    }
    for len in BOUNDARY_LENGTHS {
        assert_eq!(
            Element::Marker("m".repeat(len)).get_type_byte(),
            marker_type_byte(len)
        );
        assert_eq!(
            Element::String("s".repeat(len)).get_type_byte(),
            string_type_byte(len)
        );
        assert_eq!(Element::Blob(vec![0; len]).get_type_byte(), blob_type_byte(len));
    }
}
