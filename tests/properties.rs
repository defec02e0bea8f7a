use avro_codec::codec::AvroCodec;
use avro_codec::cursor::ByteCursor;
use avro_codec::float::{F32Bits, F64Bits};
use avro_codec::map::StringMap;
use avro_codec::values::AvroFixed;

fn cursor(bytes: Vec<u8>) -> ByteCursor {
    ByteCursor::new(bytes)
}

#[test]
fn integers_round_trip_on_sample_values() {
    for v in [0i32, 1, -1, 63, -64, 64, -65, 300, -300, 1 << 20, i32::MIN, i32::MAX] {
        assert_eq!(i32::decode(&mut cursor(v.encode())), Some(v));
    }
    for v in [0i64, 1, -1, 1 << 40, -(1 << 40), i64::MIN, i64::MAX] {
        assert_eq!(i64::decode(&mut cursor(v.encode())), Some(v));
    }
}

#[test]
fn zigzag_varint_exact_bytes() {
    assert_eq!(64i32.encode(), vec![0x80, 0x01]);
    assert_eq!((-65i32).encode(), vec![0x81, 0x01]);
    assert_eq!(300i64.encode(), vec![0xD8, 0x04]);
    assert_eq!(i32::decode(&mut cursor(vec![0xD8, 0x04])), Some(300));
}

#[test]
fn extremes_take_longest_encodings() {
    assert_eq!(i32::MIN.encode().len(), 5);
    assert_eq!(i32::MAX.encode().len(), 5);
    assert_eq!(i64::MIN.encode().len(), 10);
    assert_eq!(i64::MAX.encode().len(), 10);
}

#[test]
fn zero_is_one_byte_at_every_width() {
    assert_eq!(0i32.encode(), vec![0x00]);
    assert_eq!(0i64.encode(), vec![0x00]);
    assert_eq!(0usize.encode(), vec![0x00]);
    assert_eq!(i32::decode(&mut cursor(vec![0x00])), Some(0));
    assert_eq!(i64::decode(&mut cursor(vec![0x00])), Some(0));
    assert_eq!(usize::decode(&mut cursor(vec![0x00])), Some(0));
}

#[test]
fn float_bits_round_trip_exactly() {
    let nan = f32::from_bits(0x7FC0_1234);
    let back = F32Bits::decode(&mut cursor(F32Bits { bits: nan.to_bits() }.encode())).unwrap();
    assert_eq!(back.bits, 0x7FC0_1234);
    let inf = f64::NEG_INFINITY;
    let back = F64Bits::decode(&mut cursor(F64Bits { bits: inf.to_bits() }.encode())).unwrap();
    assert_eq!(f64::from_bits(back.bits), inf);
    assert_eq!(F32Bits { bits: 0x0403_0201 }.encode(), vec![1, 2, 3, 4]);
    assert_eq!(
        F64Bits { bits: 0x0807_0605_0403_0201 }.encode(),
        vec![1, 2, 3, 4, 5, 6, 7, 8]
    );
    assert_eq!(1.0f32.to_bits(), 0x3F80_0000);
    assert_eq!(F32Bits { bits: 1.0f32.to_bits() }.encode(), vec![0x00, 0x00, 0x80, 0x3F]);
}

#[test]
fn float_decode_fails_when_short() {
    assert_eq!(F32Bits::decode(&mut cursor(vec![1, 2, 3])), None);
    assert_eq!(F64Bits::decode(&mut cursor(vec![1, 2, 3, 4, 5, 6, 7])), None);
}

#[test]
fn empty_containers_are_one_zero_byte() {
    assert_eq!(Vec::<i64>::new().encode(), vec![0x00]);
    assert_eq!(StringMap::<String>::new().encode(), vec![0x00]);
    assert_eq!(Vec::<i64>::decode(&mut cursor(vec![0x00])), Some(Vec::new()));
    let m = StringMap::<String>::decode(&mut cursor(vec![0x00])).unwrap();
    assert!(m.is_empty());
}

#[test]
fn multibyte_string_round_trips() {
    let s = String::from("h\u{e9}llo \u{4e16}\u{754c} \u{1F600}");
    let bytes = s.encode();
    assert_eq!(bytes[0] as usize, 2 * s.len());
    assert_eq!(String::decode(&mut cursor(bytes)), Some(s));
    assert_eq!(String::from("\u{e9}").encode(), vec![0x04, 0xC3, 0xA9]);
    assert_eq!(
        String::decode(&mut cursor(vec![0x04, 0xC3, 0xA9])),
        Some(String::from("\u{e9}"))
    );
}

#[test]
fn string_decode_rejects_bad_utf8_and_short_input() {
    assert_eq!(String::decode(&mut cursor(vec![0x04, 0xC3, 0x28])), None);
    assert_eq!(String::decode(&mut cursor(vec![0x02, 0xFF])), None);
    assert_eq!(String::decode(&mut cursor(vec![0x0A, 0x61, 0x62])), None);
    assert_eq!(String::decode(&mut cursor(vec![])), None);
}

#[test]
fn single_int_array_exact_bytes() {
    assert_eq!(vec![2i32].encode(), vec![0x02, 0x04]);
    assert_eq!(Vec::<i32>::decode(&mut cursor(vec![0x02, 0x04])), Some(vec![2]));
}

#[test]
fn array_decode_fails_on_missing_element() {
    assert_eq!(Vec::<i32>::decode(&mut cursor(vec![0x04, 0x02])), None);
    assert_eq!(Vec::<bool>::decode(&mut cursor(vec![0x02, 0x05])), None);
}

#[test]
fn truncated_varint_fails() {
    assert_eq!(i32::decode(&mut cursor(vec![0x80])), None);
    assert_eq!(i32::decode(&mut cursor(vec![0xFF, 0xFF, 0xFF])), None);
    assert_eq!(i64::decode(&mut cursor(vec![0x80, 0x80])), None);
    assert_eq!(usize::decode(&mut cursor(vec![])), None);
}

#[test]
fn overlong_varint_stops_at_width_limit() {
    let mut c = cursor(vec![0x80, 0x80, 0x80, 0x80, 0x80, 0x80, 0x01]);
    assert_eq!(i32::decode(&mut c), None);
    assert_eq!(c.remaining(), 2);
    let mut c = cursor(vec![0x80; 12]);
    assert_eq!(i64::decode(&mut c), None);
    assert_eq!(c.remaining(), 2);
}

#[test]
fn bool_rejects_other_bytes() {
    assert_eq!(bool::decode(&mut cursor(vec![0x02])), None);
    assert_eq!(bool::decode(&mut cursor(vec![0xFF])), None);
    assert_eq!(bool::decode(&mut cursor(vec![])), None);
}

#[test]
fn single_entry_map_round_trips() {
    let mut m = StringMap::<i32>::new();
    m.insert(String::from("test"), 1);
    let bytes = m.encode();
    assert_eq!(bytes, vec![0x02, 0x08, 0x74, 0x65, 0x73, 0x74, 0x02, 0x00]);
    let mut c = cursor(bytes);
    let back = StringMap::<i32>::decode(&mut c).unwrap();
    assert_eq!(back.len(), 1);
    assert_eq!(back.get("test"), Some(&1));
    assert_eq!(back.get("other"), None);
    assert_eq!(c.remaining(), 1);
}

#[test]
fn map_decode_last_write_wins() {
    let bytes = vec![0x04, 0x02, 0x6B, 0x02, 0x02, 0x6B, 0x06];
    let m = StringMap::<i32>::decode(&mut cursor(bytes)).unwrap();
    assert_eq!(m.len(), 1);
    assert_eq!(m.get("k"), Some(&3));
}

#[test]
fn map_insert_replaces_in_place() {
    let mut m = StringMap::<i64>::new();
    m.insert(String::from("a"), 1);
    m.insert(String::from("b"), 2);
    m.insert(String::from("a"), 5);
    assert_eq!(m.len(), 2);
    assert_eq!(m.encode(), vec![0x04, 0x02, 0x61, 0x0A, 0x02, 0x62, 0x04, 0x00]);
}

#[test]
fn map_decode_fails_on_bad_value() {
    assert!(StringMap::<bool>::decode(&mut cursor(vec![0x02, 0x02, 0x61, 0x07])).is_none());
    assert!(StringMap::<bool>::decode(&mut cursor(vec![0x02, 0x02])).is_none());
}

#[test]
fn length_decode_takes_absolute_value() {
    assert_eq!(usize::decode(&mut cursor(vec![0x03])), Some(2));
    assert_eq!(usize::decode(&mut cursor(vec![0xFF, 0xFF, 0xFF, 0xFF, 0x0F])), Some(1 << 31));
    assert_eq!(1000usize.encode(), vec![0xD0, 0x0F]);
}

#[test]
fn nested_arrays_share_one_cursor() {
    let v = vec![vec![1i64, -2], vec![], vec![3]];
    let bytes = v.encode();
    assert_eq!(bytes, vec![0x06, 0x04, 0x02, 0x03, 0x00, 0x02, 0x06]);
    let mut c = cursor([bytes, vec![0x2A]].concat());
    assert_eq!(Vec::<Vec<i64>>::decode(&mut c), Some(v));
    assert_eq!(u8::decode(&mut c), Some(0x2A));
    assert_eq!(u8::decode(&mut c), None);
}

#[test]
fn cursor_pulls_bytes_in_order() {
    let mut c = cursor(vec![1, 2, 3]);
    assert_eq!(c.remaining(), 3);
    assert_eq!(c.next(), Some(1));
    assert_eq!(c.next_bytes(2), Some(vec![2, 3]));
    assert_eq!(c.next(), None);
    assert_eq!(c.next_bytes(1), None);
}

#[test]
fn fixed_takes_exactly_its_size() {
    let f = AvroFixed::with_data(2, vec![1, 2, 3]).unwrap();
    assert_eq!(f.data(), &[1, 2]);
    assert!(AvroFixed::with_data(4, vec![1, 2, 3]).is_none());
    let empty = AvroFixed::new(3);
    assert_eq!(empty.data(), &[] as &[u8]);
    let filled = empty.set_data(vec![7, 8, 9, 10]).unwrap();
    assert_eq!(filled.data(), &[7, 8, 9]);
    assert!(AvroFixed::new(3).set_data(vec![1]).is_none());
}
