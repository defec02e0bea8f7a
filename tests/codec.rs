use avro_codec::codec::AvroCodec;
use avro_codec::cursor::ByteCursor;
use avro_codec::float::{F32Bits, F64Bits};
use avro_codec::map::StringMap;

fn cursor(bytes: Vec<u8>) -> ByteCursor {
    ByteCursor::new(bytes)
}

fn f32_round_trip(x: f32) -> f32 {
    let bytes = F32Bits { bits: x.to_bits() }.encode();
    f32::from_bits(F32Bits::decode(&mut cursor(bytes)).unwrap().bits)
}

fn f64_round_trip(x: f64) -> f64 {
    let bytes = F64Bits { bits: x.to_bits() }.encode();
    f64::from_bits(F64Bits::decode(&mut cursor(bytes)).unwrap().bits)
}

#[test]
fn test_i32_codec() {
    assert_eq!(0i32.encode(), vec![0u8]);
    assert_eq!(1i32.encode(), vec![2u8]);
    assert_eq!((-1i32).encode(), vec![1u8]);
    assert_eq!(i32::max_value().encode(), vec![0xFE, 0xFF, 0xFF, 0xFF, 0x0F]);
    assert_eq!(i32::min_value().encode(), vec![0xFF, 0xFF, 0xFF, 0xFF, 0x0F]);
    assert_eq!(
        i32::max_value(),
        i32::decode(&mut cursor(i32::max_value().encode())).unwrap()
    );
    assert_eq!(
        i32::min_value(),
        i32::decode(&mut cursor(i32::min_value().encode())).unwrap()
    );
}

#[test]
fn test_i64_codec() {
    assert_eq!(0i64.encode(), vec![0u8]);
    assert_eq!(1i64.encode(), vec![2u8]);
    assert_eq!((-1i64).encode(), vec![1u8]);
    assert_eq!(
        i64::max_value().encode(),
        vec![0xFE, 0xFF, 0xFF, 0xFF, 0xFF, 0xFF, 0xFF, 0xFF, 0xFF, 0x01]
    );
    assert_eq!(
        i64::min_value().encode(),
        vec![0xFF, 0xFF, 0xFF, 0xFF, 0xFF, 0xFF, 0xFF, 0xFF, 0xFF, 0x01]
    );
    assert_eq!(
        i64::max_value(),
        i64::decode(&mut cursor(i64::max_value().encode())).unwrap()
    );
    assert_eq!(
        i64::min_value(),
        i64::decode(&mut cursor(i64::min_value().encode())).unwrap()
    );
}

#[test]
fn test_usize_codec() {
    assert_eq!(2usize.encode(), vec![4u8]);
    assert_eq!(2usize, usize::decode(&mut cursor(vec![4u8])).unwrap());
    assert_eq!(2usize, usize::decode(&mut cursor(vec![3u8])).unwrap());
}

#[test]
fn test_f32_codec() {
    assert_eq!(0f32, f32_round_trip(0f32));
    assert_eq!(f32::MIN, f32_round_trip(f32::MIN));
    assert_eq!(f32::MAX, f32_round_trip(f32::MAX));
}

#[test]
fn test_f64_codec() {
    assert_eq!(0f64, f64_round_trip(0f64));
    assert_eq!(f64::MIN, f64_round_trip(f64::MIN));
    assert_eq!(f64::MAX, f64_round_trip(f64::MAX));
}

#[test]
fn test_vec_i32_codec() {
    assert_eq!(Vec::<i32>::new().encode(), vec![0x0]);
    assert_eq!(vec![2i32].encode(), vec![0x2, 0x4]);
    assert_eq!(Vec::<i32>::decode(&mut cursor(vec![0x2, 0x4])).unwrap(), vec![2i32]);
    assert_eq!(Vec::<i32>::decode(&mut cursor(vec![0x0])).unwrap(), Vec::<i32>::new());
    assert_eq!(Vec::<i32>::decode(&mut cursor(vec![0x1, 0x1])).unwrap(), vec![-1i32]);
}

#[test]
fn test_vec_f32_codec() {
    assert_eq!(Vec::<F32Bits>::new().encode(), vec![0x0]);
    let values = vec![0f32, f32::MAX, f32::MIN];
    let patterns: Vec<F32Bits> = values.iter().map(|x| F32Bits { bits: x.to_bits() }).collect();
    let decoded = Vec::<F32Bits>::decode(&mut cursor(patterns.encode())).unwrap();
    let floats: Vec<f32> = decoded.iter().map(|p| f32::from_bits(p.bits)).collect();
    assert_eq!(values, floats);
}

#[test]
fn test_string_codec() {
    assert_eq!(
        String::from("abcde").encode(),
        vec![0x0A, 0x61, 0x62, 0x63, 0x64, 0x65]
    );
    assert_eq!(
        String::from("abcde"),
        String::decode(&mut cursor(vec![0x0A, 0x61, 0x62, 0x63, 0x64, 0x65])).unwrap()
    );
    assert_eq!(String::from(""), String::decode(&mut cursor(vec![0x0])).unwrap());
}

#[test]
fn test_vec_string_codec() {
    assert_eq!(Vec::<String>::new().encode(), vec![0x0]);
    let words = vec![
        String::from("This"),
        String::from("is"),
        String::from("a"),
        String::from("test."),
    ];
    assert_eq!(words.clone(), Vec::<String>::decode(&mut cursor(words.encode())).unwrap());
}

#[test]
fn test_bool_codec() {
    assert_eq!(true.encode(), vec![0x1]);
    assert_eq!(false.encode(), vec![0x0]);
    assert_eq!(true, bool::decode(&mut cursor(vec![0x1])).unwrap());
    assert_eq!(false, bool::decode(&mut cursor(vec![0x0])).unwrap());
    assert_eq!(None, bool::decode(&mut cursor(vec![0x2])));
}

#[test]
fn test_byte_codec() {
    assert_eq!(0xFFu8.encode(), vec![0xFFu8]);
    assert_eq!(0xFFu8, u8::decode(&mut cursor(vec![0xFFu8])).unwrap());
    assert_eq!(0xFFu8, u8::decode(&mut cursor(0xFFu8.encode())).unwrap());
}

#[test]
fn test_byte_vec_codec() {
    assert_eq!(vec![0xFFu8].encode(), vec![0x02, 0xFFu8]);
    assert_eq!(Vec::<u8>::new().encode(), vec![0x0]);
    assert_eq!(vec![0xFFu8], Vec::<u8>::decode(&mut cursor(vec![0x02, 0xFFu8])).unwrap());
    assert_eq!(
        vec![0xFFu8, 0xAF, 0x0],
        Vec::<u8>::decode(&mut cursor(vec![0xFFu8, 0xAF, 0x0].encode())).unwrap()
    );
}

#[test]
fn test_map_codec() {
    assert_eq!(StringMap::<i32>::new().encode(), vec![0x0]);
    let empty = StringMap::<i32>::decode(&mut cursor(StringMap::<i32>::new().encode())).unwrap();
    assert_eq!(empty.len(), StringMap::<i32>::new().len());
    let mut test_map = StringMap::<i32>::new();
    test_map.insert(String::from("test"), 1);
    let decoded = StringMap::<i32>::decode(&mut cursor(test_map.encode())).unwrap();
    assert_eq!(decoded.len(), test_map.len());
    assert_eq!(decoded.get("test"), test_map.get("test"));
    assert_eq!(decoded.get("test"), Some(&1));
}
