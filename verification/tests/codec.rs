use tagvalue::codec::{CodecReadExt, CodecWriteExt, Dict, Typed};
use tagvalue::stream::{ByteReader, ByteWriter, CodecError};

fn encode_typed(v: &Typed) -> Vec<u8> {
    let mut w = ByteWriter::new();
    w.write_typed(v).unwrap();
    w.into_bytes()
}

fn decode_typed(bytes: Vec<u8>) -> Result<Typed, CodecError> {
    let mut r = ByteReader::new(bytes);
    r.read_typed()
}

fn hi_map() -> Dict {
    let mut m = Dict::new();
    m.insert(String::from("hi"), Typed::String(String::from("hello")));
    m
}

#[test]
fn sized_bytes() {
    for s in ["a", "ab", "abc", "abcd", "abcde", "abcdef"].into_iter() {
        let mut w = ByteWriter::new();
        w.write_sized(s.as_bytes());
        let mut r = ByteReader::new(w.into_bytes());
        match r.read_sized() {
            Ok(bs) => assert_eq!(&bs[..], s.as_bytes()),
            Err(err) => panic!("{:?}", err),
        }
    }
}

fn sample_list() -> Vec<Typed> {
    vec![
        Typed::Int(0),
        Typed::Int(i8::max_value() as i64),
        Typed::Int(i16::max_value() as i64),
        Typed::Int(i32::max_value() as i64),
        Typed::Int(i64::max_value()),
        Typed::Uint(u8::max_value() as u64),
        Typed::Uint(u16::max_value() as u64),
        Typed::Uint(u32::max_value() as u64),
        Typed::Uint(u64::max_value()),
        Typed::Float((0.0f64).to_bits()),
        Typed::Float((12345.1231445f64).to_bits()),
        Typed::Bytes(vec![0u8, 1u8, 128u8, 255u8]),
        Typed::String(String::from("")),
        Typed::String(String::from("hello")),
        Typed::String(String::from("超")),
        Typed::List(vec![
            Typed::Int(123),
            Typed::Uint(456),
            Typed::Float((789.123f64).to_bits()),
            Typed::Bytes(vec![]),
            Typed::String(String::from("dumb")),
            Typed::Dict(hi_map()),
        ]),
        Typed::Dict(hi_map()),
    ]
}

#[test]
fn list() {
    let l = sample_list();
    let mut w = ByteWriter::new();
    assert!(w.write_list(&l).is_ok());
    let mut r = ByteReader::new(w.into_bytes());
    match r.read_list() {
        Ok(lread) => assert_eq!(lread, l),
        Err(err) => panic!("{:?}", err),
    }
}

fn nested_map() -> Dict {
    let mut m2 = Dict::new();
    m2.insert(String::from("0sa"), Typed::Int(0));
    m2.insert(
        String::from("012sfdasf345"),
        Typed::Uint(u8::max_value() as u64),
    );
    m2.insert(
        String::from("901234567sas8"),
        Typed::Float((54321.54321f64).to_bits()),
    );
    m2.insert(
        String::from("8901234lj567"),
        Typed::Bytes(vec![0u8, 1u8, 128u8, 255u8]),
    );
    m2.insert(
        String::from("678901230945"),
        Typed::String(String::from("world")),
    );
    m2
}

#[test]
fn map() {
    let mut m = Dict::new();
    m.insert(String::from("0"), Typed::Int(0));
    m.insert(String::from("01"), Typed::Int(i8::max_value() as i64));
    m.insert(String::from("012"), Typed::Int(i16::max_value() as i64));
    m.insert(String::from("0123"), Typed::Int(i32::max_value() as i64));
    m.insert(String::from("01234"), Typed::Int(i64::max_value()));
    m.insert(String::from("012345"), Typed::Uint(u8::max_value() as u64));
    m.insert(
        String::from("0123456"),
        Typed::Uint(u16::max_value() as u64),
    );
    m.insert(
        String::from("01234567"),
        Typed::Uint(u32::max_value() as u64),
    );
    m.insert(String::from("012345678"), Typed::Uint(u64::max_value()));
    m.insert(String::from("0123456789"), Typed::Float((0.0f64).to_bits()));
    m.insert(
        String::from("9012345678"),
        Typed::Float((54321.54321f64).to_bits()),
    );
    m.insert(
        String::from("8901234567"),
        Typed::Bytes(vec![0u8, 1u8, 128u8, 255u8]),
    );
    m.insert(String::from("7890123456"), Typed::String(String::from("")));
    m.insert(
        String::from("6789012345"),
        Typed::String(String::from("hello")),
    );
    m.insert(
        String::from("5678901234"),
        Typed::String(String::from("超")),
    );
    m.insert(
        String::from("list"),
        Typed::List(vec![
            Typed::Int(123),
            Typed::Uint(456),
            Typed::Float((789.123f64).to_bits()),
            Typed::Bytes(vec![]),
            Typed::String(String::from("dumb")),
            Typed::Dict(nested_map()),
        ]),
    );
    m.insert(String::from("nested-map"), Typed::Dict(nested_map()));

    let mut w = ByteWriter::new();
    assert!(w.write_map(&m).is_ok());
    let mut r = ByteReader::new(w.into_bytes());
    match r.read_map() {
        Ok(mread) => assert_eq!(mread, m),
        Err(err) => panic!("{:?}", err),
    }
}

#[test]
fn container_boundary_list() {
    let l: Vec<Typed> = (0..254).map(|i| Typed::Uint(i as u64)).collect();
    let mut w = ByteWriter::new();
    assert!(w.write_list(&l).is_ok());
    let mut r = ByteReader::new(w.into_bytes());
    assert_eq!(r.read_list().unwrap(), l);

    let l: Vec<Typed> = (0..255).map(|i| Typed::Uint(i as u64)).collect();
    let mut w = ByteWriter::new();
    assert_eq!(w.write_list(&l), Err(CodecError::ContainerTooLarge));
}

#[test]
fn container_boundary_map() {
    let mut m = Dict::new();
    for i in 0..254 {
        m.insert(format!("k{}", i), Typed::Uint(i as u64));
    }
    let mut w = ByteWriter::new();
    assert!(w.write_map(&m).is_ok());
    let mut r = ByteReader::new(w.into_bytes());
    assert_eq!(r.read_map().unwrap(), m);

    m.insert(String::from("one-too-many"), Typed::Int(-1));
    let mut w = ByteWriter::new();
    assert_eq!(w.write_map(&m), Err(CodecError::ContainerTooLarge));
}

#[test]
fn container_too_large_nested() {
    let inner: Vec<Typed> = (0..255).map(|i| Typed::Uint(i as u64)).collect();
    let v = Typed::List(vec![Typed::Int(1), Typed::List(inner)]);
    let mut w = ByteWriter::new();
    assert_eq!(w.write_typed(&v), Err(CodecError::ContainerTooLarge));
}

#[test]
fn empty_containers() {
    // an empty list: tag, count 0, and nothing else
    assert_eq!(encode_typed(&Typed::List(vec![])), vec![b'l', 0]);
    assert_eq!(decode_typed(vec![b'l', 0]), Ok(Typed::List(vec![])));

    assert_eq!(encode_typed(&Typed::Dict(Dict::new())), vec![b'm', 0]);
    assert_eq!(decode_typed(vec![b'm', 0]), Ok(Typed::Dict(Dict::new())));

    // decoding consumes only the two bytes, whatever follows
    let mut r = ByteReader::new(vec![b'l', 0, 99, 99]);
    assert!(r.read_typed().is_ok());
    assert_eq!(r.position(), 2);
}

#[test]
fn unknown_tag() {
    assert_eq!(
        decode_typed(vec![b'x', 1, 2, 3]),
        Err(CodecError::UnknownTypeTag(b'x'))
    );
}

#[test]
fn scenario_uint_300() {
    let bytes = encode_typed(&Typed::Uint(300));
    assert_eq!(bytes, vec![b'u', 0xAC, 0x02]);
    assert_eq!(decode_typed(bytes), Ok(Typed::Uint(300)));
}

#[test]
fn scenario_int_minus_one() {
    let bytes = encode_typed(&Typed::Int(-1));
    assert_eq!(bytes, vec![b'i', 0x01]);
    assert_eq!(decode_typed(bytes), Ok(Typed::Int(-1)));
}

#[test]
fn scenario_list_int_and_string() {
    let v = Typed::List(vec![Typed::Int(1), Typed::String(String::from("hi"))]);
    let bytes = encode_typed(&v);
    assert_eq!(bytes, vec![b'l', 0x02, b'i', 0x02, b's', 0x02, b'h', b'i']);
    assert_eq!(decode_typed(bytes), Ok(v));
}

#[test]
fn string_is_encoded_as_utf8() {
    // a three-byte character: a codec that copied characters as single
    // bytes would get both the length and the payload wrong
    let bytes = encode_typed(&Typed::String(String::from("超")));
    assert_eq!(bytes, vec![b's', 3, 0xE8, 0xB6, 0x85]);
    assert_eq!(
        decode_typed(bytes),
        Ok(Typed::String(String::from("超")))
    );
}

#[test]
fn invalid_utf8_is_replaced() {
    // a string payload that is not valid UTF-8 decodes to replacement
    // characters rather than failing
    let decoded = decode_typed(vec![b's', 2, 0xFF, 0xFE]).unwrap();
    assert_eq!(
        decoded,
        Typed::String(String::from("\u{FFFD}\u{FFFD}"))
    );

    // and a decoded value re-encodes and decodes to itself
    let bytes = encode_typed(&decoded);
    assert_eq!(decode_typed(bytes), Ok(decoded));
}

#[test]
fn duplicate_keys_keep_the_last_value() {
    // inserting twice under one key overwrites in place
    let mut m = Dict::new();
    m.insert(String::from("a"), Typed::Uint(1));
    m.insert(String::from("a"), Typed::Uint(2));
    assert_eq!(m.len(), 1);

    // a crafted encoding with a repeated key decodes to its last value
    let bytes = vec![b'm', 2, 1, b'a', b'u', 1, 1, b'a', b'u', 2];
    assert_eq!(decode_typed(bytes), Ok(Typed::Dict(m)));
}

#[test]
fn bytes_round_trip() {
    let v = Typed::Bytes(vec![0, 1, 2, 254, 255]);
    let bytes = encode_typed(&v);
    assert_eq!(bytes, vec![b'b', 5, 0, 1, 2, 254, 255]);
    assert_eq!(decode_typed(bytes), Ok(v));
}

#[test]
fn float_bits_round_trip() {
    for f in [0.0f64, -0.0, 1.5, f64::NAN, f64::INFINITY, f64::MIN] {
        let v = Typed::Float(f.to_bits());
        let decoded = decode_typed(encode_typed(&v)).unwrap();
        assert_eq!(decoded, v);
        match decoded {
            Typed::Float(bits) => assert_eq!(bits, f.to_bits()),
            _ => panic!("not a float"),
        }
    }
}

#[test]
fn truncated_value_fails() {
    // a list that promises two elements but ends after one
    let bytes = vec![b'l', 2, b'i', 0x02];
    assert_eq!(
        decode_typed(bytes),
        Err(CodecError::UnexpectedEndOfInput)
    );

    // a sized payload shorter than its length prefix
    let bytes = vec![b'b', 5, 1, 2];
    assert_eq!(
        decode_typed(bytes),
        Err(CodecError::UnexpectedEndOfInput)
    );
}
