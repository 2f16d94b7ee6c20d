use tagvalue::stream::{ByteReader, ByteWriter, CodecError};
use tagvalue::varint::{VarintReadExt, VarintWriteExt, MAX_VARINT_LEN};

fn uvarint_round_trip(n: u64) -> u64 {
    let mut w = ByteWriter::new();
    w.write_uvarint(n);
    let mut r = ByteReader::new(w.into_bytes());
    match r.read_uvarint() {
        Ok(nread) => nread,
        Err(err) => panic!("{:?}", err),
    }
}

fn varint_round_trip(n: i64) -> i64 {
    let mut w = ByteWriter::new();
    w.write_varint(n);
    let mut r = ByteReader::new(w.into_bytes());
    match r.read_varint() {
        Ok(nread) => nread,
        Err(err) => panic!("{:?}", err),
    }
}

#[test]
fn uvarint() {
    for n in [
        0u64,
        123456789,
        i8::max_value() as u64,
        u8::max_value() as u64,
        i16::max_value() as u64,
        u16::max_value() as u64,
        i32::max_value() as u64,
        u32::max_value() as u64,
        u64::max_value(),
    ]
    .into_iter()
    {
        assert_eq!(uvarint_round_trip(n), n);
    }
}

#[test]
fn varint() {
    for n in [
        0i64,
        123456789,
        i8::max_value() as i64,
        u8::max_value() as i64,
        i16::max_value() as i64,
        u16::max_value() as i64,
        i32::max_value() as i64,
        u32::max_value() as i64,
        i64::max_value(),
    ]
    .into_iter()
    {
        assert_eq!(varint_round_trip(n), n);
    }
}

#[test]
fn uvarint_boundaries() {
    for n in [0u64, 1, 127, 128, (1u64 << 56) - 1, u64::MAX] {
        assert_eq!(uvarint_round_trip(n), n);
    }
}

#[test]
fn varint_boundaries() {
    for n in [0i64, -1, 1, 127, 128, -128, i64::MIN, i64::MAX] {
        assert_eq!(varint_round_trip(n), n);
    }
}

#[test]
fn uvarint_encoding_is_base128() {
    let mut w = ByteWriter::new();
    w.write_uvarint(300);
    assert_eq!(w.into_bytes(), vec![0xAC, 0x02]);

    let mut w = ByteWriter::new();
    w.write_uvarint(u64::MAX);
    let bytes = w.into_bytes();
    assert_eq!(bytes.len(), MAX_VARINT_LEN);
    assert_eq!(*bytes.last().unwrap(), 1);
}

#[test]
fn varint_zigzag_encoding() {
    // -1 zigzags to unsigned 1
    let mut w = ByteWriter::new();
    w.write_varint(-1);
    assert_eq!(w.into_bytes(), vec![0x01]);

    let mut w = ByteWriter::new();
    w.write_varint(1);
    assert_eq!(w.into_bytes(), vec![0x02]);
}

#[test]
fn uvarint_overlong_rejected() {
    // nine continuation bytes, then a final byte above 1: the value would
    // overflow 64 bits
    let mut bytes = vec![0x80u8; 9];
    bytes.push(0x02);
    let mut r = ByteReader::new(bytes);
    assert_eq!(r.read_uvarint(), Err(CodecError::MalformedVarint));

    // the same ten bytes with a final 1 are the top bit of u64::MAX range
    let mut bytes = vec![0xFFu8; 9];
    bytes.push(0x01);
    let mut r = ByteReader::new(bytes);
    assert_eq!(r.read_uvarint(), Ok(u64::MAX));
}

#[test]
fn uvarint_truncated_rejected() {
    // nothing but continuation bytes: the source runs out first
    let mut r = ByteReader::new(vec![0x80u8; 5]);
    assert_eq!(r.read_uvarint(), Err(CodecError::UnexpectedEndOfInput));

    let mut r = ByteReader::new(Vec::new());
    assert_eq!(r.read_uvarint(), Err(CodecError::UnexpectedEndOfInput));
}
