use protobuf_rustnif::decoder::{decode_varint, split_tag, unmarshal, Buffer};
use protobuf_rustnif::error::Error;
use protobuf_rustnif::wire::{Field, WireValue};

fn bytes_of(f: &Field) -> Vec<u8> {
    match &f.value {
        Some(WireValue::Fixed64(b)) | Some(WireValue::Fixed32(b)) => b.bin.clone(),
        Some(WireValue::LengthDelimited(b)) => b.bin.clone(),
        _ => panic!("no byte payload"),
    }
}

#[test]
fn varint_field_150() {
    let fs = unmarshal(&[0x08, 0x96, 0x01]).unwrap();
    assert_eq!(fs.len(), 1);
    assert_eq!(fs[0].field_number, 1);
    assert_eq!(fs[0].wire_type, 0);
    assert!(matches!(fs[0].value, Some(WireValue::Varint(150))));
}

#[test]
fn length_delimited_abc() {
    let fs = unmarshal(&[0x12, 0x03, 0x61, 0x62, 0x63]).unwrap();
    assert_eq!(fs.len(), 1);
    assert_eq!(fs[0].field_number, 2);
    assert_eq!(fs[0].wire_type, 2);
    assert!(matches!(fs[0].value, Some(WireValue::LengthDelimited(_))));
    assert_eq!(bytes_of(&fs[0]), b"abc".to_vec());
}

#[test]
fn fixed32_field() {
    let fs = unmarshal(&[0x0D, 0x01, 0x02, 0x03, 0x04]).unwrap();
    assert_eq!(fs.len(), 1);
    assert_eq!(fs[0].field_number, 1);
    assert_eq!(fs[0].wire_type, 5);
    assert!(matches!(fs[0].value, Some(WireValue::Fixed32(_))));
    assert_eq!(bytes_of(&fs[0]), vec![1, 2, 3, 4]);
}

#[test]
fn fixed64_field() {
    let fs = unmarshal(&[0x19, 8, 7, 6, 5, 4, 3, 2, 1]).unwrap();
    assert_eq!(fs.len(), 1);
    assert_eq!(fs[0].field_number, 3);
    assert_eq!(fs[0].wire_type, 1);
    assert!(matches!(fs[0].value, Some(WireValue::Fixed64(_))));
    assert_eq!(bytes_of(&fs[0]), vec![8, 7, 6, 5, 4, 3, 2, 1]);
}

#[test]
fn missing_varint_value() {
    assert_eq!(unmarshal(&[0x08]).unwrap_err(), Error::Varint);
}

#[test]
fn empty_input() {
    assert_eq!(unmarshal(&[]).unwrap().len(), 0);
}

#[test]
fn length_beyond_input() {
    assert_eq!(
        unmarshal(&[0x12, 0xFF, 0xFF, 0xFF, 0xFF, 0x0F]).unwrap_err(),
        Error::Truncated
    );
}

#[test]
fn huge_declared_length() {
    // length 2^63, encoded in ten bytes
    let buf = [0x12, 0x80, 0x80, 0x80, 0x80, 0x80, 0x80, 0x80, 0x80, 0x80, 0x01, 0x61];
    assert_eq!(unmarshal(&buf).unwrap_err(), Error::Truncated);
}

#[test]
fn fixed_fields_truncated() {
    assert_eq!(unmarshal(&[0x09, 1, 2, 3, 4, 5, 6, 7]).unwrap_err(), Error::Truncated);
    assert_eq!(unmarshal(&[0x0D, 1, 2, 3]).unwrap_err(), Error::Truncated);
}

#[test]
fn group_wire_types_are_tag_only() {
    let fs = unmarshal(&[0x0B, 0x0C, 0x08, 0x05]).unwrap();
    assert_eq!(fs.len(), 3);
    assert_eq!((fs[0].field_number, fs[0].wire_type), (1, 3));
    assert!(fs[0].value.is_none());
    assert_eq!((fs[1].field_number, fs[1].wire_type), (1, 4));
    assert!(fs[1].value.is_none());
    assert_eq!((fs[2].field_number, fs[2].wire_type), (1, 0));
    assert!(matches!(fs[2].value, Some(WireValue::Varint(5))));
}

#[test]
fn fields_in_wire_order() {
    let buf = [0x08, 0x01, 0x12, 0x02, 0x68, 0x69, 0x08, 0x02];
    let fs = unmarshal(&buf).unwrap();
    assert_eq!(fs.len(), 3);
    assert!(matches!(fs[0].value, Some(WireValue::Varint(1))));
    assert_eq!(bytes_of(&fs[1]), b"hi".to_vec());
    assert!(matches!(fs[2].value, Some(WireValue::Varint(2))));
}

#[test]
fn trailing_garbage_fails_whole_decode() {
    assert_eq!(unmarshal(&[0x08, 0x01, 0x08, 0x80]).unwrap_err(), Error::Varint);
}

#[test]
fn varint_one_byte() {
    assert_eq!(decode_varint(&[0x00]), (0, 1));
    assert_eq!(decode_varint(&[0x7F, 0xFF]), (0x7F, 1));
}

#[test]
fn varint_two_bytes() {
    assert_eq!(decode_varint(&[0xAC, 0x02]), (300, 2));
    assert_eq!(decode_varint(&[0x80, 0x01]), (128, 2));
}

#[test]
fn varint_max_value() {
    let buf = [0xFF, 0xFF, 0xFF, 0xFF, 0xFF, 0xFF, 0xFF, 0xFF, 0xFF, 0x01];
    assert_eq!(decode_varint(&buf), (u64::MAX, 10));
}

#[test]
fn varint_top_bit_only() {
    let buf = [0x80, 0x80, 0x80, 0x80, 0x80, 0x80, 0x80, 0x80, 0x80, 0x01];
    assert_eq!(decode_varint(&buf), (1u64 << 63, 10));
}

#[test]
fn varint_tenth_byte_too_large() {
    let buf = [0xFF, 0xFF, 0xFF, 0xFF, 0xFF, 0xFF, 0xFF, 0xFF, 0xFF, 0x02];
    assert_eq!(decode_varint(&buf), (0, 0));
}

#[test]
fn varint_eleven_bytes() {
    let buf = [0x80, 0x80, 0x80, 0x80, 0x80, 0x80, 0x80, 0x80, 0x80, 0x81, 0x00];
    assert_eq!(decode_varint(&buf), (0, 0));
}

#[test]
fn varint_unterminated() {
    assert_eq!(decode_varint(&[]), (0, 0));
    assert_eq!(decode_varint(&[0x96]), (0, 0));
}

fn encode(mut v: u64) -> Vec<u8> {
    let mut out = vec![];
    while v >= 0x80 {
        out.push((v as u8 & 0x7F) | 0x80);
        v >>= 7;
    }
    out.push(v as u8);
    out
}

#[test]
fn varint_round_trip_samples() {
    let samples = [0u64, 1, 127, 128, 16383, 16384, 1 << 35, (1 << 63) - 1, 1 << 63, u64::MAX];
    for v in samples {
        let mut buf = encode(v);
        let n = buf.len();
        buf.push(0x2A);
        assert_eq!(decode_varint(&buf), (v, n));
        let mut cur = Buffer::new(&buf);
        assert_eq!(cur.decode_varint(), Ok(v));
        assert_eq!(cur.idx, n);
    }
    assert_eq!(encode(127).len(), 1);
    assert_eq!(encode(u64::MAX).len(), 10);
}

#[test]
fn cursor_varint_failure_keeps_position() {
    let buf = [0x05, 0x96];
    let mut cur = Buffer::new(&buf);
    assert_eq!(cur.decode_varint(), Ok(5));
    assert_eq!(cur.idx, 1);
    assert_eq!(cur.decode_varint(), Err(Error::Varint));
    assert_eq!(cur.idx, 1);
}

#[test]
fn cursor_unmarshal_reaches_end() {
    let buf = [0x08, 0x96, 0x01, 0x12, 0x01, 0x7A];
    let mut cur = Buffer::new(&buf);
    let fs = cur.unmarshal().unwrap();
    assert_eq!(fs.len(), 2);
    assert_eq!(cur.idx, buf.len());
    assert_eq!(bytes_of(&fs[1]), vec![0x7A]);
}

#[test]
fn cursor_unmarshal_failure_is_atomic() {
    let buf = [0x08, 0x01, 0x12, 0x05, 0x61];
    let mut cur = Buffer::new(&buf);
    assert_eq!(cur.unmarshal().unwrap_err(), Error::Truncated);
    assert_eq!(cur.idx, 0);
    assert_eq!(cur.len, buf.len());
}

#[test]
fn cursor_respects_len() {
    let buf = [0x08, 0x01, 0xFF];
    let mut cur = Buffer { buf: &buf, idx: 0, len: 2 };
    let fs = cur.unmarshal().unwrap();
    assert_eq!(fs.len(), 1);
    assert_eq!(cur.idx, 2);
}

#[test]
fn tag_decomposition() {
    assert_eq!(split_tag(0x08), (1, 0));
    assert_eq!(split_tag(0x12), (2, 2));
    assert_eq!(split_tag(0x0D), (1, 5));
    assert_eq!(split_tag(u64::MAX), (u64::MAX >> 3, 7));
}
