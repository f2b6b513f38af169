use wirecodec::de::WireDecoder;
use wirecodec::en::WireEncoder;
use wirecodec::error::{ContextError, Error};
use wirecodec::integer::IntEncoding;
use wirecodec::reader::Reader;
use wirecodec::tag::Kind;
use wirecodec::writer::{BufferedWriter, Writer};

fn varint_decoder(data: &[u8]) -> WireDecoder<'_> {
    WireDecoder::new(Reader::new(data), IntEncoding::Varint, IntEncoding::Varint)
}

#[test]
fn expected_kind_mismatch() {
    // A sequence tag where a byte scalar is expected.
    let data = [0x81u8];
    let mut de = varint_decoder(&data);
    let e = de.decode_u8().unwrap_err();
    assert!(
        matches!(e, Error::Expected { expected: Kind::Byte, actual, pos: 0 } if actual.repr == 0x81)
    );
}

#[test]
fn bad_boolean() {
    let data = [5u8];
    let mut de = varint_decoder(&data);
    let e = de.decode_bool().unwrap_err();
    assert!(matches!(e, Error::BadBoolean { actual, pos: 0 } if actual.repr == 5));
}

#[test]
fn bad_character() {
    // 0xD800 is a surrogate, not a scalar value.
    let mut en = WireEncoder::new(IntEncoding::Varint, IntEncoding::Varint);
    en.encode_u32(0xD800);
    let data = en.into_bytes();
    let mut de = varint_decoder(data.as_slice());
    let e = de.decode_char().unwrap_err();
    assert!(matches!(e, Error::BadCharacter { value: 0xD800 }));

    let mut en = WireEncoder::new(IntEncoding::Varint, IntEncoding::Varint);
    en.encode_char('A');
    let data = en.into_bytes();
    let mut de = varint_decoder(data.as_slice());
    assert_eq!(de.decode_char().unwrap(), 'A');
}

#[test]
fn bad_length() {
    let mut en = WireEncoder::new(IntEncoding::Varint, IntEncoding::Varint);
    en.encode_bytes(&[1, 2, 3]);
    let data = en.into_bytes();
    let mut de = varint_decoder(data.as_slice());
    let e = de.decode_array::<4>().unwrap_err();
    assert!(matches!(e, Error::BadLength { actual: 3, expected: 4, pos: 0 }));

    let mut de = varint_decoder(data.as_slice());
    assert_eq!(de.decode_array::<3>().unwrap(), &[1, 2, 3]);
}

#[test]
fn expected_option() {
    let data = [0u8];
    let mut de = varint_decoder(&data);
    let e = de.decode_option().unwrap_err();
    assert!(matches!(e, Error::ExpectedOption { tag, pos: 0 } if tag.repr == 0));
}

#[test]
fn overflow_noncanonical_varint() {
    // A continuation group followed by a zero final group inflates the
    // length beyond the minimum and is refused.
    let data = [0xff, 0x80, 0x00];
    let mut de = varint_decoder(&data);
    let e = de.decode_u128().unwrap_err();
    assert!(matches!(e, Error::Overflow));
}

#[test]
fn overflow_beyond_width() {
    // 65536 does not fit a u16.
    let mut en = WireEncoder::new(IntEncoding::Varint, IntEncoding::Varint);
    en.encode_u32(65536);
    let data = en.into_bytes();
    let mut de = varint_decoder(data.as_slice());
    let e = de.decode_u16().unwrap_err();
    assert!(matches!(e, Error::Overflow));
}

#[test]
fn truncated() {
    let mut de = varint_decoder(&[]);
    assert!(matches!(de.decode_u8().unwrap_err(), Error::Truncated));

    // A sentinel byte tag with no byte after it.
    let data = [0x3f];
    let mut de = varint_decoder(&data);
    assert!(matches!(de.decode_u8().unwrap_err(), Error::Truncated));
}

#[test]
fn bad_utf8() {
    // Were the string decoder to hand the raw bytes back unchecked, this
    // would succeed; it must refuse invalid UTF-8.
    let mut en = WireEncoder::new(IntEncoding::Varint, IntEncoding::Varint);
    en.encode_bytes(&[0xff, 0xfe]);
    let data = en.into_bytes();
    let mut de = varint_decoder(data.as_slice());
    assert!(matches!(de.decode_string().unwrap_err(), Error::BadUtf8));
}

#[test]
fn buffer_overflow() {
    let mut w: BufferedWriter<4, Vec<u8>> = BufferedWriter::new(Vec::new());
    let e = Writer::write_bytes(&mut w, &[1, 2, 3, 4, 5]).unwrap_err();
    assert!(matches!(e, Error::BufferOverflow));
}

#[test]
fn custom_errors() {
    let e = Error::custom(String::from("boom"));
    assert!(matches!(e, Error::Custom(ref m) if m == "boom"));
    let e = Error::message(String::from("boom"));
    assert!(matches!(e, Error::Custom(ref m) if m == "boom"));
    let s = String::custom(String::from("boom"));
    assert_eq!(s, "boom");
    let s = String::message(String::from("boom"));
    assert_eq!(s, "boom");
}
