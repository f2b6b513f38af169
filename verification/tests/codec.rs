use rand::Rng;
use rand::SeedableRng;
use wirecodec::continuation;
use wirecodec::de::WireDecoder;
use wirecodec::en::WireEncoder;
use wirecodec::integer::{ByteOrder, IntEncoding};
use wirecodec::reader::Reader;
use wirecodec::zigzag;

fn cont_rt(expected: u128) {
    let mut out = Vec::new();
    continuation::encode(&mut out, expected);
    continuation::encode(&mut out, expected);
    let mut reader = Reader::new(out.as_slice());
    let a = continuation::decode(&mut reader).unwrap();
    let b = continuation::decode(&mut reader).unwrap();
    assert_eq!(reader.remaining(), 0);
    assert_eq!(a, expected);
    assert_eq!(b, expected);
}

fn cont_encode(value: u128) -> Vec<u8> {
    let mut out = Vec::new();
    continuation::encode(&mut out, value);
    out
}

#[test]
fn test_continuation_encoding() {
    cont_rt(0);
    cont_rt(1);
    cont_rt(42);
    cont_rt(127);
    cont_rt(128);
    cont_rt(128 << 8);
    cont_rt(usize::MAX as u128);
    cont_rt(u16::MAX as u128);
    cont_rt(u32::MAX as u128);
    cont_rt(u64::MAX as u128);
    cont_rt(u128::MAX);

    let mut rng = rand::rngs::StdRng::seed_from_u64(0xfd80fd80fd80fd80);
    for _ in 0..10000 {
        let value = rng.gen::<usize>();
        cont_rt(value as u128);
    }

    assert_eq!(cont_encode(1000u128), vec![232, 7]);
    let mut reader = Reader::new(&[232, 7]);
    assert_eq!(continuation::decode(&mut reader).unwrap(), 1000);
}

#[test]
fn test_zigzag() {
    assert_eq!(zigzag::encode_isize(0), 0);
    assert_eq!(zigzag::encode_isize(-1), 1);
    assert_eq!(zigzag::encode_isize(1), 2);
    assert_eq!(zigzag::encode_isize(-2), 3);
    assert_eq!(zigzag::encode_isize(2), 4);
    assert_eq!(zigzag::encode_isize(isize::MAX), usize::MAX - 1);
    assert_eq!(zigzag::encode_isize(isize::MIN), usize::MAX);
    assert_eq!(zigzag::decode_isize(0), 0);
    assert_eq!(zigzag::decode_isize(1), -1);
    assert_eq!(zigzag::decode_isize(2), 1);
    assert_eq!(zigzag::decode_isize(3), -2);
    assert_eq!(zigzag::decode_isize(4), 2);
    assert_eq!(zigzag::decode_isize(usize::MAX - 1), isize::MAX);
    assert_eq!(zigzag::decode_isize(usize::MAX), isize::MIN);

    assert_eq!(zigzag::encode_i16(0), 0);
    assert_eq!(zigzag::encode_i16(-1), 1);
    assert_eq!(zigzag::encode_i16(1), 2);
    assert_eq!(zigzag::encode_i16(-2), 3);
    assert_eq!(zigzag::encode_i16(2), 4);
    assert_eq!(zigzag::encode_i16(i16::MAX), u16::MAX - 1);
    assert_eq!(zigzag::encode_i16(i16::MIN), u16::MAX);
    assert_eq!(zigzag::decode_i16(0), 0);
    assert_eq!(zigzag::decode_i16(1), -1);
    assert_eq!(zigzag::decode_i16(2), 1);
    assert_eq!(zigzag::decode_i16(3), -2);
    assert_eq!(zigzag::decode_i16(4), 2);
    assert_eq!(zigzag::decode_i16(u16::MAX - 1), i16::MAX);
    assert_eq!(zigzag::decode_i16(u16::MAX), i16::MIN);

    assert_eq!(zigzag::encode_i32(0), 0);
    assert_eq!(zigzag::encode_i32(-1), 1);
    assert_eq!(zigzag::encode_i32(1), 2);
    assert_eq!(zigzag::encode_i32(-2), 3);
    assert_eq!(zigzag::encode_i32(2), 4);
    assert_eq!(zigzag::encode_i32(i32::MAX), u32::MAX - 1);
    assert_eq!(zigzag::encode_i32(i32::MIN), u32::MAX);
    assert_eq!(zigzag::decode_i32(0), 0);
    assert_eq!(zigzag::decode_i32(1), -1);
    assert_eq!(zigzag::decode_i32(2), 1);
    assert_eq!(zigzag::decode_i32(3), -2);
    assert_eq!(zigzag::decode_i32(4), 2);
    assert_eq!(zigzag::decode_i32(u32::MAX - 1), i32::MAX);
    assert_eq!(zigzag::decode_i32(u32::MAX), i32::MIN);

    assert_eq!(zigzag::encode_i64(0), 0);
    assert_eq!(zigzag::encode_i64(-1), 1);
    assert_eq!(zigzag::encode_i64(1), 2);
    assert_eq!(zigzag::encode_i64(-2), 3);
    assert_eq!(zigzag::encode_i64(2), 4);
    assert_eq!(zigzag::encode_i64(i64::MAX), u64::MAX - 1);
    assert_eq!(zigzag::encode_i64(i64::MIN), u64::MAX);
    assert_eq!(zigzag::decode_i64(0), 0);
    assert_eq!(zigzag::decode_i64(1), -1);
    assert_eq!(zigzag::decode_i64(2), 1);
    assert_eq!(zigzag::decode_i64(3), -2);
    assert_eq!(zigzag::decode_i64(4), 2);
    assert_eq!(zigzag::decode_i64(u64::MAX - 1), i64::MAX);
    assert_eq!(zigzag::decode_i64(u64::MAX), i64::MIN);

    assert_eq!(zigzag::encode_i128(0), 0);
    assert_eq!(zigzag::encode_i128(-1), 1);
    assert_eq!(zigzag::encode_i128(1), 2);
    assert_eq!(zigzag::encode_i128(-2), 3);
    assert_eq!(zigzag::encode_i128(2), 4);
    assert_eq!(zigzag::encode_i128(i128::MAX), u128::MAX - 1);
    assert_eq!(zigzag::encode_i128(i128::MIN), u128::MAX);
    assert_eq!(zigzag::decode_i128(0), 0);
    assert_eq!(zigzag::decode_i128(1), -1);
    assert_eq!(zigzag::decode_i128(2), 1);
    assert_eq!(zigzag::decode_i128(3), -2);
    assert_eq!(zigzag::decode_i128(4), 2);
    assert_eq!(zigzag::decode_i128(u128::MAX - 1), i128::MAX);
    assert_eq!(zigzag::decode_i128(u128::MAX), i128::MIN);
}

#[test]
fn test_deserialize_roundtrip() {
    let mut en = WireEncoder::new(IntEncoding::Varint, IntEncoding::Varint);
    en.encode_pair_sequence_header(2);
    en.encode_usize(0);
    en.encode_str("Jane Doe");
    en.encode_usize(1);
    en.encode_u32(42);
    let data = en.into_bytes();

    let de = WireDecoder::new(
        Reader::new(data.as_slice()),
        IntEncoding::Varint,
        IntEncoding::Varint,
    );
    let mut st = de.decode_struct(2).unwrap();
    assert_eq!(st.size_hint(), Some(2));
    assert!(st.decode_next());
    assert_eq!(st.decoder.decode_usize().unwrap(), 0);
    let name = st.decoder.decode_string().unwrap();
    assert!(st.decode_next());
    assert_eq!(st.decoder.decode_usize().unwrap(), 1);
    let age = st.decoder.decode_u32().unwrap();
    assert!(!st.decode_next());
    assert_eq!(name, "Jane Doe");
    assert_eq!(age, 42);
}

fn policies() -> Vec<IntEncoding> {
    vec![
        IntEncoding::Varint,
        IntEncoding::Fixed(ByteOrder::Little),
        IntEncoding::Fixed(ByteOrder::Big),
    ]
}

#[test]
fn scalar_roundtrip_all_policies() {
    for ip in policies() {
        for lp in policies() {
            let mut en = WireEncoder::new(ip, lp);
            en.encode_bool(true);
            en.encode_bool(false);
            en.encode_u8(5);
            en.encode_u8(200);
            en.encode_u16(40000);
            en.encode_u32(3_000_000_000);
            en.encode_u64(u64::MAX);
            en.encode_u128(u128::MAX);
            en.encode_i8(-7);
            en.encode_i16(-30000);
            en.encode_i32(i32::MIN);
            en.encode_i64(i64::MAX);
            en.encode_i128(i128::MIN);
            en.encode_char('\u{1F600}');
            en.encode_usize(123456);
            en.encode_isize(-98765);
            en.encode_str("hello");
            en.encode_str("a string of more than sixty-three bytes, so its length leaves the tag and follows under the length policy");
            en.encode_bytes(&[1, 2, 3]);
            let data = en.into_bytes();

            let mut de = WireDecoder::new(Reader::new(data.as_slice()), ip, lp);
            assert_eq!(de.decode_bool().unwrap(), true);
            assert_eq!(de.decode_bool().unwrap(), false);
            assert_eq!(de.decode_u8().unwrap(), 5);
            assert_eq!(de.decode_u8().unwrap(), 200);
            assert_eq!(de.decode_u16().unwrap(), 40000);
            assert_eq!(de.decode_u32().unwrap(), 3_000_000_000);
            assert_eq!(de.decode_u64().unwrap(), u64::MAX);
            assert_eq!(de.decode_u128().unwrap(), u128::MAX);
            assert_eq!(de.decode_i8().unwrap(), -7);
            assert_eq!(de.decode_i16().unwrap(), -30000);
            assert_eq!(de.decode_i32().unwrap(), i32::MIN);
            assert_eq!(de.decode_i64().unwrap(), i64::MAX);
            assert_eq!(de.decode_i128().unwrap(), i128::MIN);
            assert_eq!(de.decode_char().unwrap(), '\u{1F600}');
            assert_eq!(de.decode_usize().unwrap(), 123456);
            assert_eq!(de.decode_isize().unwrap(), -98765);
            assert_eq!(de.decode_string().unwrap(), "hello");
            assert_eq!(
                de.decode_string().unwrap(),
                "a string of more than sixty-three bytes, so its length leaves the tag and follows under the length policy"
            );
            assert_eq!(de.decode_bytes().unwrap(), &[1, 2, 3]);
            assert_eq!(de.reader.remaining(), 0);
        }
    }
}

#[test]
fn option_markers() {
    // Some(5u8) begins with Tag(Sequence, 1) then Tag(Byte, 5).
    let mut en = WireEncoder::new(IntEncoding::Varint, IntEncoding::Varint);
    en.encode_some_marker();
    en.encode_u8(5);
    assert_eq!(en.into_bytes(), vec![0x81, 5]);

    // None is the single byte Tag(Sequence, 0).
    let mut en = WireEncoder::new(IntEncoding::Varint, IntEncoding::Varint);
    en.encode_none();
    assert_eq!(en.into_bytes(), vec![0x80]);

    let data = vec![0x81, 5];
    let mut de = WireDecoder::new(
        Reader::new(data.as_slice()),
        IntEncoding::Varint,
        IntEncoding::Varint,
    );
    assert_eq!(de.decode_option().unwrap(), true);
    assert_eq!(de.decode_u8().unwrap(), 5);

    let data = vec![0x80];
    let mut de = WireDecoder::new(
        Reader::new(data.as_slice()),
        IntEncoding::Varint,
        IntEncoding::Varint,
    );
    assert_eq!(de.decode_option().unwrap(), false);
}

#[test]
fn forward_compat_skip() {
    // A newer writer encodes a struct of three fields; an older reader that
    // knows two of them skips the appended pair and ends cleanly.
    let mut en = WireEncoder::new(IntEncoding::Varint, IntEncoding::Varint);
    en.encode_pair_sequence_header(3);
    en.encode_usize(0);
    en.encode_u32(11);
    en.encode_usize(1);
    en.encode_u32(22);
    en.encode_usize(2);
    en.encode_u32(33);
    let data = en.into_bytes();

    let de = WireDecoder::new(
        Reader::new(data.as_slice()),
        IntEncoding::Varint,
        IntEncoding::Varint,
    );
    let mut st = de.decode_struct(2).unwrap();
    assert_eq!(st.size_hint(), Some(3));
    assert!(st.decode_next());
    assert_eq!(st.decoder.decode_usize().unwrap(), 0);
    assert_eq!(st.decoder.decode_u32().unwrap(), 11);
    assert!(st.decode_next());
    assert_eq!(st.decoder.decode_usize().unwrap(), 1);
    assert_eq!(st.decoder.decode_u32().unwrap(), 22);
    assert!(st.decode_next());
    st.decoder.skip_any().unwrap();
    st.decoder.skip_any().unwrap();
    assert_eq!(st.decoder.reader.remaining(), 0);
}

#[test]
fn skip_any_identity() {
    // Skipping one value of any shape lands exactly past its last byte.
    let mut en = WireEncoder::new(IntEncoding::Varint, IntEncoding::Varint);
    en.encode_u8(200);
    let boundary1 = en.out.len();
    en.encode_str("a longer string that does not fit the tag's data field, taking the sentinel path");
    let boundary2 = en.out.len();
    en.encode_sequence_header(2);
    en.encode_u128(1 << 100);
    en.encode_bool(true);
    let boundary3 = en.out.len();
    en.encode_u8(1);
    let data = en.into_bytes();

    let mut de = WireDecoder::new(
        Reader::new(data.as_slice()),
        IntEncoding::Varint,
        IntEncoding::Varint,
    );
    de.skip_any().unwrap();
    assert_eq!(de.reader.pos(), boundary1);
    de.skip_any().unwrap();
    assert_eq!(de.reader.pos(), boundary2);
    de.skip_any().unwrap();
    assert_eq!(de.reader.pos(), boundary3);
    de.skip_any().unwrap();
    assert_eq!(de.reader.remaining(), 0);
}

#[test]
fn variant_markers() {
    let mut en = WireEncoder::new(IntEncoding::Varint, IntEncoding::Varint);
    en.encode_variant_marker();
    en.encode_usize(1);
    en.encode_u32(7);
    let data = en.into_bytes();
    assert_eq!(data[0], 0x82);

    let mut de = WireDecoder::new(
        Reader::new(data.as_slice()),
        IntEncoding::Varint,
        IntEncoding::Varint,
    );
    de.decode_variant().unwrap();
    assert_eq!(de.decode_usize().unwrap(), 1);
    assert_eq!(de.decode_u32().unwrap(), 7);
}

#[test]
fn pack_bounds() {
    let mut en = WireEncoder::new(IntEncoding::Varint, IntEncoding::Varint);
    en.encode_bytes(&[9, 9, 9, 9]);
    en.encode_u8(42);
    let data = en.into_bytes();

    let mut de = WireDecoder::new(
        Reader::new(data.as_slice()),
        IntEncoding::Varint,
        IntEncoding::Varint,
    );
    let mut sub = de.decode_pack().unwrap();
    // The sub-decoder refuses to read past the packed region.
    assert_eq!(sub.reader.remaining(), 4);
    assert!(sub.reader.read_bytes(5).is_err());
    // Whatever the sub-decoder consumed, the parent stands past the pack.
    assert_eq!(de.decode_u8().unwrap(), 42);
    sub.finish().unwrap();
}

#[test]
fn map_roundtrip() {
    let mut en = WireEncoder::new(IntEncoding::Varint, IntEncoding::Varint);
    en.encode_pair_sequence_header(2);
    en.encode_str("one");
    en.encode_u32(1);
    en.encode_str("two");
    en.encode_u32(2);
    let data = en.into_bytes();

    let de = WireDecoder::new(
        Reader::new(data.as_slice()),
        IntEncoding::Varint,
        IntEncoding::Varint,
    );
    let mut m = de.decode_map().unwrap();
    assert_eq!(m.size_hint(), Some(2));
    assert!(m.decode_entry());
    assert_eq!(m.decoder.decode_string().unwrap(), "one");
    assert_eq!(m.decoder.decode_u32().unwrap(), 1);
    assert!(m.decode_entry());
    assert_eq!(m.decoder.decode_string().unwrap(), "two");
    // An unknown value is skipped without knowing its type.
    assert!(m.decoder.skip_second().unwrap());
    assert!(!m.decode_entry());
    assert_eq!(m.decoder.reader.remaining(), 0);
}
