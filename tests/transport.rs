use byte_transport::{decode, encode, ByteDecode, ByteEncode, Decoder, Error};

#[test]
fn u64_transport() -> Result<(), Error> {
    let mut bytes: Vec<u8> = Vec::new();
    let test_val = 5u64;
    test_val.simple_encode(&mut bytes)?;
    let mut decoder = Decoder { index: 0, bytes };
    let decoded_val = u64::simple_decode(&mut decoder)?;

    assert!(
        test_val == decoded_val,
        "Test Val: {} does not match Decoded Val: {}",
        test_val,
        decoded_val
    );
    Ok(())
}

#[test]
fn simple_vector() -> Result<(), Error> {
    let mut bytes: Vec<u8> = Vec::new();
    let test_val: Vec<u64> = vec![5, 3, 3, 9];

    test_val.simple_encode(&mut bytes)?;
    let mut decoder = Decoder { index: 0, bytes };
    let decoded_val = Vec::<u64>::simple_decode(&mut decoder)?;
    assert!(
        test_val == decoded_val,
        "Test Val: {:?} does not match Decoded Val: {:?}",
        test_val,
        decoded_val
    );
    Ok(())
}

#[test]
fn u64_five_is_little_endian() {
    assert_eq!(encode(&5u64), vec![5, 0, 0, 0, 0, 0, 0, 0]);
    assert_eq!(decode::<u64>(vec![5, 0, 0, 0, 0, 0, 0, 0]), Ok(5));
}

#[test]
fn integer_widths_and_byte_order() {
    assert_eq!(encode(&0x0102u16), vec![2, 1]);
    assert_eq!(encode(&0x01020304u32), vec![4, 3, 2, 1]);
    assert_eq!(encode(&-1i32), vec![0xff; 4]);
    assert_eq!(encode(&-2i16), vec![0xfe, 0xff]);
    assert_eq!(encode(&-128i8), vec![0x80]);
    assert_eq!(encode(&1u128).len(), 16);
    assert_eq!(encode(&i128::MIN)[15], 0x80);
    assert_eq!(decode::<i64>(vec![0xff; 8]), Ok(-1));
}

fn round_trip<T>(v: T)
where
    T: ByteEncode + ByteDecode + PartialEq + std::fmt::Debug,
{
    let bytes = encode(&v);
    let mut decoder = Decoder::new(bytes);
    let back = T::simple_decode(&mut decoder).unwrap();
    assert_eq!(back, v);
    assert_eq!(decoder.index, decoder.bytes.len());
}

#[test]
fn integer_boundaries_round_trip() {
    for v in [0u8, u8::MAX] {
        round_trip(v);
    }
    for v in [0u16, u16::MAX] {
        round_trip(v);
    }
    for v in [0u32, u32::MAX] {
        round_trip(v);
    }
    for v in [0u64, u64::MAX] {
        round_trip(v);
    }
    for v in [0u128, u128::MAX] {
        round_trip(v);
    }
    for v in [0i8, i8::MIN, i8::MAX] {
        round_trip(v);
    }
    for v in [0i16, i16::MIN, i16::MAX] {
        round_trip(v);
    }
    for v in [0i32, i32::MIN, i32::MAX] {
        round_trip(v);
    }
    for v in [0i64, i64::MIN, i64::MAX] {
        round_trip(v);
    }
    for v in [0i128, i128::MIN, i128::MAX] {
        round_trip(v);
    }
}

#[test]
fn bool_encoding() {
    assert_eq!(encode(&true), vec![1]);
    assert_eq!(encode(&false), vec![0]);
    round_trip(true);
    round_trip(false);
    assert_eq!(decode::<bool>(vec![2]), Err(Error::InvalidBool));
}

#[test]
fn option_encoding() {
    assert_eq!(encode(&None::<u8>), vec![0]);
    assert_eq!(encode(&Some(7u8)), vec![1, 7]);
    assert_eq!(encode(&Some(0x0102u16)), vec![1, 2, 1]);
    round_trip(None::<u32>);
    round_trip(Some(u32::MAX));
    round_trip(Some(Some(false)));
    assert_eq!(decode::<Option<u8>>(vec![2, 7]), Err(Error::InvalidOptionFlag));
    assert_eq!(decode::<Option<u8>>(vec![1]), Err(Error::Truncated));
}

#[test]
fn string_encoding() {
    let s = String::from("h\u{e9}llo");
    let bytes = encode(&s);
    assert_eq!(bytes[..8], [6, 0, 0, 0, 0, 0, 0, 0]);
    assert_eq!(bytes[8..], *"h\u{e9}llo".as_bytes());
    round_trip(s);
    assert_eq!(encode(&String::new()), vec![0; 8]);
    round_trip(String::new());
}

#[test]
fn string_decode_is_lossy() {
    let bytes = vec![3, 0, 0, 0, 0, 0, 0, 0, b'a', 0xff, b'b'];
    assert_eq!(decode::<String>(bytes), Ok(String::from("a\u{fffd}b")));
}

#[test]
fn string_longer_than_buffer_is_truncated() {
    let bytes = vec![4, 0, 0, 0, 0, 0, 0, 0, b'a', b'b'];
    assert_eq!(decode::<String>(bytes), Err(Error::Truncated));
}

#[test]
fn sequence_encoding() {
    assert_eq!(encode(&Vec::<u32>::new()), vec![0, 0]);
    round_trip(Vec::<u32>::new());
    assert_eq!(encode(&vec![1u8, 2, 3]), vec![3, 0, 1, 2, 3]);
    round_trip(vec![String::from("a"), String::new()]);
    round_trip(vec![vec![1i16, -1], vec![]]);
}

#[test]
fn sequence_count_wraps_at_sixteen_bits() {
    let long: Vec<u8> = (0..70_000u32).map(|i| (i % 251) as u8).collect();
    let bytes = encode(&long);
    assert_eq!(bytes[..2], [0x70, 0x11]);
    let back = decode::<Vec<u8>>(bytes).unwrap();
    assert_eq!(back.len(), 4_464);
    assert_eq!(back[..], long[..4_464]);
}

#[test]
fn sequence_count_beyond_elements_is_truncated() {
    assert_eq!(decode::<Vec<u16>>(vec![3, 0, 1, 0, 2, 0]), Err(Error::Truncated));
}

#[test]
fn array_has_no_prefix() {
    assert_eq!(encode(&[1u16, 2, 3]), vec![1, 0, 2, 0, 3, 0]);
    round_trip([1u16, 2, 3]);
    round_trip([[true, false], [false, true]]);
    round_trip::<[u64; 0]>([]);
    assert_eq!(decode::<[u16; 3]>(vec![1, 0, 2, 0, 3]), Err(Error::Truncated));
}

#[test]
fn short_buffers_are_truncated() {
    assert_eq!(decode::<u8>(vec![]), Err(Error::Truncated));
    assert_eq!(decode::<i8>(vec![]), Err(Error::Truncated));
    assert_eq!(decode::<u16>(vec![1]), Err(Error::Truncated));
    assert_eq!(decode::<i16>(vec![1]), Err(Error::Truncated));
    assert_eq!(decode::<u32>(vec![1, 2, 3]), Err(Error::Truncated));
    assert_eq!(decode::<i32>(vec![1, 2, 3]), Err(Error::Truncated));
    assert_eq!(decode::<u64>(vec![0; 7]), Err(Error::Truncated));
    assert_eq!(decode::<i64>(vec![0; 7]), Err(Error::Truncated));
    assert_eq!(decode::<u128>(vec![0; 15]), Err(Error::Truncated));
    assert_eq!(decode::<i128>(vec![0; 15]), Err(Error::Truncated));
    assert_eq!(decode::<bool>(vec![]), Err(Error::Truncated));
    assert_eq!(decode::<Option<u8>>(vec![]), Err(Error::Truncated));
    assert_eq!(decode::<Vec<u8>>(vec![1]), Err(Error::Truncated));
    assert_eq!(decode::<String>(vec![0; 7]), Err(Error::Truncated));
}

#[test]
fn decoder_reads_in_sequence() {
    let mut bytes = Vec::new();
    7u8.simple_encode(&mut bytes).unwrap();
    (-3i32).simple_encode(&mut bytes).unwrap();
    true.simple_encode(&mut bytes).unwrap();
    let mut decoder = Decoder::new(bytes);
    assert_eq!(u8::simple_decode(&mut decoder), Ok(7));
    assert_eq!(decoder.index, 1);
    assert_eq!(i32::simple_decode(&mut decoder), Ok(-3));
    assert_eq!(decoder.index, 5);
    assert_eq!(bool::simple_decode(&mut decoder), Ok(true));
    assert_eq!(u8::simple_decode(&mut decoder), Err(Error::Truncated));
    assert_eq!(decoder.index, 6);
}

#[test]
fn decoder_raw_reads() {
    let mut decoder = Decoder::new(vec![1, 2, 3]);
    assert_eq!(decoder.read_fixed(2), Ok(vec![1, 2]));
    assert_eq!(decoder.read_fixed(2), Err(Error::Truncated));
    assert_eq!(decoder.index, 2);
    assert_eq!(decoder.read_byte(), Ok(3));
    assert_eq!(decoder.read_byte(), Err(Error::Truncated));
    assert_eq!(decoder.read_fixed(0), Ok(vec![]));
}

#[test]
fn decoder_index_past_end_is_truncated() {
    let mut decoder = Decoder { index: 9, bytes: vec![1, 2] };
    assert_eq!(u16::simple_decode(&mut decoder), Err(Error::Truncated));
    assert_eq!(decoder.index, 9);
}

#[test]
fn every_strict_prefix_is_truncated() {
    let value: Vec<Option<String>> = vec![Some(String::from("xy")), None, Some(String::new())];
    let bytes = encode(&value);
    for k in 0..bytes.len() {
        assert_eq!(
            decode::<Vec<Option<String>>>(bytes[..k].to_vec()),
            Err(Error::Truncated),
            "prefix of {} bytes",
            k
        );
    }
    assert_eq!(decode::<Vec<Option<String>>>(bytes), Ok(value));

    let pairs = [[1u32, 2], [3, 4]];
    let bytes = encode(&pairs);
    for k in 0..bytes.len() {
        assert_eq!(decode::<[[u32; 2]; 2]>(bytes[..k].to_vec()), Err(Error::Truncated));
    }
}

#[test]
fn failed_decode_keeps_cursor_in_buffer() {
    let mut decoder = Decoder { index: 1, bytes: vec![9, 1, 2] };
    assert_eq!(u32::simple_decode(&mut decoder), Err(Error::Truncated));
    assert_eq!(decoder.index, 1);

    let mut decoder = Decoder::new(vec![2, 0, 5, 0, 0, 0, 0, 0, 0, 0]);
    assert_eq!(Vec::<u64>::simple_decode(&mut decoder), Err(Error::Truncated));
    assert!(decoder.index <= decoder.bytes.len());

    let mut decoder = Decoder::new(vec![9, 0, 0, 0, 0, 0, 0, 0, b'a']);
    assert_eq!(String::simple_decode(&mut decoder), Err(Error::Truncated));
    assert!(decoder.index <= decoder.bytes.len());

    let mut decoder = Decoder::new(vec![1]);
    assert_eq!(Option::<u16>::simple_decode(&mut decoder), Err(Error::Truncated));
    assert!(decoder.index <= decoder.bytes.len());
}
