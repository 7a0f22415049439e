use byte_transport::{decode_value, encode_value, Decoder, Error, Shape, Value};

fn sub_struct_shape() -> Shape {
    Shape::Product(vec![Shape::Bool, Shape::I32])
}

fn test_struct_shape() -> Shape {
    Shape::Product(vec![
        Shape::I32,
        Shape::I64,
        Shape::Optional(Box::new(sub_struct_shape())),
    ])
}

fn test_enum_shape() -> Shape {
    Shape::Sum(vec![
        vec![],
        vec![Shape::I32, Shape::I32],
        vec![Shape::I32, Shape::Bool],
    ])
}

fn encoded(value: &Value) -> Vec<u8> {
    let mut bytes: Vec<u8> = Vec::new();
    encode_value(value, &mut bytes).unwrap();
    bytes
}

fn decoded(shape: &Shape, bytes: Vec<u8>) -> Result<Value, Error> {
    decode_value(shape, &mut Decoder::new(bytes))
}

#[test]
fn macro_struct_test() -> Result<(), Error> {
    let test_struct = Value::Product(vec![
        Value::I32(0i32),
        Value::I64(5i64),
        Value::Optional(None),
    ]);

    let mut bytes: Vec<u8> = Vec::new();
    encode_value(&test_struct, &mut bytes)?;
    let decoded_test_struct = decode_value(&test_struct_shape(), &mut Decoder::new(bytes))?;
    assert_eq!(test_struct, decoded_test_struct);

    Ok(())
}

#[test]
fn macro_enum_test() -> Result<(), Error> {
    let shape = test_enum_shape();

    let test_enum_a = Value::Variant(0, vec![]);
    let mut bytes_a: Vec<u8> = Vec::new();
    encode_value(&test_enum_a, &mut bytes_a)?;
    let decoded_test_enum_a = decode_value(&shape, &mut Decoder::new(bytes_a))?;
    assert_eq!(test_enum_a, decoded_test_enum_a);

    let test_enum_b = Value::Variant(1, vec![Value::I32(0i32), Value::I32(5i32)]);
    let mut bytes_b: Vec<u8> = Vec::new();
    encode_value(&test_enum_b, &mut bytes_b)?;
    let decoded_test_enum_b = decode_value(&shape, &mut Decoder::new(bytes_b))?;
    assert_eq!(test_enum_b, decoded_test_enum_b);

    let test_enum_c = Value::Variant(2, vec![Value::I32(0i32), Value::Bool(false)]);
    let mut bytes_c: Vec<u8> = Vec::new();
    encode_value(&test_enum_c, &mut bytes_c)?;
    let decoded_test_enum_c = decode_value(&shape, &mut Decoder::new(bytes_c))?;
    assert_eq!(test_enum_c, decoded_test_enum_c);

    Ok(())
}

#[test]
fn product_type_bytes() {
    let value = Value::Product(vec![Value::I32(0), Value::I64(5), Value::Optional(None)]);
    let bytes = encoded(&value);
    assert_eq!(bytes, vec![0, 0, 0, 0, 5, 0, 0, 0, 0, 0, 0, 0, 0]);
    assert_eq!(decoded(&test_struct_shape(), bytes), Ok(value));
}

#[test]
fn nested_product_round_trip() {
    let sub = Value::Product(vec![Value::Bool(true), Value::I32(-7)]);
    let value = Value::Product(vec![
        Value::I32(i32::MIN),
        Value::I64(i64::MAX),
        Value::Optional(Some(Box::new(sub))),
    ]);
    let bytes = encoded(&value);
    assert_eq!(bytes.len(), 4 + 8 + 1 + 1 + 4);
    assert_eq!(bytes[12..], [1, 1, 0xf9, 0xff, 0xff, 0xff]);
    assert_eq!(decoded(&test_struct_shape(), bytes), Ok(value));
}

#[test]
fn sum_type_bytes() {
    let shape = test_enum_shape();
    assert_eq!(encoded(&Value::Variant(0, vec![])), vec![0]);
    let b = Value::Variant(1, vec![Value::I32(0), Value::I32(5)]);
    assert_eq!(encoded(&b), vec![1, 0, 0, 0, 0, 5, 0, 0, 0]);
    let c = Value::Variant(2, vec![Value::I32(0), Value::Bool(false)]);
    assert_eq!(encoded(&c), vec![2, 0, 0, 0, 0, 0]);
    assert_eq!(decoded(&shape, vec![1, 0, 0, 0, 0, 5, 0, 0, 0]), Ok(b));
    assert_eq!(decoded(&shape, vec![2, 0, 0, 0, 0, 0]), Ok(c));
}

#[test]
fn unknown_discriminant_is_rejected() {
    let shape = test_enum_shape();
    assert_eq!(decoded(&shape, vec![3]), Err(Error::DecodingEnumVariant(3)));
    assert_eq!(decoded(&shape, vec![255, 0, 0]), Err(Error::DecodingEnumVariant(255)));
    assert_eq!(decoded(&Shape::Sum(vec![]), vec![0]), Err(Error::DecodingEnumVariant(0)));
}

#[test]
fn schema_errors() {
    let shape = test_enum_shape();
    assert_eq!(decoded(&shape, vec![]), Err(Error::Truncated));
    assert_eq!(decoded(&shape, vec![1, 0, 0, 0, 0, 5]), Err(Error::Truncated));
    assert_eq!(decoded(&shape, vec![2, 0, 0, 0, 0, 9]), Err(Error::InvalidBool));
    let opt = Shape::Optional(Box::new(Shape::U8));
    assert_eq!(decoded(&opt, vec![4]), Err(Error::InvalidOptionFlag));
}

#[test]
fn schema_sequences_and_text() {
    let shape = Shape::Sequence(Box::new(Shape::Product(vec![Shape::Text, Shape::U16])));
    let value = Value::Sequence(vec![
        Value::Product(vec![Value::Text(String::from("ab")), Value::U16(258)]),
        Value::Product(vec![Value::Text(String::new()), Value::U16(0)]),
    ]);
    let bytes = encoded(&value);
    assert_eq!(bytes[..2], [2, 0]);
    assert_eq!(bytes[2..10], [2, 0, 0, 0, 0, 0, 0, 0]);
    assert_eq!(bytes[10..14], [b'a', b'b', 2, 1]);
    assert_eq!(bytes.len(), 2 + (8 + 2 + 2) + (8 + 2));
    assert_eq!(decoded(&shape, bytes), Ok(value));
}

#[test]
fn schema_sequence_count_wraps() {
    let shape = Shape::Sequence(Box::new(Shape::U8));
    let items: Vec<Value> = (0..70_000u32).map(|i| Value::U8((i % 7) as u8)).collect();
    let bytes = encoded(&Value::Sequence(items));
    match decoded(&shape, bytes) {
        Ok(Value::Sequence(back)) => {
            assert_eq!(back.len(), 4_464);
            assert_eq!(back[4_463], Value::U8((4_463 % 7) as u8));
        }
        other => panic!("unexpected decode: {:?}", other),
    }
}

#[test]
fn schema_primitives_match_trait_encoding() {
    let cases = vec![
        (Shape::U8, Value::U8(200)),
        (Shape::U32, Value::U32(0xdeadbeef)),
        (Shape::U64, Value::U64(5)),
        (Shape::U128, Value::U128(u128::MAX)),
        (Shape::I8, Value::I8(-1)),
        (Shape::I16, Value::I16(i16::MIN)),
        (Shape::I128, Value::I128(-2)),
    ];
    assert_eq!(encoded(&Value::U64(5)), byte_transport::encode(&5u64));
    assert_eq!(encoded(&Value::I16(i16::MIN)), byte_transport::encode(&i16::MIN));
    for (shape, value) in cases {
        let bytes = encoded(&value);
        assert_eq!(decoded(&shape, bytes), Ok(value));
    }
}

#[test]
fn every_strict_prefix_of_a_declared_value_is_truncated() {
    let sub = Value::Product(vec![Value::Bool(false), Value::I32(9)]);
    let value = Value::Product(vec![
        Value::I32(1),
        Value::I64(-1),
        Value::Optional(Some(Box::new(sub))),
    ]);
    let bytes = encoded(&value);
    for k in 0..bytes.len() {
        assert_eq!(
            decoded(&test_struct_shape(), bytes[..k].to_vec()),
            Err(Error::Truncated),
            "prefix of {} bytes",
            k
        );
    }
    let c = Value::Variant(2, vec![Value::I32(7), Value::Bool(true)]);
    let bytes = encoded(&c);
    for k in 0..bytes.len() {
        assert_eq!(decoded(&test_enum_shape(), bytes[..k].to_vec()), Err(Error::Truncated));
    }
}

#[test]
fn unknown_discriminant_consumes_one_byte() {
    let mut decoder = Decoder::new(vec![7, 1, 2]);
    assert_eq!(
        decode_value(&test_enum_shape(), &mut decoder),
        Err(Error::DecodingEnumVariant(7))
    );
    assert_eq!(decoder.index, 1);

    let mut decoder = Decoder::new(vec![0, 0, 0, 0, 5, 0, 0, 0, 0, 0, 0, 0]);
    assert_eq!(decode_value(&test_struct_shape(), &mut decoder), Err(Error::Truncated));
    assert!(decoder.index <= decoder.bytes.len());
}
