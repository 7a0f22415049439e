//! Codecs driven by a declared shape: product types encode their fields in
//! declaration order, sum types a one-byte discriminant then the alternative's
//! fields. The encoder and decoder that a declaration implies, with their
//! round-trip and truncation laws, hold for every shape.
use vstd::bytes::*;
use vstd::prelude::*;
use vstd::utf8::*;

use crate::codec::{ByteDecode, ByteEncode, ByteTransport};
use crate::decoder::Decoder;
use crate::composite::{NONE_FLAG, SOME_FLAG};
use crate::error::Error;
use crate::sequence::{after, wire_count};

verus! {

broadcast use {vstd::std_specs::vec::group_vec_axioms, vstd::seq::group_seq_axioms};

/// The declared shape of a wire value: a schema declaration, from which the
/// encoder and decoder of its values follow.
#[derive(Debug, PartialEq, Eq)]
pub enum Shape {
    U8,
    U16,
    U32,
    U64,
    U128,
    I8,
    I16,
    I32,
    I64,
    I128,
    Bool,
    /// A length-prefixed UTF-8 string.
    Text,
    /// An optional value of the inner shape.
    Optional(Box<Shape>),
    /// A sequence of values of the inner shape, with a 16-bit count.
    Sequence(Box<Shape>),
    /// A product type: the shapes of its fields in declaration order. Field
    /// names carry no bytes.
    Product(Vec<Shape>),
    /// A sum type: for each alternative in declaration order, the shapes of its
    /// fields (none for a unit alternative; positional and named fields alike).
    /// An alternative's discriminant is its index.
    Sum(Vec<Vec<Shape>>),
}

/// A value of some shape.
#[derive(Debug, PartialEq, Eq)]
pub enum Value {
    U8(u8),
    U16(u16),
    U32(u32),
    U64(u64),
    U128(u128),
    I8(i8),
    I16(i16),
    I32(i32),
    I64(i64),
    I128(i128),
    Bool(bool),
    Text(String),
    Optional(Option<Box<Value>>),
    Sequence(Vec<Value>),
    /// The fields of a product value, in declaration order.
    Product(Vec<Value>),
    /// An alternative of a sum type: its discriminant and its fields in order.
    Variant(u8, Vec<Value>),
}

/// The mathematical model of a [`Value`].
pub enum Datum {
    U8(u8),
    U16(u16),
    U32(u32),
    U64(u64),
    U128(u128),
    I8(i8),
    I16(i16),
    I32(i32),
    I64(i64),
    I128(i128),
    Bool(bool),
    Text(Seq<char>),
    Optional(Option<Box<Datum>>),
    Sequence(Seq<Datum>),
    Product(Seq<Datum>),
    Variant(u8, Seq<Datum>),
}

/// The model of a value.
pub open spec fn datum_of(v: Value) -> Datum
    decreases v,
{
    match v {
        Value::U8(x) => Datum::U8(x),
        Value::U16(x) => Datum::U16(x),
        Value::U32(x) => Datum::U32(x),
        Value::U64(x) => Datum::U64(x),
        Value::U128(x) => Datum::U128(x),
        Value::I8(x) => Datum::I8(x),
        Value::I16(x) => Datum::I16(x),
        Value::I32(x) => Datum::I32(x),
        Value::I64(x) => Datum::I64(x),
        Value::I128(x) => Datum::I128(x),
        Value::Bool(x) => Datum::Bool(x),
        Value::Text(s) => Datum::Text(s@),
        Value::Optional(o) => match o {
            Some(b) => Datum::Optional(Some(Box::new(datum_of(*b)))),
            None => Datum::Optional(None),
        },
        Value::Sequence(vs) => Datum::Sequence(data_of(vs@)),
        Value::Product(vs) => Datum::Product(data_of(vs@)),
        Value::Variant(t, vs) => Datum::Variant(t, data_of(vs@)),
    }
}

/// The models of the values of `vs`, in order.
pub open spec fn data_of(vs: Seq<Value>) -> Seq<Datum>
    decreases vs,
{
    if vs.len() == 0 {
        Seq::empty()
    } else {
        seq![datum_of(vs[0])] + data_of(vs.skip(1))
    }
}

/// The bytes that encode `d`.
pub open spec fn datum_bytes(d: Datum) -> Seq<u8>
    decreases d,
{
    match d {
        Datum::U8(x) => x.spec_encode(),
        Datum::U16(x) => x.spec_encode(),
        Datum::U32(x) => x.spec_encode(),
        Datum::U64(x) => x.spec_encode(),
        Datum::U128(x) => x.spec_encode(),
        Datum::I8(x) => x.spec_encode(),
        Datum::I16(x) => x.spec_encode(),
        Datum::I32(x) => x.spec_encode(),
        Datum::I64(x) => x.spec_encode(),
        Datum::I128(x) => x.spec_encode(),
        Datum::Bool(x) => x.spec_encode(),
        Datum::Text(cs) => spec_u64_to_le_bytes(encode_utf8(cs).len() as u64) + encode_utf8(cs),
        Datum::Optional(o) => match o {
            Some(b) => seq![SOME_FLAG] + datum_bytes(*b),
            None => seq![NONE_FLAG],
        },
        Datum::Sequence(ds) => spec_u16_to_le_bytes(wire_count(ds.len())) + data_bytes(ds),
        Datum::Product(ds) => data_bytes(ds),
        Datum::Variant(t, ds) => seq![t] + data_bytes(ds),
    }
}

/// The encodings of the data of `ds`, concatenated in order.
pub open spec fn data_bytes(ds: Seq<Datum>) -> Seq<u8>
    decreases ds,
{
    if ds.len() == 0 {
        Seq::empty()
    } else {
        datum_bytes(ds[0]) + data_bytes(ds.skip(1))
    }
}

/// What decoding a value of `shape` reads from the front of `s`: its model and
/// the bytes consumed, or why it fails.
pub open spec fn decode_shape(shape: Shape, s: Seq<u8>) -> Result<(Datum, nat), Error>
    decreases shape, 0nat,
{
    match shape {
        Shape::U8 => match u8::spec_decode(s) {
            Ok((x, n)) => Ok((Datum::U8(x), n)),
            Err(e) => Err(e),
        },
        Shape::U16 => match u16::spec_decode(s) {
            Ok((x, n)) => Ok((Datum::U16(x), n)),
            Err(e) => Err(e),
        },
        Shape::U32 => match u32::spec_decode(s) {
            Ok((x, n)) => Ok((Datum::U32(x), n)),
            Err(e) => Err(e),
        },
        Shape::U64 => match u64::spec_decode(s) {
            Ok((x, n)) => Ok((Datum::U64(x), n)),
            Err(e) => Err(e),
        },
        Shape::U128 => match u128::spec_decode(s) {
            Ok((x, n)) => Ok((Datum::U128(x), n)),
            Err(e) => Err(e),
        },
        Shape::I8 => match i8::spec_decode(s) {
            Ok((x, n)) => Ok((Datum::I8(x), n)),
            Err(e) => Err(e),
        },
        Shape::I16 => match i16::spec_decode(s) {
            Ok((x, n)) => Ok((Datum::I16(x), n)),
            Err(e) => Err(e),
        },
        Shape::I32 => match i32::spec_decode(s) {
            Ok((x, n)) => Ok((Datum::I32(x), n)),
            Err(e) => Err(e),
        },
        Shape::I64 => match i64::spec_decode(s) {
            Ok((x, n)) => Ok((Datum::I64(x), n)),
            Err(e) => Err(e),
        },
        Shape::I128 => match i128::spec_decode(s) {
            Ok((x, n)) => Ok((Datum::I128(x), n)),
            Err(e) => Err(e),
        },
        Shape::Bool => match bool::spec_decode(s) {
            Ok((x, n)) => Ok((Datum::Bool(x), n)),
            Err(e) => Err(e),
        },
        Shape::Text => match String::spec_decode(s) {
            Ok((cs, n)) => Ok((Datum::Text(cs), n)),
            Err(e) => Err(e),
        },
        Shape::Optional(b) => if s.len() < 1 {
            Err(Error::Truncated)
        } else if s[0] == SOME_FLAG {
            match decode_shape(*b, s.skip(1)) {
                Ok((d, n)) => Ok((Datum::Optional(Some(Box::new(d))), n + 1)),
                Err(e) => Err(e),
            }
        } else if s[0] == NONE_FLAG {
            Ok((Datum::Optional(None), 1))
        } else {
            Err(Error::InvalidOptionFlag)
        },
        Shape::Sequence(b) => if s.len() < 2 {
            Err(Error::Truncated)
        } else {
            match decode_repeat(*b, s.skip(2), spec_u16_from_le_bytes(s.take(2)) as nat) {
                Ok((ds, n)) => Ok((Datum::Sequence(ds), n + 2)),
                Err(e) => Err(e),
            }
        },
        Shape::Product(fs) => match decode_fields(fs@, s) {
            Ok((ds, n)) => Ok((Datum::Product(ds), n)),
            Err(e) => Err(e),
        },
        Shape::Sum(alts) => if s.len() < 1 {
            Err(Error::Truncated)
        } else if (s[0] as int) < alts@.len() {
            match decode_fields(alts@[s[0] as int]@, s.skip(1)) {
                Ok((ds, n)) => Ok((Datum::Variant(s[0], ds), n + 1)),
                Err(e) => Err(e),
            }
        } else {
            Err(Error::DecodingEnumVariant(s[0]))
        },
    }
}

/// Decodes one value of each shape of `fs`, in order.
pub open spec fn decode_fields(fs: Seq<Shape>, s: Seq<u8>) -> Result<(Seq<Datum>, nat), Error>
    decreases fs, 0nat,
{
    if fs.len() == 0 {
        Ok((Seq::empty(), 0))
    } else {
        match decode_shape(fs[0], s) {
            Ok((d, n)) => match decode_fields(fs.skip(1), s.skip(n as int)) {
                Ok((ds, n2)) => Ok((seq![d] + ds, n + n2)),
                Err(e) => Err(e),
            },
            Err(e) => Err(e),
        }
    }
}

/// Decodes `k` values of shape `elem`, one after another.
pub open spec fn decode_repeat(elem: Shape, s: Seq<u8>, k: nat) -> Result<(Seq<Datum>, nat), Error>
    decreases elem, k + 1,
{
    if k == 0 {
        Ok((Seq::empty(), 0))
    } else {
        match decode_shape(elem, s) {
            Ok((d, n)) => match decode_repeat(elem, s.skip(n as int), (k - 1) as nat) {
                Ok((ds, n2)) => Ok((seq![d] + ds, n + n2)),
                Err(e) => Err(e),
            },
            Err(e) => Err(e),
        }
    }
}

/// `d` is a value of `shape` that the wire carries unchanged: every string fits
/// its 64-bit length and every sequence its 16-bit count.
pub open spec fn conforms(shape: Shape, d: Datum) -> bool
    decreases shape, 0nat,
{
    match (shape, d) {
        (Shape::U8, Datum::U8(_)) => true,
        (Shape::U16, Datum::U16(_)) => true,
        (Shape::U32, Datum::U32(_)) => true,
        (Shape::U64, Datum::U64(_)) => true,
        (Shape::U128, Datum::U128(_)) => true,
        (Shape::I8, Datum::I8(_)) => true,
        (Shape::I16, Datum::I16(_)) => true,
        (Shape::I32, Datum::I32(_)) => true,
        (Shape::I64, Datum::I64(_)) => true,
        (Shape::I128, Datum::I128(_)) => true,
        (Shape::Bool, Datum::Bool(_)) => true,
        (Shape::Text, Datum::Text(cs)) => encode_utf8(cs).len() <= u64::MAX,
        (Shape::Optional(b), Datum::Optional(o)) => match o {
            Some(x) => conforms(*b, *x),
            None => true,
        },
        (Shape::Sequence(b), Datum::Sequence(ds)) => ds.len() <= 65535 && conforms_each(*b, ds),
        (Shape::Product(fs), Datum::Product(ds)) => conforms_fields(fs@, ds),
        (Shape::Sum(alts), Datum::Variant(t, ds)) => (t as int) < alts@.len() && conforms_fields(
            alts@[t as int]@,
            ds,
        ),
        _ => false,
    }
}

/// Each datum of `ds` conforms to the shape of the same position in `fs`.
pub open spec fn conforms_fields(fs: Seq<Shape>, ds: Seq<Datum>) -> bool
    decreases fs, 0nat,
{
    &&& fs.len() == ds.len()
    &&& fs.len() > 0 ==> conforms(fs[0], ds[0]) && conforms_fields(fs.skip(1), ds.skip(1))
}

/// Each datum of `ds` conforms to `elem`.
pub open spec fn conforms_each(elem: Shape, ds: Seq<Datum>) -> bool
    decreases elem, ds.len() + 1,
{
    ds.len() > 0 ==> conforms(elem, ds[0]) && conforms_each(elem, ds.skip(1))
}

proof fn lemma_data_of_len(vs: Seq<Value>)
    ensures
        data_of(vs).len() == vs.len(),
    decreases vs.len(),
{
    if vs.len() > 0 {
        lemma_data_of_len(vs.skip(1));
    }
}

proof fn lemma_data_of_push(vs: Seq<Value>, x: Value)
    ensures
        data_of(vs.push(x)) == data_of(vs).push(datum_of(x)),
    decreases vs.len(),
{
    assert(vs.push(x)[0] == if vs.len() == 0 { x } else { vs[0] });
    if vs.len() == 0 {
        assert(vs.push(x).skip(1) =~= Seq::<Value>::empty());
        assert(data_of(Seq::<Value>::empty()) == Seq::<Datum>::empty());
        assert(data_of(vs.push(x)) =~= data_of(vs).push(datum_of(x)));
    } else {
        assert(vs.push(x).skip(1) =~= vs.skip(1).push(x));
        lemma_data_of_push(vs.skip(1), x);
        assert(data_of(vs.push(x)) =~= data_of(vs).push(datum_of(x)));
    }
}

proof fn lemma_data_bytes_push(ds: Seq<Datum>, d: Datum)
    ensures
        data_bytes(ds.push(d)) == data_bytes(ds) + datum_bytes(d),
    decreases ds.len(),
{
    assert(ds.push(d)[0] == if ds.len() == 0 { d } else { ds[0] });
    if ds.len() == 0 {
        assert(ds.push(d).skip(1) =~= Seq::<Datum>::empty());
        assert(data_bytes(Seq::<Datum>::empty()) == Seq::<u8>::empty());
        assert(data_bytes(ds.push(d)) =~= data_bytes(ds) + datum_bytes(d));
    } else {
        assert(ds.push(d).skip(1) =~= ds.skip(1).push(d));
        lemma_data_bytes_push(ds.skip(1), d);
        assert(data_bytes(ds.push(d)) =~= data_bytes(ds) + datum_bytes(d));
    }
}

/// Appends the encoding of `value` to `bytes`: the encoder that a schema
/// declaration implies, applied to one of its values.
pub fn encode_value(value: &Value, bytes: &mut Vec<u8>) -> (r: Result<(), Error>)
    ensures
        r is Ok,
        final(bytes)@ == old(bytes)@ + datum_bytes(datum_of(*value)),
    decreases value,
{
    match value {
        Value::U8(x) => x.simple_encode(bytes),
        Value::U16(x) => x.simple_encode(bytes),
        Value::U32(x) => x.simple_encode(bytes),
        Value::U64(x) => x.simple_encode(bytes),
        Value::U128(x) => x.simple_encode(bytes),
        Value::I8(x) => x.simple_encode(bytes),
        Value::I16(x) => x.simple_encode(bytes),
        Value::I32(x) => x.simple_encode(bytes),
        Value::I64(x) => x.simple_encode(bytes),
        Value::I128(x) => x.simple_encode(bytes),
        Value::Bool(x) => x.simple_encode(bytes),
        Value::Text(s) => s.simple_encode(bytes),
        Value::Optional(o) => match o {
            Some(b) => {
                bytes.push(SOME_FLAG);
                let _ = encode_value(b, bytes);
                assert(bytes@ =~= old(bytes)@ + datum_bytes(datum_of(*value)));
                Ok(())
            },
            None => {
                bytes.push(NONE_FLAG);
                Ok(())
            },
        },
        Value::Sequence(vs) => {
            let count: u16 = (vs.len() % 65536) as u16;
            let _ = count.simple_encode(bytes);
            let _ = encode_values(vs, bytes);
            proof {
                lemma_data_of_len(vs@);
            }
            assert(bytes@ =~= old(bytes)@ + datum_bytes(datum_of(*value)));
            Ok(())
        },
        Value::Product(vs) => encode_values(vs, bytes),
        Value::Variant(t, vs) => {
            bytes.push(*t);
            let _ = encode_values(vs, bytes);
            assert(bytes@ =~= old(bytes)@ + datum_bytes(datum_of(*value)));
            Ok(())
        },
    }
}

/// Appends the encodings of the values of `vs`, in order.
fn encode_values(vs: &Vec<Value>, bytes: &mut Vec<u8>) -> (r: Result<(), Error>)
    ensures
        r is Ok,
        final(bytes)@ == old(bytes)@ + data_bytes(data_of(vs@)),
    decreases vs,
{
    let mut i: usize = 0;
    assert(vs@.take(0) =~= Seq::<Value>::empty());
    assert(data_of(Seq::<Value>::empty()) == Seq::<Datum>::empty());
    assert(data_bytes(Seq::<Datum>::empty()) == Seq::<u8>::empty());
    assert(bytes@ =~= old(bytes)@ + data_bytes(data_of(vs@.take(0))));
    while i < vs.len()
        invariant
            i <= vs@.len(),
            bytes@ == old(bytes)@ + data_bytes(data_of(vs@.take(i as int))),
        decreases vs@.len() - i,
    {
        let _ = encode_value(&vs[i], bytes);
        proof {
            assert(vs@.take(i + 1) =~= vs@.take(i as int).push(vs@[i as int]));
            lemma_data_of_push(vs@.take(i as int), vs@[i as int]);
            lemma_data_bytes_push(data_of(vs@.take(i as int)), datum_of(vs@[i as int]));
        }
        i = i + 1;
    }
    assert(vs@.take(i as int) =~= vs@);
    Ok(())
}

/// Decodes one value of `shape` at the cursor, advancing it past the bytes read:
/// the decoder that a schema declaration implies.
pub fn decode_value(shape: &Shape, decoder: &mut Decoder) -> (r: Result<Value, Error>)
    ensures
        final(decoder).bytes@ == old(decoder).bytes@,
        old(decoder).index <= old(decoder).bytes@.len() ==> old(decoder).index
            <= final(decoder).index <= final(decoder).bytes@.len(),
        match decode_shape(*shape, old(decoder).rest()) {
            Ok((d, n)) => r is Ok && datum_of(r->Ok_0) == d && n <= old(decoder).rest().len()
                && final(decoder).advanced(*old(decoder), n),
            Err(e) => r == Err::<Value, Error>(e),
        },
        match *shape {
            Shape::Sum(alts) => old(decoder).rest().len() >= 1 && old(decoder).rest()[0]
                >= alts@.len() ==> final(decoder).index == old(decoder).index + 1,
            _ => true,
        },
    decreases shape, 0nat,
{
    let ghost start = *decoder;
    match shape {
        Shape::U8 => match u8::simple_decode(decoder) {
            Ok(x) => {
                proof {
                    u8::lemma_decode_shape(start.rest());
                }
                Ok(Value::U8(x))
            },
            Err(e) => Err(e),
        },
        Shape::U16 => match u16::simple_decode(decoder) {
            Ok(x) => {
                proof {
                    u16::lemma_decode_shape(start.rest());
                }
                Ok(Value::U16(x))
            },
            Err(e) => Err(e),
        },
        Shape::U32 => match u32::simple_decode(decoder) {
            Ok(x) => {
                proof {
                    u32::lemma_decode_shape(start.rest());
                }
                Ok(Value::U32(x))
            },
            Err(e) => Err(e),
        },
        Shape::U64 => match u64::simple_decode(decoder) {
            Ok(x) => {
                proof {
                    u64::lemma_decode_shape(start.rest());
                }
                Ok(Value::U64(x))
            },
            Err(e) => Err(e),
        },
        Shape::U128 => match u128::simple_decode(decoder) {
            Ok(x) => {
                proof {
                    u128::lemma_decode_shape(start.rest());
                }
                Ok(Value::U128(x))
            },
            Err(e) => Err(e),
        },
        Shape::I8 => match i8::simple_decode(decoder) {
            Ok(x) => {
                proof {
                    i8::lemma_decode_shape(start.rest());
                }
                Ok(Value::I8(x))
            },
            Err(e) => Err(e),
        },
        Shape::I16 => match i16::simple_decode(decoder) {
            Ok(x) => {
                proof {
                    i16::lemma_decode_shape(start.rest());
                }
                Ok(Value::I16(x))
            },
            Err(e) => Err(e),
        },
        Shape::I32 => match i32::simple_decode(decoder) {
            Ok(x) => {
                proof {
                    i32::lemma_decode_shape(start.rest());
                }
                Ok(Value::I32(x))
            },
            Err(e) => Err(e),
        },
        Shape::I64 => match i64::simple_decode(decoder) {
            Ok(x) => {
                proof {
                    i64::lemma_decode_shape(start.rest());
                }
                Ok(Value::I64(x))
            },
            Err(e) => Err(e),
        },
        Shape::I128 => match i128::simple_decode(decoder) {
            Ok(x) => {
                proof {
                    i128::lemma_decode_shape(start.rest());
                }
                Ok(Value::I128(x))
            },
            Err(e) => Err(e),
        },
        Shape::Bool => match bool::simple_decode(decoder) {
            Ok(x) => {
                proof {
                    bool::lemma_decode_shape(start.rest());
                }
                Ok(Value::Bool(x))
            },
            Err(e) => Err(e),
        },
        Shape::Text => match String::simple_decode(decoder) {
            Ok(x) => {
                proof {
                    String::lemma_decode_shape(start.rest());
                }
                Ok(Value::Text(x))
            },
            Err(e) => Err(e),
        },
        Shape::Optional(b) => match decoder.read_byte() {
            Ok(tag) => {
                if tag == SOME_FLAG {
                    proof {
                        decoder.lemma_advanced_rest(start, 1);
                    }
                    match decode_value(b, decoder) {
                        Ok(v) => Ok(Value::Optional(Some(Box::new(v)))),
                        Err(e) => Err(e),
                    }
                } else if tag == NONE_FLAG {
                    Ok(Value::Optional(None))
                } else {
                    Err(Error::InvalidOptionFlag)
                }
            },
            Err(e) => Err(e),
        },
        Shape::Sequence(b) => {
            let count = match u16::simple_decode(decoder) {
                Ok(c) => c,
                Err(e) => {
                    return Err(e);
                },
            };
            proof {
                decoder.lemma_advanced_rest(start, 2);
            }
            match decode_repeat_values(b, count, decoder) {
                Ok(vs) => Ok(Value::Sequence(vs)),
                Err(e) => Err(e),
            }
        },
        Shape::Product(fs) => match decode_field_values(fs, decoder) {
            Ok(vs) => Ok(Value::Product(vs)),
            Err(e) => Err(e),
        },
        Shape::Sum(alts) => match decoder.read_byte() {
            Ok(tag) => {
                if (tag as usize) < alts.len() {
                    proof {
                        decoder.lemma_advanced_rest(start, 1);
                    }
                    match decode_field_values(&alts[tag as usize], decoder) {
                        Ok(vs) => Ok(Value::Variant(tag, vs)),
                        Err(e) => Err(e),
                    }
                } else {
                    Err(Error::DecodingEnumVariant(tag))
                }
            },
            Err(e) => Err(e),
        },
    }
}

/// Decodes one value of each shape of `fs`, in order.
fn decode_field_values(fs: &Vec<Shape>, decoder: &mut Decoder) -> (r: Result<Vec<Value>, Error>)
    ensures
        final(decoder).bytes@ == old(decoder).bytes@,
        old(decoder).index <= old(decoder).bytes@.len() ==> old(decoder).index
            <= final(decoder).index <= final(decoder).bytes@.len(),
        match decode_fields(fs@, old(decoder).rest()) {
            Ok((ds, n)) => r is Ok && data_of(r->Ok_0@) == ds && n <= old(decoder).rest().len()
                && final(decoder).advanced(*old(decoder), n),
            Err(e) => r == Err::<Vec<Value>, Error>(e),
        },
    decreases fs, 0nat,
{
    let ghost start = *decoder;
    let ghost s0 = decoder.rest();
    let ghost mut consumed: nat = 0;
    let mut out: Vec<Value> = Vec::new();
    let mut i: usize = 0;
    assert(fs@.skip(0) =~= fs@);
    assert(s0.skip(0) =~= s0);
    assert(data_of(out@) + Seq::<Datum>::empty() =~= Seq::<Datum>::empty());
    while i < fs.len()
        invariant
            start == *old(decoder),
            s0 == start.rest(),
            i <= fs@.len(),
            consumed <= s0.len(),
            decoder.advanced(start, consumed),
            decoder.rest() == s0.skip(consumed as int),
            decode_fields(fs@, s0) == after(
                data_of(out@),
                consumed,
                decode_fields(fs@.skip(i as int), s0.skip(consumed as int)),
            ),
        decreases fs@.len() - i,
    {
        let ghost before = *decoder;
        assert(fs@.skip(i as int)[0] == fs@[i as int]);
        assert(fs@.skip(i as int).skip(1) =~= fs@.skip(i + 1));
        match decode_value(&fs[i], decoder) {
            Ok(v) => {
                let ghost (d, n) = decode_shape(fs@[i as int], before.rest())->Ok_0;
                proof {
                    decoder.lemma_advanced_rest(before, n);
                    assert(s0.skip(consumed as int).skip(n as int) =~= s0.skip(
                        (consumed + n) as int,
                    ));
                    match decode_fields(fs@.skip(i + 1), s0.skip((consumed + n) as int)) {
                        Ok((ds, n2)) => {
                            assert(data_of(out@) + (seq![d] + ds) =~= data_of(out@).push(d) + ds);
                        },
                        Err(_) => {},
                    }
                    lemma_data_of_push(out@, v);
                    consumed = consumed + n;
                }
                out.push(v);
                i = i + 1;
            },
            Err(e) => {
                return Err(e);
            },
        }
    }
    assert(fs@.skip(i as int) =~= Seq::<Shape>::empty());
    assert(data_of(out@) + Seq::<Datum>::empty() =~= data_of(out@));
    Ok(out)
}

/// Decodes `count` values of shape `elem`, one after another.
fn decode_repeat_values(elem: &Shape, count: u16, decoder: &mut Decoder) -> (r: Result<
    Vec<Value>,
    Error,
>)
    ensures
        final(decoder).bytes@ == old(decoder).bytes@,
        old(decoder).index <= old(decoder).bytes@.len() ==> old(decoder).index
            <= final(decoder).index <= final(decoder).bytes@.len(),
        match decode_repeat(*elem, old(decoder).rest(), count as nat) {
            Ok((ds, n)) => r is Ok && data_of(r->Ok_0@) == ds && n <= old(decoder).rest().len()
                && final(decoder).advanced(*old(decoder), n),
            Err(e) => r == Err::<Vec<Value>, Error>(e),
        },
    decreases elem, 1nat,
{
    let ghost start = *decoder;
    let ghost s0 = decoder.rest();
    let ghost mut consumed: nat = 0;
    let mut out: Vec<Value> = Vec::new();
    let mut i: u16 = 0;
    assert(s0.skip(0) =~= s0);
    assert(data_of(out@) + Seq::<Datum>::empty() =~= Seq::<Datum>::empty());
    while i < count
        invariant
            start == *old(decoder),
            s0 == start.rest(),
            i <= count,
            consumed <= s0.len(),
            decoder.advanced(start, consumed),
            decoder.rest() == s0.skip(consumed as int),
            decode_repeat(*elem, s0, count as nat) == after(
                data_of(out@),
                consumed,
                decode_repeat(*elem, s0.skip(consumed as int), (count - i) as nat),
            ),
        decreases count - i,
    {
        let ghost before = *decoder;
        match decode_value(elem, decoder) {
            Ok(v) => {
                let ghost (d, n) = decode_shape(*elem, before.rest())->Ok_0;
                proof {
                    decoder.lemma_advanced_rest(before, n);
                    assert(s0.skip(consumed as int).skip(n as int) =~= s0.skip(
                        (consumed + n) as int,
                    ));
                    match decode_repeat(
                        *elem,
                        s0.skip((consumed + n) as int),
                        (count - i - 1) as nat,
                    ) {
                        Ok((ds, n2)) => {
                            assert(data_of(out@) + (seq![d] + ds) =~= data_of(out@).push(d) + ds);
                        },
                        Err(_) => {},
                    }
                    lemma_data_of_push(out@, v);
                    consumed = consumed + n;
                }
                out.push(v);
                i = i + 1;
            },
            Err(e) => {
                return Err(e);
            },
        }
    }
    assert(data_of(out@) + Seq::<Datum>::empty() =~= data_of(out@));
    Ok(out)
}

/// Decoding the encoding of a datum that conforms to `shape`, followed by any
/// bytes, gives the datum back and consumes exactly its encoding.
pub proof fn lemma_shape_round_trip(shape: Shape, d: Datum, rest: Seq<u8>)
    requires
        conforms(shape, d),
    ensures
        decode_shape(shape, datum_bytes(d) + rest) == Ok::<(Datum, nat), Error>(
            (d, datum_bytes(d).len()),
        ),
    decreases shape, 0nat,
{
    let s = datum_bytes(d) + rest;
    match shape {
        Shape::U8 => {
            if let Datum::U8(x) = d {
                x.lemma_round_trip(rest);
            }
        },
        Shape::U16 => {
            if let Datum::U16(x) = d {
                x.lemma_round_trip(rest);
            }
        },
        Shape::U32 => {
            if let Datum::U32(x) = d {
                x.lemma_round_trip(rest);
            }
        },
        Shape::U64 => {
            if let Datum::U64(x) = d {
                x.lemma_round_trip(rest);
            }
        },
        Shape::U128 => {
            if let Datum::U128(x) = d {
                x.lemma_round_trip(rest);
            }
        },
        Shape::I8 => {
            if let Datum::I8(x) = d {
                x.lemma_round_trip(rest);
            }
        },
        Shape::I16 => {
            if let Datum::I16(x) = d {
                x.lemma_round_trip(rest);
            }
        },
        Shape::I32 => {
            if let Datum::I32(x) = d {
                x.lemma_round_trip(rest);
            }
        },
        Shape::I64 => {
            if let Datum::I64(x) = d {
                x.lemma_round_trip(rest);
            }
        },
        Shape::I128 => {
            if let Datum::I128(x) = d {
                x.lemma_round_trip(rest);
            }
        },
        Shape::Bool => {
            if let Datum::Bool(x) = d {
                x.lemma_round_trip(rest);
            }
        },
        Shape::Text => {
            if let Datum::Text(cs) = d {
                lemma_auto_spec_u64_to_from_le_bytes();
                let raw = encode_utf8(cs);
                assert(s.take(8) =~= spec_u64_to_le_bytes(raw.len() as u64));
                assert(s.subrange(8, 8 + raw.len() as int) =~= raw);
                encode_utf8_valid_utf8(cs);
                encode_utf8_decode_utf8(cs);
            }
        },
        Shape::Optional(b) => {
            if let Datum::Optional(Some(x)) = d {
                lemma_shape_round_trip(*b, *x, rest);
                assert(s.skip(1) =~= datum_bytes(*x) + rest);
            }
        },
        Shape::Sequence(b) => {
            if let Datum::Sequence(ds) = d {
                lemma_auto_spec_u16_to_from_le_bytes();
                assert(s.take(2) =~= spec_u16_to_le_bytes(wire_count(ds.len())));
                assert(s.skip(2) =~= data_bytes(ds) + rest);
                lemma_repeat_round_trip(*b, ds, rest);
            }
        },
        Shape::Product(fs) => {
            if let Datum::Product(ds) = d {
                lemma_fields_round_trip(fs@, ds, rest);
            }
        },
        Shape::Sum(alts) => {
            if let Datum::Variant(t, ds) = d {
                lemma_fields_round_trip(alts@[t as int]@, ds, rest);
                assert(s.skip(1) =~= data_bytes(ds) + rest);
            }
        },
    }
}

/// The round trip of a list of fields, each conforming to its shape.
pub proof fn lemma_fields_round_trip(fs: Seq<Shape>, ds: Seq<Datum>, rest: Seq<u8>)
    requires
        conforms_fields(fs, ds),
    ensures
        decode_fields(fs, data_bytes(ds) + rest) == Ok::<(Seq<Datum>, nat), Error>(
            (ds, data_bytes(ds).len()),
        ),
    decreases fs, 0nat,
{
    if fs.len() == 0 {
        assert(ds =~= Seq::<Datum>::empty());
        assert(data_bytes(ds) + rest =~= rest);
    } else {
        let tail = data_bytes(ds.skip(1)) + rest;
        lemma_shape_round_trip(fs[0], ds[0], tail);
        assert(data_bytes(ds) + rest =~= datum_bytes(ds[0]) + tail);
        assert((datum_bytes(ds[0]) + tail).skip(datum_bytes(ds[0]).len() as int) =~= tail);
        lemma_fields_round_trip(fs.skip(1), ds.skip(1), rest);
        assert(seq![ds[0]] + ds.skip(1) =~= ds);
    }
}

/// The round trip of `ds.len()` values of one shape.
pub proof fn lemma_repeat_round_trip(elem: Shape, ds: Seq<Datum>, rest: Seq<u8>)
    requires
        conforms_each(elem, ds),
    ensures
        decode_repeat(elem, data_bytes(ds) + rest, ds.len()) == Ok::<(Seq<Datum>, nat), Error>(
            (ds, data_bytes(ds).len()),
        ),
    decreases elem, ds.len() + 1,
{
    if ds.len() == 0 {
        assert(ds =~= Seq::<Datum>::empty());
        assert(data_bytes(ds) + rest =~= rest);
    } else {
        let tail = data_bytes(ds.skip(1)) + rest;
        lemma_shape_round_trip(elem, ds[0], tail);
        assert(data_bytes(ds) + rest =~= datum_bytes(ds[0]) + tail);
        assert((datum_bytes(ds[0]) + tail).skip(datum_bytes(ds[0]).len() as int) =~= tail);
        lemma_repeat_round_trip(elem, ds.skip(1), rest);
        assert(seq![ds[0]] + ds.skip(1) =~= ds);
    }
}

/// Every strict prefix of the encoding of a datum that conforms to `shape`
/// fails to decode as truncated input.
pub proof fn lemma_shape_truncated_prefix(shape: Shape, d: Datum, k: nat)
    requires
        conforms(shape, d),
        k < datum_bytes(d).len(),
    ensures
        decode_shape(shape, datum_bytes(d).take(k as int)) == Err::<(Datum, nat), Error>(
            Error::Truncated,
        ),
    decreases shape, 0nat,
{
    let p = datum_bytes(d).take(k as int);
    match shape {
        Shape::U8 => {
            if let Datum::U8(x) = d {
                x.lemma_truncated_prefix(k);
            }
        },
        Shape::U16 => {
            if let Datum::U16(x) = d {
                x.lemma_truncated_prefix(k);
            }
        },
        Shape::U32 => {
            if let Datum::U32(x) = d {
                x.lemma_truncated_prefix(k);
            }
        },
        Shape::U64 => {
            if let Datum::U64(x) = d {
                x.lemma_truncated_prefix(k);
            }
        },
        Shape::U128 => {
            if let Datum::U128(x) = d {
                x.lemma_truncated_prefix(k);
            }
        },
        Shape::I8 => {
            if let Datum::I8(x) = d {
                x.lemma_truncated_prefix(k);
            }
        },
        Shape::I16 => {
            if let Datum::I16(x) = d {
                x.lemma_truncated_prefix(k);
            }
        },
        Shape::I32 => {
            if let Datum::I32(x) = d {
                x.lemma_truncated_prefix(k);
            }
        },
        Shape::I64 => {
            if let Datum::I64(x) = d {
                x.lemma_truncated_prefix(k);
            }
        },
        Shape::I128 => {
            if let Datum::I128(x) = d {
                x.lemma_truncated_prefix(k);
            }
        },
        Shape::Bool => {
            if let Datum::Bool(x) = d {
                x.lemma_truncated_prefix(k);
            }
        },
        Shape::Text => {
            if let Datum::Text(cs) = d {
                lemma_auto_spec_u64_to_from_le_bytes();
                if k >= 8 {
                    assert(p.take(8) =~= spec_u64_to_le_bytes(encode_utf8(cs).len() as u64));
                }
            }
        },
        Shape::Optional(b) => {
            if let Datum::Optional(Some(x)) = d {
                if k >= 1 {
                    assert(p.skip(1) =~= datum_bytes(*x).take(k - 1));
                    lemma_shape_truncated_prefix(*b, *x, (k - 1) as nat);
                }
            }
        },
        Shape::Sequence(b) => {
            if let Datum::Sequence(ds) = d {
                lemma_auto_spec_u16_to_from_le_bytes();
                if k >= 2 {
                    assert(p.take(2) =~= spec_u16_to_le_bytes(wire_count(ds.len())));
                    assert(p.skip(2) =~= data_bytes(ds).take(k - 2));
                    lemma_repeat_truncated_prefix(*b, ds, (k - 2) as nat);
                }
            }
        },
        Shape::Product(fs) => {
            if let Datum::Product(ds) = d {
                lemma_fields_truncated_prefix(fs@, ds, k);
            }
        },
        Shape::Sum(alts) => {
            if let Datum::Variant(t, ds) = d {
                if k >= 1 {
                    assert(p.skip(1) =~= data_bytes(ds).take(k - 1));
                    lemma_fields_truncated_prefix(alts@[t as int]@, ds, (k - 1) as nat);
                }
            }
        },
    }
}

/// Every strict prefix of the encoding of a list of fields is truncated input.
pub proof fn lemma_fields_truncated_prefix(fs: Seq<Shape>, ds: Seq<Datum>, j: nat)
    requires
        conforms_fields(fs, ds),
        j < data_bytes(ds).len(),
    ensures
        decode_fields(fs, data_bytes(ds).take(j as int)) == Err::<(Seq<Datum>, nat), Error>(
            Error::Truncated,
        ),
    decreases fs, 0nat,
{
    if ds.len() == 0 {
        assert(data_bytes(ds) == Seq::<u8>::empty());
    } else {
        let e0 = datum_bytes(ds[0]);
        if j < e0.len() {
            assert(data_bytes(ds).take(j as int) =~= e0.take(j as int));
            lemma_shape_truncated_prefix(fs[0], ds[0], j);
        } else {
            let j2 = (j - e0.len()) as nat;
            let p2 = data_bytes(ds.skip(1)).take(j2 as int);
            assert(data_bytes(ds).take(j as int) =~= e0 + p2);
            lemma_shape_round_trip(fs[0], ds[0], p2);
            assert((e0 + p2).skip(e0.len() as int) =~= p2);
            lemma_fields_truncated_prefix(fs.skip(1), ds.skip(1), j2);
        }
    }
}

/// Every strict prefix of the encoding of values of one shape is truncated
/// input, when decoding that many of them.
pub proof fn lemma_repeat_truncated_prefix(elem: Shape, ds: Seq<Datum>, j: nat)
    requires
        conforms_each(elem, ds),
        j < data_bytes(ds).len(),
    ensures
        decode_repeat(elem, data_bytes(ds).take(j as int), ds.len()) == Err::<
            (Seq<Datum>, nat),
            Error,
        >(Error::Truncated),
    decreases elem, ds.len() + 1,
{
    if ds.len() == 0 {
        assert(data_bytes(ds) == Seq::<u8>::empty());
    } else {
        let e0 = datum_bytes(ds[0]);
        if j < e0.len() {
            assert(data_bytes(ds).take(j as int) =~= e0.take(j as int));
            lemma_shape_truncated_prefix(elem, ds[0], j);
        } else {
            let j2 = (j - e0.len()) as nat;
            let p2 = data_bytes(ds.skip(1)).take(j2 as int);
            assert(data_bytes(ds).take(j as int) =~= e0 + p2);
            lemma_shape_round_trip(elem, ds[0], p2);
            assert((e0 + p2).skip(e0.len() as int) =~= p2);
            lemma_repeat_truncated_prefix(elem, ds.skip(1), j2);
        }
    }
}

/// A sum-type buffer whose first byte is not the index of a declared
/// alternative fails, carrying that byte.
pub proof fn lemma_unknown_discriminant(alts: Vec<Vec<Shape>>, s: Seq<u8>)
    requires
        s.len() >= 1,
        s[0] >= alts@.len(),
    ensures
        decode_shape(Shape::Sum(alts), s) == Err::<(Datum, nat), Error>(
            Error::DecodingEnumVariant(s[0]),
        ),
{
}

} // verus!
