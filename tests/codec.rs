use dagcbor::{
    decode, encode, links, links_of, DagCborCodec, DecodeError, EncodeError, Ipld,
    NotDagCborCode, StreamDecoder, DAG_CBOR_CODE,
};

fn cid(last: u8) -> Vec<u8> {
    // CIDv1, raw codec, sha2-256 multihash of 32 bytes.
    let mut c = vec![0x01, 0x55, 0x12, 0x20];
    for i in 0..32u8 {
        c.push(i ^ last);
    }
    c
}

fn text(s: &str) -> Ipld {
    Ipld::String(s.to_string())
}

fn enc_ok(v: &Ipld) -> Vec<u8> {
    encode(v).expect("representable")
}

#[test]
fn code_identity() {
    assert_eq!(DAG_CBOR_CODE, 0x71);
    assert_eq!(DagCborCodec.to_code(), 0x71);
    assert_eq!(DagCborCodec::try_from_code(0x71), Some(DagCborCodec));
    assert_eq!(DagCborCodec::try_from_code(0x72), None);
    assert_eq!(DagCborCodec::try_from(0x71), Ok(DagCborCodec));
    assert_eq!(DagCborCodec::try_from(0x55), Err(NotDagCborCode(0x55)));
    assert_eq!(u64::from(DagCborCodec), 0x71);
}

#[test]
fn integers_take_the_shortest_form() {
    assert_eq!(enc_ok(&Ipld::Integer(0)), vec![0x00]);
    assert_eq!(enc_ok(&Ipld::Integer(1)), vec![0x01]);
    assert_eq!(enc_ok(&Ipld::Integer(23)), vec![0x17]);
    assert_eq!(enc_ok(&Ipld::Integer(24)), vec![0x18, 0x18]);
    assert_eq!(enc_ok(&Ipld::Integer(255)), vec![0x18, 0xff]);
    assert_eq!(enc_ok(&Ipld::Integer(256)), vec![0x19, 0x01, 0x00]);
    assert_eq!(enc_ok(&Ipld::Integer(65536)), vec![0x1a, 0x00, 0x01, 0x00, 0x00]);
    assert_eq!(
        enc_ok(&Ipld::Integer(1 << 32)),
        vec![0x1b, 0x00, 0x00, 0x00, 0x01, 0x00, 0x00, 0x00, 0x00]
    );
    assert_eq!(enc_ok(&Ipld::Integer(u64::MAX as i128)), vec![0x1b, 0xff, 0xff, 0xff, 0xff, 0xff, 0xff, 0xff, 0xff]);
    assert_eq!(enc_ok(&Ipld::Integer(-1)), vec![0x20]);
    assert_eq!(enc_ok(&Ipld::Integer(-25)), vec![0x38, 0x18]);
    assert_eq!(
        enc_ok(&Ipld::Integer(-(1i128 << 64))),
        vec![0x3b, 0xff, 0xff, 0xff, 0xff, 0xff, 0xff, 0xff, 0xff]
    );
}

#[test]
fn integers_outside_cbor_range_are_refused() {
    assert_eq!(encode(&Ipld::Integer(1i128 << 64)), Err(EncodeError::IntegerOutOfRange));
    assert_eq!(encode(&Ipld::Integer(-(1i128 << 64) - 1)), Err(EncodeError::IntegerOutOfRange));
}

#[test]
fn floats_are_full_width_and_finite() {
    assert_eq!(
        enc_ok(&Ipld::Float(1.5f64.to_bits())),
        vec![0xfb, 0x3f, 0xf8, 0, 0, 0, 0, 0, 0]
    );
    assert_eq!(encode(&Ipld::Float(f64::NAN.to_bits())), Err(EncodeError::NonFiniteFloat));
    assert_eq!(encode(&Ipld::Float(f64::INFINITY.to_bits())), Err(EncodeError::NonFiniteFloat));
    assert_eq!(decode(&[0xfb, 0x7f, 0xf0, 0, 0, 0, 0, 0, 0]), Err(DecodeError::Malformed(0)));
    assert_eq!(decode(&[0xfb, 0x3f, 0xf8, 0, 0, 0, 0, 0, 0]), Ok(Ipld::Float(1.5f64.to_bits())));
    // Half and single width floats are not canonical.
    assert_eq!(decode(&[0xf9, 0x3e, 0x00]), Err(DecodeError::Malformed(0)));
    assert_eq!(decode(&[0xfa, 0x3f, 0xc0, 0, 0]), Err(DecodeError::Malformed(0)));
}

#[test]
fn scalars_and_strings() {
    assert_eq!(enc_ok(&Ipld::Null), vec![0xf6]);
    assert_eq!(enc_ok(&Ipld::Bool(true)), vec![0xf5]);
    assert_eq!(enc_ok(&Ipld::Bool(false)), vec![0xf4]);
    assert_eq!(enc_ok(&text("a")), vec![0x61, 0x61]);
    assert_eq!(enc_ok(&text("é")), vec![0x62, 0xc3, 0xa9]);
    assert_eq!(enc_ok(&Ipld::Bytes(vec![1, 2])), vec![0x42, 0x01, 0x02]);
    assert_eq!(enc_ok(&Ipld::List(vec![])), vec![0x80]);
    assert_eq!(decode(&[0x62, 0xc3, 0xa9]), Ok(text("é")));
}

#[test]
fn map_keys_are_sorted_by_length_then_bytes() {
    let v = Ipld::Dict(vec![
        ("b".to_string(), Ipld::Integer(1)),
        ("aa".to_string(), Ipld::Integer(3)),
        ("a".to_string(), Ipld::Integer(2)),
    ]);
    assert_eq!(
        enc_ok(&v),
        vec![0xa3, 0x61, 0x61, 0x02, 0x61, 0x62, 0x01, 0x62, 0x61, 0x61, 0x03]
    );
}

#[test]
fn duplicate_keys_are_refused_on_encode() {
    let v = Ipld::Dict(vec![
        ("a".to_string(), Ipld::Integer(1)),
        ("a".to_string(), Ipld::Integer(2)),
    ]);
    assert_eq!(encode(&v), Err(EncodeError::DuplicateKey));
}

#[test]
fn round_trip_of_a_nested_value() {
    let v = Ipld::List(vec![
        Ipld::Null,
        Ipld::Integer(-1000),
        Ipld::Integer(1 << 40),
        Ipld::Float((-2.25f64).to_bits()),
        text("hello"),
        Ipld::Bytes(vec![0, 255, 7]),
        Ipld::Link(cid(1)),
        Ipld::Dict(vec![
            ("zz".to_string(), Ipld::List(vec![Ipld::Bool(true)])),
            ("k".to_string(), Ipld::Dict(vec![])),
        ]),
    ]);
    let bytes = enc_ok(&v);
    let back = decode(&bytes).expect("decodes");
    assert_eq!(enc_ok(&back), bytes);
    let canonical = Ipld::List(vec![
        Ipld::Null,
        Ipld::Integer(-1000),
        Ipld::Integer(1 << 40),
        Ipld::Float((-2.25f64).to_bits()),
        text("hello"),
        Ipld::Bytes(vec![0, 255, 7]),
        Ipld::Link(cid(1)),
        Ipld::Dict(vec![
            ("k".to_string(), Ipld::Dict(vec![])),
            ("zz".to_string(), Ipld::List(vec![Ipld::Bool(true)])),
        ]),
    ]);
    assert_eq!(back, canonical);
}

#[test]
fn equal_maps_encode_identically() {
    let a = Ipld::Dict(vec![
        ("x".to_string(), Ipld::Integer(1)),
        ("yy".to_string(), text("v")),
        ("b".to_string(), Ipld::Null),
    ]);
    let b = Ipld::Dict(vec![
        ("b".to_string(), Ipld::Null),
        ("x".to_string(), Ipld::Integer(1)),
        ("yy".to_string(), text("v")),
    ]);
    assert_eq!(enc_ok(&a), enc_ok(&b));
}

#[test]
fn non_minimal_integer_is_refused() {
    assert_eq!(decode(&[0x1a, 0x00, 0x00, 0x00, 0x01]), Err(DecodeError::Malformed(0)));
    assert_eq!(decode(&[0x18, 0x01]), Err(DecodeError::Malformed(0)));
    assert_eq!(decode(&[0x01]), Ok(Ipld::Integer(1)));
}

#[test]
fn duplicate_keys_are_refused_on_decode() {
    assert_eq!(
        decode(&[0xa2, 0x61, 0x61, 0x01, 0x61, 0x61, 0x02]),
        Err(DecodeError::Malformed(4))
    );
}

#[test]
fn keys_out_of_order_are_refused() {
    assert_eq!(
        decode(&[0xa2, 0x61, 0x62, 0x01, 0x61, 0x61, 0x02]),
        Err(DecodeError::Malformed(4))
    );
    assert_eq!(decode(&[0xa1, 0x01, 0x01]), Err(DecodeError::Malformed(1)));
}

#[test]
fn other_non_canonical_forms_are_refused() {
    // Indefinite-length list.
    assert_eq!(decode(&[0x9f, 0x01, 0xff]), Err(DecodeError::Malformed(0)));
    // A tag other than 42.
    assert_eq!(decode(&[0xd8, 0x2b, 0x41, 0x00]), Err(DecodeError::Malformed(0)));
    // Text that is not UTF-8.
    assert_eq!(decode(&[0x61, 0xff]), Err(DecodeError::Malformed(0)));
    // Undefined.
    assert_eq!(decode(&[0xf7]), Err(DecodeError::Malformed(0)));
}

#[test]
fn truncated_and_trailing_input() {
    assert_eq!(decode(&[]), Err(DecodeError::UnexpectedEof));
    assert_eq!(decode(&[0x18]), Err(DecodeError::UnexpectedEof));
    assert_eq!(decode(&[0x82, 0x01]), Err(DecodeError::UnexpectedEof));
    assert_eq!(decode(&[0x43, 0x01]), Err(DecodeError::UnexpectedEof));
    assert_eq!(decode(&[0x01, 0x02]), Err(DecodeError::TrailingBytes(1)));
}

#[test]
fn links_have_a_zero_prefix_under_tag_42() {
    let c = cid(0);
    let bytes = enc_ok(&Ipld::Link(c.clone()));
    let mut expected = vec![0xd8, 0x2a, 0x58, 0x25, 0x00];
    expected.extend_from_slice(&c);
    assert_eq!(bytes, expected);
    assert_eq!(decode(&bytes), Ok(Ipld::Link(c)));
}

#[test]
fn invalid_links_are_refused() {
    assert_eq!(encode(&Ipld::Link(vec![0xff])), Err(EncodeError::InvalidLink));
    assert_eq!(decode(&[0xd8, 0x2a, 0x42, 0x00, 0xff]), Err(DecodeError::InvalidLink(0)));
    // A link without the leading zero byte.
    let mut bytes = vec![0xd8, 0x2a, 0x58, 0x24];
    bytes.extend_from_slice(&cid(0));
    assert_eq!(decode(&bytes), Err(DecodeError::Malformed(0)));
}

#[test]
fn links_come_out_in_encounter_order() {
    let v = Ipld::List(vec![
        Ipld::List(vec![Ipld::Link(cid(1)), Ipld::Link(cid(2))]),
        Ipld::Dict(vec![("a".to_string(), Ipld::Link(cid(3)))]),
    ]);
    let bytes = enc_ok(&v);
    assert_eq!(links(&bytes), Ok(vec![cid(1), cid(2), cid(3)]));
    assert_eq!(links_of(&v), vec![cid(1), cid(2), cid(3)]);
}

#[test]
fn links_follow_canonical_key_order() {
    let v = Ipld::Dict(vec![
        ("bb".to_string(), Ipld::Link(cid(1))),
        ("c".to_string(), Ipld::Link(cid(2))),
    ]);
    let bytes = enc_ok(&v);
    assert_eq!(links(&bytes), Ok(vec![cid(2), cid(1)]));
    assert_eq!(links(&[0x9f]), Err(DecodeError::Malformed(0)));
    assert_eq!(links(&[0x01]), Ok(vec![]));
}

#[test]
fn streaming_one_byte_at_a_time() {
    let v = Ipld::Dict(vec![
        ("list".to_string(), Ipld::List(vec![Ipld::Integer(500), Ipld::Link(cid(9))])),
        ("s".to_string(), text("streamed")),
    ]);
    let bytes = enc_ok(&v);
    let mut one = StreamDecoder::new();
    for b in &bytes {
        one.feed(&[*b]);
    }
    let mut all = StreamDecoder::new();
    all.feed(&bytes);
    assert_eq!(one.finish(), decode(&bytes));
    assert_eq!(all.finish(), decode(&bytes));
    assert!(one.finish().is_ok());
    let mut empty = StreamDecoder::new();
    empty.feed(&[]);
    assert_eq!(empty.finish(), Err(DecodeError::UnexpectedEof));
}

#[test]
fn codec_methods() {
    let v = Ipld::List(vec![Ipld::Link(cid(4)), Ipld::Integer(24)]);
    let bytes = DagCborCodec::encode(&v).expect("representable");
    assert_eq!(bytes, enc_ok(&v));
    assert_eq!(DagCborCodec::decode(&bytes), Ok(v));
    assert_eq!(DagCborCodec.links(&bytes), Ok(vec![cid(4)]));
    assert_eq!(DagCborCodec::decode(&[0x18, 0x05]), Err(DecodeError::Malformed(0)));
}

#[test]
fn lengths_at_the_width_boundaries() {
    let b23 = vec![7u8; 23];
    let b24 = vec![7u8; 24];
    let b256 = vec![7u8; 256];
    assert_eq!(enc_ok(&Ipld::Bytes(b23.clone()))[0], 0x57);
    assert_eq!(enc_ok(&Ipld::Bytes(b24.clone()))[..2], [0x58, 0x18]);
    assert_eq!(enc_ok(&Ipld::Bytes(b256.clone()))[..3], [0x59, 0x01, 0x00]);
    for b in [b23, b24, b256] {
        let v = Ipld::Bytes(b);
        assert_eq!(decode(&enc_ok(&v)), Ok(v));
    }
    let list = Ipld::List((0..300).map(|i| Ipld::Integer(i)).collect());
    let bytes = enc_ok(&list);
    assert_eq!(bytes[..3], [0x99, 0x01, 0x2c]);
    assert_eq!(decode(&bytes), Ok(list));
}

#[test]
fn a_link_that_is_no_cid_fails_extraction() {
    assert_eq!(links(&[0x81, 0xd8, 0x2a, 0x42, 0x00, 0xff]), Err(DecodeError::InvalidLink(1)));
}

#[test]
fn malformed_heads_tags_and_simple_values() {
    assert_eq!(decode(&[0x19, 0x00, 0x17]), Err(DecodeError::Malformed(0)));
    assert_eq!(decode(&[0x78, 0x01, 0x61]), Err(DecodeError::Malformed(0)));
    assert_eq!(decode(&[0xbf, 0x61, 0x61, 0x01, 0xff]), Err(DecodeError::Malformed(0)));
    assert_eq!(decode(&[0xc1, 0x01]), Err(DecodeError::Malformed(0)));
    assert_eq!(decode(&[0xd9, 0x00, 0x2a, 0x41, 0x00]), Err(DecodeError::Malformed(0)));
}

#[test]
fn faults_inside_containers_are_malformed() {
    assert_eq!(decode(&[0x81, 0x18, 0x01]), Err(DecodeError::Malformed(1)));
    assert_eq!(
        decode(&[0x81, 0xa2, 0x61, 0x61, 0x01, 0x61, 0x61, 0x02]),
        Err(DecodeError::Malformed(5))
    );
    assert_eq!(
        decode(&[0xa2, 0x62, 0x61, 0x61, 0x01, 0x61, 0x62, 0x02]),
        Err(DecodeError::Malformed(5))
    );
}

#[test]
fn truncated_input_is_unexpected_eof() {
    assert_eq!(decode(&[0x19, 0x01]), Err(DecodeError::UnexpectedEof));
    assert_eq!(links(&[0x82, 0x01]), Err(DecodeError::UnexpectedEof));
}

#[test]
fn link_extraction_errors() {
    assert_eq!(links(&[0x81, 0x18, 0x01]), Err(DecodeError::Malformed(1)));
    assert_eq!(links(&[0x9f, 0xff]), Err(DecodeError::Malformed(0)));
    assert_eq!(links(&[0xd8, 0x2a, 0x41, 0x00]), Err(DecodeError::InvalidLink(0)));
    assert_eq!(links(&[0xc1, 0x01]), Err(DecodeError::Malformed(0)));
}

#[test]
fn chunked_input_fails_with_the_same_error() {
    for bytes in [
        vec![0x1a, 0x00, 0x00, 0x00, 0x01],
        vec![0xa2, 0x61, 0x61, 0x01, 0x61, 0x61, 0x02],
        vec![0x82, 0x01],
        vec![0x01, 0x02],
    ] {
        let mut d = StreamDecoder::new();
        for b in &bytes {
            d.feed(&[*b]);
        }
        assert_eq!(d.finish(), decode(&bytes));
        assert!(d.finish().is_err());
    }
}

#[test]
fn encode_reports_the_first_fault() {
    let v = Ipld::List(vec![
        Ipld::Integer(1i128 << 64),
        Ipld::Float(f64::NAN.to_bits()),
    ]);
    assert_eq!(encode(&v), Err(EncodeError::IntegerOutOfRange));
    let d = Ipld::Dict(vec![
        ("a".to_string(), Ipld::Float(f64::NAN.to_bits())),
        ("a".to_string(), Ipld::Null),
    ]);
    assert_eq!(encode(&d), Err(EncodeError::DuplicateKey));
    let l = Ipld::List(vec![Ipld::Null, Ipld::Link(vec![])]);
    assert_eq!(encode(&l), Err(EncodeError::InvalidLink));
}
