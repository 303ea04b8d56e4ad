use event_abi::error::Error;
use event_abi::record::{value_is_digest, EventRecord};
use event_abi::schema::{build_signature, selector_for, EventParameter, EventSchema, MAX_TOPICS};
use event_abi::topics::{put_topics, topic_value, topic_word};
use event_abi::types::{push_decimal, AbiType};
use event_abi::value::{all_bytes_are, clone_values, word_fits_type, AbiValue};
use event_abi::word::word_from_u64;

fn param(ty: AbiType, indexed: bool) -> EventParameter {
    EventParameter { name: None, ty, indexed }
}

fn indexed(count: usize) -> Vec<EventParameter> {
    (0..count).map(|_| param(AbiType::Uint(256), true)).collect()
}

#[test]
fn canonical_names() {
    assert_eq!(AbiType::Bool.canonical_name(), "bool");
    assert_eq!(AbiType::Uint(256).canonical_name(), "uint256");
    assert_eq!(AbiType::Uint(8).canonical_name(), "uint8");
    assert_eq!(AbiType::Int(128).canonical_name(), "int128");
    assert_eq!(AbiType::Address.canonical_name(), "address");
    assert_eq!(AbiType::FixedBytes(32).canonical_name(), "bytes32");
    assert_eq!(AbiType::FixedBytes(1).canonical_name(), "bytes1");
    assert_eq!(AbiType::Bytes.canonical_name(), "bytes");
    assert_eq!(AbiType::String.canonical_name(), "string");
    assert_eq!(AbiType::Array(Box::new(AbiType::Bool)).canonical_name(), "bool[]");
    assert_eq!(
        AbiType::Array(Box::new(AbiType::Tuple(vec![
            AbiType::Uint(8),
            AbiType::Array(Box::new(AbiType::String)),
            AbiType::Tuple(vec![AbiType::Address]),
        ])))
        .canonical_name(),
        "(uint8,string[],(address))[]"
    );
    assert_eq!(AbiType::Custom("Thing".to_string()).canonical_name(), "Thing");
}

#[test]
fn decimal_numbers() {
    let mut text = String::from("n=");
    push_decimal(&mut text, 0);
    push_decimal(&mut text, 7);
    push_decimal(&mut text, 10);
    push_decimal(&mut text, 65535);
    assert_eq!(text, "n=071065535");
}

#[test]
fn dynamic_types() {
    assert!(AbiType::String.is_dynamic());
    assert!(AbiType::Bytes.is_dynamic());
    assert!(AbiType::Array(Box::new(AbiType::Bool)).is_dynamic());
    assert!(!AbiType::Bool.is_dynamic());
    assert!(!AbiType::Uint(256).is_dynamic());
    assert!(!AbiType::FixedBytes(32).is_dynamic());
    assert!(!AbiType::Address.is_dynamic());
    assert!(!AbiType::Tuple(vec![AbiType::Bool, AbiType::Address]).is_dynamic());
    assert!(AbiType::Tuple(vec![AbiType::Bool, AbiType::String]).is_dynamic());
    assert!(AbiType::Tuple(vec![AbiType::Tuple(vec![AbiType::Bytes]), AbiType::Bool]).is_dynamic());
}

#[test]
fn resolved_types() {
    assert!(AbiType::Uint(8).is_resolved());
    assert!(AbiType::Uint(256).is_resolved());
    assert!(!AbiType::Uint(0).is_resolved());
    assert!(!AbiType::Uint(7).is_resolved());
    assert!(!AbiType::Int(264).is_resolved());
    assert!(AbiType::FixedBytes(1).is_resolved());
    assert!(!AbiType::FixedBytes(0).is_resolved());
    assert!(!AbiType::FixedBytes(33).is_resolved());
    assert!(!AbiType::Custom("T".to_string()).is_resolved());
    assert!(!AbiType::Array(Box::new(AbiType::Custom("T".to_string()))).is_resolved());
    assert!(!AbiType::Tuple(vec![]).is_resolved());
    assert!(!AbiType::Tuple(vec![AbiType::Bool, AbiType::Custom("T".to_string())]).is_resolved());
    assert!(AbiType::Tuple(vec![AbiType::Bool, AbiType::String]).is_resolved());
}

#[test]
fn word_types() {
    assert!(AbiType::Bool.is_word());
    assert!(AbiType::Int(8).is_word());
    assert!(AbiType::FixedBytes(3).is_word());
    assert!(!AbiType::Bytes.is_word());
    assert!(!AbiType::Tuple(vec![AbiType::Bool]).is_word());
}

#[test]
fn clones_are_equal() {
    let ty = AbiType::Tuple(vec![
        AbiType::Array(Box::new(AbiType::Custom("T".to_string()))),
        AbiType::Uint(8),
    ]);
    assert_eq!(ty.clone(), ty);
    let value = AbiValue::Tuple(vec![
        AbiValue::Array(vec![AbiValue::String("s".to_string()), AbiValue::Bytes(vec![1])]),
        AbiValue::Address([4; 20]),
        AbiValue::FixedBytes(vec![1, 2]),
    ]);
    assert_eq!(value.clone(), value);
    let list = vec![value, AbiValue::Bool(true)];
    assert_eq!(clone_values(&list), list);
}

#[test]
fn values_and_their_types() {
    let small = AbiValue::Uint(word_from_u64(255));
    assert!(small.has_type(&AbiType::Uint(8)));
    assert!(small.has_type(&AbiType::Uint(256)));
    assert!(!small.has_type(&AbiType::Int(8)));
    assert!(!AbiValue::Uint(word_from_u64(256)).has_type(&AbiType::Uint(8)));
    assert!(AbiValue::Int([0xff; 32]).has_type(&AbiType::Int(8)));
    assert!(!AbiValue::Int(word_from_u64(128)).has_type(&AbiType::Int(8)));
    assert!(AbiValue::Int(word_from_u64(128)).has_type(&AbiType::Int(16)));
    assert!(AbiValue::FixedBytes(vec![1, 2]).has_type(&AbiType::FixedBytes(2)));
    assert!(!AbiValue::FixedBytes(vec![1, 2]).has_type(&AbiType::FixedBytes(3)));
    assert!(AbiValue::Array(vec![]).has_type(&AbiType::Array(Box::new(AbiType::Bool))));
    assert!(!AbiValue::Array(vec![small.clone()]).has_type(&AbiType::Array(Box::new(AbiType::Bool))));
    let pair = AbiType::Tuple(vec![AbiType::Bool, AbiType::String]);
    assert!(AbiValue::Tuple(vec![AbiValue::Bool(true), AbiValue::String(String::new())])
        .has_type(&pair));
    assert!(!AbiValue::Tuple(vec![AbiValue::Bool(true)]).has_type(&pair));
    assert!(!AbiValue::Tuple(vec![AbiValue::String(String::new()), AbiValue::Bool(true)])
        .has_type(&pair));
    assert!(!AbiValue::Bytes(vec![]).has_type(&AbiType::String));
}

#[test]
fn bytes_of_a_word() {
    let w = word_from_u64(1);
    assert!(all_bytes_are(&w, 0, 31, 0));
    assert!(!all_bytes_are(&w, 0, 32, 0));
    assert!(all_bytes_are(&w, 5, 5, 9));
    assert!(word_fits_type(&AbiType::Bool, &w));
    assert!(!word_fits_type(&AbiType::FixedBytes(31), &w));
    assert!(word_fits_type(&AbiType::FixedBytes(32), &w));
    assert!(!word_fits_type(&AbiType::String, &w));
}

#[test]
fn unresolved_type_is_refused() {
    let r = EventSchema::new(
        "E".to_string(),
        vec![param(AbiType::Bool, false), param(AbiType::Custom("Thing".to_string()), false)],
        false,
    );
    assert_eq!(r, Err(Error::UnresolvedType));
    let r = EventSchema::new("E".to_string(), vec![param(AbiType::Uint(7), true)], false);
    assert_eq!(r, Err(Error::UnresolvedType));
}

#[test]
fn unresolved_type_comes_before_the_other_faults() {
    let mut parameters = indexed(5);
    parameters.push(param(AbiType::Custom("Thing".to_string()), false));
    assert_eq!(EventSchema::new("E".to_string(), parameters, false), Err(Error::UnresolvedType));
}

#[test]
fn indexed_static_tuple_is_refused() {
    let pair = AbiType::Tuple(vec![AbiType::Bool, AbiType::Bool]);
    let r = EventSchema::new("E".to_string(), vec![param(pair.clone(), true)], false);
    assert_eq!(r, Err(Error::TypeMismatch));
    assert!(EventSchema::new("E".to_string(), vec![param(pair, false)], false).is_ok());
    let dynamic = AbiType::Tuple(vec![AbiType::Bool, AbiType::String]);
    assert!(EventSchema::new("E".to_string(), vec![param(dynamic, true)], false).is_ok());
}

#[test]
fn more_than_four_topics_are_refused() {
    assert_eq!(MAX_TOPICS, 4);
    assert!(EventSchema::new("E".to_string(), indexed(3), false).is_ok());
    assert_eq!(EventSchema::new("E".to_string(), indexed(4), false), Err(Error::TopicOverrun));
    let four = EventSchema::new("E".to_string(), indexed(4), true).unwrap();
    assert_eq!(four.topic_count(), 4);
    assert_eq!(EventSchema::new("E".to_string(), indexed(5), true), Err(Error::TopicOverrun));
}

#[test]
fn topic_count_is_the_lead_and_the_indexed() {
    let parameters = vec![
        param(AbiType::Bool, true),
        param(AbiType::String, false),
        param(AbiType::String, true),
        param(AbiType::Bool, false),
    ];
    let named = EventSchema::new("E".to_string(), parameters.clone(), false).unwrap();
    let anonymous = EventSchema::new("E".to_string(), parameters, true).unwrap();
    assert_eq!(named.topic_count(), 3);
    assert_eq!(anonymous.topic_count(), 2);
    assert_eq!(named.name(), "E");
    assert_eq!(named.parameters().len(), 4);
}

#[test]
fn types_of_topics_fields_and_data() {
    let nested = AbiType::Array(Box::new(AbiType::Uint(8)));
    let parameters = vec![
        param(AbiType::Address, true),
        param(nested.clone(), true),
        param(nested.clone(), false),
        param(AbiType::Bool, false),
    ];
    assert_eq!(parameters[0].topic_type(), AbiType::Address);
    assert_eq!(parameters[1].topic_type(), AbiType::FixedBytes(32));
    assert_eq!(parameters[2].topic_type(), AbiType::FixedBytes(32));
    assert_eq!(parameters[1].field_type(), AbiType::FixedBytes(32));
    assert_eq!(parameters[2].field_type(), nested);
    assert_eq!(parameters[3].field_type(), AbiType::Bool);
    assert!(parameters[1].indexed_as_hash());
    assert!(!parameters[0].indexed_as_hash());
    assert!(!parameters[2].indexed_as_hash());
    let schema = EventSchema::new("E".to_string(), parameters, false).unwrap();
    assert_eq!(schema.topic_types(), vec![AbiType::Address, AbiType::FixedBytes(32)]);
    assert_eq!(schema.data_types(), vec![nested, AbiType::Bool]);
}

#[test]
fn signature_of_parts() {
    assert_eq!(build_signature("E", &vec![]), "E()");
    assert_eq!(build_signature("E", &vec![param(AbiType::Bool, true)]), "E(bool)");
    assert_eq!(
        build_signature("E", &vec![param(AbiType::Bool, true), param(AbiType::Bytes, false)]),
        "E(bool,bytes)"
    );
}

#[test]
fn selector_of_the_empty_signature() {
    let digest = selector_for("");
    assert_eq!(digest[..4], [0xc5, 0xd2, 0x46, 0x01]);
    assert_eq!(digest[28..], [0x5d, 0x85, 0xa4, 0x70]);
}

#[test]
fn topic_of_an_array_is_the_digest_of_its_encoding() {
    let p = param(AbiType::Array(Box::new(AbiType::Uint(256))), true);
    let empty = topic_word(&p, &AbiValue::Array(vec![]));
    assert_eq!(
        empty.to_vec(),
        vec![
            0x29, 0x0d, 0xec, 0xd9, 0x54, 0x8b, 0x62, 0xa8, 0xd6, 0x03, 0x45, 0xa9, 0x88, 0x38,
            0x6f, 0xc8, 0x4b, 0xa6, 0xbc, 0x95, 0x48, 0x40, 0x08, 0xf6, 0x36, 0x2f, 0x93, 0x16,
            0x0e, 0xf3, 0xe5, 0x63
        ]
    );
    let one = topic_word(&p, &AbiValue::Array(vec![AbiValue::Uint(word_from_u64(1))]));
    assert_ne!(one, empty);
    let digest = AbiValue::FixedBytes(vec![6u8; 32]);
    assert_eq!(topic_word(&p, &digest), [6u8; 32]);
}

#[test]
fn topic_of_bytes_is_the_digest_of_the_bytes() {
    let bytes = param(AbiType::Bytes, true);
    let string = param(AbiType::String, true);
    let a = topic_word(&bytes, &AbiValue::Bytes(b"hello".to_vec()));
    let b = topic_word(&string, &AbiValue::String("hello".to_string()));
    assert_eq!(a, b);
    assert_eq!(a[..4], [0x1c, 0x8a, 0xff, 0x95]);
}

#[test]
fn value_of_a_topic() {
    let flag = param(AbiType::Bool, true);
    assert_eq!(topic_value(&flag, &word_from_u64(1)), Ok(AbiValue::Bool(true)));
    assert_eq!(topic_value(&flag, &word_from_u64(0)), Ok(AbiValue::Bool(false)));
    assert_eq!(topic_value(&flag, &word_from_u64(2)), Err(Error::TypeMismatch));
    let text = param(AbiType::String, true);
    assert_eq!(topic_value(&text, &[8u8; 32]), Ok(AbiValue::FixedBytes(vec![8u8; 32])));
    let short = param(AbiType::FixedBytes(2), true);
    let mut w = [0u8; 32];
    w[0] = 1;
    w[1] = 2;
    assert_eq!(topic_value(&short, &w), Ok(AbiValue::FixedBytes(vec![1, 2])));
    let who = param(AbiType::Address, true);
    let mut w = [0u8; 32];
    w[12..].copy_from_slice(&[3u8; 20]);
    assert_eq!(topic_value(&who, &w), Ok(AbiValue::Address([3u8; 20])));
}

#[test]
fn topics_are_put_or_not_at_all() {
    let topics = vec![[1u8; 32], [2u8; 32]];
    let mut out = [[0u8; 32]; 3];
    assert_eq!(put_topics(&topics, &mut out), Ok(()));
    assert_eq!(out, [[1u8; 32], [2u8; 32], [0u8; 32]]);
    let mut short = [[9u8; 32]; 1];
    assert_eq!(put_topics(&topics, &mut short), Err(Error::TopicOverrun));
    assert_eq!(short, [[9u8; 32]; 1]);
    let mut none: [[u8; 32]; 0] = [];
    assert_eq!(put_topics(&vec![], &mut none), Ok(()));
}

#[test]
fn wrong_number_of_topics_is_a_type_mismatch() {
    let schema = EventSchema::new("E".to_string(), vec![param(AbiType::Bool, true)], false)
        .unwrap();
    assert_eq!(schema.decode_topics(&[[0u8; 32]]), Err(Error::TypeMismatch));
    assert_eq!(schema.decode_topics(&[[0u8; 32]; 3]), Err(Error::TypeMismatch));
    assert_eq!(
        schema.decode_topics(&[[0xeeu8; 32], word_from_u64(1)]),
        Ok(vec![AbiValue::Bool(true)])
    );
    assert_eq!(schema.decode_topics(&[[0xeeu8; 32], [1u8; 32]]), Err(Error::TypeMismatch));
    assert_eq!(schema.to_record(&[[0u8; 32]], &[]), Err(Error::TypeMismatch));
    assert_eq!(
        schema.to_record(&[schema.selector(), word_from_u64(1)], &[]),
        Ok(EventRecord { fields: vec![AbiValue::Bool(true)] })
    );
}

#[test]
fn record_that_does_not_fit_is_a_type_mismatch() {
    let schema = EventSchema::new(
        "E".to_string(),
        vec![param(AbiType::Bool, true), param(AbiType::String, false)],
        false,
    )
    .unwrap();
    let short = EventRecord { fields: vec![AbiValue::Bool(true)] };
    assert!(!short.fits(&schema));
    assert_eq!(schema.from_record(&short), Err(Error::TypeMismatch));
    assert_eq!(schema.encode_topics(&short), Err(Error::TypeMismatch));
    assert_eq!(schema.encode_data(&short), Err(Error::TypeMismatch));
    let swapped = EventRecord {
        fields: vec![AbiValue::String(String::new()), AbiValue::Bool(true)],
    };
    assert_eq!(schema.from_record(&swapped), Err(Error::TypeMismatch));
    let digest_in_data = EventRecord {
        fields: vec![AbiValue::Bool(true), AbiValue::FixedBytes(vec![0; 32])],
    };
    assert_eq!(schema.from_record(&digest_in_data), Err(Error::TypeMismatch));
}

#[test]
fn digests() {
    assert!(value_is_digest(&AbiValue::FixedBytes(vec![0; 32])));
    assert!(!value_is_digest(&AbiValue::FixedBytes(vec![0; 31])));
    assert!(!value_is_digest(&AbiValue::Bytes(vec![0; 32])));
    assert!(!value_is_digest(&AbiValue::Uint([0; 32])));
}

#[test]
fn topics_before_data_when_both_are_wrong() {
    let schema = EventSchema::new(
        "E".to_string(),
        vec![param(AbiType::Bool, true), param(AbiType::String, false)],
        true,
    )
    .unwrap();
    assert_eq!(schema.to_record(&[word_from_u64(5)], &[0xff; 32]), Err(Error::TypeMismatch));
    assert_eq!(schema.to_record(&[word_from_u64(1)], &[0xff; 32]), Err(Error::DecodeBoundsError));
}

#[test]
fn descriptor_names_the_parameters() {
    let schema = EventSchema::new(
        "Moved".to_string(),
        vec![
            EventParameter { name: Some("who".to_string()), ty: AbiType::Address, indexed: true },
            param(AbiType::Array(Box::new(AbiType::Uint(64))), false),
        ],
        true,
    )
    .unwrap();
    let d = schema.descriptor();
    assert_eq!(d.name, "Moved");
    assert!(d.anonymous);
    assert_eq!(d.inputs.len(), 2);
    assert_eq!(d.inputs[0].name, "who");
    assert_eq!(d.inputs[0].ty, "address");
    assert!(d.inputs[0].indexed);
    assert_eq!(d.inputs[1].name, "");
    assert_eq!(d.inputs[1].ty, "uint64[]");
    assert!(!d.inputs[1].indexed);
}

#[test]
fn name_is_appended_to_what_the_text_holds() {
    let mut text = String::from("x:");
    AbiType::Tuple(vec![AbiType::Bool, AbiType::Int(8)]).write_name(&mut text);
    assert_eq!(text, "x:(bool,int8)");
}
