use event_abi::decode::{decode, decode_members, head_width_within, heads_width_within};
use event_abi::encode::{encode_into, encode_values, value_is_dynamic};
use event_abi::error::Error;
use event_abi::record::EventRecord;
use event_abi::schema::{EventParameter, EventSchema};
use event_abi::types::AbiType;
use event_abi::value::AbiValue;
use event_abi::word::{push_bytes, push_zeros, word_from_u64, word_to_u64};

fn plain(ty: AbiType) -> EventParameter {
    EventParameter { name: None, ty, indexed: false }
}

fn schema_of(types: Vec<AbiType>) -> EventSchema {
    EventSchema::new("E".to_string(), types.into_iter().map(plain).collect(), false).unwrap()
}

fn words(numbers: &[u64]) -> Vec<u8> {
    let mut bytes = Vec::new();
    for n in numbers {
        bytes.extend_from_slice(&word_from_u64(*n));
    }
    bytes
}

fn padded(content: &[u8]) -> Vec<u8> {
    let mut bytes = content.to_vec();
    while bytes.len() % 32 != 0 {
        bytes.push(0);
    }
    bytes
}

fn uint(n: u64) -> AbiValue {
    AbiValue::Uint(word_from_u64(n))
}

#[test]
fn word_of_a_number_is_big_endian() {
    let w = word_from_u64(0x0102);
    assert_eq!(&w[..30], &[0u8; 30]);
    assert_eq!(w[30], 1);
    assert_eq!(w[31], 2);
    assert_eq!(word_from_u64(u64::MAX)[24..], [0xffu8; 8]);
    assert_eq!(word_from_u64(u64::MAX)[..24], [0u8; 24]);
    assert_eq!(word_from_u64(0), [0u8; 32]);
}

#[test]
fn number_of_a_word() {
    assert_eq!(word_to_u64(&word_from_u64(0)), Some(0));
    assert_eq!(word_to_u64(&word_from_u64(77)), Some(77));
    assert_eq!(word_to_u64(&word_from_u64(u64::MAX)), Some(u64::MAX));
    let mut big = [0u8; 32];
    big[23] = 1;
    assert_eq!(word_to_u64(&big), None);
    assert_eq!(word_to_u64(&[0xffu8; 32]), None);
}

#[test]
fn zeros_and_bytes_are_appended() {
    let mut out = vec![9u8];
    push_zeros(&mut out, 3);
    push_bytes(&mut out, &[1, 2]);
    push_zeros(&mut out, 0);
    assert_eq!(out, vec![9, 0, 0, 0, 1, 2]);
}

#[test]
fn elementary_values_are_one_word() {
    let mut out = Vec::new();
    encode_into(&AbiValue::Bool(true), &mut out);
    assert_eq!(out, words(&[1]));
    let mut out = Vec::new();
    encode_into(&AbiValue::Bool(false), &mut out);
    assert_eq!(out, words(&[0]));
    let mut out = Vec::new();
    encode_into(&AbiValue::Address([0xaa; 20]), &mut out);
    let mut expected = vec![0u8; 12];
    expected.extend_from_slice(&[0xaa; 20]);
    assert_eq!(out, expected);
    let mut out = Vec::new();
    encode_into(&AbiValue::FixedBytes(vec![1, 2, 3]), &mut out);
    assert_eq!(out, padded(&[1, 2, 3]));
    let mut out = vec![7u8];
    encode_into(&AbiValue::Int([0xff; 32]), &mut out);
    let mut expected = vec![7u8];
    expected.extend_from_slice(&[0xff; 32]);
    assert_eq!(out, expected);
}

#[test]
fn string_is_length_then_padded_bytes() {
    let mut out = Vec::new();
    encode_into(&AbiValue::String("abc".to_string()), &mut out);
    let mut expected = words(&[3]);
    expected.extend_from_slice(&padded(b"abc"));
    assert_eq!(out, expected);
    assert_eq!(out.len(), 64);
}

#[test]
fn bytes_of_whole_words_get_no_padding() {
    let mut out = Vec::new();
    encode_into(&AbiValue::Bytes(vec![5u8; 32]), &mut out);
    let mut expected = words(&[32]);
    expected.extend_from_slice(&[5u8; 32]);
    assert_eq!(out, expected);
    let mut out = Vec::new();
    encode_into(&AbiValue::Bytes(vec![]), &mut out);
    assert_eq!(out, words(&[0]));
}

#[test]
fn dynamic_member_stands_in_the_tail() {
    let values = vec![AbiValue::String("abc".to_string()), uint(1)];
    let mut expected = words(&[0x40, 1, 3]);
    expected.extend_from_slice(&padded(b"abc"));
    assert_eq!(encode_values(&values), expected);
}

#[test]
fn two_dynamic_members_have_growing_offsets() {
    let values = vec![
        AbiValue::Bytes(vec![1u8; 33]),
        uint(9),
        AbiValue::Array(vec![uint(4), uint(5)]),
    ];
    let mut expected = words(&[0x60, 9, 0x60 + 32 + 64, 33]);
    expected.extend_from_slice(&padded(&[1u8; 33]));
    expected.extend_from_slice(&words(&[2, 4, 5]));
    assert_eq!(encode_values(&values), expected);
}

#[test]
fn array_of_strings_nests_heads_and_tails() {
    let value = AbiValue::Array(vec![
        AbiValue::String("a".to_string()),
        AbiValue::String("bc".to_string()),
    ]);
    let mut expected = words(&[0x20, 2, 0x40, 0x80, 1]);
    expected.extend_from_slice(&padded(b"a"));
    expected.extend_from_slice(&words(&[2]));
    expected.extend_from_slice(&padded(b"bc"));
    assert_eq!(encode_values(&vec![value]), expected);
}

#[test]
fn static_tuple_stands_in_the_head() {
    let values = vec![
        AbiValue::Tuple(vec![uint(1), AbiValue::Bool(true)]),
        AbiValue::String("x".to_string()),
    ];
    let mut expected = words(&[1, 1, 0x60, 1]);
    expected.extend_from_slice(&padded(b"x"));
    assert_eq!(encode_values(&values), expected);
}

#[test]
fn empty_tuple_of_values_is_empty() {
    assert_eq!(encode_values(&vec![]), Vec::<u8>::new());
}

#[test]
fn dynamic_values() {
    assert!(value_is_dynamic(&AbiValue::String(String::new())));
    assert!(value_is_dynamic(&AbiValue::Bytes(vec![])));
    assert!(value_is_dynamic(&AbiValue::Array(vec![])));
    assert!(!value_is_dynamic(&uint(1)));
    assert!(!value_is_dynamic(&AbiValue::Tuple(vec![uint(1), AbiValue::Bool(false)])));
    assert!(value_is_dynamic(&AbiValue::Tuple(vec![uint(1), AbiValue::Bytes(vec![])])));
}

#[test]
fn head_widths() {
    assert_eq!(head_width_within(&AbiType::Bool, 32), Some(32));
    assert_eq!(head_width_within(&AbiType::Bool, 31), None);
    assert_eq!(head_width_within(&AbiType::String, 32), Some(32));
    let pair = AbiType::Tuple(vec![AbiType::Uint(8), AbiType::Address]);
    assert_eq!(head_width_within(&pair, 64), Some(64));
    assert_eq!(head_width_within(&pair, 63), None);
    let mixed = AbiType::Tuple(vec![AbiType::Uint(8), AbiType::Bytes]);
    assert_eq!(head_width_within(&mixed, 32), Some(32));
    assert_eq!(heads_width_within(&vec![pair, mixed, AbiType::Bool], 128), Some(128));
    assert_eq!(heads_width_within(&vec![], 0), Some(0));
}

#[test]
fn decode_reads_back_what_encode_wrote() {
    let ty = AbiType::Tuple(vec![
        AbiType::Array(Box::new(AbiType::String)),
        AbiType::Tuple(vec![AbiType::Uint(64), AbiType::Bool]),
        AbiType::Bytes,
        AbiType::Int(8),
        AbiType::Array(Box::new(AbiType::Tuple(vec![AbiType::Address, AbiType::Bytes]))),
    ]);
    let minus_one = AbiValue::Int([0xff; 32]);
    let value = AbiValue::Tuple(vec![
        AbiValue::Array(vec![
            AbiValue::String("first".to_string()),
            AbiValue::String(String::new()),
            AbiValue::String("a string that is longer than one word of bytes".to_string()),
        ]),
        AbiValue::Tuple(vec![uint(5), AbiValue::Bool(true)]),
        AbiValue::Bytes(vec![1, 2, 3]),
        minus_one,
        AbiValue::Array(vec![
            AbiValue::Tuple(vec![AbiValue::Address([3; 20]), AbiValue::Bytes(vec![4; 40])]),
            AbiValue::Tuple(vec![AbiValue::Address([5; 20]), AbiValue::Bytes(vec![])]),
        ]),
    ]);
    assert!(value.has_type(&ty));
    let mut bytes = Vec::new();
    encode_into(&value, &mut bytes);
    let used = bytes.len();
    assert_eq!(decode(&ty, &bytes), Ok((value.clone(), used)));
    bytes.extend_from_slice(&[0xee; 5]);
    assert_eq!(decode(&ty, &bytes), Ok((value, used)));
}

#[test]
fn decode_members_of_an_array_type() {
    let ty = AbiType::Array(Box::new(AbiType::Uint(256)));
    let bytes = words(&[7, 8, 9]);
    assert_eq!(decode_members(&ty, 3, 96, &bytes), Ok((vec![uint(7), uint(8), uint(9)], 96)));
    assert_eq!(decode_members(&ty, 0, 0, &bytes), Ok((vec![], 0)));
}

#[test]
fn data_of_a_schema_is_decoded() {
    let schema = schema_of(vec![AbiType::String, AbiType::Uint(256)]);
    let mut data = words(&[0x40, 1, 3]);
    data.extend_from_slice(&padded(b"abc"));
    assert_eq!(
        schema.decode_data(&data),
        Ok(vec![AbiValue::String("abc".to_string()), uint(1)])
    );
}

#[test]
fn data_of_no_parameters_is_empty() {
    let schema = EventSchema::new("Nothing".to_string(), vec![], false).unwrap();
    assert_eq!(schema.signature(), "Nothing()");
    assert_eq!(schema.decode_data(&[]), Ok(vec![]));
    assert_eq!(schema.encode_data(&EventRecord { fields: vec![] }), Ok(vec![]));
    assert_eq!(schema.topic_count(), 1);
}

#[test]
fn too_few_head_slots_is_a_type_mismatch() {
    let schema = schema_of(vec![AbiType::Uint(256), AbiType::Bool]);
    assert_eq!(schema.decode_data(&words(&[1])), Err(Error::TypeMismatch));
    assert_eq!(schema.decode_data(&[]), Err(Error::TypeMismatch));
    assert_eq!(decode(&AbiType::Bool, &[0u8; 31]), Err(Error::TypeMismatch));
}

#[test]
fn word_that_is_not_of_its_type_is_a_type_mismatch() {
    assert_eq!(decode(&AbiType::Bool, &words(&[2])), Err(Error::TypeMismatch));
    assert_eq!(decode(&AbiType::Uint(8), &words(&[256])), Err(Error::TypeMismatch));
    assert_eq!(decode(&AbiType::Uint(8), &words(&[255])), Ok((uint(255), 32)));
    assert_eq!(decode(&AbiType::Address, &[1u8; 32]), Err(Error::TypeMismatch));
    assert_eq!(decode(&AbiType::FixedBytes(4), &[1u8; 32]), Err(Error::TypeMismatch));
    assert_eq!(decode(&AbiType::Int(8), &words(&[128])), Err(Error::TypeMismatch));
    assert_eq!(decode(&AbiType::Int(8), &words(&[127])), Ok((AbiValue::Int(word_from_u64(127)), 32)));
    let mut minus_128 = [0xffu8; 32];
    minus_128[31] = 0x80;
    assert_eq!(decode(&AbiType::Int(8), &minus_128), Ok((AbiValue::Int(minus_128), 32)));
    assert_eq!(decode(&AbiType::Int(256), &[0x80u8; 32]), Ok((AbiValue::Int([0x80; 32]), 32)));
}

#[test]
fn string_that_is_not_utf8_is_a_type_mismatch() {
    let mut data = words(&[2]);
    data.extend_from_slice(&padded(&[0xff, 0xfe]));
    assert_eq!(decode(&AbiType::String, &data), Err(Error::TypeMismatch));
    assert_eq!(decode(&AbiType::Bytes, &data), Ok((AbiValue::Bytes(vec![0xff, 0xfe]), 64)));
}

#[test]
fn offset_behind_the_buffer_is_out_of_bounds() {
    let schema = schema_of(vec![AbiType::String]);
    assert_eq!(schema.decode_data(&words(&[0x40, 0])), Err(Error::DecodeBoundsError));
    assert_eq!(schema.decode_data(&words(&[0x41])), Err(Error::DecodeBoundsError));
    assert_eq!(schema.decode_data(&[0xffu8; 32]), Err(Error::DecodeBoundsError));
}

#[test]
fn offset_into_the_head_is_out_of_bounds() {
    let schema = schema_of(vec![AbiType::String, AbiType::Uint(256)]);
    assert_eq!(schema.decode_data(&words(&[0x20, 0, 0])), Err(Error::DecodeBoundsError));
    assert_eq!(schema.decode_data(&words(&[0, 0, 0])), Err(Error::DecodeBoundsError));
}

#[test]
fn offset_in_front_of_the_member_before_is_out_of_bounds() {
    let schema = schema_of(vec![AbiType::Bytes, AbiType::Bytes]);
    let good = words(&[0x40, 0x60, 0, 0]);
    assert_eq!(
        schema.decode_data(&good),
        Ok(vec![AbiValue::Bytes(vec![]), AbiValue::Bytes(vec![])])
    );
    let overlapping = words(&[0x40, 0x40, 0, 0]);
    assert_eq!(schema.decode_data(&overlapping), Err(Error::DecodeBoundsError));
    let decreasing = words(&[0x60, 0x40, 0, 0]);
    assert_eq!(schema.decode_data(&decreasing), Err(Error::DecodeBoundsError));
}

#[test]
fn length_behind_the_buffer_is_out_of_bounds() {
    let schema = schema_of(vec![AbiType::Bytes]);
    assert_eq!(schema.decode_data(&words(&[0x20, 33, 0])), Err(Error::DecodeBoundsError));
    assert_eq!(schema.decode_data(&words(&[0x20, 1])), Err(Error::DecodeBoundsError));
    assert_eq!(schema.decode_data(&words(&[0x20])), Err(Error::DecodeBoundsError));
    let schema = schema_of(vec![AbiType::Array(Box::new(AbiType::Uint(256)))]);
    assert_eq!(schema.decode_data(&words(&[0x20, 2, 1])), Err(Error::DecodeBoundsError));
    assert_eq!(schema.decode_data(&words(&[0x20, 1, 1])), Ok(vec![AbiValue::Array(vec![uint(1)])]));
    let mut huge = words(&[0x20]);
    huge.extend_from_slice(&[0xff; 32]);
    assert_eq!(schema.decode_data(&huge), Err(Error::DecodeBoundsError));
}

#[test]
fn gap_between_tails_is_passed_over() {
    let schema = schema_of(vec![AbiType::Bytes, AbiType::Bytes]);
    let data = words(&[0x60, 0xa0, 0xdead, 0, 0xbeef, 1, 0]);
    let mut with_content = data.clone();
    with_content[6 * 32] = 0x77;
    assert_eq!(
        schema.decode_data(&with_content),
        Ok(vec![AbiValue::Bytes(vec![]), AbiValue::Bytes(vec![0x77])])
    );
}

#[test]
fn round_trip_of_data_through_a_schema() {
    let schema = EventSchema::new(
        "Mixed".to_string(),
        vec![
            EventParameter { name: Some("a".to_string()), ty: AbiType::Uint(8), indexed: true },
            plain(AbiType::Array(Box::new(AbiType::Array(Box::new(AbiType::Uint(16)))))),
            EventParameter { name: None, ty: AbiType::Bool, indexed: true },
            plain(AbiType::Tuple(vec![AbiType::String, AbiType::FixedBytes(2)])),
            plain(AbiType::Int(16)),
            EventParameter { name: None, ty: AbiType::FixedBytes(3), indexed: true },
        ],
        false,
    )
    .unwrap();
    assert_eq!(schema.signature(), "Mixed(uint8,uint16[][],bool,(string,bytes2),int16,bytes3)");
    let record = EventRecord {
        fields: vec![
            uint(200),
            AbiValue::Array(vec![
                AbiValue::Array(vec![uint(1), uint(65535)]),
                AbiValue::Array(vec![]),
            ]),
            AbiValue::Bool(true),
            AbiValue::Tuple(vec![
                AbiValue::String("grüße".to_string()),
                AbiValue::FixedBytes(vec![9, 8]),
            ]),
            AbiValue::Int(word_from_u64(300)),
            AbiValue::FixedBytes(vec![1, 2, 3]),
        ],
    };
    assert!(record.fits(&schema));
    let log = schema.from_record(&record).unwrap();
    assert_eq!(log.topics.len(), 4);
    assert_eq!(schema.to_record(&log.topics, &log.data), Ok(record));
}

#[test]
fn encoding_is_appended_to_what_the_buffer_holds() {
    let mut out = vec![0xaa, 0xbb];
    event_abi::encode::encode_seq_into(
        &vec![AbiValue::String("abc".to_string()), uint(1)],
        &mut out,
    );
    let mut expected = vec![0xaa, 0xbb];
    expected.extend_from_slice(&words(&[0x40, 1, 3]));
    expected.extend_from_slice(&padded(b"abc"));
    assert_eq!(out, expected);
}

#[test]
fn word_from_its_bytes() {
    let bytes: Vec<u8> = (0u8..32).collect();
    let w = event_abi::word::word_from_slice(&bytes);
    assert_eq!(w.to_vec(), bytes);
}
