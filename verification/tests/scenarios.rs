use event_abi::error::Error;
use event_abi::record::{EventRecord, LogData};
use event_abi::schema::{EventParameter, EventSchema};
use event_abi::types::AbiType;
use event_abi::value::AbiValue;
use event_abi::word::word_from_u64;

fn param(name: &str, ty: AbiType, indexed: bool) -> EventParameter {
    EventParameter { name: Some(name.to_string()), ty, indexed }
}

fn unhex(text: &str) -> Vec<u8> {
    let digits: Vec<u8> = text
        .bytes()
        .map(|c| match c {
            b'0'..=b'9' => c - b'0',
            b'a'..=b'f' => c - b'a' + 10,
            _ => panic!("not a hex digit"),
        })
        .collect();
    digits.chunks(2).map(|pair| pair[0] * 16 + pair[1]).collect()
}

fn word(text: &str) -> [u8; 32] {
    let bytes = unhex(text);
    assert_eq!(bytes.len(), 32);
    let mut w = [0u8; 32];
    w.copy_from_slice(&bytes);
    w
}

fn address(last: u8) -> [u8; 20] {
    let mut a = [0x11u8; 20];
    a[19] = last;
    a
}

fn address_word(a: &[u8; 20]) -> [u8; 32] {
    let mut w = [0u8; 32];
    w[12..].copy_from_slice(a);
    w
}

fn transfer() -> EventSchema {
    EventSchema::new(
        "Transfer".to_string(),
        vec![
            param("from", AbiType::Address, true),
            param("to", AbiType::Address, true),
            param("value", AbiType::Uint(256), false),
        ],
        false,
    )
    .unwrap()
}

fn transfer_record() -> EventRecord {
    EventRecord {
        fields: vec![
            AbiValue::Address(address(1)),
            AbiValue::Address(address(2)),
            AbiValue::Uint(word_from_u64(1000)),
        ],
    }
}

fn ping() -> EventSchema {
    EventSchema::new(
        "Ping".to_string(),
        vec![
            param("id", AbiType::FixedBytes(32), true),
            param("tag", AbiType::String, true),
            param("count", AbiType::Uint(256), false),
        ],
        true,
    )
    .unwrap()
}

const TRANSFER_SELECTOR: &str = "ddf252ad1be2c89b69c2b068fc378daa952ba7f163c4a11628f55a4df523b3ef";

const HELLO_DIGEST: &str = "1c8aff950685c2ed4bc3174f3472287b56d9517b9c948127319a09a7a36deac8";

#[test]
fn transfer_signature_and_selector() {
    let schema = transfer();
    assert_eq!(schema.signature(), "Transfer(address,address,uint256)");
    assert_eq!(schema.selector(), word(TRANSFER_SELECTOR));
    assert!(!schema.anonymous());
    assert_eq!(schema.topic_count(), 3);
}

#[test]
fn transfer_topics_and_data() {
    let schema = transfer();
    let record = transfer_record();
    let topics = schema.encode_topics(&record).unwrap();
    assert_eq!(
        topics,
        vec![word(TRANSFER_SELECTOR), address_word(&address(1)), address_word(&address(2))]
    );
    let data = schema.encode_data(&record).unwrap();
    assert_eq!(data, word_from_u64(1000).to_vec());
    let log = schema.from_record(&record).unwrap();
    assert_eq!(log, LogData { topics, data });
}

#[test]
fn transfer_round_trip() {
    let schema = transfer();
    let record = transfer_record();
    let log = schema.from_record(&record).unwrap();
    let back = schema.to_record(&log.topics, &log.data).unwrap();
    assert_eq!(back, record);
}

#[test]
fn ping_is_anonymous_with_two_topics() {
    let schema = ping();
    let id = [0xabu8; 32];
    let record = EventRecord {
        fields: vec![
            AbiValue::FixedBytes(id.to_vec()),
            AbiValue::String("hello".to_string()),
            AbiValue::Uint(word_from_u64(7)),
        ],
    };
    assert!(schema.anonymous());
    assert_eq!(schema.signature(), "Ping(bytes32,string,uint256)");
    assert_eq!(schema.topic_count(), 2);
    let topics = schema.encode_topics(&record).unwrap();
    assert_eq!(topics, vec![id, word(HELLO_DIGEST)]);
    let data = schema.encode_data(&record).unwrap();
    assert_eq!(data, word_from_u64(7).to_vec());
}

#[test]
fn ping_selector_is_there_though_anonymous() {
    let schema = ping();
    let named = EventSchema::new(
        "Ping".to_string(),
        schema.parameters().clone(),
        false,
    )
    .unwrap();
    assert_eq!(schema.selector(), named.selector());
    assert_ne!(schema.selector(), [0u8; 32]);
}

#[test]
fn short_buffer_is_an_overrun_and_stays_untouched() {
    let schema = transfer();
    let record = transfer_record();
    let mut out = [[0x5au8; 32]; 2];
    assert_eq!(schema.encode_topics_raw(&record, &mut out), Err(Error::TopicOverrun));
    assert_eq!(out, [[0x5au8; 32]; 2]);
}

#[test]
fn short_buffer_is_an_overrun_before_the_record_is_looked_at() {
    let schema = transfer();
    let record = EventRecord { fields: vec![] };
    let mut out = [[0x5au8; 32]; 2];
    assert_eq!(schema.encode_topics_raw(&record, &mut out), Err(Error::TopicOverrun));
    assert_eq!(out, [[0x5au8; 32]; 2]);
}

#[test]
fn wide_buffer_takes_the_topics_in_front() {
    let schema = transfer();
    let record = transfer_record();
    let mut out = [[0x5au8; 32]; 4];
    assert_eq!(schema.encode_topics_raw(&record, &mut out), Ok(()));
    assert_eq!(out[0], word(TRANSFER_SELECTOR));
    assert_eq!(out[1], address_word(&address(1)));
    assert_eq!(out[2], address_word(&address(2)));
    assert_eq!(out[3], [0x5au8; 32]);
}

#[test]
fn record_that_does_not_fit_leaves_the_buffer_untouched() {
    let schema = transfer();
    let record = EventRecord {
        fields: vec![
            AbiValue::Bool(true),
            AbiValue::Address(address(2)),
            AbiValue::Uint(word_from_u64(1000)),
        ],
    };
    let mut out = [[0x5au8; 32]; 3];
    assert_eq!(schema.encode_topics_raw(&record, &mut out), Err(Error::TypeMismatch));
    assert_eq!(out, [[0x5au8; 32]; 3]);
}

#[test]
fn indexed_string_comes_back_as_its_digest() {
    let schema = ping();
    let id = [0x01u8; 32];
    let record = EventRecord {
        fields: vec![
            AbiValue::FixedBytes(id.to_vec()),
            AbiValue::String("hello".to_string()),
            AbiValue::Uint(word_from_u64(7)),
        ],
    };
    let topics = schema.encode_topics(&record).unwrap();
    let values = schema.decode_topics(&topics).unwrap();
    assert_eq!(
        values,
        vec![AbiValue::FixedBytes(id.to_vec()), AbiValue::FixedBytes(unhex(HELLO_DIGEST))]
    );
    let again = schema.encode_topics(&record).unwrap();
    assert_eq!(again, topics);
}

#[test]
fn record_with_a_digest_comes_back_as_it_was() {
    let schema = ping();
    let log = schema
        .from_record(&EventRecord {
            fields: vec![
                AbiValue::FixedBytes(vec![2u8; 32]),
                AbiValue::String("hello".to_string()),
                AbiValue::Uint(word_from_u64(9)),
            ],
        })
        .unwrap();
    let settled = schema.to_record(&log.topics, &log.data).unwrap();
    assert_eq!(
        settled,
        EventRecord {
            fields: vec![
                AbiValue::FixedBytes(vec![2u8; 32]),
                AbiValue::FixedBytes(unhex(HELLO_DIGEST)),
                AbiValue::Uint(word_from_u64(9)),
            ],
        }
    );
    let log_again = schema.from_record(&settled).unwrap();
    assert_eq!(log_again, log);
    assert_eq!(schema.to_record(&log_again.topics, &log_again.data).unwrap(), settled);
}

#[test]
fn anonymous_flag_drops_the_leading_topic() {
    let parameters = vec![
        param("from", AbiType::Address, true),
        param("to", AbiType::Address, true),
        param("value", AbiType::Uint(256), false),
    ];
    let named = EventSchema::new("Transfer".to_string(), parameters.clone(), false).unwrap();
    let anonymous = EventSchema::new("Transfer".to_string(), parameters, true).unwrap();
    let record = transfer_record();
    let with = named.encode_topics(&record).unwrap();
    let without = anonymous.encode_topics(&record).unwrap();
    assert_eq!(anonymous.topic_count() + 1, named.topic_count());
    assert_eq!(with[0], named.selector());
    assert_eq!(&with[1..], &without[..]);
    assert_eq!(named.encode_data(&record), anonymous.encode_data(&record));
}

#[test]
fn selector_follows_the_signature() {
    let a = EventSchema::new(
        "Transfer".to_string(),
        vec![
            param("a", AbiType::Address, false),
            param("b", AbiType::Address, true),
            param("c", AbiType::Uint(256), true),
        ],
        true,
    )
    .unwrap();
    assert_eq!(a.signature(), transfer().signature());
    assert_eq!(a.selector(), transfer().selector());
    let renamed = EventSchema::new(
        "Transfers".to_string(),
        transfer().parameters().clone(),
        false,
    )
    .unwrap();
    assert_ne!(renamed.signature(), transfer().signature());
    assert_ne!(renamed.selector(), transfer().selector());
    let retyped = EventSchema::new(
        "Transfer".to_string(),
        vec![
            param("from", AbiType::Address, true),
            param("to", AbiType::Address, true),
            param("value", AbiType::Uint(128), false),
        ],
        false,
    )
    .unwrap();
    assert_eq!(retyped.signature(), "Transfer(address,address,uint128)");
    assert_ne!(retyped.selector(), transfer().selector());
}

#[test]
fn selector_in_hexadecimal() {
    let schema = transfer();
    assert_eq!(schema.selector_hex(), format!("0x{}", TRANSFER_SELECTOR));
    assert_eq!(
        schema.describe(),
        format!(
            "Event with signature `Transfer(address,address,uint256)` and selector `0x{}`.",
            TRANSFER_SELECTOR
        )
    );
}
