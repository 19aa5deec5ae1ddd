use dynamodb::codec::{decode, encode};
use dynamodb::schema::{
    AttributeMap, AttributeValue, Dynamodb, Keys, NewImage, Root, EventName, Record,
};

fn map(entries: Vec<(&str, AttributeValue)>) -> AttributeMap {
    AttributeMap {
        entries: entries
            .into_iter()
            .map(|(k, v)| (String::from(k), v))
            .collect(),
    }
}

fn record(name: EventName, keys: AttributeMap, image: Option<AttributeMap>) -> Record {
    let image = image.map(|m| NewImage { map: m });
    Record {
        event_id: String::from("id-1"),
        event_name: name,
        event_version: String::from("1.1"),
        event_source: String::from("aws:dynamodb"),
        aws_region: String::from("region"),
        change: Dynamodb {
            approximate_creation_time: 1479499740,
            keys: Keys { map: keys },
            new_image: image,
            sequence_number: String::from("100000001"),
            size_bytes: 112,
            stream_view_type: String::from("NEW_IMAGE"),
        },
        source_arn: String::from("arn:aws:dynamodb:region:1:table/T/stream/1"),
    }
}

#[test]
fn encode_of_empty_envelope_is_exact() {
    let env = Root { records: Vec::new() };
    assert_eq!(encode(&env), "{\"Records\":[]}");
}

#[test]
fn encode_of_remove_record_is_exact() {
    let keys = map(vec![("Id", AttributeValue::S(String::from("k1")))]);
    let env = Root {
        records: vec![record(EventName::Remove, keys, None)],
    };
    assert_eq!(
        encode(&env),
        "{\"Records\":[{\"eventID\":\"id-1\",\"eventName\":\"REMOVE\",\"eventVersion\":\"1.1\",\"eventSource\":\"aws:dynamodb\",\"awsRegion\":\"region\",\"dynamodb\":{\"ApproximateCreationDateTime\":1479499740,\"Keys\":{\"Id\":{\"S\":\"k1\"}},\"SequenceNumber\":\"100000001\",\"SizeBytes\":112,\"StreamViewType\":\"NEW_IMAGE\"},\"eventSourceARN\":\"arn:aws:dynamodb:region:1:table/T/stream/1\"}]}"
    );
}

#[test]
fn all_attribute_variants_round_trip() {
    let keys = map(vec![("Id", AttributeValue::S(String::from("k1")))]);
    let image = map(vec![
        ("Id", AttributeValue::S(String::from("k1"))),
        ("Count", AttributeValue::N(String::from("42"))),
        ("Blob", AttributeValue::B(String::from("AQID"))),
        ("Flag", AttributeValue::Bool(true)),
        ("Gone", AttributeValue::Null),
        (
            "Nested",
            AttributeValue::M(map(vec![
                ("Inner", AttributeValue::S(String::from("x"))),
                ("Deep", AttributeValue::L(vec![
                    AttributeValue::N(String::from("-7")),
                    AttributeValue::Bool(false),
                ])),
            ])),
        ),
        (
            "Tags",
            AttributeValue::Ss(vec![String::from("a"), String::from("b")]),
        ),
        (
            "Nums",
            AttributeValue::Ns(vec![String::from("1"), String::from("2")]),
        ),
        ("Blobs", AttributeValue::Bs(vec![String::from("AQ==")])),
    ]);
    let env = Root {
        records: vec![record(EventName::Modify, keys, Some(image))],
    };
    let text = encode(&env);
    let back = decode(&text).expect("the encoded envelope must decode");
    assert_eq!(encode(&back), text);
    let img = &back.records[0].change.new_image.as_ref().unwrap().map;
    assert_eq!(img.entries.len(), 9);
    match &img.entries[5].1 {
        AttributeValue::M(m) => {
            assert_eq!(m.entries.len(), 2);
            match &m.entries[1].1 {
                AttributeValue::L(l) => assert_eq!(l.len(), 2),
                other => panic!("expected a list, got {:?}", other),
            }
        }
        other => panic!("expected a map, got {:?}", other),
    }
}

#[test]
fn strings_with_escapes_round_trip() {
    let keys = map(vec![("Id", AttributeValue::S(String::from("k1")))]);
    let image = map(vec![
        ("Id", AttributeValue::S(String::from("k1"))),
        (
            "Message",
            AttributeValue::S(String::from("a \"quoted\" \\ back\nslash\ttab\u{1}end")),
        ),
    ]);
    let env = Root {
        records: vec![record(EventName::Insert, keys, Some(image))],
    };
    let text = encode(&env);
    assert!(text.contains("a \\\"quoted\\\" \\\\ back\\u000aslash\\u0009tab\\u0001end"));
    let back = decode(&text).expect("the encoded envelope must decode");
    let img = &back.records[0].change.new_image.as_ref().unwrap().map;
    match &img.entries[1].1 {
        AttributeValue::S(s) => {
            assert_eq!(s, "a \"quoted\" \\ back\nslash\ttab\u{1}end");
        }
        other => panic!("expected a string, got {:?}", other),
    }
}

#[test]
fn integer_extremes_round_trip() {
    let keys = map(vec![("Id", AttributeValue::S(String::from("k1")))]);
    let mut r = record(EventName::Remove, keys, None);
    r.change.approximate_creation_time = i64::MIN;
    r.change.size_bytes = i64::MAX;
    let env = Root { records: vec![r] };
    let text = encode(&env);
    assert!(text.contains("\"ApproximateCreationDateTime\":-9223372036854775808,"));
    let back = decode(&text).expect("the encoded envelope must decode");
    assert_eq!(back.records[0].change.approximate_creation_time, i64::MIN);
    assert_eq!(back.records[0].change.size_bytes, i64::MAX);
}

#[test]
fn out_of_range_integer_is_refused() {
    let text = "{\"Records\":[{\"eventID\":\"i\",\"eventName\":\"REMOVE\",\"eventVersion\":\"1\",\"eventSource\":\"s\",\"awsRegion\":\"r\",\"dynamodb\":{\"ApproximateCreationDateTime\":9223372036854775808,\"Keys\":{},\"SequenceNumber\":\"1\",\"SizeBytes\":1,\"StreamViewType\":\"KEYS_ONLY\"},\"eventSourceARN\":\"a\"}]}";
    assert!(decode(text).is_err());
}

#[test]
fn record_order_is_preserved() {
    let mk = |id: &str| {
        let keys = map(vec![("Id", AttributeValue::S(String::from(id)))]);
        let mut r = record(EventName::Remove, keys, None);
        r.event_id = String::from(id);
        r
    };
    let env = Root {
        records: vec![mk("a"), mk("b"), mk("c")],
    };
    let back = decode(&encode(&env)).expect("the encoded envelope must decode");
    let ids: Vec<&str> = back.records.iter().map(|r| r.event_id.as_str()).collect();
    assert_eq!(ids, vec!["a", "b", "c"]);
}
