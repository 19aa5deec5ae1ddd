use dynamodb::codec::{decode, encode};
use dynamodb::schema::{AttributeValue, DecodeError, EventName};

fn sample() -> String {
    String::from("{\"Records\":[{\"eventID\":\"7de3041dd709b024af6f29e4fa13d34c\",\"eventName\":\"INSERT\",\"eventVersion\":\"1.1\",\"eventSource\":\"aws:dynamodb\",\"awsRegion\":\"region\",\"dynamodb\":{\"ApproximateCreationDateTime\":1479499740,\"Keys\":{\"Timestamp\":{\"S\":\"2016-11-18:12:09:36\"},\"Username\":{\"S\":\"John Doe\"}},\"NewImage\":{\"Timestamp\":{\"S\":\"2016-11-18:12:09:36\"},\"Message\":{\"S\":\"This is a bark from the Woofer social network\"},\"Username\":{\"S\":\"John Doe\"}},\"SequenceNumber\":\"13021600000000001596893679\",\"SizeBytes\":112,\"StreamViewType\":\"NEW_IMAGE\"},\"eventSourceARN\":\"arn:aws:dynamodb:region:123456789012:table/BarkTable/stream/2016-11-16T20:42:48.104\"}]}")
}

fn attr_s(a: &AttributeValue) -> &str {
    match a {
        AttributeValue::S(s) => s.as_str(),
        _ => panic!("expected a string attribute"),
    }
}

#[test]
fn sample_payload_decodes() {
    let env = decode(&sample()).expect("the sample payload must decode");
    assert_eq!(env.records.len(), 1);
    let r = &env.records[0];
    assert_eq!(r.event_id, "7de3041dd709b024af6f29e4fa13d34c");
    assert_eq!(r.event_name, EventName::Insert);
    assert_eq!(r.event_version, "1.1");
    assert_eq!(r.event_source, "aws:dynamodb");
    assert_eq!(r.aws_region, "region");
    assert_eq!(
        r.source_arn,
        "arn:aws:dynamodb:region:123456789012:table/BarkTable/stream/2016-11-16T20:42:48.104"
    );
    let c = &r.change;
    assert_eq!(c.approximate_creation_time, 1479499740);
    assert_eq!(c.sequence_number, "13021600000000001596893679");
    assert_eq!(c.size_bytes, 112);
    assert_eq!(c.stream_view_type, "NEW_IMAGE");
    assert_eq!(c.keys.map.entries.len(), 2);
    assert_eq!(c.keys.map.entries[0].0, "Timestamp");
    assert_eq!(attr_s(&c.keys.map.entries[0].1), "2016-11-18:12:09:36");
    assert_eq!(c.keys.map.entries[1].0, "Username");
    assert_eq!(attr_s(&c.keys.map.entries[1].1), "John Doe");
    let img = &c.new_image.as_ref().expect("an insert carries a new image").map;
    assert_eq!(img.entries.len(), 3);
    assert_eq!(img.entries[0].0, "Timestamp");
    assert_eq!(attr_s(&img.entries[0].1), "2016-11-18:12:09:36");
    assert_eq!(img.entries[1].0, "Message");
    assert_eq!(
        attr_s(&img.entries[1].1),
        "This is a bark from the Woofer social network"
    );
    assert_eq!(img.entries[2].0, "Username");
    assert_eq!(attr_s(&img.entries[2].1), "John Doe");
}

#[test]
fn sample_payload_round_trips() {
    let text = sample();
    let env = decode(&text).expect("the sample payload must decode");
    assert_eq!(encode(&env), text);
}

#[test]
fn negative_size_is_refused() {
    let text = sample().replace("\"SizeBytes\":112", "\"SizeBytes\":-1");
    match decode(&text) {
        Err(DecodeError::InvariantViolation { .. }) => {}
        other => panic!("expected an invariant violation, got {:?}", other),
    }
}

#[test]
fn missing_sequence_number_is_refused() {
    let text = sample().replace("\"SequenceNumber\":\"13021600000000001596893679\",", "");
    match decode(&text) {
        Err(DecodeError::SchemaViolation { field, record_index, .. }) => {
            assert_eq!(field, "SequenceNumber");
            assert_eq!(record_index, Some(0));
        }
        other => panic!("expected a schema violation, got {:?}", other),
    }
}

#[test]
fn missing_records_is_refused() {
    for text in [
        "{}",
        " {}",
        "{ }\n",
        "[]",
        "{\"Record\":[]}",
        "{\"Records\":5}",
        "\"x\"",
        "7",
        "-0",
    ] {
        match decode(text) {
            Err(DecodeError::SchemaViolation { field, record_index, .. }) => {
                assert_eq!(field, "Records");
                assert_eq!(record_index, None);
            }
            other => panic!("expected a schema violation on {}, got {:?}", text, other),
        }
    }
}

#[test]
fn empty_records_is_an_empty_envelope() {
    let env = decode("{\"Records\":[]}").expect("an empty batch decodes");
    assert_eq!(env.records.len(), 0);
}

#[test]
fn unparseable_text_is_malformed() {
    for text in [
        "",
        "   ",
        "not json",
        "{\"Records\":[",
        "{\"Records\":[]}x",
        "{\"Records\":[]}]",
        "{\"Records\": [}]}",
        "01",
        "1.5",
        "{\"Records\":[]",
        "\"lone\\uD834 surrogate\"",
    ] {
        match decode(text) {
            Err(DecodeError::Malformed) => {}
            other => panic!("expected malformed on {:?}, got {:?}", text, other),
        }
    }
}

#[test]
fn whitespace_between_tokens_is_accepted() {
    for text in [
        "{\"Records\":[]} ",
        " {\"Records\":[]}",
        "{ \"Records\" : [ ] }",
        "{\n  \"Records\": [\n  ]\n}",
        "\t{\"Records\":\r\n[]}",
    ] {
        let env = decode(text).expect("whitespace between tokens is insignificant");
        assert_eq!(env.records.len(), 0);
    }
}

#[test]
fn pretty_printed_sample_decodes() {
    let text = "{\n  \"Records\": [\n    {\n        \"eventID\": \"7de3041dd709b024af6f29e4fa13d34c\",\n        \"eventName\": \"INSERT\",\n        \"eventVersion\": \"1.1\",\n        \"eventSource\": \"aws:dynamodb\",\n        \"awsRegion\": \"region\",\n        \"dynamodb\": {\n            \"ApproximateCreationDateTime\": 1479499740,\n            \"Keys\": {\n                \"Timestamp\": {\n                    \"S\": \"2016-11-18:12:09:36\"\n                },\n                \"Username\": {\n                    \"S\": \"John Doe\"\n                }\n            },\n            \"NewImage\": {\n                \"Timestamp\": {\n                    \"S\": \"2016-11-18:12:09:36\"\n                },\n                \"Message\": {\n                    \"S\": \"This is a bark from the Woofer social network\"\n                },\n                \"Username\": {\n                    \"S\": \"John Doe\"\n                }\n            },\n            \"SequenceNumber\": \"13021600000000001596893679\",\n            \"SizeBytes\": 112,\n            \"StreamViewType\": \"NEW_IMAGE\"\n        },\n        \"eventSourceARN\": \"arn:aws:dynamodb:region:123456789012:table/BarkTable/stream/2016-11-16T20:42:48.104\"\n    }\n  ]\n}";
    let env = decode(text).expect("the pretty-printed sample payload must decode");
    assert_eq!(env.records.len(), 1);
    let r = &env.records[0];
    assert_eq!(r.event_id, "7de3041dd709b024af6f29e4fa13d34c");
    assert_eq!(r.event_name, EventName::Insert);
    assert_eq!(r.aws_region, "region");
    let img = &r.change.new_image.as_ref().unwrap().map;
    assert_eq!(attr_s(&img.entries[1].1), "This is a bark from the Woofer social network");
    assert_eq!(encode(&env), sample());
}

#[test]
fn standard_escapes_are_accepted() {
    let text = sample().replace(
        "{\"S\":\"John Doe\"}",
        "{\"S\":\"J\\u006Fhn\\t\\\"D\\u0151e\\\"\\n\\b\\f\\r\\/\\uD83D\\uDE00\"}",
    );
    let env = decode(&text).expect("standard escapes must decode");
    let img = &env.records[0].change.new_image.as_ref().unwrap().map;
    assert_eq!(
        attr_s(&img.entries[2].1),
        "John\t\"D\u{151}e\"\n\u{8}\u{c}\r/\u{1F600}"
    );
}

#[test]
fn negative_zero_is_an_integer() {
    let text = sample().replace("\"SizeBytes\":112", "\"SizeBytes\":-0");
    let env = decode(&text).expect("negative zero is the integer zero");
    assert_eq!(env.records[0].change.size_bytes, 0);
}

#[test]
fn attribute_with_no_variant_key_is_refused() {
    let text = sample().replace("{\"S\":\"John Doe\"}", "{}");
    match decode(&text) {
        Err(DecodeError::SchemaViolation { .. }) => {}
        other => panic!("expected a schema violation, got {:?}", other),
    }
}

#[test]
fn attribute_with_two_variant_keys_is_refused() {
    let text = sample().replace(
        "{\"S\":\"John Doe\"}",
        "{\"S\":\"John Doe\",\"N\":\"1\"}",
    );
    match decode(&text) {
        Err(DecodeError::SchemaViolation { .. }) => {}
        other => panic!("expected a schema violation, got {:?}", other),
    }
}

#[test]
fn unknown_variant_key_is_refused() {
    let text = sample().replace("{\"S\":\"John Doe\"}", "{\"XX\":\"John Doe\"}");
    match decode(&text) {
        Err(DecodeError::SchemaViolation { field, .. }) => {
            assert_eq!(field, "XX");
        }
        other => panic!("expected a schema violation, got {:?}", other),
    }
}

#[test]
fn unknown_event_name_is_refused() {
    let text = sample().replace("\"eventName\":\"INSERT\"", "\"eventName\":\"UPSERT\"");
    match decode(&text) {
        Err(DecodeError::SchemaViolation { field, .. }) => {
            assert_eq!(field, "eventName");
        }
        other => panic!("expected a schema violation, got {:?}", other),
    }
}

#[test]
fn remove_without_new_image_decodes() {
    let text = sample()
        .replace("\"eventName\":\"INSERT\"", "\"eventName\":\"REMOVE\"")
        .replace(
            "\"NewImage\":{\"Timestamp\":{\"S\":\"2016-11-18:12:09:36\"},\"Message\":{\"S\":\"This is a bark from the Woofer social network\"},\"Username\":{\"S\":\"John Doe\"}},",
            "",
        );
    let env = decode(&text).expect("a remove event needs no new image");
    assert_eq!(env.records[0].event_name, EventName::Remove);
    assert!(env.records[0].change.new_image.is_none());
}

#[test]
fn insert_without_new_image_is_refused() {
    let text = sample().replace(
        "\"NewImage\":{\"Timestamp\":{\"S\":\"2016-11-18:12:09:36\"},\"Message\":{\"S\":\"This is a bark from the Woofer social network\"},\"Username\":{\"S\":\"John Doe\"}},",
        "",
    );
    match decode(&text) {
        Err(DecodeError::InvariantViolation { .. }) => {}
        other => panic!("expected an invariant violation, got {:?}", other),
    }
}

#[test]
fn new_image_on_remove_is_refused() {
    let text = sample().replace("\"eventName\":\"INSERT\"", "\"eventName\":\"REMOVE\"");
    match decode(&text) {
        Err(DecodeError::InvariantViolation { .. }) => {}
        other => panic!("expected an invariant violation, got {:?}", other),
    }
}

#[test]
fn key_attribute_missing_from_new_image_is_refused() {
    let text = sample().replace(
        "\"Keys\":{\"Timestamp\":{\"S\":\"2016-11-18:12:09:36\"},\"Username\":{\"S\":\"John Doe\"}}",
        "\"Keys\":{\"Species\":{\"S\":\"dog\"}}",
    );
    match decode(&text) {
        Err(DecodeError::InvariantViolation { .. }) => {}
        other => panic!("expected an invariant violation, got {:?}", other),
    }
}
