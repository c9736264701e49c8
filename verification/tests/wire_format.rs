//! Tests for the wire format: exact encodings, the round trip, rejection of
//! corrupt input, and compatibility with a generic JSON library.

use soon::codec::{deserialize, serialize};
use soon::state::{AppState, Bucket, Todo};
use soon::store::load_state;

fn sample_state() -> AppState {
    let mut s = AppState::default();
    s.set_scratch_input("half-typed".to_string());
    s.add_item("buy milk".to_string());
    s.add_item("walk the dog".to_string());
    s.add_item("write tests".to_string());
    s.set_bucket(1, Bucket::Done);
    s
}

#[test]
fn empty_state_serializes_exactly() {
    let s = AppState::default();
    assert_eq!(serialize(&s), "{\"uncommitted_todo\":\"\",\"todos\":[]}");
}

#[test]
fn one_item_serializes_exactly() {
    let mut s = AppState::default();
    s.set_scratch_input("milk".to_string());
    s.add_item("buy milk".to_string());
    assert_eq!(
        serialize(&s),
        "{\"uncommitted_todo\":\"milk\",\"todos\":[{\"id\":0,\"text\":\"buy milk\",\"bucket\":\"Todo\"}]}"
    );
}

#[test]
fn buckets_and_ids_serialize_exactly() {
    let s = sample_state();
    assert_eq!(
        serialize(&s),
        "{\"uncommitted_todo\":\"half-typed\",\"todos\":[\
         {\"id\":0,\"text\":\"buy milk\",\"bucket\":\"Todo\"},\
         {\"id\":1,\"text\":\"walk the dog\",\"bucket\":\"Done\"},\
         {\"id\":2,\"text\":\"write tests\",\"bucket\":\"Todo\"}]}"
    );
}

#[test]
fn special_characters_are_escaped() {
    let mut s = AppState::default();
    s.add_item("say \"hi\" \\ now\nplease\t\u{1}".to_string());
    let encoded = serialize(&s);
    assert_eq!(
        encoded,
        "{\"uncommitted_todo\":\"\",\"todos\":[{\"id\":0,\
         \"text\":\"say \\\"hi\\\" \\\\ now\\nplease\\t\\u0001\",\"bucket\":\"Todo\"}]}"
    );
    let back = deserialize(&encoded).expect("canonical encoding must decode");
    assert_eq!(back, s);
}

#[test]
fn round_trip_preserves_every_field() {
    let s = sample_state();
    let back = deserialize(&serialize(&s)).expect("canonical encoding must decode");
    assert_eq!(back, s);
}

#[test]
fn round_trip_with_unicode_text() {
    let mut s = AppState::default();
    s.set_scratch_input("naïve æther 🎈".to_string());
    s.add_item("crème brûlée — 申し込む".to_string());
    let back = deserialize(&serialize(&s)).expect("canonical encoding must decode");
    assert_eq!(back, s);
}

#[test]
fn large_identifier_round_trips() {
    let s = AppState {
        uncommitted_todo: String::new(),
        todos: vec![Todo { id: 4294967295, text: "edge".to_string(), bucket: Bucket::Done }],
    };
    let back = deserialize(&serialize(&s)).expect("canonical encoding must decode");
    assert_eq!(back, s);
}

#[test]
fn corrupt_inputs_are_rejected() {
    for bad in [
        "",
        "null",
        "{}",
        "garbage",
        "{\"uncommitted_todo\":\"\",\"todos\":[]",
        "{\"uncommitted_todo\":\"\",\"todos\":[]}trailing",
        "{\"uncommitted\":\"\",\"todos\":[]}",
        "{\"uncommitted_todo\":\"\",\"todos\":[{\"id\":0,\"text\":\"x\",\"bucket\":\"Soon\"}]}",
        "{\"uncommitted_todo\":\"\",\"todos\":[{\"id\":4294967296,\"text\":\"x\",\"bucket\":\"Todo\"}]}",
        "{\"uncommitted_todo\":\"unterminated",
        "{\"uncommitted_todo\":\"bad\\escape\",\"todos\":[]}",
    ] {
        assert!(deserialize(bad).is_none(), "should reject: {bad}");
    }
}

#[test]
fn load_state_falls_back_to_the_default() {
    let empty = AppState::default();
    assert_eq!(load_state(None), empty);
    assert_eq!(load_state(Some("")), empty);
    assert_eq!(load_state(Some("{corrupt")), empty);
    let s = sample_state();
    assert_eq!(load_state(Some(serialize(&s).as_str())), s);
}

#[test]
fn identifier_digits_encode_decimally() {
    let mut todos = Vec::new();
    for id in [0u32, 7, 10, 42, 100, 90210] {
        todos.push(Todo { id, text: "n".to_string(), bucket: Bucket::Todo });
    }
    let s = AppState { uncommitted_todo: String::new(), todos };
    let encoded = serialize(&s);
    assert!(encoded.contains("\"id\":90210,"));
    let back = deserialize(&encoded).expect("canonical encoding must decode");
    assert_eq!(back, s);
}

// The compatibility surface: a generic JSON reader must see the exact field
// names and values in what the library writes.
#[test]
fn encoding_reads_back_through_a_generic_json_library() {
    let s = sample_state();
    let v: serde_json::Value = serde_json::from_str(&serialize(&s)).expect("well-formed JSON");
    assert_eq!(v["uncommitted_todo"], serde_json::Value::from("half-typed"));
    let items = v["todos"].as_array().expect("an array of items");
    assert_eq!(items.len(), 3);
    assert_eq!(items[0]["id"], serde_json::Value::from(0u32));
    assert_eq!(items[0]["text"], serde_json::Value::from("buy milk"));
    assert_eq!(items[0]["bucket"], serde_json::Value::from("Todo"));
    assert_eq!(items[1]["id"], serde_json::Value::from(1u32));
    assert_eq!(items[1]["bucket"], serde_json::Value::from("Done"));
    assert_eq!(items[2]["id"], serde_json::Value::from(2u32));
    assert_eq!(items[2]["bucket"], serde_json::Value::from("Todo"));
}

// String escaping must coincide with what a generic JSON library writes, so
// text stored by either implementation reads back through the other.
#[test]
fn escaping_matches_a_generic_json_library() {
    for text in [
        "plain",
        "say \"hi\"",
        "back\\slash",
        "line\nbreak\ttab\rret",
        "ctrl \u{1} \u{8} \u{c} \u{1f}",
        "unicode 🎈 æther",
    ] {
        let mut s = AppState::default();
        s.set_scratch_input(text.to_string());
        let expected_fragment = serde_json::to_string(&serde_json::Value::from(text)).unwrap();
        let expected = format!("{{\"uncommitted_todo\":{expected_fragment},\"todos\":[]}}");
        assert_eq!(serialize(&s), expected);
        let back = deserialize(&expected).expect("the shared escaping must decode");
        assert_eq!(back.uncommitted_todo, text);
    }
}
