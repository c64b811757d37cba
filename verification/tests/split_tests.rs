use emulator_rs::execution::{json_split, split_message, PipelineError};
use emulator_rs::json::JsonValue;
use emulator_rs::opts::{Message, MessageInner};

fn path(segs: &[&str]) -> Vec<String> {
    segs.iter().map(|s| s.to_string()).collect()
}

#[test]
fn split_json_nums() {
    let json = r#" {"foo": { "bar": [0,1,2], "unused": null } }"#.to_string();
    for (n, i) in json_split(&json, &path(&["foo", "bar"]))
        .unwrap()
        .iter()
        .enumerate()
    {
        println!("{n}, {i:?}");
        let json: serde_json::Value = serde_json::from_str(i).unwrap();
        let val = json
            .get("foo")
            .unwrap()
            .get("bar")
            .unwrap()
            .as_array()
            .unwrap()[0]
            .as_number()
            .unwrap()
            .as_u64()
            .unwrap();
        assert_eq!(n, val as usize);
    }
}

#[test]
fn split_json_strs() {
    let json = r#" {"foo": { "bar": ["0","1","2"] } }"#.to_string();
    for (n, i) in json_split(&json, &path(&["foo", "bar"]))
        .unwrap()
        .iter()
        .enumerate()
    {
        let json: serde_json::Value = serde_json::from_str(i).unwrap();
        let val = json
            .get("foo")
            .unwrap()
            .get("bar")
            .unwrap()
            .as_array()
            .unwrap()[0]
            .as_str()
            .unwrap();
        assert_eq!(val, n.to_string())
    }
}

#[test]
fn split_json_objs() {
    let json = r#" {"foo": { "bar": [ {"baz": 0}, {"baz": 1}, {"baz": 2} ] } }"#.to_string();
    for (n, i) in json_split(&json, &path(&["foo", "bar"]))
        .unwrap()
        .iter()
        .enumerate()
    {
        let json: serde_json::Value = serde_json::from_str(i).unwrap();
        let val = json
            .get("foo")
            .unwrap()
            .get("bar")
            .unwrap()
            .as_array()
            .unwrap()[0]
            .get("baz")
            .unwrap()
            .as_number()
            .unwrap()
            .as_u64()
            .unwrap();
        assert_eq!(val as usize, n);
    }
}

#[test]
fn split_count_three_elements() {
    let json = r#"{"items":[1,2,3]}"#.to_string();
    let out = json_split(&json, &path(&["items"])).unwrap();
    assert_eq!(out.len(), 3);
}

#[test]
fn split_single_element_returns_input_verbatim() {
    // Round-trip idempotence: a one-element target array gives back the
    // input, byte for byte.
    let json = r#" {"foo": { "bar": [42] } }"#.to_string();
    let out = json_split(&json, &path(&["foo", "bar"])).unwrap();
    assert_eq!(out.len(), 1);
    assert_eq!(out[0], json);
}

#[test]
fn split_empty_array_gives_no_messages() {
    let json = r#"{"foo":{"bar":[]}}"#.to_string();
    let out = json_split(&json, &path(&["foo", "bar"])).unwrap();
    assert_eq!(out.len(), 0);
}

#[test]
fn split_bad_path_is_an_error() {
    let json = r#"{"foo":{"bar":[1]}}"#.to_string();
    assert_eq!(
        json_split(&json, &path(&["foo", "nothere"])),
        Err(PipelineError::BadPath)
    );
    // the target exists but is not an array
    assert_eq!(
        json_split(&json, &path(&["foo"])),
        Err(PipelineError::BadPath)
    );
}

#[test]
fn split_invalid_json_is_an_error() {
    let json = "{not json".to_string();
    assert_eq!(
        json_split(&json, &path(&["foo"])),
        Err(PipelineError::InvalidJson)
    );
}

fn msg(bm: Vec<(String, JsonValue)>, payload: &str, date: &str) -> Message {
    Message {
        inner: MessageInner {
            billingmediation: bm,
            payload: payload.to_string(),
        },
        date: date.to_string(),
    }
}

fn bm_text(m: &Message) -> String {
    let members: Vec<(String, JsonValue)> = m
        .inner
        .billingmediation
        .iter()
        .map(|(k, v)| (k.clone(), v.duplicate()))
        .collect();
    JsonValue::Obj(members).to_text()
}

#[test]
fn split_payload_keeps_mediation_map_untouched() {
    // Count law: the untouched half (the mediation map) is identical in
    // every output.
    let bm = vec![("keep".to_string(), JsonValue::Num("7".to_string()))];
    let m = msg(bm, r#"{"a":{"items":[1,2]}}"#, "20240101");
    let out = split_message(&m, &"a.items".to_string()).unwrap();
    assert_eq!(out.len(), 2);
    for o in &out {
        assert_eq!(bm_text(o), bm_text(&m));
        assert_eq!(o.date, m.date);
    }
}

#[test]
fn split_mediation_map_keeps_payload_untouched() {
    let bm = vec![(
        "items".to_string(),
        JsonValue::Arr(vec![
            JsonValue::Num("1".to_string()),
            JsonValue::Num("2".to_string()),
            JsonValue::Num("3".to_string()),
        ]),
    )];
    let payload = r#"{"opaque": "payload"}"#;
    let m = msg(bm, payload, "20240102");
    let out = split_message(&m, &"billingmediation.items".to_string()).unwrap();
    assert_eq!(out.len(), 3);
    for (n, o) in out.iter().enumerate() {
        // payload shared byte for byte
        assert_eq!(o.inner.payload, payload);
        assert_eq!(o.date, m.date);
        // element law: the targeted array is the singleton of element n
        let v: serde_json::Value = serde_json::from_str(&bm_text(o)).unwrap();
        let arr = v.get("items").unwrap().as_array().unwrap();
        assert_eq!(arr.len(), 1);
        assert_eq!(arr[0].as_u64().unwrap() as usize, n + 1);
    }
}

#[test]
fn split_mediation_map_single_element_is_identity() {
    let bm = vec![(
        "items".to_string(),
        JsonValue::Arr(vec![JsonValue::Num("5".to_string())]),
    )];
    let m = msg(bm, r#"{"x":1}"#, "d");
    let out = split_message(&m, &"billingmediation.items".to_string()).unwrap();
    assert_eq!(out.len(), 1);
    assert_eq!(bm_text(&out[0]), bm_text(&m));
    assert_eq!(out[0].inner.payload, m.inner.payload);
    assert_eq!(out[0].date, m.date);
}
