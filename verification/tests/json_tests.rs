use emulator_rs::json::{parse_text, JsonValue};
use emulator_rs::opts::MessageInner;

#[test]
fn parse_and_reserialize_object() {
    let v = parse_text(r#" { "a" : 1 , "b" : [ true , null , "x" ] } "#).unwrap();
    assert_eq!(v.to_text(), r#"{"a":1,"b":[true,null,"x"]}"#);
}

#[test]
fn parse_keeps_raw_number_tokens() {
    let v = parse_text(r#"[1.5e-3, -0, 12]"#).unwrap();
    assert_eq!(v.to_text(), r#"[1.5e-3,-0,12]"#);
}

#[test]
fn parse_keeps_string_escapes_verbatim() {
    let v = parse_text(r#"{"s":"a\"b\\c"}"#).unwrap();
    assert_eq!(v.to_text(), r#"{"s":"a\"b\\c"}"#);
}

#[test]
fn parse_empty_containers() {
    assert_eq!(parse_text("[]").unwrap().to_text(), "[]");
    assert_eq!(parse_text("{}").unwrap().to_text(), "{}");
    assert_eq!(parse_text(" [ ] ").unwrap().to_text(), "[]");
}

#[test]
fn parse_rejects_malformed_documents() {
    assert!(parse_text("").is_none());
    assert!(parse_text("{").is_none());
    assert!(parse_text("tru").is_none());
    assert!(parse_text("[1,]").is_none());
    assert!(parse_text("{\"a\":}").is_none());
    assert!(parse_text("1 2").is_none());
    assert!(parse_text("\"unterminated").is_none());
}

#[test]
fn parse_scalars() {
    assert_eq!(parse_text("null").unwrap().to_text(), "null");
    assert_eq!(parse_text(" true ").unwrap().to_text(), "true");
    assert_eq!(parse_text("false").unwrap().to_text(), "false");
    assert_eq!(parse_text("-12.5").unwrap().to_text(), "-12.5");
    assert_eq!(parse_text("\"hi\"").unwrap().to_text(), "\"hi\"");
}

#[test]
fn object_member_order_is_kept() {
    let v = parse_text(r#"{"z":1,"a":2,"m":3}"#).unwrap();
    assert_eq!(v.to_text(), r#"{"z":1,"a":2,"m":3}"#);
}

#[test]
fn from_with_bm_extracts_mediation_map() {
    let inner = MessageInner::from_with_bm(r#"{"billingmediation":{"a":1},"x":2,"y":[3]}"#)
        .unwrap();
    assert_eq!(inner.payload, r#"{"x":2,"y":[3]}"#);
    assert_eq!(inner.billingmediation.len(), 1);
    assert_eq!(inner.billingmediation[0].0, "a");
    assert_eq!(inner.billingmediation[0].1.to_text(), "1");
}

#[test]
fn from_with_bm_defaults_to_empty_map() {
    let inner = MessageInner::from_with_bm(r#"{"x":2}"#).unwrap();
    assert_eq!(inner.payload, r#"{"x":2}"#);
    assert!(inner.billingmediation.is_empty());
}

#[test]
fn from_with_bm_rejects_non_objects() {
    assert!(MessageInner::from_with_bm("[1,2]").is_none());
    assert!(MessageInner::from_with_bm(r#"{"billingmediation":3}"#).is_none());
    assert!(MessageInner::from_with_bm("not json").is_none());
}

#[test]
fn render_writes_map_back_into_payload() {
    let inner = MessageInner::from_with_bm(r#"{"billingmediation":{"a":1},"x":2}"#).unwrap();
    let rendered = inner.render().unwrap();
    assert_eq!(rendered, r#"{"x":2,"billingmediation":{"a":1}}"#);
}

#[test]
fn render_replaces_an_existing_key() {
    let inner = MessageInner {
        billingmediation: vec![("a".to_string(), JsonValue::Num("1".to_string()))],
        payload: r#"{"billingmediation":{"old":0},"x":2}"#.to_string(),
    };
    let rendered = inner.render().unwrap();
    assert_eq!(rendered, r#"{"billingmediation":{"a":1},"x":2}"#);
}

#[test]
fn compact_output_reparses_to_the_same_value() {
    // Round trip: parsing a compact serialization gives the value back.
    let v = parse_text(r#" { "a" : [ 1 , {"b" : "c\\n" } , [ ] ] , "d" : null } "#).unwrap();
    let compact = v.to_text();
    let reparsed = parse_text(&compact).unwrap();
    assert_eq!(reparsed.to_text(), compact);
    assert_eq!(compact, r#"{"a":[1,{"b":"c\\n"},[]],"d":null}"#);
}
