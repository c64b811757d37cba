use emulator_rs::dispatch::ScriptEngine;
use emulator_rs::execution::{execute_playbook, export_of, partition_by_route, route_of, PipelineError};
use emulator_rs::json::JsonValue;
use emulator_rs::opts::{Message, MessageInner};
use emulator_rs::playbook::{IngestionSchema, Module};
use emulator_rs::tree::PbTree;

fn ingestion(name: &str) -> Module {
    Module::MessageIngestion {
        schema: IngestionSchema::Json { file: "records.json".to_string() },
        name: name.to_string(),
    }
}

fn logic(name: &str, input: Option<&str>) -> Module {
    Module::Logic {
        rules: vec!["lib.js".to_string(), "r.js".to_string()],
        routes: vec![],
        name: name.to_string(),
        input: input.map(|s| s.to_string()),
    }
}

fn splitting(name: &str, input: Option<&str>, array_path: &str) -> Module {
    Module::Splitting {
        array_path: array_path.to_string(),
        allow_empty: false,
        name: name.to_string(),
        input: input.map(|s| s.to_string()),
    }
}

fn msg(bm: Vec<(String, JsonValue)>, payload: &str) -> Message {
    Message {
        inner: MessageInner { billingmediation: bm, payload: payload.to_string() },
        date: "20240101".to_string(),
    }
}

fn dup_bm(bm: &Vec<(String, JsonValue)>) -> Vec<(String, JsonValue)> {
    bm.iter().map(|(k, v)| (k.clone(), v.duplicate())).collect()
}

/// Stands in for the script platform: returns the message unchanged.
struct IdentityEngine;

impl ScriptEngine for IdentityEngine {
    fn invoke(&mut self, _exported_name: &String, m: &Message) -> Option<MessageInner> {
        Some(MessageInner {
            billingmediation: dup_bm(&m.inner.billingmediation),
            payload: m.inner.payload.clone(),
        })
    }
}

/// Stands in for a rule script: rejects the record with id 1.
struct RejectingEngine;

impl ScriptEngine for RejectingEngine {
    fn invoke(&mut self, _exported_name: &String, m: &Message) -> Option<MessageInner> {
        let mut bm = dup_bm(&m.inner.billingmediation);
        if m.inner.payload.contains("\"id\":1") {
            bm.push(("route".to_string(), JsonValue::Str("reject".to_string())));
        }
        Some(MessageInner { billingmediation: bm, payload: m.inner.payload.clone() })
    }
}

/// Stands in for a crashing script.
struct FailingEngine;

impl ScriptEngine for FailingEngine {
    fn invoke(&mut self, _exported_name: &String, _m: &Message) -> Option<MessageInner> {
        None
    }
}

fn batch_of<'a>(trace: &'a Vec<(String, Vec<Message>)>, name: &str) -> &'a Vec<Message> {
    &trace.iter().find(|(n, _)| n == name).unwrap().1
}

#[test]
fn end_to_end_split_then_dispatch() {
    // One ingested message whose mediation map holds items [1, 2]:
    // Splitting produces two messages, Logic dispatches both.
    let mods = vec![
        ingestion("In"),
        splitting("Sp", Some("In.output"), "billingmediation.items"),
        logic("Lg", Some("Sp.output")),
    ];
    let tree = PbTree::new(&mods);
    let bm = vec![(
        "items".to_string(),
        JsonValue::Arr(vec![
            JsonValue::Num("1".to_string()),
            JsonValue::Num("2".to_string()),
        ]),
    )];
    let ingested = vec![msg(bm, "{}")];
    let mut engine = IdentityEngine;
    let trace = execute_playbook(tree, ingested, &mut engine).unwrap();
    assert_eq!(batch_of(&trace, "In").len(), 1);
    assert_eq!(batch_of(&trace, "Sp").len(), 2);
    let out = batch_of(&trace, "Lg");
    assert_eq!(out.len(), 2);
    for (n, m) in out.iter().enumerate() {
        assert_eq!(route_of(m), "output");
        assert_eq!(m.date, "20240101");
        let members = dup_bm(&m.inner.billingmediation);
        let v: serde_json::Value =
            serde_json::from_str(&JsonValue::Obj(members).to_text()).unwrap();
        let arr = v.get("items").unwrap().as_array().unwrap();
        assert_eq!(arr.len(), 1);
        assert_eq!(arr[0].as_u64().unwrap() as usize, n + 1);
    }
}

#[test]
fn logic_routes_to_matching_children_only() {
    let mods = vec![
        ingestion("In"),
        logic("Lg", Some("In.output")),
        logic("Rej", Some("Lg.reject")),
        logic("Out", Some("Lg.output")),
    ];
    let tree = PbTree::new(&mods);
    let ingested = vec![msg(Vec::new(), r#"{"id":1}"#), msg(Vec::new(), r#"{"id":2}"#)];
    let mut engine = RejectingEngine;
    let trace = execute_playbook(tree, ingested, &mut engine).unwrap();
    let rejected = batch_of(&trace, "Rej");
    assert_eq!(rejected.len(), 1);
    assert_eq!(rejected[0].inner.payload, r#"{"id":1}"#);
    let passed = batch_of(&trace, "Out");
    assert_eq!(passed.len(), 1);
    assert_eq!(passed[0].inner.payload, r#"{"id":2}"#);
}

#[test]
fn route_of_reads_the_route_key() {
    let with_route = msg(
        vec![("route".to_string(), JsonValue::Str("reject".to_string()))],
        "{}",
    );
    assert_eq!(route_of(&with_route), "reject");
    let without = msg(Vec::new(), "{}");
    assert_eq!(route_of(&without), "output");
    let numeric = msg(vec![("route".to_string(), JsonValue::Num("7".to_string()))], "{}");
    assert_eq!(route_of(&numeric), "7");
}

#[test]
fn partition_keeps_only_matching_messages_in_order() {
    let a = msg(vec![("route".to_string(), JsonValue::Str("x".to_string()))], r#"{"n":0}"#);
    let b = msg(Vec::new(), r#"{"n":1}"#);
    let c = msg(vec![("route".to_string(), JsonValue::Str("x".to_string()))], r#"{"n":2}"#);
    let batch = vec![a, b, c];
    let xs = partition_by_route(&batch, &"x".to_string());
    assert_eq!(xs.len(), 2);
    assert_eq!(xs[0].inner.payload, r#"{"n":0}"#);
    assert_eq!(xs[1].inner.payload, r#"{"n":2}"#);
    let outs = partition_by_route(&batch, &"output".to_string());
    assert_eq!(outs.len(), 1);
    assert_eq!(outs[0].inner.payload, r#"{"n":1}"#);
}

#[test]
fn reserved_module_kinds_fail_fast() {
    let mods = vec![
        ingestion("In"),
        Module::Lookup { name: "Lk".to_string(), input: Some("In.output".to_string()) },
    ];
    let tree = PbTree::new(&mods);
    let mut engine = IdentityEngine;
    let r = execute_playbook(tree, vec![msg(Vec::new(), "{}")], &mut engine);
    assert_eq!(r.unwrap_err(), PipelineError::NotImplemented);
}

#[test]
fn recursion_limit_aborts_deep_trees() {
    let mut mods = vec![ingestion("m0")];
    for i in 1..=201 {
        mods.push(logic(&format!("m{i}"), Some(&format!("m{}.output", i - 1))));
    }
    let tree = PbTree::new(&mods);
    let mut engine = IdentityEngine;
    let r = execute_playbook(tree, Vec::new(), &mut engine);
    assert_eq!(r.unwrap_err(), PipelineError::RecursionLimit);
}

#[test]
fn logic_without_js_rules_is_a_configuration_error() {
    let mods = vec![
        ingestion("In"),
        Module::Logic {
            rules: vec!["nofile".to_string()],
            routes: vec![],
            name: "Lg".to_string(),
            input: Some("In.output".to_string()),
        },
    ];
    let tree = PbTree::new(&mods);
    let mut engine = IdentityEngine;
    let r = execute_playbook(tree, vec![msg(Vec::new(), "{}")], &mut engine);
    assert_eq!(r.unwrap_err(), PipelineError::BadRules);
}

#[test]
fn script_failure_aborts_the_run() {
    let mods = vec![ingestion("In"), logic("Lg", Some("In.output"))];
    let tree = PbTree::new(&mods);
    let mut engine = FailingEngine;
    let r = execute_playbook(tree, vec![msg(Vec::new(), "{}")], &mut engine);
    assert_eq!(r.unwrap_err(), PipelineError::ScriptFailure);
}

#[test]
fn splitting_error_aborts_the_run() {
    let mods = vec![
        ingestion("In"),
        splitting("Sp", Some("In.output"), "billingmediation.missing"),
    ];
    let tree = PbTree::new(&mods);
    let mut engine = IdentityEngine;
    let r = execute_playbook(tree, vec![msg(Vec::new(), "{}")], &mut engine);
    assert_eq!(r.unwrap_err(), PipelineError::BadPath);
}

#[test]
fn export_name_is_the_last_rule_up_to_its_js_suffix() {
    let rules = vec!["lib.js".to_string(), "proc.js".to_string()];
    assert_eq!(export_of(&rules), Some("proc".to_string()));
    assert_eq!(export_of(&vec!["a.js.js".to_string()]), Some("a".to_string()));
    assert_eq!(export_of(&Vec::new()), None);
    assert_eq!(export_of(&vec!["noextension".to_string()]), None);
}

#[test]
fn logic_free_tree_with_clean_splits_succeeds() {
    // No Logic stage, depth within the ceiling, resolving split path:
    // success is owed, whatever the engine would have answered.
    let mods = vec![
        ingestion("In"),
        splitting("Sp", Some("In.output"), "billingmediation.items"),
    ];
    let tree = PbTree::new(&mods);
    let bm = vec![(
        "items".to_string(),
        JsonValue::Arr(vec![
            JsonValue::Num("1".to_string()),
            JsonValue::Num("2".to_string()),
            JsonValue::Num("3".to_string()),
        ]),
    )];
    let mut engine = FailingEngine;
    let trace = execute_playbook(tree, vec![msg(bm, "{}")], &mut engine).unwrap();
    assert_eq!(batch_of(&trace, "In").len(), 1);
    assert_eq!(batch_of(&trace, "Sp").len(), 3);
}

#[test]
fn empty_batch_dispatch_succeeds_without_workers() {
    // A Logic stage over an empty batch invokes no script: the dispatch is
    // owed success even with a failing engine.
    let mods = vec![ingestion("In"), logic("Lg", Some("In.output"))];
    let tree = PbTree::new(&mods);
    let mut engine = FailingEngine;
    let trace = execute_playbook(tree, Vec::new(), &mut engine).unwrap();
    assert_eq!(batch_of(&trace, "Lg").len(), 0);
}
