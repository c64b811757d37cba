use emulator_rs::ingestion::{make_messages, select_lines, trim_lines};
use emulator_rs::playbook::{IngestionSchema, Module};

fn lines(xs: &[&str]) -> Vec<String> {
    xs.iter().map(|s| s.to_string()).collect()
}

#[test]
fn trim_drops_head_and_tail_lines() {
    let out = trim_lines(lines(&["a", "b", "c", "d", "e"]), 1, 2);
    assert_eq!(out, lines(&["b", "c"]));
}

#[test]
fn trim_of_everything_leaves_nothing() {
    assert_eq!(trim_lines(lines(&["a", "b"]), 1, 1), lines(&[]));
    assert_eq!(trim_lines(lines(&["a", "b"]), 3, 0), lines(&[]));
    assert_eq!(trim_lines(lines(&["a"]), 0, 5), lines(&[]));
}

#[test]
fn trim_keeps_all_by_default() {
    let out = trim_lines(lines(&["a", "b"]), 0, 0);
    assert_eq!(out, lines(&["a", "b"]));
}

#[test]
fn ingested_messages_have_empty_maps_and_the_date() {
    let date = "20231231".to_string();
    let msgs = make_messages(lines(&["{\"r\":1}", "{\"r\":2}"]), &date);
    assert_eq!(msgs.len(), 2);
    for (i, m) in msgs.iter().enumerate() {
        assert!(m.inner.billingmediation.is_empty());
        assert_eq!(m.inner.payload, format!("{{\"r\":{}}}", i + 1));
        assert_eq!(m.date, date);
    }
}

#[test]
fn script_names_are_deduplicated_in_order() {
    let mods = vec![
        Module::MessageIngestion {
            schema: IngestionSchema::Json { file: "f".to_string() },
            name: "In".to_string(),
        },
        Module::Logic {
            rules: lines(&["lib.js", "a.js"]),
            routes: vec![],
            name: "L1".to_string(),
            input: Some("In.output".to_string()),
        },
        Module::Logic {
            rules: lines(&["lib.js", "b.js"]),
            routes: vec![],
            name: "L2".to_string(),
            input: Some("L1.output".to_string()),
        },
    ];
    let names = emulator_rs::playbook::script_names(&mods);
    assert_eq!(names, lines(&["lib.js", "a.js", "b.js"]));
}

#[test]
fn schema_file_accessor() {
    let s = IngestionSchema::Csv {
        file: "x.csv".to_string(),
        separator: ";".to_string(),
        mapping: vec![("k".to_string(), "v".to_string())],
    };
    assert_eq!(s.file(), "x.csv");
    let e = IngestionSchema::Edifact { file: "y.edi".to_string() };
    assert_eq!(e.file(), "y.edi");
}

#[test]
fn line_selection_composes_head_filter_and_tail() {
    // skip 1 line, keep the flagged ones among the rest, drop the last 1
    let input = lines(&["skipped", "a", "b", "c", "d"]);
    let keep = vec![true, true, false, true, true];
    let out = select_lines(input, &keep, 1, 1);
    assert_eq!(out, lines(&["a", "c"]));
}
