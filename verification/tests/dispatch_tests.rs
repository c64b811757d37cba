use emulator_rs::dispatch::{collect_results, make_tasks, RetData};
use emulator_rs::opts::{Message, MessageInner};

fn msg(payload: &str) -> Message {
    Message {
        inner: MessageInner { billingmediation: Vec::new(), payload: payload.to_string() },
        date: "d".to_string(),
    }
}

fn ret(idx: usize, payload: &str) -> RetData {
    RetData { idx, data: msg(payload), module: "Lg".to_string() }
}

#[test]
fn tasks_carry_batch_indices() {
    let batch = vec![msg("{\"a\":0}"), msg("{\"a\":1}"), msg("{\"a\":2}")];
    let tasks = make_tasks(batch, &"Lg".to_string(), &"r".to_string());
    assert_eq!(tasks.len(), 3);
    for (i, t) in tasks.iter().enumerate() {
        assert_eq!(t.idx, i);
        assert_eq!(t.data.inner.payload, format!("{{\"a\":{i}}}"));
        assert_eq!(t.module, "Lg");
        assert_eq!(t.exported_name, "r");
    }
}

#[test]
fn results_are_reordered_by_index() {
    // Dispatch order law: the workers answered in the order 2, 0, 1, yet
    // the collected batch is in submission order.
    let results = vec![ret(2, "two"), ret(0, "zero"), ret(1, "one")];
    let out = collect_results(results, 3).unwrap();
    assert_eq!(out.len(), 3);
    assert_eq!(out[0].inner.payload, "zero");
    assert_eq!(out[1].inner.payload, "one");
    assert_eq!(out[2].inner.payload, "two");
}

#[test]
fn duplicate_index_fails_reassembly() {
    let results = vec![ret(0, "a"), ret(0, "b"), ret(1, "c")];
    assert!(collect_results(results, 3).is_none());
}

#[test]
fn out_of_range_index_fails_reassembly() {
    let results = vec![ret(0, "a"), ret(5, "b")];
    assert!(collect_results(results, 2).is_none());
}

#[test]
fn wrong_count_fails_reassembly() {
    let results = vec![ret(0, "a")];
    assert!(collect_results(results, 2).is_none());
}
