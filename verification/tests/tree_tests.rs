use emulator_rs::playbook::{IngestionSchema, Module};
use emulator_rs::tree::PbTree;

fn ingestion(name: &str) -> Module {
    Module::MessageIngestion {
        schema: IngestionSchema::Json { file: "records.json".to_string() },
        name: name.to_string(),
    }
}

fn logic(name: &str, input: Option<&str>) -> Module {
    Module::Logic {
        rules: vec!["r.js".to_string()],
        routes: vec![],
        name: name.to_string(),
        input: input.map(|s| s.to_string()),
    }
}

fn splitting(name: &str, input: Option<&str>, array_path: &str) -> Module {
    Module::Splitting {
        array_path: array_path.to_string(),
        allow_empty: false,
        name: name.to_string(),
        input: input.map(|s| s.to_string()),
    }
}

#[test]
fn tree_explicit_and_implicit_children() {
    // B declares input "A.foo"; C declares no input. Both hang off A: C as
    // the implicit child on route "output", B on route "foo".
    let mods = vec![
        ingestion("A"),
        splitting("C", None, "x"),
        logic("B", Some("A.foo")),
    ];
    let tree = PbTree::new(&mods);
    assert_eq!(tree.module.name(), "A");
    assert_eq!(tree.children.len(), 2);
    assert_eq!(tree.children[0].0.module.name(), "C");
    assert_eq!(tree.children[0].1, "output");
    assert_eq!(tree.children[1].0.module.name(), "B");
    assert_eq!(tree.children[1].1, "foo");
}

#[test]
fn tree_chain_nests_depth_first() {
    let mods = vec![
        ingestion("In"),
        splitting("Sp", Some("In.output"), "billingmediation.items"),
        logic("Lg", Some("Sp.output")),
    ];
    let tree = PbTree::new(&mods);
    assert_eq!(tree.module.name(), "In");
    assert_eq!(tree.children.len(), 1);
    let sp = &tree.children[0];
    assert_eq!(sp.0.module.name(), "Sp");
    assert_eq!(sp.1, "output");
    assert_eq!(sp.0.children.len(), 1);
    let lg = &sp.0.children[0];
    assert_eq!(lg.0.module.name(), "Lg");
    assert_eq!(lg.1, "output");
    assert_eq!(lg.0.children.len(), 0);
}

#[test]
fn tree_drops_unmatched_references_silently() {
    // B's input names a module that encloses nothing here: B is excluded.
    let mods = vec![ingestion("A"), logic("B", Some("X.foo"))];
    let tree = PbTree::new(&mods);
    assert_eq!(tree.children.len(), 0);
}

#[test]
fn tree_route_label_is_after_first_dot() {
    let mods = vec![ingestion("A"), logic("B", Some("A.foo.bar"))];
    let tree = PbTree::new(&mods);
    assert_eq!(tree.children.len(), 1);
    assert_eq!(tree.children[0].1, "foo.bar");
}

#[test]
fn tree_two_routes_off_one_logic_node() {
    let mods = vec![
        ingestion("In"),
        logic("Lg", Some("In.output")),
        logic("Rej", Some("Lg.reject")),
        logic("Out", Some("Lg.output")),
    ];
    let tree = PbTree::new(&mods);
    assert_eq!(tree.children.len(), 1);
    let lg = &tree.children[0].0;
    assert_eq!(lg.module.name(), "Lg");
    assert_eq!(lg.children.len(), 2);
    assert_eq!(lg.children[0].0.module.name(), "Rej");
    assert_eq!(lg.children[0].1, "reject");
    assert_eq!(lg.children[1].0.module.name(), "Out");
    assert_eq!(lg.children[1].1, "output");
}
