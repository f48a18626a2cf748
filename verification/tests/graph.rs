use pkg_depgraph::deptree::DepTree;
use pkg_depgraph::dot::serialize;
use pkg_depgraph::transpose::transpose;

fn names(list: &[&str]) -> Vec<String> {
    list.iter().map(|s| s.to_string()).collect()
}

fn tree(entries: &[(&str, Option<&[&str]>)]) -> DepTree {
    let mut t = DepTree::new();
    for (name, deps) in entries {
        t.insert(name.to_string(), deps.map(|d| names(d)));
    }
    t
}

fn rows(t: &DepTree) -> Vec<(String, Option<Vec<String>>)> {
    let mut out = Vec::new();
    for i in 0..t.len() {
        let e = t.entry(i);
        out.push((e.name.clone(), e.deps.clone()));
    }
    out
}

fn row(name: &str, deps: Option<&[&str]>) -> (String, Option<Vec<String>>) {
    (name.to_string(), deps.map(|d| names(d)))
}

#[test]
fn new_tree_is_empty() {
    let t = DepTree::new();
    assert_eq!(t.len(), 0);
    assert!(!t.contains_key(&"a".to_string()));
    assert_eq!(t.position(&"a".to_string()), None);
}

#[test]
fn insert_keeps_insertion_order() {
    let t = tree(&[("b", None), ("a", Some(&["b"])), ("c", Some(&[]))]);
    assert_eq!(
        rows(&t),
        vec![row("b", None), row("a", Some(&["b"])), row("c", Some(&[]))]
    );
    assert_eq!(t.position(&"a".to_string()), Some(1));
    assert!(t.contains_key(&"c".to_string()));
    assert!(!t.contains_key(&"d".to_string()));
}

#[test]
fn insert_replaces_in_place() {
    let mut t = tree(&[("a", None), ("b", None)]);
    t.insert("a".to_string(), Some(names(&["b"])));
    assert_eq!(rows(&t), vec![row("a", Some(&["b"])), row("b", None)]);
}

#[test]
fn ensure_key_adds_once() {
    let mut t = DepTree::new();
    t.ensure_key(&"a".to_string());
    t.add_link(&"a".to_string(), &"x".to_string());
    t.ensure_key(&"a".to_string());
    assert_eq!(rows(&t), vec![row("a", Some(&["x"]))]);
}

#[test]
fn add_link_appends_and_creates() {
    let mut t = DepTree::new();
    t.add_link(&"b".to_string(), &"a".to_string());
    t.ensure_key(&"c".to_string());
    t.add_link(&"c".to_string(), &"a".to_string());
    t.add_link(&"b".to_string(), &"c".to_string());
    assert_eq!(
        rows(&t),
        vec![row("b", Some(&["a", "c"])), row("c", Some(&["a"]))]
    );
}

#[test]
fn transpose_shared_dependency() {
    let forward = tree(&[("A", Some(&["B"])), ("B", Some(&[])), ("C", Some(&["B"]))]);
    let reverse = transpose(&forward);
    assert_eq!(
        rows(&reverse),
        vec![row("A", None), row("B", Some(&["A", "C"])), row("C", None)]
    );
}

#[test]
fn transpose_of_empty_is_empty() {
    let reverse = transpose(&DepTree::new());
    assert_eq!(reverse.len(), 0);
}

#[test]
fn transpose_keeps_leaves_and_unresolved_names() {
    let forward = tree(&[("app", Some(&["lib", "tool"])), ("lib", None)]);
    let reverse = transpose(&forward);
    assert_eq!(
        rows(&reverse),
        vec![
            row("app", None),
            row("lib", Some(&["app"])),
            row("tool", Some(&["app"]))
        ]
    );
}

#[test]
fn transpose_orders_dependents_by_entry() {
    let forward = tree(&[
        ("z", Some(&["core"])),
        ("a", Some(&["core"])),
        ("m", Some(&["core", "a"])),
    ]);
    let reverse = transpose(&forward);
    assert_eq!(
        rows(&reverse),
        vec![
            row("z", None),
            row("core", Some(&["z", "a", "m"])),
            row("a", Some(&["m"])),
            row("m", None)
        ]
    );
}

#[test]
fn transpose_keeps_multiplicity() {
    let forward = tree(&[("a", Some(&["b", "b"]))]);
    let reverse = transpose(&forward);
    assert_eq!(
        rows(&reverse),
        vec![row("a", None), row("b", Some(&["a", "a"]))]
    );
}

#[test]
fn transpose_edges_match_both_ways() {
    let forward = tree(&[
        ("a", Some(&["b", "c"])),
        ("b", Some(&["c"])),
        ("c", Some(&["a"])),
        ("d", None),
    ]);
    let reverse = transpose(&forward);
    let all = ["a", "b", "c", "d"];
    for p in all {
        for d in all {
            let in_reverse = rows(&reverse)
                .iter()
                .any(|(k, v)| k == p && v.as_ref().map_or(false, |l| l.contains(&d.to_string())));
            let in_forward = rows(&forward)
                .iter()
                .any(|(k, v)| k == d && v.as_ref().map_or(false, |l| l.contains(&p.to_string())));
            assert_eq!(in_reverse, in_forward);
        }
    }
    for k in all {
        assert!(reverse.contains_key(&k.to_string()));
    }
    assert_eq!(reverse.len(), 4);
}

#[test]
fn transpose_of_cycle() {
    let forward = tree(&[("b", Some(&["a"])), ("a", Some(&["b"]))]);
    let reverse = transpose(&forward);
    assert_eq!(
        rows(&reverse),
        vec![row("b", Some(&["a"])), row("a", Some(&["b"]))]
    );
}

#[test]
fn serialize_empty_graph() {
    assert_eq!(serialize(&DepTree::new()), "digraph {\n}\n");
}

#[test]
fn serialize_node_without_edges() {
    let t = tree(&[("solo", None), ("bare", Some(&[]))]);
    assert_eq!(serialize(&t), "digraph {\n\t\"solo\";\n\t\"bare\";\n}\n");
}

#[test]
fn serialize_single_edge() {
    let t = tree(&[("lib", Some(&["app"]))]);
    assert_eq!(serialize(&t), "digraph {\n\t\"lib\" -> \"app\";\n}\n");
}

#[test]
fn serialize_group() {
    let t = tree(&[("lib", Some(&["app", "tool", "gui"]))]);
    assert_eq!(
        serialize(&t),
        "digraph {\n\t\"lib\" -> { \"app\" \"tool\" \"gui\" };\n}\n"
    );
}

#[test]
fn serialize_shared_dependency() {
    let forward = tree(&[("A", Some(&["B"])), ("B", Some(&[])), ("C", Some(&["B"]))]);
    let text = serialize(&transpose(&forward));
    assert_eq!(
        text,
        "digraph {\n\t\"A\";\n\t\"B\" -> { \"A\" \"C\" };\n\t\"C\";\n}\n"
    );
}

#[test]
fn serialize_names_each_node_once() {
    let forward = tree(&[
        ("a", Some(&["b", "c"])),
        ("b", Some(&["c"])),
        ("c", None),
    ]);
    let text = serialize(&transpose(&forward));
    for name in ["a", "b", "c"] {
        let head = format!("\t\"{}\"", name);
        assert_eq!(text.matches(&head).count(), 1);
    }
    assert_eq!(text.lines().count(), 5);
}
