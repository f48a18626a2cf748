use pkg_depgraph::deptree::DepTree;
use pkg_depgraph::dot::serialize;
use pkg_depgraph::listing::parse_listing;
use pkg_depgraph::metadata::parse_dependencies;
use pkg_depgraph::package::select_names;
use pkg_depgraph::resolve::resolve;
use pkg_depgraph::resolver::Resolver;
use pkg_depgraph::transpose::transpose;

/// The metadata that a fake package tool prints for `name`.
fn metadata_text(name: &str) -> Option<&'static str> {
    match name {
        "A" => Some(r#"{"name":"A","deps":{"B":{"origin":"x/B","version":"2"}}}"#),
        "B" => Some(r#"{"name":"B"}"#),
        "C" => Some(r#"{"name":"C","deps":{"B":{"origin":"x/B","version":"2"}}}"#),
        "bad" => Some("{ this is no JSON"),
        _ => None,
    }
}

/// What the application does for one starting name, with the fake tool.
fn resolve_with_fake_tool(name: &str, forward: DepTree, asked: &mut Vec<String>) -> (DepTree, Option<String>) {
    let mut resolver = Resolver::begin(name.to_string(), forward);
    while let Some(wanted) = resolver.pending().cloned() {
        asked.push(wanted.clone());
        let outcome = match metadata_text(&wanted) {
            Some(text) => parse_dependencies(text).map_err(|e| e.message()),
            None => Err(format!("pkg info for package {} failed: ", wanted)),
        };
        resolver.supply(outcome);
    }
    let (tree, failure) = resolver.finish();
    (tree, failure.map(|e| e.message()))
}

#[test]
fn empty_catalog_gives_empty_graph() {
    let packages = parse_listing("").unwrap_or_else(|_| panic!("the listing is readable"));
    let names = select_names(&packages, &Vec::new());
    assert!(names.is_empty());
    let forward = resolve(&names, &DepTree::new()).unwrap();
    assert_eq!(forward.len(), 0);
    assert_eq!(serialize(&transpose(&forward)), "digraph {\n}\n");
}

#[test]
fn listing_to_reverse_graph() {
    let listing = "A-1.0                          first package\n\
                   B-2.0                          second package\n\
                   C-3.0_1                        third package\n";
    let packages = parse_listing(listing).unwrap_or_else(|_| panic!("the listing is readable"));
    let names = select_names(&packages, &Vec::new());
    assert_eq!(names, vec!["A", "B", "C"]);

    let mut asked = Vec::new();
    let mut forward = DepTree::new();
    for name in &names {
        let (tree, failure) = resolve_with_fake_tool(name, forward, &mut asked);
        assert_eq!(failure, None);
        forward = tree;
    }
    assert_eq!(asked, vec!["A", "B", "C"]);
    assert_eq!(forward.len(), 3);
    let b = forward.position(&"B".to_string()).unwrap();
    assert_eq!(forward.entry(b).deps, None);
    let a = forward.position(&"A".to_string()).unwrap();
    assert_eq!(forward.entry(a).deps, Some(vec!["B".to_string()]));

    let text = serialize(&transpose(&forward));
    assert_eq!(
        text,
        "digraph {\n\t\"B\" -> { \"A\" \"C\" };\n\t\"A\";\n\t\"C\";\n}\n"
    );
}

#[test]
fn filter_limits_the_graph() {
    let listing = "A-1.0 first\nB-2.0 second\nC-3.0 third\n";
    let packages = parse_listing(listing).unwrap_or_else(|_| panic!("the listing is readable"));
    let names = select_names(&packages, &vec!["C".to_string()]);
    assert_eq!(names, vec!["C"]);
    let mut asked = Vec::new();
    let (forward, failure) = resolve_with_fake_tool("C", DepTree::new(), &mut asked);
    assert_eq!(failure, None);
    assert_eq!(asked, vec!["C", "B"]);
    assert_eq!(
        serialize(&transpose(&forward)),
        "digraph {\n\t\"B\" -> \"C\";\n\t\"C\";\n}\n"
    );
}

#[test]
fn malformed_metadata_stops_resolution() {
    let mut asked = Vec::new();
    let (forward, failure) = resolve_with_fake_tool("bad", DepTree::new(), &mut asked);
    assert_eq!(forward.len(), 0);
    let failure = failure.unwrap();
    assert!(failure.starts_with(
        "Could not get dependencies for package bad: JSON deserialization error: Error("
    ));
}

#[test]
fn failing_tool_stops_resolution() {
    let mut asked = Vec::new();
    let (_, failure) = resolve_with_fake_tool("missing", DepTree::new(), &mut asked);
    assert_eq!(
        failure,
        Some(
            "Could not get dependencies for package missing: pkg info for package missing failed: "
                .to_string()
        )
    );
    assert_eq!(asked, vec!["missing"]);
}
