use pkg_depgraph::deptree::DepTree;
use pkg_depgraph::resolve::{get_dep_tree, resolve};
use pkg_depgraph::resolver::{ResolveError, Resolver};

fn list(names: &[&str]) -> Vec<String> {
    names.iter().map(|s| s.to_string()).collect()
}

fn catalog(entries: &[(&str, Option<&[&str]>)]) -> DepTree {
    let mut t = DepTree::new();
    for (name, deps) in entries {
        t.insert(name.to_string(), deps.map(|d| list(d)));
    }
    t
}

fn entries(t: &DepTree) -> Vec<(String, Option<Vec<String>>)> {
    let mut out = Vec::new();
    for i in 0..t.len() {
        let e = t.entry(i);
        out.push((e.name.clone(), e.deps.clone()));
    }
    out
}

fn entry(name: &str, deps: Option<&[&str]>) -> (String, Option<Vec<String>>) {
    (name.to_string(), deps.map(|d| list(d)))
}

fn lookup(t: &DepTree, name: &str) -> Option<Option<Vec<String>>> {
    t.position(&name.to_string()).map(|i| t.entry(i).deps.clone())
}

/// Drives a resolver against a catalog and gives the names it asked for.
fn drive(resolver: &mut Resolver, metadata: &DepTree) -> Vec<String> {
    let mut asked = Vec::new();
    while let Some(name) = resolver.pending().cloned() {
        asked.push(name.clone());
        assert!(asked.len() <= metadata.len() + 1);
        match lookup(metadata, &name) {
            Some(deps) => resolver.supply(Ok(deps)),
            None => resolver.supply(Err("gone".to_string())),
        }
    }
    asked
}

#[test]
fn resolve_three_packages() {
    let metadata = catalog(&[("A", Some(&["B"])), ("B", Some(&[])), ("C", Some(&["B"]))]);
    let forward = resolve(&list(&["A", "B", "C"]), &metadata).unwrap();
    assert_eq!(forward.len(), 3);
    assert_eq!(lookup(&forward, "A"), Some(Some(list(&["B"]))));
    assert_eq!(lookup(&forward, "B"), Some(Some(Vec::new())));
    assert_eq!(lookup(&forward, "C"), Some(Some(list(&["B"]))));
    assert_eq!(
        entries(&forward),
        vec![entry("B", Some(&[])), entry("A", Some(&["B"])), entry("C", Some(&["B"]))]
    );
}

#[test]
fn resolve_nothing() {
    let metadata = catalog(&[("A", None)]);
    let forward = resolve(&Vec::new(), &metadata).unwrap();
    assert_eq!(forward.len(), 0);
    let forward = resolve(&Vec::new(), &DepTree::new()).unwrap();
    assert_eq!(forward.len(), 0);
}

#[test]
fn resolve_follows_dependencies_only() {
    let metadata = catalog(&[
        ("app", Some(&["lib"])),
        ("lib", Some(&["core"])),
        ("core", None),
        ("other", Some(&["core"])),
    ]);
    let forward = resolve(&list(&["app"]), &metadata).unwrap();
    assert_eq!(
        entries(&forward),
        vec![entry("core", None), entry("lib", Some(&["core"])), entry("app", Some(&["lib"]))]
    );
    assert!(!forward.contains_key(&"other".to_string()));
}

#[test]
fn resolve_two_cycle_terminates() {
    let metadata = catalog(&[("A", Some(&["B"])), ("B", Some(&["A"]))]);
    let forward = resolve(&list(&["A"]), &metadata).unwrap();
    assert_eq!(
        entries(&forward),
        vec![entry("B", Some(&["A"])), entry("A", Some(&["B"]))]
    );
}

#[test]
fn resolve_self_dependency_terminates() {
    let metadata = catalog(&[("A", Some(&["A"]))]);
    let forward = resolve(&list(&["A"]), &metadata).unwrap();
    assert_eq!(entries(&forward), vec![entry("A", Some(&["A"]))]);
}

#[test]
fn resolve_long_cycle_records_every_node() {
    let metadata = catalog(&[
        ("a", Some(&["b"])),
        ("b", Some(&["c"])),
        ("c", Some(&["d", "a"])),
        ("d", Some(&["b"])),
    ]);
    let forward = resolve(&list(&["c"]), &metadata).unwrap();
    assert_eq!(forward.len(), 4);
    for name in ["a", "b", "c", "d"] {
        assert_eq!(lookup(&forward, name), lookup(&metadata, name));
    }
}

#[test]
fn resolve_unknown_dependency_fails() {
    let metadata = catalog(&[("app", Some(&["lib"])), ("lib", Some(&["ghost"]))]);
    match resolve(&list(&["app"]), &metadata) {
        Err(e) => {
            assert_eq!(e.package, "ghost");
            assert_eq!(e.reason, "package is not in the catalog");
        }
        Ok(_) => panic!("ghost is unknown"),
    }
}

#[test]
fn resolve_unknown_start_fails() {
    match resolve(&list(&["nowhere"]), &DepTree::new()) {
        Err(e) => assert_eq!(e.package, "nowhere"),
        Ok(_) => panic!("nowhere is unknown"),
    }
}

#[test]
fn get_dep_tree_extends_the_mapping() {
    let metadata = catalog(&[
        ("x", Some(&["shared"])),
        ("y", Some(&["shared", "x"])),
        ("shared", None),
    ]);
    let mut forward = DepTree::new();
    assert!(get_dep_tree("x", &metadata, &mut forward).is_ok());
    assert_eq!(
        entries(&forward),
        vec![entry("shared", None), entry("x", Some(&["shared"]))]
    );
    assert!(get_dep_tree("y", &metadata, &mut forward).is_ok());
    assert_eq!(
        entries(&forward),
        vec![
            entry("shared", None),
            entry("x", Some(&["shared"])),
            entry("y", Some(&["shared", "x"]))
        ]
    );
    assert!(get_dep_tree("x", &metadata, &mut forward).is_ok());
    assert_eq!(forward.len(), 3);
}

#[test]
fn get_dep_tree_keeps_what_was_resolved_on_failure() {
    let metadata = catalog(&[("app", Some(&["lib", "ghost"])), ("lib", None)]);
    let mut forward = DepTree::new();
    forward.insert("earlier".to_string(), None);
    match get_dep_tree("app", &metadata, &mut forward) {
        Err(e) => assert_eq!(e.package, "ghost"),
        Ok(_) => panic!("ghost is unknown"),
    }
    assert_eq!(entries(&forward), vec![entry("earlier", None), entry("lib", None)]);
}

#[test]
fn resolver_asks_depth_first() {
    let metadata = catalog(&[
        ("a", Some(&["b", "c"])),
        ("b", Some(&["d"])),
        ("c", Some(&["d"])),
        ("d", Some(&[])),
    ]);
    let mut resolver = Resolver::begin("a".to_string(), DepTree::new());
    let asked = drive(&mut resolver, &metadata);
    assert_eq!(asked, list(&["a", "b", "d", "c"]));
    assert!(!resolver.has_failed());
    let (forward, failure) = resolver.finish();
    assert!(failure.is_none());
    assert_eq!(
        entries(&forward),
        vec![
            entry("d", Some(&[])),
            entry("b", Some(&["d"])),
            entry("c", Some(&["d"])),
            entry("a", Some(&["b", "c"]))
        ]
    );
}

#[test]
fn resolver_asks_once_for_each_package() {
    let metadata = catalog(&[
        ("a", Some(&["hub", "b", "hub"])),
        ("b", Some(&["hub", "a"])),
        ("hub", Some(&["a", "b", "hub"])),
    ]);
    let mut resolver = Resolver::begin("a".to_string(), DepTree::new());
    let mut asked = drive(&mut resolver, &metadata);
    assert_eq!(asked.len(), 3);
    asked.sort();
    asked.dedup();
    assert_eq!(asked, list(&["a", "b", "hub"]));
}

#[test]
fn resolver_needs_nothing_for_a_known_root() {
    let mut known = DepTree::new();
    known.insert("a".to_string(), Some(list(&["b"])));
    let resolver = Resolver::begin("a".to_string(), known);
    assert!(resolver.pending().is_none());
    let (forward, failure) = resolver.finish();
    assert!(failure.is_none());
    assert_eq!(entries(&forward), vec![entry("a", Some(&["b"]))]);
}

#[test]
fn resolver_passes_over_resolved_packages() {
    let mut known = DepTree::new();
    known.insert("lib".to_string(), None);
    let mut resolver = Resolver::begin("app".to_string(), known);
    assert_eq!(resolver.pending(), Some(&"app".to_string()));
    resolver.supply(Ok(Some(list(&["lib", "new"]))));
    assert_eq!(resolver.pending(), Some(&"new".to_string()));
    resolver.supply(Ok(None));
    assert!(resolver.pending().is_none());
    let (forward, _) = resolver.finish();
    assert_eq!(
        entries(&forward),
        vec![entry("lib", None), entry("new", None), entry("app", Some(&["lib", "new"]))]
    );
}

#[test]
fn resolver_gives_up_with_the_package_attached() {
    let mut resolver = Resolver::begin("app".to_string(), DepTree::new());
    resolver.supply(Ok(Some(list(&["first", "second"]))));
    resolver.supply(Ok(None));
    assert_eq!(resolver.pending(), Some(&"second".to_string()));
    resolver.supply(Err("pkg info failed".to_string()));
    assert!(resolver.pending().is_none());
    assert!(resolver.has_failed());
    let (forward, failure) = resolver.finish();
    let failure = failure.unwrap();
    assert_eq!(failure.package, "second");
    assert_eq!(failure.reason, "pkg info failed");
    assert_eq!(entries(&forward), vec![entry("first", None)]);
}

#[test]
fn resolver_ignores_answers_it_did_not_ask_for() {
    let mut resolver = Resolver::begin("a".to_string(), DepTree::new());
    resolver.supply(Ok(None));
    assert!(resolver.pending().is_none());
    resolver.supply(Ok(Some(list(&["b"]))));
    resolver.supply(Err("late".to_string()));
    assert!(resolver.pending().is_none());
    assert!(!resolver.has_failed());
    let (forward, failure) = resolver.finish();
    assert!(failure.is_none());
    assert_eq!(entries(&forward), vec![entry("a", None)]);
}

#[test]
fn resolve_error_as_sentence() {
    let e = ResolveError { package: "lib".to_string(), reason: "gone".to_string() };
    assert_eq!(e.message(), "Could not get dependencies for package lib: gone");
}
