use pkg_depgraph::listing::{
    parse_listing, parse_listing_line, split_lines, split_name_version, ListingError, ListingLine,
};
use pkg_depgraph::metadata::{dependencies_of, parse_dependencies, MetadataError};
use pkg_depgraph::package::{contains_name, select_names, Package};
use pkg_depgraph::text::{chars_of, string_of};

fn package(name: &str) -> Package {
    Package {
        name: name.to_string(),
        version: "1".to_string(),
        description: "d".to_string(),
        dependencies: None,
    }
}

fn strings(list: &[&str]) -> Vec<String> {
    list.iter().map(|s| s.to_string()).collect()
}

#[test]
fn split_at_last_hyphen() {
    assert_eq!(split_name_version("foo-1.2.3"), Some(("foo", "1.2.3")));
}

#[test]
fn split_name_with_hyphens() {
    assert_eq!(
        split_name_version("py39-setup-tools-63.1.0_1"),
        Some(("py39-setup-tools", "63.1.0_1"))
    );
}

#[test]
fn split_without_hyphen() {
    assert_eq!(split_name_version("foo"), None);
    assert_eq!(split_name_version(""), None);
}

#[test]
fn split_at_the_edges() {
    assert_eq!(split_name_version("-"), Some(("", "")));
    assert_eq!(split_name_version("foo-"), Some(("foo", "")));
    assert_eq!(split_name_version("-1.0"), Some(("", "1.0")));
}

#[test]
fn split_counts_characters() {
    assert_eq!(split_name_version("grüße-2.0é"), Some(("grüße", "2.0é")));
}

#[test]
fn line_with_package() {
    match parse_listing_line("foo-1.2.3   some description") {
        ListingLine::Entry(p) => {
            assert_eq!(p.name, "foo");
            assert_eq!(p.version, "1.2.3");
            assert_eq!(p.description, "some description");
            assert_eq!(p.dependencies, None);
        }
        _ => panic!("the line holds a package"),
    }
}

#[test]
fn line_without_space_is_skipped() {
    assert!(matches!(parse_listing_line("foo-1.2.3"), ListingLine::Skipped));
    assert!(matches!(parse_listing_line(""), ListingLine::Skipped));
}

#[test]
fn line_without_description_is_skipped() {
    assert!(matches!(parse_listing_line("foo-1.2.3    "), ListingLine::Skipped));
}

#[test]
fn line_that_starts_with_space_is_skipped() {
    assert!(matches!(parse_listing_line(" foo-1.2.3 text"), ListingLine::Skipped));
}

#[test]
fn line_without_version() {
    assert!(matches!(parse_listing_line("foo some text"), ListingLine::Unversioned));
}

#[test]
fn description_keeps_inner_spaces() {
    match parse_listing_line("a-b-2 x  y ") {
        ListingLine::Entry(p) => {
            assert_eq!(p.name, "a-b");
            assert_eq!(p.version, "2");
            assert_eq!(p.description, "x  y ");
        }
        _ => panic!("the line holds a package"),
    }
}

#[test]
fn tab_is_no_separator() {
    assert!(matches!(parse_listing_line("foo-1.0\ttext"), ListingLine::Skipped));
}

#[test]
fn lines_are_cut_at_line_feeds() {
    let lines: Vec<String> = split_lines("a\n\nbc\n").into_iter().map(|l| l.into_iter().collect()).collect();
    assert_eq!(lines, vec!["a", "", "bc", ""]);
    assert_eq!(split_lines("").len(), 1);
}

#[test]
fn listing_of_packages() {
    let text = "bash-5.2.15                    GNU Project's Bourne Again SHell\n\
                brokenline\n\
                ca_root_nss-3.89.1             Root certificate bundle\n\
                nodescription-1.0\n";
    let packages = parse_listing(text).unwrap_or_else(|_| panic!("the listing is readable"));
    assert_eq!(packages.len(), 2);
    assert_eq!(packages[0].name, "bash");
    assert_eq!(packages[0].version, "5.2.15");
    assert_eq!(packages[0].description, "GNU Project's Bourne Again SHell");
    assert_eq!(packages[1].name, "ca_root_nss");
    assert_eq!(packages[1].version, "3.89.1");
    assert_eq!(packages[1].description, "Root certificate bundle");
}

#[test]
fn listing_of_nothing() {
    let packages = parse_listing("").unwrap_or_else(|_| panic!("the listing is readable"));
    assert_eq!(packages.len(), 0);
}

#[test]
fn listing_names_first_unversioned_line() {
    let text = "a-1 first\n\nplain text here\nalso plain\n";
    match parse_listing(text) {
        Err(e) => assert_eq!(e, ListingError { line: 2 }),
        Ok(_) => panic!("line 2 has no version"),
    }
}

#[test]
fn characters_and_back() {
    let chars = chars_of("héllo wörld");
    assert_eq!(chars.len(), 11);
    assert_eq!(string_of(&chars, 0, 5), "héllo");
    assert_eq!(string_of(&chars, 6, 11), "wörld");
    assert_eq!(string_of(&chars, 3, 3), "");
}

#[test]
fn dependencies_are_keys_of_deps() {
    let text = r#"{"name":"app","deps":{"libz":{"origin":"archivers/libz","version":"1"},"liba":{"origin":"devel/liba","version":"2"}}}"#;
    let deps = parse_dependencies(text).unwrap_or_else(|_| panic!("the text is JSON"));
    assert_eq!(deps, Some(strings(&["liba", "libz"])));
}

#[test]
fn empty_deps_object() {
    let deps = parse_dependencies(r#"{"deps":{}}"#).unwrap_or_else(|_| panic!("the text is JSON"));
    assert_eq!(deps, Some(Vec::new()));
}

#[test]
fn no_deps_member() {
    let deps = parse_dependencies(r#"{"name":"app"}"#).unwrap_or_else(|_| panic!("the text is JSON"));
    assert_eq!(deps, None);
}

#[test]
fn deps_that_is_no_object() {
    let deps = parse_dependencies(r#"{"deps":["a","b"]}"#).unwrap_or_else(|_| panic!("the text is JSON"));
    assert_eq!(deps, None);
    let deps = parse_dependencies("[1, 2]").unwrap_or_else(|_| panic!("the text is JSON"));
    assert_eq!(deps, None);
}

#[test]
fn malformed_metadata() {
    match parse_dependencies("") {
        Err(e) => {
            assert_eq!(e.detail, "Error(\"EOF while parsing a value\", line: 1, column: 0)");
            assert_eq!(
                e.message(),
                "JSON deserialization error: Error(\"EOF while parsing a value\", line: 1, column: 0)"
            );
        }
        Ok(_) => panic!("an empty text is no JSON"),
    }
    assert!(parse_dependencies("{\"deps\": {").is_err());
    assert!(parse_dependencies("{} trailing").is_err());
}

#[test]
fn error_message_has_prefix() {
    let e = MetadataError { detail: "why".to_string() };
    assert_eq!(e.message(), "JSON deserialization error: why");
}

#[test]
fn dependencies_of_parsed_document() {
    let document: serde_json::Value =
        serde_json::from_str(r#"{"deps":{"x":1,"y":2},"other":{"z":3}}"#).unwrap();
    assert_eq!(dependencies_of(&document), Some(strings(&["x", "y"])));
    let document: serde_json::Value = serde_json::from_str(r#"{"other":{"z":3}}"#).unwrap();
    assert_eq!(dependencies_of(&document), None);
}

#[test]
fn select_all_without_filter() {
    let packages = vec![package("b"), package("a"), package("c")];
    assert_eq!(select_names(&packages, &Vec::new()), strings(&["b", "a", "c"]));
}

#[test]
fn select_filtered() {
    let packages = vec![package("b"), package("a"), package("c")];
    assert_eq!(
        select_names(&packages, &strings(&["c", "b", "zzz"])),
        strings(&["b", "c"])
    );
    assert_eq!(select_names(&packages, &strings(&["zzz"])), Vec::<String>::new());
}

#[test]
fn membership_of_names() {
    let names = strings(&["x", "y"]);
    assert!(contains_name(&names, &"y".to_string()));
    assert!(!contains_name(&names, &"z".to_string()));
}
