use kpasscli::search::{Finder, SearchOptions};
use kpasscli::tree::{Entry, Error, Group, NodeRef};

fn entry(title: &str) -> Entry {
    Entry { title: String::from(title), fields: vec![] }
}

fn group(title: &str, groups: Vec<Group>, entries: Vec<Entry>) -> Group {
    Group { title: String::from(title), groups, entries }
}

fn exact() -> SearchOptions {
    SearchOptions { case_sensitive: true, exact_match: true }
}

fn loose() -> SearchOptions {
    SearchOptions { case_sensitive: false, exact_match: false }
}

fn entry_title<'a>(node: &NodeRef<'a>) -> &'a str {
    match node {
        NodeRef::Entry(e) => e.title.as_str(),
        NodeRef::Group(_) => panic!("expected an entry"),
    }
}

fn group_title<'a>(node: &NodeRef<'a>) -> &'a str {
    match node {
        NodeRef::Group(g) => g.title.as_str(),
        NodeRef::Entry(_) => panic!("expected a group"),
    }
}

#[test]
fn matcher_exact_case_sensitive_is_equality() {
    let root = group("", vec![], vec![]);
    let finder = Finder::new(&root, exact());
    assert!(finder.matches("Abc", "Abc"));
    assert!(!finder.matches("Abc", "abc"));
    assert!(!finder.matches("Abcd", "Abc"));
    assert!(finder.matches("", ""));
    assert!(!finder.matches("", "x"));
}

#[test]
fn matcher_folded_substring() {
    let root = group("", vec![], vec![]);
    let finder = Finder::new(&root, loose());
    assert!(finder.matches("MyPassword", "PASS"));
    assert!(finder.matches("password1", "Pass"));
    assert!(!finder.matches("secret", "pass"));
    assert!(finder.matches("anything", ""));
}

#[test]
fn bare_name_duplicates_distinct_paths() {
    let root = group(
        "",
        vec![
            group("A", vec![], vec![entry("secret")]),
            group("B", vec![group("C", vec![], vec![entry("secret")])], vec![]),
        ],
        vec![],
    );
    let finder = Finder::new(&root, exact());
    let results = finder.find("secret").unwrap();
    assert_eq!(results.len(), 2);
    assert_eq!(results[0].path, "/A/secret");
    assert_eq!(results[1].path, "/B/C/secret");
    assert_eq!(entry_title(&results[0].node), "secret");
    assert_eq!(entry_title(&results[1].node), "secret");
}

#[test]
fn absolute_path_resolves_entry() {
    let root = group(
        "",
        vec![group("A", vec![group("B", vec![], vec![entry("secret")])], vec![])],
        vec![],
    );
    let finder = Finder::new(&root, loose());
    let results = finder.find("/A/B/secret").unwrap();
    assert_eq!(results.len(), 1);
    assert_eq!(results[0].path, "/A/B/secret");
    assert_eq!(entry_title(&results[0].node), "secret");
}

#[test]
fn absolute_path_missing_intermediate_segment() {
    let root = group(
        "",
        vec![group("A", vec![group("B", vec![], vec![entry("secret")])], vec![])],
        vec![],
    );
    let finder = Finder::new(&root, loose());
    let err = finder.find("/A/X/secret").unwrap_err();
    assert_eq!(err, Error::PathSegmentNotFound);
}

#[test]
fn absolute_path_missing_last_segment() {
    let root = group("", vec![group("A", vec![], vec![entry("secret")])], vec![]);
    let finder = Finder::new(&root, loose());
    let err = finder.find("/A/nosuch").unwrap_err();
    assert_eq!(err, Error::EntryNotFound);
}

#[test]
fn absolute_path_resolves_group() {
    let root = group(
        "",
        vec![group("A", vec![group("B", vec![], vec![entry("secret")])], vec![])],
        vec![],
    );
    let finder = Finder::new(&root, loose());
    let results = finder.find("/A/B").unwrap();
    assert_eq!(results.len(), 1);
    assert_eq!(results[0].path, "/A/B");
    assert_eq!(group_title(&results[0].node), "B");
}

#[test]
fn absolute_path_consumes_root_title() {
    let root = group("Root", vec![group("A", vec![], vec![entry("secret")])], vec![]);
    let finder = Finder::new(&root, loose());
    let results = finder.find("/Root/A/secret").unwrap();
    assert_eq!(results.len(), 1);
    assert_eq!(entry_title(&results[0].node), "secret");
    let results = finder.find("/A/secret").unwrap();
    assert_eq!(results.len(), 1);
    assert_eq!(entry_title(&results[0].node), "secret");
}

#[test]
fn absolute_path_entry_precedes_group() {
    let root = group(
        "",
        vec![group("dup", vec![], vec![entry("inner")])],
        vec![entry("dup")],
    );
    let finder = Finder::new(&root, loose());
    let results = finder.find("/dup").unwrap();
    assert_eq!(results.len(), 1);
    assert_eq!(entry_title(&results[0].node), "dup");
}

#[test]
fn absolute_path_of_only_slashes_is_empty() {
    let root = group("", vec![group("A", vec![], vec![entry("secret")])], vec![]);
    let finder = Finder::new(&root, loose());
    assert_eq!(finder.find("/").unwrap_err(), Error::EmptyQuery);
}

#[test]
fn subpath_scopes_to_matching_group() {
    let root = group(
        "",
        vec![
            group("Work", vec![], vec![entry("server")]),
            group("Personal", vec![], vec![entry("server")]),
        ],
        vec![],
    );
    let finder = Finder::new(&root, exact());
    let results = finder.find("Work/server").unwrap();
    assert_eq!(results.len(), 1);
    assert_eq!(results[0].path, "/Work/server");
    assert_eq!(entry_title(&results[0].node), "server");
}

#[test]
fn subpath_matches_at_any_depth() {
    let root = group(
        "",
        vec![group("X", vec![group("Work", vec![], vec![entry("server")])], vec![])],
        vec![],
    );
    let finder = Finder::new(&root, exact());
    let results = finder.find("Work/server").unwrap();
    assert_eq!(results.len(), 1);
    assert_eq!(results[0].path, "/X/Work/server");
}

#[test]
fn bare_name_substring_matches() {
    let root = group(
        "",
        vec![group("A", vec![], vec![entry("Password1"), entry("MyPass"), entry("other")])],
        vec![],
    );
    let finder = Finder::new(&root, loose());
    let results = finder.find("pass").unwrap();
    assert_eq!(results.len(), 2);
    assert_eq!(results[0].path, "/A/Password1");
    assert_eq!(results[1].path, "/A/MyPass");
}

#[test]
fn round_trip_bare_name_path_resolves_same_node() {
    let root = group(
        "",
        vec![
            group("A", vec![], vec![entry("alpha")]),
            group("B", vec![group("C", vec![], vec![entry("beta")])], vec![]),
        ],
        vec![],
    );
    let finder = Finder::new(&root, exact());
    for query in ["alpha", "beta"] {
        let results = finder.find(query).unwrap();
        assert_eq!(results.len(), 1);
        let back = finder.find(results[0].path.as_str()).unwrap();
        assert_eq!(back.len(), 1);
        assert_eq!(back[0].path, results[0].path);
        assert_eq!(entry_title(&back[0].node), entry_title(&results[0].node));
    }
}

#[test]
fn round_trip_subpath_path_resolves_same_node() {
    let root = group(
        "",
        vec![group("Work", vec![], vec![entry("server")])],
        vec![],
    );
    let finder = Finder::new(&root, exact());
    let results = finder.find("Work/server").unwrap();
    assert_eq!(results.len(), 1);
    let back = finder.find(results[0].path.as_str()).unwrap();
    assert_eq!(back.len(), 1);
    assert_eq!(entry_title(&back[0].node), "server");
}

#[test]
fn bare_name_empty_root_title_elided_in_paths() {
    let root = group("", vec![], vec![entry("top")]);
    let finder = Finder::new(&root, exact());
    let results = finder.find("top").unwrap();
    assert_eq!(results.len(), 1);
    assert_eq!(results[0].path, "/top");
}

#[test]
fn bare_name_titled_root_prefixes_paths() {
    let root = group("Root", vec![], vec![entry("top")]);
    let finder = Finder::new(&root, exact());
    let results = finder.find("top").unwrap();
    assert_eq!(results.len(), 1);
    assert_eq!(results[0].path, "/Root/top");
}

#[test]
fn empty_query_is_a_bare_name_matching_everything_by_substring() {
    let root = group("", vec![group("A", vec![], vec![entry("x"), entry("y")])], vec![]);
    let finder = Finder::new(&root, loose());
    let results = finder.find("").unwrap();
    assert_eq!(results.len(), 2);
    let finder = Finder::new(&root, exact());
    assert!(finder.find("").unwrap().is_empty());
}

#[test]
fn subpath_filter_keeps_any_path_containing_the_query_verbatim() {
    // The final filter is literal substring containment on the built
    // path, so a group whose title merely ends in the queried group name
    // also qualifies.
    let root = group(
        "",
        vec![
            group("Work", vec![], vec![entry("server")]),
            group("NotWork", vec![], vec![entry("server")]),
            group("Home", vec![], vec![entry("server")]),
        ],
        vec![],
    );
    let finder = Finder::new(&root, exact());
    let results = finder.find("Work/server").unwrap();
    let paths: Vec<&str> = results.iter().map(|r| r.path.as_str()).collect();
    assert_eq!(paths, vec!["/Work/server", "/NotWork/server"]);
}

#[test]
fn no_matches_yields_empty_result_set() {
    let root = group("", vec![group("A", vec![], vec![entry("x")])], vec![]);
    let finder = Finder::new(&root, exact());
    let results = finder.find("nothing").unwrap();
    assert!(results.is_empty());
}
