use kpasscli::output::{resolve_output_type, Handler, OutputType};
use kpasscli::tree::{get_field_value, Entry, Error, Group, NodeRef};

fn entry_with(title: &str, fields: Vec<(&str, &str)>) -> Entry {
    Entry {
        title: String::from(title),
        fields: fields
            .into_iter()
            .map(|(k, v)| (String::from(k), String::from(v)))
            .collect(),
    }
}

#[test]
fn field_lookup_well_known_names_ignore_case() {
    let e = entry_with("site", vec![("UserName", "alice"), ("Password", "pw")]);
    let node = NodeRef::Entry(&e);
    let a = get_field_value(&node, "USERNAME").unwrap();
    let b = get_field_value(&node, "username").unwrap();
    let c = get_field_value(&node, "UserName").unwrap();
    assert_eq!(a, "alice");
    assert_eq!(b, "alice");
    assert_eq!(c, "alice");
    assert_eq!(get_field_value(&node, "pAsSwOrD").unwrap(), "pw");
}

#[test]
fn field_lookup_title_reads_the_title() {
    let e = entry_with("site", vec![]);
    let node = NodeRef::Entry(&e);
    assert_eq!(get_field_value(&node, "title").unwrap(), "site");
}

#[test]
fn field_lookup_absent_standard_field_reads_empty() {
    let e = entry_with("site", vec![]);
    let node = NodeRef::Entry(&e);
    assert_eq!(get_field_value(&node, "Notes").unwrap(), "");
    assert_eq!(get_field_value(&node, "URL").unwrap(), "");
}

#[test]
fn field_lookup_custom_fields_are_case_sensitive() {
    let e = entry_with("site", vec![("MyField", "v")]);
    let node = NodeRef::Entry(&e);
    assert_eq!(get_field_value(&node, "MyField").unwrap(), "v");
    assert_eq!(get_field_value(&node, "myfield").unwrap_err(), Error::FieldNotFound);
}

#[test]
fn field_lookup_missing_custom_field_fails() {
    let e = entry_with("site", vec![]);
    let node = NodeRef::Entry(&e);
    assert_eq!(get_field_value(&node, "otp").unwrap_err(), Error::FieldNotFound);
}

#[test]
fn field_lookup_on_group_fails() {
    let g = Group { title: String::from("A"), groups: vec![], entries: vec![] };
    let node = NodeRef::Group(&g);
    assert_eq!(get_field_value(&node, "UserName").unwrap_err(), Error::FieldNotFound);
}

#[test]
fn output_type_parses_ignoring_case() {
    assert_eq!(OutputType::from_str("stdout"), Some(OutputType::Stdout));
    assert_eq!(OutputType::from_str("STDOUT"), Some(OutputType::Stdout));
    assert_eq!(OutputType::from_str("Clipboard"), Some(OutputType::Clipboard));
    assert_eq!(OutputType::from_str("nowhere"), None);
    assert_eq!(OutputType::from_str(""), None);
}

#[test]
fn output_type_resolution_order() {
    assert_eq!(
        resolve_output_type(Some("clipboard"), Some("stdout"), None),
        OutputType::Clipboard
    );
    assert_eq!(
        resolve_output_type(Some("bogus"), Some("clipboard"), None),
        OutputType::Clipboard
    );
    assert_eq!(
        resolve_output_type(None, None, Some("clipboard")),
        OutputType::Clipboard
    );
    assert_eq!(resolve_output_type(None, None, None), OutputType::Stdout);
    assert_eq!(resolve_output_type(Some("bogus"), None, Some("junk")), OutputType::Stdout);
}

#[test]
fn handler_keeps_its_configuration() {
    let h = Handler::new(OutputType::Clipboard, Some(10));
    assert!(matches!(h.output_type, OutputType::Clipboard));
    assert_eq!(h.clipboard_timeout, Some(10));
    let h = Handler::new(OutputType::Stdout, None);
    assert!(matches!(h.output_type, OutputType::Stdout));
    assert_eq!(h.clipboard_timeout, None);
}

#[test]
fn error_messages_name_the_failure() {
    assert_eq!(Error::EmptyQuery.message(), "empty query");
    assert_eq!(Error::InvalidSubpath.message(), "invalid subpath query");
    assert_eq!(Error::PathSegmentNotFound.message(), "path segment not found");
    assert_eq!(Error::EntryNotFound.message(), "entry not found");
    assert_eq!(Error::NotAGroup.message(), "node is not a group");
    assert_eq!(Error::FieldNotFound.message(), "field not found");
}
