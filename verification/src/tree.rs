//! The in-memory credential tree: groups, entries, node references, the
//! error taxonomy, and field extraction from a resolved entry.

use vstd::prelude::*;

use crate::strutil::{eq_ignore_case, fold_case, str_eq};

verus! {

/// First value bound to `name` at or after position `i` of a field
/// mapping, if any; keys are compared case-sensitively.
pub open spec fn spec_field_from(fields: Seq<(String, String)>, name: Seq<char>, i: int) -> Option<
    Seq<char>,
>
    decreases fields.len() - i,
{
    if i < 0 || i >= fields.len() {
        None
    } else if fields[i].0@ == name {
        Some(fields[i].1@)
    } else {
        spec_field_from(fields, name, i + 1)
    }
}

/// Why a query or a field lookup failed.  Every failure is terminal for
/// the current query; nothing is retried.
#[derive(Clone, Copy, Debug, PartialEq, Eq, Structural)]
pub enum Error {
    /// An absolute-path query with no segments left to resolve.
    EmptyQuery,
    /// A subpath query with fewer than two segments.
    InvalidSubpath,
    /// An intermediate segment of an absolute path matched no subgroup.
    PathSegmentNotFound,
    /// The final segment of an absolute path matched nothing.
    EntryNotFound,
    /// A node that had to behave as a group could not.
    NotAGroup,
    /// The requested field is not present on the entry.
    FieldNotFound,
}

impl Error {
    /// A short human-readable description.
    pub fn message(&self) -> (r: &'static str)
        ensures
            *self == Error::EmptyQuery ==> r@ == "empty query"@,
            *self == Error::InvalidSubpath ==> r@ == "invalid subpath query"@,
            *self == Error::PathSegmentNotFound ==> r@ == "path segment not found"@,
            *self == Error::EntryNotFound ==> r@ == "entry not found"@,
            *self == Error::NotAGroup ==> r@ == "node is not a group"@,
            *self == Error::FieldNotFound ==> r@ == "field not found"@,
    {
        match *self {
            Error::EmptyQuery => "empty query",
            Error::InvalidSubpath => "invalid subpath query",
            Error::PathSegmentNotFound => "path segment not found",
            Error::EntryNotFound => "entry not found",
            Error::NotAGroup => "node is not a group",
            Error::FieldNotFound => "field not found",
        }
    }
}

/// A credential entry: a title and a mapping from field name to field
/// value.  The mapping holds the remaining standard fields (user name,
/// password, URL, notes) and any custom fields; a missing title is
/// represented by the empty string, never as absent.
#[derive(Debug)]
pub struct Entry {
    pub title: String,
    pub fields: Vec<(String, String)>,
}

/// A group: a title, the child groups and the entries it owns, in stored
/// order.  A missing title is represented by the empty string.
#[derive(Debug)]
pub struct Group {
    pub title: String,
    pub groups: Vec<Group>,
    pub entries: Vec<Entry>,
}

/// A borrowed reference to one node of the tree.
#[derive(Clone, Copy, Debug)]
pub enum NodeRef<'a> {
    Group(&'a Group),
    Entry(&'a Entry),
}

/// The view of an optional owned string.
pub open spec fn opt_view(o: Option<String>) -> Option<Seq<char>> {
    match o {
        Some(s) => Some(s@),
        None => None,
    }
}

/// The view of a string-or-error result.
pub open spec fn res_view(r: Result<String, Error>) -> Result<Seq<char>, Error> {
    match r {
        Ok(s) => Ok(s@),
        Err(e) => Err(e),
    }
}

/// First value bound to `name` in an entry's field mapping, if any; keys
/// are compared case-sensitively.
pub open spec fn spec_field(e: Entry, name: Seq<char>) -> Option<Seq<char>> {
    spec_field_from(e.fields@, name, 0)
}

/// The value `v` of an optional, or the empty string.
pub open spec fn opt_or_empty(o: Option<Seq<char>>) -> Seq<char> {
    match o {
        Some(v) => v,
        None => Seq::empty(),
    }
}

/// What field extraction returns for an entry: the four remaining
/// well-known names and the title are looked up case-insensitively (an
/// absent standard field reads as empty), any other name case-sensitively
/// among the custom fields.
pub open spec fn spec_get_field_value(e: Entry, name: Seq<char>) -> Result<Seq<char>, Error> {
    if fold_case(name) == fold_case("Title"@) {
        Ok(e.title@)
    } else if fold_case(name) == fold_case("UserName"@) {
        Ok(opt_or_empty(spec_field(e, "UserName"@)))
    } else if fold_case(name) == fold_case("Password"@) {
        Ok(opt_or_empty(spec_field(e, "Password"@)))
    } else if fold_case(name) == fold_case("URL"@) {
        Ok(opt_or_empty(spec_field(e, "URL"@)))
    } else if fold_case(name) == fold_case("Notes"@) {
        Ok(opt_or_empty(spec_field(e, "Notes"@)))
    } else {
        match spec_field(e, name) {
            Some(v) => Ok(v),
            None => Err(Error::FieldNotFound),
        }
    }
}

impl Entry {
    /// Value bound to `name` in the field mapping, compared
    /// case-sensitively; the first binding wins.
    pub fn field(&self, name: &str) -> (r: Option<String>)
        ensures
            opt_view(r) == spec_field(*self, name@),
    {
        let mut i: usize = 0;
        while i < self.fields.len()
            invariant
                0 <= i <= self.fields@.len(),
                spec_field_from(self.fields@, name@, 0) == spec_field_from(
                    self.fields@,
                    name@,
                    i as int,
                ),
            decreases self.fields@.len() - i,
        {
            let pair = &self.fields[i];
            if str_eq(pair.0.as_str(), name) {
                return Some(pair.1.clone());
            }
            i = i + 1;
        }
        None
    }

    /// Value of a standard field, or the empty string when absent.
    pub fn field_or_empty(&self, name: &str) -> (r: String)
        ensures
            r@ == opt_or_empty(spec_field(*self, name@)),
    {
        match self.field(name) {
            Some(v) => v,
            None => String::new(),
        }
    }
}

/// Extract a named field from a resolved node.  Field lookup on a group is
/// unsupported and fails like a missing field.
pub fn get_field_value(node: &NodeRef, field_name: &str) -> (r: Result<String, Error>)
    ensures
        node matches NodeRef::Entry(e) ==> res_view(r) == spec_get_field_value(**e, field_name@),
        node matches NodeRef::Group(_) ==> r == Err::<String, Error>(Error::FieldNotFound),
{
    let e: &Entry = match *node {
        NodeRef::Entry(e) => e,
        NodeRef::Group(_) => {
            return Err(Error::FieldNotFound);
        },
    };
    if eq_ignore_case(field_name, "Title") {
        return Ok(e.title.clone());
    }
    if eq_ignore_case(field_name, "UserName") {
        return Ok(e.field_or_empty("UserName"));
    }
    if eq_ignore_case(field_name, "Password") {
        return Ok(e.field_or_empty("Password"));
    }
    if eq_ignore_case(field_name, "URL") {
        return Ok(e.field_or_empty("URL"));
    }
    if eq_ignore_case(field_name, "Notes") {
        return Ok(e.field_or_empty("Notes"));
    }
    match e.field(field_name) {
        Some(v) => Ok(v),
        None => Err(Error::FieldNotFound),
    }
}

/// Law: lookup of a well-known field name is case-insensitive.  Any two
/// spellings that case-fold to the same well-known name extract the same
/// value from any entry.
pub proof fn lemma_field_lookup_case_insensitive(e: Entry, a: Seq<char>, b: Seq<char>)
    requires
        fold_case(a) == fold_case(b),
        fold_case(a) == fold_case("Title"@) || fold_case(a) == fold_case("UserName"@)
            || fold_case(a) == fold_case("Password"@) || fold_case(a) == fold_case("URL"@)
            || fold_case(a) == fold_case("Notes"@),
    ensures
        spec_get_field_value(e, a) == spec_get_field_value(e, b),
{
}

} // verus!
