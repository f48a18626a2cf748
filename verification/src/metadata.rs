//! The metadata of one package, as the package tool prints it: a JSON object
//! whose member `deps`, where it is an object, has one key for each direct
//! dependency.

use crate::deptree::{opt_texts, texts};
use vstd::prelude::*;
use vstd::string::StringExecFns;

verus! {

/// `serde_json::Value`, a JSON document. Nothing of what it holds is known
/// here but what the functions below say.
#[verifier::external_type_specification]
#[verifier::external_body]
pub struct ExJsonValue(serde_json::Value);

/// `serde_json::Error`, what the parser reports of a text that is no JSON.
#[verifier::external_type_specification]
#[verifier::external_body]
pub struct ExJsonError(serde_json::Error);

/// `serde_json::Map`, the members of a JSON object.
#[verifier::external_type_specification]
#[verifier::external_body]
#[verifier::reject_recursive_types(K)]
#[verifier::reject_recursive_types(V)]
pub struct ExJsonMap<K, V>(serde_json::Map<K, V>);

/// What `serde_json::from_str` makes of a text: the document, or what is wrong
/// with the text.
pub uninterp spec fn json_parse(text: Seq<char>) -> Result<serde_json::Value, serde_json::Error>;

/// What indexing a document with a string gives: the member of that name, or
/// the null value.
pub uninterp spec fn json_member(document: serde_json::Value, key: Seq<char>) -> serde_json::Value;

/// The members of a document that is an object; nothing for any other.
pub uninterp spec fn json_object(document: serde_json::Value) -> Option<
    serde_json::Map<String, serde_json::Value>,
>;

/// The keys of the members of an object, in the order in which the object
/// hands them out.
pub uninterp spec fn json_keys(members: serde_json::Map<String, serde_json::Value>) -> Seq<
    Seq<char>,
>;

/// How a parse error describes itself when it is formatted for debugging.
pub uninterp spec fn json_error_text(error: serde_json::Error) -> Seq<char>;

/// `serde_json::from_str`, for `serde_json::Value`. The contract claims only
/// that the outcome depends on the text alone, and names it.
#[verifier::external_body]
fn json_from_str(text: &str) -> (r: Result<serde_json::Value, serde_json::Error>)
    ensures
        r == json_parse(text@),
{
    serde_json::from_str(text)
}

/// The indexing operator of `serde_json::Value` with a string. It never
/// fails: a missing member gives the null value. The contract names the
/// member.
#[verifier::external_body]
fn json_index<'a>(document: &'a serde_json::Value, key: &str) -> (r: &'a serde_json::Value)
    ensures
        *r == json_member(*document, key@),
{
    &document[key]
}

/// `serde_json::Value::as_object`. The contract names the members.
#[verifier::external_body]
fn json_as_object<'a>(document: &'a serde_json::Value) -> (r: Option<
    &'a serde_json::Map<String, serde_json::Value>,
>)
    ensures
        match r {
            Some(members) => json_object(*document) == Some(*members),
            None => json_object(*document) is None,
        },
{
    document.as_object()
}

/// `serde_json::Map::keys`, each key copied. The contract names the keys.
#[verifier::external_body]
fn json_key_list(members: &serde_json::Map<String, serde_json::Value>) -> (r: Vec<String>)
    ensures
        texts(r@) == json_keys(*members),
{
    members.keys().cloned().collect()
}

/// The `Debug` form of `serde_json::Error`. The contract names the text.
#[verifier::external_body]
fn json_error_debug(error: &serde_json::Error) -> (r: String)
    ensures
        r@ == json_error_text(*error),
{
    format!("{:?}", error)
}

/// The metadata is no JSON document. `detail` is the parser's account of what
/// is wrong and where.
#[derive(Debug)]
pub struct MetadataError {
    pub detail: String,
}

impl MetadataError {
    /// The error as a sentence.
    pub fn message(&self) -> (s: String)
        ensures
            s@ == "JSON deserialization error: "@ + self.detail@,
    {
        let mut s = String::from_str("JSON deserialization error: ");
        s.append(self.detail.as_str());
        s
    }
}

/// The direct dependencies that a document declares: the keys of its member
/// `deps` where that is an object, nothing where the document has no such
/// member or the member is no object.
pub open spec fn declared_deps(document: serde_json::Value) -> Option<Seq<Seq<char>>> {
    match json_object(json_member(document, "deps"@)) {
        None => None,
        Some(members) => Some(json_keys(members)),
    }
}

/// What the metadata `text` says of direct dependencies.
pub open spec fn dependencies_in(text: Seq<char>) -> Result<Option<Seq<Seq<char>>>, Seq<char>> {
    match json_parse(text) {
        Ok(document) => Ok(declared_deps(document)),
        Err(error) => Err(json_error_text(error)),
    }
}

/// The direct dependencies that a parsed document declares. A document
/// without an object `deps` declares none, which is no error.
pub fn dependencies_of(document: &serde_json::Value) -> (r: Option<Vec<String>>)
    ensures
        opt_texts(r) == declared_deps(*document),
{
    match json_as_object(json_index(document, "deps")) {
        None => None,
        Some(members) => Some(json_key_list(members)),
    }
}

/// Reads the metadata of one package and gives the names of its direct
/// dependencies. A text that is no JSON document is an error; a document
/// without an object `deps` is a package without dependencies.
pub fn parse_dependencies(text: &str) -> (r: Result<Option<Vec<String>>, MetadataError>)
    ensures
        match r {
            Ok(deps) => dependencies_in(text@) == Ok::<Option<Seq<Seq<char>>>, Seq<char>>(
                opt_texts(deps),
            ),
            Err(e) => dependencies_in(text@) == Err::<Option<Seq<Seq<char>>>, Seq<char>>(
                e.detail@,
            ),
        },
{
    match json_from_str(text) {
        Ok(document) => Ok(dependencies_of(&document)),
        Err(error) => Err(MetadataError { detail: json_error_debug(&error) }),
    }
}

} // verus!
