//! JSON objects whose members are all strings, written and read by `serde_json`.

use std::collections::BTreeMap;
use vstd::prelude::*;

verus! {

/// `serde_json::Error`: what the reader hands back for text it cannot
/// read. Nothing is known of what it holds.
#[verifier::external_type_specification]
#[verifier::external_body]
pub struct ExJsonError(serde_json::Error);

/// The JSON text that `serde_json` writes for the object with the given
/// members, each a name and a string value.
pub uninterp spec fn json_object_text(members: Seq<(Seq<char>, Seq<char>)>) -> Seq<char>;

/// The members that `serde_json` reads from `text`, where `text` is one JSON
/// object whose values are all strings; nothing where it is anything else.
pub uninterp spec fn json_object_members(text: Seq<char>) -> Option<Seq<(Seq<char>, Seq<char>)>>;

/// Names and values taken by their characters.
pub open spec fn members_view(members: Seq<(String, String)>) -> Seq<(Seq<char>, Seq<char>)> {
    members.map_values(|m: (String, String)| (m.0@, m.1@))
}

/// Whether no two members share a name.
pub open spec fn distinct_names(members: Seq<(Seq<char>, Seq<char>)>) -> bool {
    forall|i: int, j: int|
        0 <= i < j < members.len() ==> (#[trigger] members[i]).0 != (#[trigger] members[j]).0
}

/// `serde_json::to_string` on a map from names to string values. Writing
/// such a map cannot fail, and what is written depends on the members alone.
#[verifier::external_body]
pub(crate) fn write_object(members: &Vec<(String, String)>) -> (text: String)
    requires
        distinct_names(members_view(members@)),
    ensures
        text@ == json_object_text(members_view(members@)),
{
    let map: BTreeMap<&str, &str> = members.iter().map(|m| (m.0.as_str(), m.1.as_str())).collect();
    match serde_json::to_string(&map) {
        Ok(text) => text,
        Err(_) => String::new(),
    }
}

/// `serde_json::from_str` for a map from names to string values. It fails on
/// text that is not one JSON object of strings; what it reads depends on the
/// text alone.
#[verifier::external_body]
pub(crate) fn read_object(text: &str) -> (read: Result<Vec<(String, String)>, serde_json::Error>)
    ensures
        read is Ok <==> json_object_members(text@) is Some,
        read matches Ok(members) ==> json_object_members(text@) == Some(members_view(members@)),
{
    let map: BTreeMap<String, String> = serde_json::from_str(text)?;
    Ok(map.into_iter().collect())
}

} // verus!
