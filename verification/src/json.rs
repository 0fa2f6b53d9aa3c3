//! Reading and writing JSON with `serde_json`.
//!
//! Values are passed on as JSON texts: a member or an item that is taken out of
//! a value is written as JSON again, to be read by the next call.

use vstd::prelude::*;

verus! {

/// The member of a JSON object under a key, written as JSON.
pub uninterp spec fn json_member_of(text: Seq<char>, key: Seq<char>) -> Option<Seq<char>>;

/// The text that a JSON string stands for.
pub uninterp spec fn json_text_of(text: Seq<char>) -> Option<Seq<char>>;

/// The items of a JSON array, each written as JSON.
pub uninterp spec fn json_items_of(text: Seq<char>) -> Option<Seq<Seq<char>>>;

/// The numbers of a JSON array of numbers that fit in a `usize`.
pub uninterp spec fn json_indices_of(text: Seq<char>) -> Option<Seq<usize>>;

/// The members of a JSON object whose values are all strings.
pub uninterp spec fn json_strings_of(text: Seq<char>) -> Option<Map<Seq<char>, Seq<char>>>;

/// Calls [`serde_json::from_str`] for an object and takes the member under a
/// key, which its `Display` writes as JSON; nothing where the text is no JSON
/// object or has no such member. The result is a function of text and key.
#[verifier::external_body]
pub(crate) fn json_member(text: &str, key: &str) -> (r: Option<String>)
    ensures
        crate::fragment::text_view(r) == json_member_of(text@, key@),
{
    let object: serde_json::Map<String, serde_json::Value> = serde_json::from_str(text).ok()?;
    object.get(key).map(|v| v.to_string())
}

/// Calls [`serde_json::from_str`] for a string; nothing where the text is no
/// JSON string. The result is a function of the text.
#[verifier::external_body]
pub(crate) fn json_text(text: &str) -> (r: Option<String>)
    ensures
        crate::fragment::text_view(r) == json_text_of(text@),
{
    serde_json::from_str::<String>(text).ok()
}

/// Calls [`serde_json::from_str`] for an array, each of whose items its
/// `Display` writes as JSON; nothing where the text is no JSON array. The
/// result is a function of the text.
#[verifier::external_body]
pub(crate) fn json_items(text: &str) -> (r: Option<Vec<String>>)
    ensures
        match r {
            Some(v) => json_items_of(text@) == Some(crate::text::views(v@)),
            None => json_items_of(text@) is None,
        },
{
    let items: Vec<serde_json::Value> = serde_json::from_str(text).ok()?;
    Some(items.iter().map(|v| v.to_string()).collect())
}

/// Calls [`serde_json::from_str`] for an array of numbers; nothing where the
/// text is none, or one of them does not fit in a `usize`. The result is a
/// function of the text.
#[verifier::external_body]
pub(crate) fn json_indices(text: &str) -> (r: Option<Vec<usize>>)
    ensures
        match r {
            Some(v) => json_indices_of(text@) == Some(v@),
            None => json_indices_of(text@) is None,
        },
{
    serde_json::from_str(text).ok()
}

/// Calls [`serde_json::from_str`] for an object of strings; nothing where the
/// text is none. The result is a function of the text.
#[verifier::external_body]
pub(crate) fn json_strings(text: &str) -> (r: Option<Vec<(String, String)>>)
    ensures
        match r {
            Some(v) => json_strings_of(text@) == Some(crate::fragment::entries_map(v@)),
            None => json_strings_of(text@) is None,
        },
{
    let object: std::collections::BTreeMap<String, String> = serde_json::from_str(text).ok()?;
    Some(object.into_iter().collect())
}

/// Calls [`serde_json::to_string`] on an object of strings, whose keys are
/// distinct. What it writes, `serde_json` reads back as the same members. Nothing
/// is said of how it is written.
#[verifier::external_body]
pub(crate) fn write_json_strings(entries: Vec<(String, String)>) -> (r: String)
    requires
        crate::fragment::unique_keys(entries@),
    ensures
        json_strings_of(r@) == Some(crate::fragment::entries_map(entries@)),
{
    let object: std::collections::BTreeMap<String, String> = entries.into_iter().collect();
    serde_json::to_string(&object).unwrap_or_default()
}

} // verus!
