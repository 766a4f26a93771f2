//! Calls into code that is not verified here, each behind a contract.

use indexmap::IndexMap;
use vstd::prelude::*;

verus! {

/// `std::string::String::push` appends one character.
pub assume_specification[ String::push ](s: &mut String, c: char)
    ensures
        final(s)@ == old(s)@.push(c),
;

/// `std::slice::from_ref` gives a slice of length 1 that holds what the reference
/// points to.
pub assume_specification<T>[ core::slice::from_ref::<T> ](s: &T) -> (r: &[T])
    ensures
        r@ == seq![*s],
;

/// The span of time that `std::time::Duration::from_secs` makes of a number of
/// seconds.
pub uninterp spec fn seconds(n: u64) -> core::time::Duration;

/// `std::time::Duration::from_secs` gives [`seconds`] of its argument.
pub assume_specification[ core::time::Duration::from_secs ](secs: u64) -> (r: core::time::Duration)
    ensures
        r == seconds(secs),
;

/// The text that `std::string::String::from_utf8_lossy` makes of `bytes`.
pub uninterp spec fn lossy_text(bytes: Seq<u8>) -> Seq<char>;

/// `std::string::String::from_utf8_lossy` gives [`lossy_text`] of its argument,
/// which is the text itself where the bytes are UTF-8.
#[verifier::external_body]
pub(crate) fn from_utf8_lossy(bytes: &[u8]) -> (r: String)
    ensures
        r@ == lossy_text(bytes@),
        vstd::utf8::valid_utf8(bytes@) ==> r@ == vstd::utf8::decode_utf8(bytes@),
{
    String::from_utf8_lossy(bytes).into_owned()
}

/// What the capture groups of the leftmost match of `pattern` in `text` hold:
/// the whole match first, then the groups in order, `None` for a group that
/// took no part. `None` where nothing matches or the pattern is not one.
pub uninterp spec fn regex_groups(pattern: Seq<char>, text: Seq<char>) -> Option<
    Seq<Option<Seq<char>>>,
>;

/// [`regex_groups`] of every match of `pattern` in `text`, left to right and
/// without overlap.
pub uninterp spec fn regex_all_groups(pattern: Seq<char>, text: Seq<char>) -> Seq<
    Seq<Option<Seq<char>>>,
>;

/// The contents of a group list as character sequences.
pub open spec fn group_views(groups: Seq<Option<String>>) -> Seq<Option<Seq<char>>> {
    Seq::new(
        groups.len(),
        |i: int|
            match groups[i] {
                Some(s) => Some(s@),
                None => None,
            },
    )
}

/// `regex::Regex::new` and then `regex::Regex::captures`: the groups of the
/// leftmost match are [`regex_groups`] of the two strings.
#[verifier::external_body]
pub(crate) fn regex_captures(pattern: &str, text: &str) -> (r: Option<Vec<Option<String>>>)
    ensures
        r is Some == regex_groups(pattern@, text@) is Some,
        r is Some ==> group_views(r->Some_0@) == regex_groups(pattern@, text@)->Some_0,
{
    let re = regex::Regex::new(pattern).ok()?;
    let caps = re.captures(text)?;
    Some(caps.iter().map(|g| g.map(|m| m.as_str().to_string())).collect())
}

/// `regex::Regex::new` and then `regex::Regex::captures_iter`: the groups of
/// each match are [`regex_all_groups`] of the two strings.
#[verifier::external_body]
pub(crate) fn regex_captures_iter(pattern: &str, text: &str) -> (r: Vec<Vec<Option<String>>>)
    ensures
        r@.len() == regex_all_groups(pattern@, text@).len(),
        forall|i: int|
            0 <= i < r@.len() ==> group_views((#[trigger] r@[i])@) == regex_all_groups(
                pattern@,
                text@,
            )[i],
{
    match regex::Regex::new(pattern) {
        Ok(re) => re.captures_iter(text)
            .map(|c| c.iter().map(|g| g.map(|m| m.as_str().to_string())).collect())
            .collect(),
        Err(_) => Vec::new(),
    }
}

/// `str::to_lowercase` of a string.
pub uninterp spec fn lowercase(s: Seq<char>) -> Seq<char>;

/// `str::to_lowercase` maps a string by the Unicode lower-case mapping, which
/// depends on the string alone.
#[verifier::external_body]
pub(crate) fn to_lowercase(s: &str) -> (r: String)
    ensures
        r@ == lowercase(s@),
{
    s.to_lowercase()
}

/// What a member of a JSON object is, one level deep.
#[derive(Debug, Clone, PartialEq)]
pub enum JsonMember {
    /// An object: its keys in the order in which they are walked, each with its
    /// value as compact JSON.
    Object(Vec<(String, String)>),
    /// An array: for each element the string that it is, if it is one.
    Array(Vec<Option<String>>),
    /// Anything else.
    Other,
}

/// What a [`JsonMember`] says.
#[verifier::ext_equal]
pub enum MemberView {
    Object(Seq<(Seq<char>, Seq<char>)>),
    Array(Seq<Option<Seq<char>>>),
    Other,
}

impl View for JsonMember {
    type V = MemberView;

    open spec fn view(&self) -> MemberView {
        match self {
            JsonMember::Object(o) => MemberView::Object(
                o@.map_values(|e: (String, String)| (e.0@, e.1@)),
            ),
            JsonMember::Array(a) => MemberView::Array(group_views(a@)),
            JsonMember::Other => MemberView::Other,
        }
    }
}

/// What `serde_json` finds under `key` in the JSON object that `text` is;
/// `None` where `text` is no JSON object or has no such key.
pub uninterp spec fn json_member_of(text: Seq<char>, key: Seq<char>) -> Option<MemberView>;

/// `serde_json::from_str` into a `serde_json::Value`, and then
/// `serde_json::Map::get`: what stands under the key is [`json_member_of`] of
/// the two strings. Nested values are handed out by `Value`'s `to_string`.
#[verifier::external_body]
pub(crate) fn json_member(text: &str, key: &str) -> (r: Option<JsonMember>)
    ensures
        r is Some == json_member_of(text@, key@) is Some,
        r is Some ==> r->Some_0@ == json_member_of(text@, key@)->Some_0,
{
    let doc: serde_json::Value = serde_json::from_str(text).ok()?;
    Some(match doc.as_object()?.get(key)? {
        serde_json::Value::Object(o) => JsonMember::Object(
            o.iter().map(|(k, v)| (k.clone(), v.to_string())).collect(),
        ),
        serde_json::Value::Array(a) => JsonMember::Array(
            a.iter().map(|v| v.as_str().map(|s| s.to_string())).collect(),
        ),
        _ => JsonMember::Other,
    })
}

/// `indexmap::IndexMap`, a hash map that keeps its insertion order.
#[verifier::external_type_specification]
#[verifier::external_body]
#[verifier::reject_recursive_types(K)]
#[verifier::reject_recursive_types(V)]
#[verifier::reject_recursive_types(S)]
pub struct ExIndexMap<K, V, S>(indexmap::IndexMap<K, V, S>);

/// The entries of the map in insertion order.
pub uninterp spec fn index_entries(m: IndexMap<String, Vec<usize>>) -> Seq<(Seq<char>, Seq<usize>)>;

/// The position of the first entry with key `key`; the length if there is none.
pub open spec fn entry_position(entries: Seq<(Seq<char>, Seq<usize>)>, key: Seq<char>) -> int
    decreases entries.len(),
{
    if entries.len() == 0 {
        0
    } else if entries[0].0 == key {
        0
    } else {
        1 + entry_position(entries.drop_first(), key)
    }
}

/// The entries once `item` has been added under `key`: at the end of that
/// entry's items, or in a new last entry.
pub open spec fn with_item(
    entries: Seq<(Seq<char>, Seq<usize>)>,
    key: Seq<char>,
    item: usize,
) -> Seq<(Seq<char>, Seq<usize>)> {
    let at = entry_position(entries, key);
    if at < entries.len() {
        entries.update(at, (key, entries[at].1.push(item)))
    } else {
        entries.push((key, seq![item]))
    }
}

/// `indexmap::IndexMap::new` makes a map without entries.
#[verifier::external_body]
pub(crate) fn index_map_new() -> (m: IndexMap<String, Vec<usize>>)
    ensures
        index_entries(m) == Seq::<(Seq<char>, Seq<usize>)>::empty(),
{
    IndexMap::new()
}

/// `indexmap::IndexMap::entry` with `or_default`: the entry of the key is
/// found, or appended empty behind the others; `item` is pushed onto its value.
#[verifier::external_body]
pub(crate) fn index_map_push(m: &mut IndexMap<String, Vec<usize>>, key: &str, item: usize)
    ensures
        index_entries(*final(m)) == with_item(index_entries(*old(m)), key@, item),
{
    m.entry(key.to_string()).or_default().push(item);
}

/// `indexmap::IndexMap`'s `into_iter` hands out the entries in insertion order.
#[verifier::external_body]
pub(crate) fn index_map_into_vec(m: IndexMap<String, Vec<usize>>) -> (r: Vec<(String, Vec<usize>)>)
    ensures
        r@.len() == index_entries(m).len(),
        forall|i: int|
            0 <= i < r@.len() ==> (#[trigger] r@[i]).0@ == index_entries(m)[i].0 && r@[i].1@
                == index_entries(m)[i].1,
{
    m.into_iter().collect()
}

} // verus!
