//! Sharded checkpoints: recognising a shard index (`*.index.json`).

use vstd::prelude::*;
use vstd::utf8::valid_utf8;
use crate::text::str_equals;

verus! {

/// The top-level entries of a JSON document whose root is an object, as
/// `serde_json` parses it: each key once, with whether its value is an
/// object. `None` when the bytes are not JSON or the root is no object.
pub uninterp spec fn json_top_entries(bytes: Seq<u8>) -> Option<Seq<(Seq<char>, bool)>>;

/// The views of top-level entries.
pub open spec fn entries_view(v: Seq<(String, bool)>) -> Seq<(Seq<char>, bool)> {
    Seq::new(v.len(), |i: int| (v[i].0@, v[i].1))
}

/// `serde_json::from_slice::<serde_json::Value>`; for an `Object` root, its
/// keys with `is_object()` of each value. Stated: the result is a function of
/// the bytes alone; what JSON syntax serde_json accepts, and the order of
/// the keys, are not.
#[verifier::external_body]
fn json_object_entries(bytes: &[u8]) -> (r: Option<Vec<(String, bool)>>)
    ensures
        match r {
            Some(v) => json_top_entries(bytes@) == Some(entries_view(v@)),
            None => json_top_entries(bytes@) is None,
        },
{
    match serde_json::from_slice::<serde_json::Value>(bytes) {
        Ok(serde_json::Value::Object(m)) => {
            let mut out = Vec::new();
            for (k, v) in m.iter() {
                out.push((k.clone(), v.is_object()));
            }
            Some(out)
        },
        _ => None,
    }
}

/// Some top-level entry named `key` holds an object.
pub open spec fn has_object_entry(es: Seq<(Seq<char>, bool)>, key: Seq<char>) -> bool {
    exists|i: int| 0 <= i < es.len() && es[i].0 == key && es[i].1
}

/// The document parses to an object whose `weight_map` is an object.
pub open spec fn json_weight_map_is_object(bytes: Seq<u8>) -> bool {
    match json_top_entries(bytes) {
        Some(es) => has_object_entry(es, "weight_map"@),
        None => false,
    }
}

/// Whether the entries have an object under `weight_map`.
fn weight_map_entry_is_object(es: &Vec<(String, bool)>) -> (r: bool)
    ensures
        r == has_object_entry(entries_view(es@), "weight_map"@),
{
    let ghost ev = entries_view(es@);
    let mut i: usize = 0;
    while i < es.len()
        invariant
            ev == entries_view(es@),
            i <= es@.len(),
            forall|j: int| 0 <= j < i ==> !(ev[j].0 == "weight_map"@ && ev[j].1),
        decreases es@.len() - i,
    {
        if es[i].1 && str_equals(es[i].0.as_str(), "weight_map") {
            assert(ev[i as int].0 == "weight_map"@ && ev[i as int].1);
            return true;
        }
        i = i + 1;
    }
    false
}

/// `std::str::from_utf8(bytes).is_ok()`: whether the bytes are valid UTF-8.
#[verifier::external_body]
fn is_utf8(bytes: &[u8]) -> (r: bool)
    ensures
        r == valid_utf8(bytes@),
{
    std::str::from_utf8(bytes).is_ok()
}

/// True when the bytes are a shard index: UTF-8 JSON text starting with `{`
/// whose `weight_map` is an object.
pub fn is_shard_index_bytes(bytes: &[u8]) -> (r: bool)
    ensures
        r == (bytes@.len() > 0 && bytes@[0] == 0x7b && valid_utf8(bytes@) && json_weight_map_is_object(bytes@)),
{
    if bytes.len() == 0 || bytes[0] != 0x7B {
        return false;
    }
    if !is_utf8(bytes) {
        return false;
    }
    match json_object_entries(bytes) {
        Some(es) => weight_map_entry_is_object(&es),
        None => false,
    }
}

} // verus!
