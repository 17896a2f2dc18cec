//! Calls into crc32fast, serde_json and std's UTF-8 decoding.
use vstd::prelude::*;
use vstd::utf8::{valid_utf8, decode_utf8};
use std::collections::BTreeMap;

verus! {

/// A metadata object: pairs of key and value.
pub type Metadata = Vec<(String, String)>;

/// The CRC-32 (IEEE) checksum of some bytes.
pub uninterp spec fn crc32_of(b: Seq<u8>) -> u32;

/// The JSON object text that serde_json writes for a string-to-string map
/// built from these pairs, or `None` where it reports an error.
pub uninterp spec fn json_object_of(m: Seq<(Seq<char>, Seq<char>)>) -> Option<Seq<u8>>;

/// The pairs of the string-to-string JSON object that serde_json reads from
/// these bytes, in key order, or `None` where they are no such object.
pub uninterp spec fn json_object_from(b: Seq<u8>) -> Option<Seq<(Seq<char>, Seq<char>)>>;

/// Relies on crc32fast::hash: the CRC-32 of the bytes, a function of them alone.
#[verifier::external_body]
pub(crate) fn checksum(b: &[u8]) -> (r: u32)
    ensures
        r == crc32_of(b@),
{
    crc32fast::hash(b)
}

/// Relies on serde_json::to_vec on a `BTreeMap<String, String>`: the JSON
/// text of the map, a function of the pairs alone.
#[verifier::external_body]
pub(crate) fn metadata_json(m: &Metadata) -> (r: Option<Vec<u8>>)
    ensures
        match r {
            Some(b) => json_object_of(m.deep_view()) == Some(b@),
            None => json_object_of(m.deep_view()) is None,
        },
{
    let map: BTreeMap<String, String> = m.iter().cloned().collect();
    serde_json::to_vec(&map).ok()
}

/// Relies on serde_json::from_slice into a `BTreeMap<String, String>`: the
/// object's pairs, a function of the bytes alone.
#[verifier::external_body]
pub(crate) fn metadata_from_json(b: &[u8]) -> (r: Option<Metadata>)
    ensures
        r.deep_view() == json_object_from(b@),
{
    let map: BTreeMap<String, String> = serde_json::from_slice(b).ok()?;
    Some(map.into_iter().collect())
}

/// Relies on String::from_utf8: it succeeds exactly on valid UTF-8 and then
/// holds the characters that the bytes encode.
#[verifier::external_body]
pub(crate) fn utf8_text(b: &[u8]) -> (r: Option<String>)
    ensures
        r is Some == valid_utf8(b@),
        r matches Some(s) ==> s@ == decode_utf8(b@),
{
    String::from_utf8(b.to_vec()).ok()
}

} // verus!
