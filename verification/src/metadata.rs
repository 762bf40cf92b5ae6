//! The typed header of a database: a four-byte big-endian length followed by
//! that many bytes of JSON. Every required member must be present with the
//! expected kind; unknown members are ignored. The JSON decoding itself is
//! serde_json's; each required member has a named, trusted extractor, and
//! [`spec_header_meta`] assembles their results, so what a load yields is a
//! function of the header bytes alone.

use vstd::prelude::*;

verus! {

/// The metadata block parsed from the JSON header.
pub struct Metadata {
    /// Format or build identifier; informational only.
    pub build: i32,
    /// Capability bitmask: bit 0 set means 4-octet addresses are stored,
    /// bit 1 set means 16-octet addresses are.
    pub ip_version: i32,
    /// Number of fixed-size trie nodes at the start of the region after the
    /// header.
    pub node_count: usize,
    /// Language code to starting column offset. A well-formed header binds
    /// each code once; the first binding wins if a corrupt one repeats it.
    pub languages: Vec<(String, usize)>,
    /// Ordered record field names: the column order, and the number of
    /// columns each language's run occupies.
    pub fields: Vec<String>,
    /// Declared length of everything after the header, validated against the
    /// buffer length at load time.
    pub total_size: usize,
}

/// The `build` member of the bytes decoded as a JSON object: present, an
/// integer, and in `i32` range, else `None`.
pub uninterp spec fn spec_header_build(bytes: Seq<u8>) -> Option<i32>;

/// The `ip_version` member, under the same conditions.
pub uninterp spec fn spec_header_ip_version(bytes: Seq<u8>) -> Option<i32>;

/// The `node_count` member: present, an unsigned integer fitting `usize`.
pub uninterp spec fn spec_header_node_count(bytes: Seq<u8>) -> Option<usize>;

/// The `total_size` member: present, an unsigned integer fitting `usize`.
pub uninterp spec fn spec_header_total_size(bytes: Seq<u8>) -> Option<usize>;

/// The `languages` member: present and an object whose every value is an
/// unsigned integer fitting `usize`; its bindings in the decoder's
/// deterministic order.
pub uninterp spec fn spec_header_languages(bytes: Seq<u8>) -> Option<Vec<(String, usize)>>;

/// The `fields` member: present and an array of strings, in order.
pub uninterp spec fn spec_header_fields(bytes: Seq<u8>) -> Option<Vec<String>>;

/// What decoding the header bytes yields: the metadata when every required
/// member is present with the expected kind and in range, `None` otherwise —
/// a function of the bytes alone. What it yields on given bytes is fixed
/// only by the trusted extractors below, so verified code learns a header's
/// content by calling [`parse_header`].
pub open spec fn spec_header_meta(bytes: Seq<u8>) -> Option<Metadata> {
    match (spec_header_build(bytes), spec_header_ip_version(bytes)) {
        (Some(build), Some(ip_version)) => match (
            spec_header_node_count(bytes),
            spec_header_total_size(bytes),
        ) {
            (Some(node_count), Some(total_size)) => match (
                spec_header_languages(bytes),
                spec_header_fields(bytes),
            ) {
                (Some(languages), Some(fields)) => Some(
                    Metadata { build, ip_version, node_count, languages, fields, total_size },
                ),
                _ => None,
            },
            _ => None,
        },
        _ => None,
    }
}

/// Relies on `serde_json::from_slice::<Value>`, `Value::get` and
/// `Value::as_i64`: the `build` member as an `i32`, as serde's derived
/// deserializer for an `i32` field read it.
#[verifier::external_body]
fn header_build(bytes: &[u8]) -> (r: Option<i32>)
    ensures
        r == spec_header_build(bytes@),
{
    let v: serde_json::Value = serde_json::from_slice(bytes).ok()?;
    i32::try_from(v.get("build")?.as_i64()?).ok()
}

/// Relies on `serde_json::from_slice::<Value>`, `Value::get` and
/// `Value::as_i64`: the `ip_version` member as an `i32`.
#[verifier::external_body]
fn header_ip_version(bytes: &[u8]) -> (r: Option<i32>)
    ensures
        r == spec_header_ip_version(bytes@),
{
    let v: serde_json::Value = serde_json::from_slice(bytes).ok()?;
    i32::try_from(v.get("ip_version")?.as_i64()?).ok()
}

/// Relies on `serde_json::from_slice::<Value>`, `Value::get` and
/// `Value::as_u64`: the `node_count` member as a `usize`.
#[verifier::external_body]
fn header_node_count(bytes: &[u8]) -> (r: Option<usize>)
    ensures
        r == spec_header_node_count(bytes@),
{
    let v: serde_json::Value = serde_json::from_slice(bytes).ok()?;
    usize::try_from(v.get("node_count")?.as_u64()?).ok()
}

/// Relies on `serde_json::from_slice::<Value>`, `Value::get` and
/// `Value::as_u64`: the `total_size` member as a `usize`.
#[verifier::external_body]
fn header_total_size(bytes: &[u8]) -> (r: Option<usize>)
    ensures
        r == spec_header_total_size(bytes@),
{
    let v: serde_json::Value = serde_json::from_slice(bytes).ok()?;
    usize::try_from(v.get("total_size")?.as_u64()?).ok()
}

/// Relies on `serde_json::from_slice::<Value>`, `Value::get`,
/// `Value::as_object`, `Map::iter` and `Value::as_u64`: the `languages`
/// object's bindings, each value as a `usize`, in the BTreeMap-backed map's
/// deterministic key order.
#[verifier::external_body]
fn header_languages(bytes: &[u8]) -> (r: Option<Vec<(String, usize)>>)
    ensures
        r == spec_header_languages(bytes@),
{
    let v: serde_json::Value = serde_json::from_slice(bytes).ok()?;
    let mut out = Vec::new();
    for (k, x) in v.get("languages")?.as_object()? {
        out.push((k.clone(), usize::try_from(x.as_u64()?).ok()?));
    }
    Some(out)
}

/// Relies on `serde_json::from_slice::<Value>`, `Value::get`,
/// `Value::as_array` and `Value::as_str`: the `fields` array's strings, in
/// order.
#[verifier::external_body]
fn header_fields(bytes: &[u8]) -> (r: Option<Vec<String>>)
    ensures
        r == spec_header_fields(bytes@),
{
    let v: serde_json::Value = serde_json::from_slice(bytes).ok()?;
    let mut out = Vec::new();
    for x in v.get("fields")?.as_array()? {
        out.push(x.as_str()?.to_string());
    }
    Some(out)
}

/// Decodes the header bytes into the metadata, exactly
/// [`spec_header_meta`]: every required member present with the expected
/// kind and in range, else `None`.
pub(crate) fn parse_header(bytes: &[u8]) -> (r: Option<Metadata>)
    ensures
        r == spec_header_meta(bytes@),
{
    let build = match header_build(bytes) {
        Some(x) => x,
        None => {
            return None;
        },
    };
    let ip_version = match header_ip_version(bytes) {
        Some(x) => x,
        None => {
            return None;
        },
    };
    let node_count = match header_node_count(bytes) {
        Some(x) => x,
        None => {
            return None;
        },
    };
    let total_size = match header_total_size(bytes) {
        Some(x) => x,
        None => {
            return None;
        },
    };
    let languages = match header_languages(bytes) {
        Some(x) => x,
        None => {
            return None;
        },
    };
    let fields = match header_fields(bytes) {
        Some(x) => x,
        None => {
            return None;
        },
    };
    Some(Metadata { build, ip_version, node_count, languages, fields, total_size })
}

/// The column offset bound to `code`: the first binding with that key, or
/// `None` when no binding carries it.
pub open spec fn spec_language_offset(langs: Seq<(String, usize)>, code: Seq<char>) -> Option<
    usize,
>
    decreases langs.len(),
{
    if langs.len() == 0 {
        None
    } else if langs[0].0@ == code {
        Some(langs[0].1)
    } else {
        spec_language_offset(langs.drop_first(), code)
    }
}

impl Metadata {
    /// The column offset at which `code`'s field values start, or `None`
    /// when the header does not know the language.
    pub fn language_offset(&self, code: &str) -> (r: Option<usize>)
        ensures
            r == spec_language_offset(self.languages@, code@),
    {
        let code_string = code.to_owned();
        assert(self.languages@.skip(0) =~= self.languages@);
        let mut i: usize = 0;
        while i < self.languages.len()
            invariant
                i <= self.languages@.len(),
                code_string@ == code@,
                spec_language_offset(self.languages@.skip(i as int), code@)
                    == spec_language_offset(self.languages@, code@),
            decreases self.languages@.len() - i,
        {
            assert(self.languages@.skip(i as int)[0] == self.languages@[i as int]);
            if self.languages[i].0 == code_string {
                return Some(self.languages[i].1);
            }
            assert(self.languages@.skip(i as int).drop_first() =~= self.languages@.skip(i + 1));
            i = i + 1;
        }
        None
    }
}

} // verus!
