use vstd::prelude::*;

verus! {

/// Why a database failed to load or a query failed. Load-time failures
/// (header, size and node-region checks) abort the construction of a
/// [`crate::reader::Reader`]; query-time failures are reported per query and
/// leave the database usable.
#[derive(Clone, Copy, Debug, PartialEq, Eq, Structural)]
pub enum IpdbError {
    /// The buffer ends before the four header-length bytes, or before the
    /// declared end of the header.
    HeaderTooShort,
    /// The header bytes are not a JSON object carrying every required
    /// metadata field with the expected type.
    HeaderParse,
    /// The declared total size plus the header length does not equal the
    /// buffer length.
    SizeMismatch,
    /// The declared node count asks for more node bytes than the region
    /// after the header holds.
    TruncatedNodeRegion,
    /// A trie node read would fall past the end of the region after the
    /// header.
    NodeOutOfRange,
    /// The database does not carry addresses of the queried family.
    UnsupportedFamily,
    /// The metadata names no record fields.
    EmptyFields,
    /// The requested language is not in the metadata.
    UnknownLanguage,
    /// The address walks to an internal node: no record covers it.
    NotFound,
    /// A leaf pointer translates to an offset outside the data region.
    ResolveOutOfRange,
    /// A record's length prefix runs past the end of the data region.
    RecordOutOfRange,
    /// Record bytes are not well-formed UTF-8.
    InvalidUtf8,
}

} // verus!
