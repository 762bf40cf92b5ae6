//! The database reader: loads the header once, validates the declared sizes,
//! precomputes the embedded entry point for 4-octet lookups, and answers
//! queries over the immutable byte region after the header. A reader never
//! mutates after loading, so one lookup is a pure function of the database
//! bytes, the address and the language.

use vstd::arithmetic::div_mod::lemma_fundamental_div_mod;
use vstd::prelude::*;
use vstd::slice::{slice_subrange, slice_to_vec};

use crate::error::IpdbError;
use crate::metadata::{parse_header, spec_header_meta, spec_language_offset, Metadata};
use crate::record::{
    decode_columns_from, keys_distinct, lemma_project_keys, spec_decode_columns, spec_project,
    spec_resolve, spec_split_tab, split_tabs,
};
use crate::trie::{
    addr_bit, be32_at, read_child, spec_addr_bits, spec_be32, spec_read_node, spec_v4_root,
    spec_v4_root_from, spec_walk, WalkOutcome,
};

verus! {

broadcast use vstd::array::group_array_axioms;

/// An address as its raw big-endian octets: four for the 32-bit family,
/// sixteen for the 128-bit family.
pub enum Address {
    V4([u8; 4]),
    V6([u8; 16]),
}

impl Address {
    /// The raw octets, most significant first.
    pub open spec fn spec_octets(&self) -> Seq<u8> {
        match self {
            Address::V4(a) => a@,
            Address::V6(a) => a@,
        }
    }
}

/// A loaded database: the byte region after the header, the parsed metadata,
/// and the precomputed trie node at which 4-octet lookups start. The region
/// and the precomputed node are set once by [`Reader::new`] and never
/// mutated.
pub struct Reader {
    data: Vec<u8>,
    /// The parsed and validated header block.
    pub metadata: Metadata,
    v4offset: usize,
}

/// Bit 0 of the capability mask: 4-octet addresses are stored.
pub open spec fn spec_supports_v4(meta: Metadata) -> bool {
    meta.ip_version & 0x01 == 0x01
}

/// Bit 1 of the capability mask: 16-octet addresses are stored.
pub open spec fn spec_supports_v6(meta: Metadata) -> bool {
    meta.ip_version & 0x02 == 0x02
}

/// Where a walk starts: the precomputed embedding root for a 4-octet
/// address, the trie root otherwise.
pub open spec fn spec_start_node(v4root: int, octet_len: int) -> int {
    if octet_len == 4 {
        v4root
    } else {
        0
    }
}

/// What loading a whole buffer yields: the first failing check's error, or
/// the decoded metadata and the precomputed 4-octet entry point when every
/// check passes. In order: the buffer must hold the four length bytes and
/// the declared header behind them, the header bytes must decode
/// ([`spec_header_meta`]), the declared total size must equal the length of
/// the region after the header, the declared node region must fit inside it,
/// and the fixed 96-step embedding descent must stay inside it.
pub open spec fn spec_load(buffer: Seq<u8>) -> Result<(Metadata, int), IpdbError> {
    if buffer.len() < 4 {
        Err(IpdbError::HeaderTooShort)
    } else {
        let hl = spec_be32(buffer, 0) + 4;
        if hl > buffer.len() {
            Err(IpdbError::HeaderTooShort)
        } else {
            match spec_header_meta(buffer.subrange(4, hl)) {
                None => Err(IpdbError::HeaderParse),
                Some(m) => {
                    let d = buffer.skip(hl);
                    if m.total_size != d.len() {
                        Err(IpdbError::SizeMismatch)
                    } else if m.node_count * 8 > d.len() {
                        Err(IpdbError::TruncatedNodeRegion)
                    } else {
                        match spec_v4_root(d, m.node_count as int) {
                            None => Err(IpdbError::NodeOutOfRange),
                            Some(root) => Ok((m, root)),
                        }
                    }
                },
            }
        }
    }
}

/// What a lookup of `octets` in `language` yields over the region `d` with
/// metadata `meta` and precomputed entry point `v4root`: the record's
/// columns from the language's offset on, decoded from UTF-8, or the first
/// error on the way there. The field list must be non-empty, the language
/// known, the address family supported, the walk must end in a leaf and the
/// leaf in a record inside the region.
pub open spec fn spec_find(
    d: Seq<u8>,
    meta: Metadata,
    v4root: int,
    octets: Seq<u8>,
    language: Seq<char>,
) -> Result<Seq<Seq<char>>, IpdbError> {
    let nc = meta.node_count as int;
    if meta.fields@.len() == 0 {
        Err(IpdbError::EmptyFields)
    } else {
        match spec_language_offset(meta.languages@, language) {
            None => Err(IpdbError::UnknownLanguage),
            Some(off) => {
                if octets.len() == 4 && !spec_supports_v4(meta) {
                    Err(IpdbError::UnsupportedFamily)
                } else if octets.len() == 16 && !spec_supports_v6(meta) {
                    Err(IpdbError::UnsupportedFamily)
                } else {
                    match spec_walk(
                        d,
                        nc,
                        spec_start_node(v4root, octets.len() as int),
                        spec_addr_bits(octets),
                    ) {
                        WalkOutcome::NotFound => Err(IpdbError::NotFound),
                        WalkOutcome::Fail => Err(IpdbError::NodeOutOfRange),
                        WalkOutcome::Leaf(v) => match spec_resolve(d, nc, v) {
                            Err(e) => Err(e),
                            Ok(rec) => {
                                let cols = spec_split_tab(rec);
                                let rest = if off <= cols.len() {
                                    cols.skip(off as int)
                                } else {
                                    Seq::<Seq<u8>>::empty()
                                };
                                match spec_decode_columns(rest) {
                                    None => Err(IpdbError::InvalidUtf8),
                                    Some(vals) => Ok(vals),
                                }
                            },
                        },
                    }
                }
            },
        }
    }
}

/// The mapping a lookup emits: the columns from [`spec_find`] paired with
/// the field names by [`spec_project`], or the error.
pub open spec fn spec_find_map(
    d: Seq<u8>,
    meta: Metadata,
    v4root: int,
    octets: Seq<u8>,
    language: Seq<char>,
) -> Result<Seq<(Seq<char>, Seq<char>)>, IpdbError> {
    match spec_find(d, meta, v4root, octets, language) {
        Ok(vals) => Ok(spec_project(meta.fields.deep_view(), vals)),
        Err(e) => Err(e),
    }
}

/// A walk of the trie ends in a leaf pointer only above the node count.
pub proof fn lemma_walk_leaf_exceeds(d: Seq<u8>, nc: int, node: int, bits: Seq<bool>)
    ensures
        (spec_walk(d, nc, node, bits) matches WalkOutcome::Leaf(v) ==> v > nc),
    decreases bits.len(),
{
    if node <= nc && bits.len() > 0 {
        match spec_read_node(d, node, if bits[0] { 1int } else { 0int }) {
            Some(next) => lemma_walk_leaf_exceeds(d, nc, next, bits.drop_first()),
            None => {},
        }
    }
}

/// For every leaf pointer the trie walker can produce, resolution stays
/// inside the region: whatever offset and length the file's own bytes
/// dictate, either a bounds check fails with an error, or the record lies
/// wholly within `[0, d.len())` — never a read outside it.
pub proof fn lemma_walker_leaf_resolves_in_bounds(d: Seq<u8>, nc: int, node: int, bits: Seq<bool>)
    requires
        0 <= nc,
    ensures
        (match spec_walk(d, nc, node, bits) {
            WalkOutcome::Leaf(v) => match spec_resolve(d, nc, v) {
                Ok(rec) => {
                    let resolved = v - nc + nc * 8;
                    &&& 0 <= resolved
                    &&& resolved + 2 + rec.len() <= d.len()
                    &&& rec == d.subrange(resolved + 2, resolved + 2 + rec.len())
                },
                Err(_) => true,
            },
            _ => true,
        }),
{
    lemma_walk_leaf_exceeds(d, nc, node, bits);
    match spec_walk(d, nc, node, bits) {
        WalkOutcome::Leaf(v) => crate::record::lemma_resolve_in_bounds(d, nc, v),
        _ => {},
    }
}

impl Reader {
    /// The byte region after the header: the trie nodes followed by the
    /// record data.
    pub closed spec fn spec_data(&self) -> Seq<u8> {
        self.data@
    }

    /// The precomputed node at which 4-octet lookups start.
    pub closed spec fn spec_v4_root_node(&self) -> int {
        self.v4offset as int
    }

    /// The parsed header block, as contracts speak of it.
    pub closed spec fn spec_meta(&self) -> Metadata {
        self.metadata
    }

    /// The declared node region fits inside the region after the header.
    pub open spec fn wf(&self) -> bool {
        self.spec_meta().node_count * 8 <= self.spec_data().len()
    }

    /// Loads a database from its whole byte buffer: reads the four-byte
    /// big-endian header length, decodes the JSON header behind it,
    /// validates the declared total size against the buffer length and the
    /// declared node count against the region's length, and precomputes the
    /// entry point for 4-octet lookups by the fixed 96-step embedding
    /// descent. Succeeds exactly when [`spec_load`] does, with its metadata
    /// and entry point, and returns exactly the error it names otherwise.
    pub fn new(buffer: &[u8]) -> (r: Result<Reader, IpdbError>)
        ensures
            (match r {
                Ok(rd) => {
                    &&& spec_load(buffer@) == Ok::<(Metadata, int), IpdbError>(
                        (rd.spec_meta(), rd.spec_v4_root_node()),
                    )
                    &&& rd.spec_data() == buffer@.skip(spec_be32(buffer@, 0) + 4)
                    &&& rd.wf()
                },
                Err(e) => spec_load(buffer@) == Err::<(Metadata, int), IpdbError>(e),
            }),
    {
        if buffer.len() < 4 {
            return Err(IpdbError::HeaderTooShort);
        }
        let l = be32_at(buffer, 0) as usize;
        if l > buffer.len() - 4 {
            return Err(IpdbError::HeaderTooShort);
        }
        let meta_len = l + 4;
        let header = slice_subrange(buffer, 4, meta_len);
        let metadata = match parse_header(header) {
            Some(m) => m,
            None => {
                return Err(IpdbError::HeaderParse);
            },
        };
        if buffer.len() - meta_len != metadata.total_size {
            return Err(IpdbError::SizeMismatch);
        }
        let data = slice_to_vec(slice_subrange(buffer, meta_len, buffer.len()));
        assert(data@ =~= buffer@.skip(meta_len as int));
        proof {
            lemma_fundamental_div_mod(data@.len() as int, 8);
        }
        if metadata.node_count > data.len() / 8 {
            return Err(IpdbError::TruncatedNodeRegion);
        }
        let ghost nc = metadata.node_count as int;
        let mut node: usize = 0;
        let mut i: usize = 0;
        while i < 96 && node <= metadata.node_count
            invariant
                i <= 96,
                nc == metadata.node_count as int,
                buffer@.len() >= 4,
                spec_be32(buffer@, 0) + 4 <= buffer@.len(),
                spec_header_meta(buffer@.subrange(4, spec_be32(buffer@, 0) + 4)) == Some(metadata),
                metadata.total_size == buffer@.len() - (spec_be32(buffer@, 0) + 4),
                data@ == buffer@.skip(spec_be32(buffer@, 0) + 4),
                metadata.node_count * 8 <= data@.len(),
                spec_v4_root_from(data@, nc, node as int, i as int) == spec_v4_root(data@, nc),
            decreases 96 - i,
        {
            let idx: usize = if i < 80 {
                0
            } else {
                1
            };
            let next = match read_child(data.as_slice(), node, idx) {
                Ok(n) => n,
                Err(e) => {
                    proof {
                        assert(spec_v4_root_from(data@, nc, node as int, i as int) is None);
                        assert(spec_load(buffer@) == Err::<(Metadata, int), IpdbError>(
                            IpdbError::NodeOutOfRange,
                        ));
                    }
                    return Err(e);
                },
            };
            node = next;
            i = i + 1;
        }
        proof {
            assert(spec_v4_root(data@, nc) == Some(node as int));
            assert(spec_load(buffer@) == Ok::<(Metadata, int), IpdbError>(
                (metadata, node as int),
            ));
        }
        Ok(Reader { data, metadata, v4offset: node })
    }

    /// Child slot `index` of node `node`, or [`IpdbError::NodeOutOfRange`]
    /// when its four bytes do not fit before the region's end.
    fn read_node(&self, node: usize, index: usize) -> (r: Result<usize, IpdbError>)
        requires
            index <= 1,
        ensures
            (match spec_read_node(self.spec_data(), node as int, index as int) {
                Some(v) => r matches Ok(n) && n as int == v,
                None => r == Err::<usize, IpdbError>(IpdbError::NodeOutOfRange),
            }),
    {
        read_child(self.data.as_slice(), node, index)
    }

    /// Walks the trie over the address bits, starting at the embedding root
    /// for a 4-octet address and at node 0 otherwise: the leaf pointer found
    /// before the bits run out, [`IpdbError::NotFound`] when they do, or
    /// [`IpdbError::NodeOutOfRange`] when a node read falls past the
    /// region's end.
    fn find_node(&self, binary: &[u8]) -> (r: Result<usize, IpdbError>)
        requires
            binary@.len() * 8 <= usize::MAX,
        ensures
            (match spec_walk(
                self.spec_data(),
                self.spec_meta().node_count as int,
                spec_start_node(self.spec_v4_root_node(), binary@.len() as int),
                spec_addr_bits(binary@),
            ) {
                WalkOutcome::Leaf(v) => r matches Ok(n) && n as int == v,
                WalkOutcome::NotFound => r == Err::<usize, IpdbError>(IpdbError::NotFound),
                WalkOutcome::Fail => r == Err::<usize, IpdbError>(IpdbError::NodeOutOfRange),
            }),
    {
        let ghost d = self.spec_data();
        let ghost nc = self.spec_meta().node_count as int;
        let ghost bits = spec_addr_bits(binary@);
        let ghost start = spec_start_node(self.spec_v4_root_node(), binary@.len() as int);
        let bit = binary.len() * 8;
        let mut node: usize = if binary.len() == 4 {
            self.v4offset
        } else {
            0
        };
        assert(bits.skip(0) =~= bits);
        let mut i: usize = 0;
        while i < bit && node <= self.metadata.node_count
            invariant
                i <= bit,
                bit == binary@.len() * 8,
                d == self.spec_data(),
                nc == self.spec_meta().node_count as int,
                bits == spec_addr_bits(binary@),
                start == spec_start_node(self.spec_v4_root_node(), binary@.len() as int),
                spec_walk(d, nc, node as int, bits.skip(i as int)) == spec_walk(d, nc, start, bits),
            decreases bit - i,
        {
            assert(bits.skip(i as int)[0] == bits[i as int]);
            assert(bits.skip(i as int).drop_first() =~= bits.skip(i + 1));
            let b = addr_bit(binary, i);
            let idx: usize = if b {
                1
            } else {
                0
            };
            let next = match self.read_node(node, idx) {
                Ok(n) => n,
                Err(e) => {
                    proof {
                        assert(bits.skip(i as int).len() == bits.len() - i);
                        assert(spec_walk(d, nc, node as int, bits.skip(i as int))
                            == WalkOutcome::Fail);
                    }
                    return Err(e);
                },
            };
            node = next;
            i = i + 1;
        }
        if node > self.metadata.node_count {
            Ok(node)
        } else {
            assert(bits.skip(i as int).len() == 0);
            Err(IpdbError::NotFound)
        }
    }

    /// Translates the leaf pointer into the data region and copies the
    /// length-prefixed record bytes it names, bounds-checking the offset and
    /// the record's end against the region.
    fn resolve(&self, node: usize) -> (r: Result<Vec<u8>, IpdbError>)
        requires
            self.wf(),
            node > self.spec_meta().node_count,
        ensures
            (match (r, spec_resolve(
                self.spec_data(),
                self.spec_meta().node_count as int,
                node as int,
            )) {
                (Ok(v), Ok(s)) => v@ == s,
                (Err(e1), Err(e2)) => e1 == e2,
                _ => false,
            }),
    {
        let nc = self.metadata.node_count;
        let len = self.data.len();
        assert(nc * 8 <= len);
        let nc8 = nc * 8;
        let rel = node - nc;
        if rel >= len - nc8 {
            return Err(IpdbError::ResolveOutOfRange);
        }
        let resolved = rel + nc8;
        if len - resolved < 2 {
            return Err(IpdbError::RecordOutOfRange);
        }
        let n = (self.data[resolved] as usize) * 0x100 + (self.data[resolved + 1] as usize);
        if n > len - (resolved + 2) {
            return Err(IpdbError::RecordOutOfRange);
        }
        let s = slice_subrange(self.data.as_slice(), resolved + 2, resolved + 2 + n);
        Ok(slice_to_vec(s))
    }

    /// Whether the database stores 4-octet addresses: bit 0 of the
    /// capability mask.
    pub fn is_ipv4(&self) -> (r: bool)
        ensures
            r == spec_supports_v4(self.spec_meta()),
    {
        self.metadata.ip_version & 0x01 == 0x01
    }

    /// Whether the database stores 16-octet addresses: bit 1 of the
    /// capability mask.
    pub fn is_ipv6(&self) -> (r: bool)
        ensures
            r == spec_supports_v6(self.spec_meta()),
    {
        self.metadata.ip_version & 0x02 == 0x02
    }

    /// The record columns covering `addr` in `language`, from the language's
    /// column offset to the record's end.
    pub fn find(&self, addr: &Address, language: &str) -> (r: Result<Vec<String>, IpdbError>)
        requires
            self.wf(),
        ensures
            (match r {
                Ok(v) => spec_find(
                    self.spec_data(),
                    self.spec_meta(),
                    self.spec_v4_root_node(),
                    addr.spec_octets(),
                    language@,
                ) == Ok::<Seq<Seq<char>>, IpdbError>(v.deep_view()),
                Err(e) => spec_find(
                    self.spec_data(),
                    self.spec_meta(),
                    self.spec_v4_root_node(),
                    addr.spec_octets(),
                    language@,
                ) == Err::<Seq<Seq<char>>, IpdbError>(e),
            }),
    {
        if self.metadata.fields.len() == 0 {
            return Err(IpdbError::EmptyFields);
        }
        let off = match self.metadata.language_offset(language) {
            Some(o) => o,
            None => {
                return Err(IpdbError::UnknownLanguage);
            },
        };
        let walked = match addr {
            Address::V4(a) => {
                if !self.is_ipv4() {
                    return Err(IpdbError::UnsupportedFamily);
                }
                self.find_node(a.as_slice())
            },
            Address::V6(a) => {
                if !self.is_ipv6() {
                    return Err(IpdbError::UnsupportedFamily);
                }
                self.find_node(a.as_slice())
            },
        };
        let node = match walked {
            Ok(n) => n,
            Err(e) => {
                return Err(e);
            },
        };
        proof {
            lemma_walk_leaf_exceeds(
                self.spec_data(),
                self.spec_meta().node_count as int,
                spec_start_node(self.spec_v4_root_node(), addr.spec_octets().len() as int),
                spec_addr_bits(addr.spec_octets()),
            );
        }
        let rec = match self.resolve(node) {
            Ok(v) => v,
            Err(e) => {
                return Err(e);
            },
        };
        let cols = split_tabs(rec.as_slice());
        let start = if off <= cols.len() {
            off
        } else {
            cols.len()
        };
        assert(off > cols.deep_view().len() ==> cols.deep_view().skip(start as int)
            =~~= Seq::<Seq<u8>>::empty());
        match decode_columns_from(&cols, start) {
            Ok(vals) => Ok(vals),
            Err(e) => Err(e),
        }
    }

    /// The field mapping covering `addr` in `language`: each field name
    /// paired with its column value, a later pair of a repeated name
    /// replacing the earlier value, and every pair with an empty value
    /// dropped. The emitted keys are a subset of the metadata's field names,
    /// pairwise distinct, and no key maps to an empty value.
    pub fn find_to_map(&self, addr: &Address, language: &str) -> (r: Result<
        Vec<(String, String)>,
        IpdbError,
    >)
        requires
            self.wf(),
        ensures
            (match r {
                Ok(m) => spec_find_map(
                    self.spec_data(),
                    self.spec_meta(),
                    self.spec_v4_root_node(),
                    addr.spec_octets(),
                    language@,
                ) == Ok::<Seq<(Seq<char>, Seq<char>)>, IpdbError>(m.deep_view()),
                Err(e) => spec_find_map(
                    self.spec_data(),
                    self.spec_meta(),
                    self.spec_v4_root_node(),
                    addr.spec_octets(),
                    language@,
                ) == Err::<Seq<(Seq<char>, Seq<char>)>, IpdbError>(e),
            }),
            (r matches Ok(m) ==> keys_distinct(m.deep_view())),
            (r matches Ok(m) ==> forall|i: int|
                0 <= i < m.deep_view().len() ==> self.spec_meta().fields.deep_view().contains(
                    #[trigger] m.deep_view()[i].0,
                ) && m.deep_view()[i].1.len() != 0),
    {
        let values = match self.find(addr, language) {
            Ok(v) => v,
            Err(e) => {
                return Err(e);
            },
        };
        let m = crate::record::project(&self.metadata.fields, &values);
        proof {
            lemma_project_keys(self.metadata.fields.deep_view(), values.deep_view());
        }
        Ok(m)
    }
}

/// One database answers one query the same way every time: the outcome is a
/// pure function of the database bytes, the metadata, the entry point, the
/// address octets and the language, with no hidden state to mutate between
/// calls.
pub proof fn lemma_find_deterministic(
    d: Seq<u8>,
    meta: Metadata,
    v4root: int,
    octets: Seq<u8>,
    language: Seq<char>,
    r1: Result<Seq<Seq<char>>, IpdbError>,
    r2: Result<Seq<Seq<char>>, IpdbError>,
)
    requires
        r1 == spec_find(d, meta, v4root, octets, language),
        r2 == spec_find(d, meta, v4root, octets, language),
    ensures
        r1 == r2,
{
}

/// The emitted field mapping is the same on every call of one query: what
/// [`Reader::find_to_map`] returns is pinned to [`spec_find_map`].
pub proof fn lemma_find_to_map_deterministic(
    d: Seq<u8>,
    meta: Metadata,
    v4root: int,
    octets: Seq<u8>,
    language: Seq<char>,
    r1: Result<Seq<(Seq<char>, Seq<char>)>, IpdbError>,
    r2: Result<Seq<(Seq<char>, Seq<char>)>, IpdbError>,
)
    requires
        r1 == spec_find_map(d, meta, v4root, octets, language),
        r2 == spec_find_map(d, meta, v4root, octets, language),
    ensures
        r1 == r2,
{
}

/// With a non-empty field list and a known language, querying an address
/// family the capability mask does not carry fails with the capability
/// error, before the walk is consulted: no part of the trie appears in the
/// outcome. The two leading checks are excluded by the premises because the
/// lookup reports an empty field list or an unknown language first.
pub proof fn lemma_unsupported_family(
    d: Seq<u8>,
    meta: Metadata,
    v4root: int,
    octets: Seq<u8>,
    language: Seq<char>,
)
    requires
        meta.fields@.len() > 0,
        spec_language_offset(meta.languages@, language) is Some,
        (octets.len() == 4 && !spec_supports_v4(meta)) || (octets.len() == 16
            && !spec_supports_v6(meta)),
    ensures
        spec_find(d, meta, v4root, octets, language) == Err::<Seq<Seq<char>>, IpdbError>(
            IpdbError::UnsupportedFamily,
        ),
{
}

} // verus!
