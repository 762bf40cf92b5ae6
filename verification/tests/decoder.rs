use ipdb::error::IpdbError;
use ipdb::reader::{Address, Reader};

/// Length-prefixed record bytes for one UTF-8 record.
fn rec(s: &str) -> Vec<u8> {
    let mut v: Vec<u8> = Vec::new();
    v.extend_from_slice(&(s.len() as u16).to_be_bytes());
    v.extend_from_slice(s.as_bytes());
    v
}

/// A JSON header with the given members.
fn header_json(
    ip_version: i32,
    node_count: usize,
    languages: &[(&str, usize)],
    fields: &[&str],
    total_size: usize,
) -> String {
    let mut langs = String::new();
    for (i, (code, off)) in languages.iter().enumerate() {
        if i > 0 {
            langs.push(',');
        }
        langs.push_str(&format!("\"{}\":{}", code, off));
    }
    let mut flds = String::new();
    for (i, f) in fields.iter().enumerate() {
        if i > 0 {
            flds.push(',');
        }
        flds.push_str(&format!("\"{}\"", f));
    }
    format!(
        "{{\"build\":1,\"ip_version\":{},\"node_count\":{},\"languages\":{{{}}},\"fields\":[{}],\"total_size\":{}}}",
        ip_version, node_count, langs, flds, total_size
    )
}

/// The whole buffer: four length bytes, the JSON header, the region.
fn assemble(json: &str, data: &[u8]) -> Vec<u8> {
    let mut buf: Vec<u8> = Vec::new();
    buf.extend_from_slice(&(json.len() as u32).to_be_bytes());
    buf.extend_from_slice(json.as_bytes());
    buf.extend_from_slice(data);
    buf
}

/// The region after the header: eight bytes per node, then the record tail.
fn data_region(nodes: &[(u32, u32)], tail: &[u8]) -> Vec<u8> {
    let mut d: Vec<u8> = Vec::new();
    for (a, b) in nodes {
        d.extend_from_slice(&a.to_be_bytes());
        d.extend_from_slice(&b.to_be_bytes());
    }
    d.extend_from_slice(tail);
    d
}

fn make_db(
    ip_version: i32,
    node_count: usize,
    languages: &[(&str, usize)],
    fields: &[&str],
    nodes: &[(u32, u32)],
    tail: &[u8],
) -> Vec<u8> {
    let data = data_region(nodes, tail);
    let json = header_json(ip_version, node_count, languages, fields, data.len());
    assemble(&json, &data)
}

/// A one-node database whose both children point at the same single record,
/// reachable by any address of a supported family.
fn one_record_db(
    ip_version: i32,
    languages: &[(&str, usize)],
    fields: &[&str],
    record: &[u8],
) -> Vec<u8> {
    // Node count 1: leaf pointer 2 translates to relative offset 1, which is
    // byte 9 of the region (one pad byte after the 8 node bytes).
    let mut tail: Vec<u8> = vec![0];
    tail.extend_from_slice(record);
    make_db(ip_version, 1, languages, fields, &[(2, 2)], &tail)
}

fn v6(bytes: [u8; 16]) -> Address {
    Address::V6(bytes)
}

fn v4(bytes: [u8; 4]) -> Address {
    Address::V4(bytes)
}

fn pairs(entries: &[(&str, &str)]) -> Vec<(String, String)> {
    entries.iter().map(|(k, v)| (k.to_string(), v.to_string())).collect()
}

/// Two leaf records behind a 128-bit chain: the all-zero address reaches one,
/// the address ending in a one bit reaches the other, and any address leaving
/// the chain early is caught by a self-looping dead node and not found.
fn two_leaf_v6_db() -> Vec<u8> {
    // Nodes 0..=126 form the zero chain, node 127 is the fork, node 128 is
    // the dead node; node count 129, so the records start after byte 1032.
    let nc: u32 = 129;
    let dead: u32 = 128;
    let mut nodes: Vec<(u32, u32)> = Vec::new();
    for i in 0..127u32 {
        nodes.push((i + 1, dead));
    }
    let rec_a = rec("Aland");
    let leaf_a: u32 = nc + 1;
    let leaf_b: u32 = nc + 1 + rec_a.len() as u32;
    nodes.push((leaf_a, leaf_b));
    nodes.push((dead, dead));
    let mut tail: Vec<u8> = vec![0];
    tail.extend_from_slice(&rec_a);
    tail.extend_from_slice(&rec("Borland"));
    make_db(2, nc as usize, &[("EN", 0)], &["country"], &nodes, &tail)
}

#[test]
fn round_trip_two_records() {
    let buf = two_leaf_v6_db();
    let reader = Reader::new(&buf).unwrap();
    let a = reader.find_to_map(&v6([0; 16]), "EN").unwrap();
    assert_eq!(a, pairs(&[("country", "Aland")]));
    let mut last_one = [0u8; 16];
    last_one[15] = 1;
    let b = reader.find_to_map(&v6(last_one), "EN").unwrap();
    assert_eq!(b, pairs(&[("country", "Borland")]));
}

#[test]
fn other_addresses_not_found() {
    let buf = two_leaf_v6_db();
    let reader = Reader::new(&buf).unwrap();
    let mut first_one = [0u8; 16];
    first_one[0] = 0x80;
    assert_eq!(reader.find_to_map(&v6(first_one), "EN"), Err(IpdbError::NotFound));
    let mut mid_one = [0u8; 16];
    mid_one[7] = 0x10;
    assert_eq!(reader.find_to_map(&v6(mid_one), "EN"), Err(IpdbError::NotFound));
}

#[test]
fn lookup_is_idempotent() {
    let buf = two_leaf_v6_db();
    let reader = Reader::new(&buf).unwrap();
    let first = reader.find_to_map(&v6([0; 16]), "EN");
    let second = reader.find_to_map(&v6([0; 16]), "EN");
    assert_eq!(first, second);
    let third = reader.find(&v6([0; 16]), "EN");
    let fourth = reader.find(&v6([0; 16]), "EN");
    assert_eq!(third, fourth);
}

#[test]
fn unknown_language_fails() {
    let buf = two_leaf_v6_db();
    let reader = Reader::new(&buf).unwrap();
    assert_eq!(reader.find_to_map(&v6([0; 16]), "XX"), Err(IpdbError::UnknownLanguage));
}

#[test]
fn language_offset_probe() {
    let buf = two_leaf_v6_db();
    let reader = Reader::new(&buf).unwrap();
    assert_eq!(reader.metadata.language_offset("EN"), Some(0));
    assert_eq!(reader.metadata.language_offset("XX"), None);
}

#[test]
fn metadata_members_are_parsed() {
    let buf = two_leaf_v6_db();
    let reader = Reader::new(&buf).unwrap();
    assert_eq!(reader.metadata.build, 1);
    assert_eq!(reader.metadata.ip_version, 2);
    assert_eq!(reader.metadata.node_count, 129);
    assert_eq!(reader.metadata.languages, vec![("EN".to_string(), 0)]);
    assert_eq!(reader.metadata.fields, vec!["country".to_string()]);
    // 129 nodes of 8 bytes, one pad byte, then records of 7 and 9 bytes.
    assert_eq!(reader.metadata.total_size, 129 * 8 + 1 + 7 + 9);
}

#[test]
fn capability_error_before_traversal() {
    let buf = two_leaf_v6_db();
    let reader = Reader::new(&buf).unwrap();
    assert!(!reader.is_ipv4());
    assert!(reader.is_ipv6());
    // The database stores only 16-octet addresses, so a 4-octet query fails
    // on the capability mask even though its embedding root was precomputed.
    assert_eq!(reader.find_to_map(&v4([0, 0, 0, 0]), "EN"), Err(IpdbError::UnsupportedFamily));
}

#[test]
fn ipv6_query_against_ipv4_only_db() {
    let buf = one_record_db(1, &[("EN", 0)], &["country"], &rec("x"));
    let reader = Reader::new(&buf).unwrap();
    assert!(reader.is_ipv4());
    assert!(!reader.is_ipv6());
    assert_eq!(reader.find_to_map(&v6([0; 16]), "EN"), Err(IpdbError::UnsupportedFamily));
}

/// The 4-octet lookup must start at the node reached by the fixed 96-step
/// embedding descent, not at node 0: a trie where the two starting points
/// give different records.
#[test]
fn ipv4_lookup_starts_at_embedding_root() {
    // Nodes 0..=33 are the zero chain (node 33 loops to itself on a zero
    // bit), node 34 is the embedding root. Every zero-chain node's one-child
    // is a leaf for one record; the root's zero-child is a leaf for another.
    let nc: u32 = 35;
    let rec_x = rec("via-root");
    let leaf_x: u32 = nc + 1;
    let leaf_y: u32 = nc + 1 + rec_x.len() as u32;
    let mut nodes: Vec<(u32, u32)> = Vec::new();
    for i in 0..33u32 {
        nodes.push((i + 1, leaf_y));
    }
    nodes.push((33, 34));
    nodes.push((leaf_x, 34));
    let mut tail: Vec<u8> = vec![0];
    tail.extend_from_slice(&rec_x);
    tail.extend_from_slice(&rec("via-node-zero"));
    let buf = make_db(1, nc as usize, &[("EN", 0)], &["country"], &nodes, &tail);
    let reader = Reader::new(&buf).unwrap();
    // Walking the same 32 bits from node 0 would reach the other record.
    let got = reader.find_to_map(&v4([0, 0, 0, 1]), "EN").unwrap();
    assert_eq!(got, pairs(&[("country", "via-root")]));
    assert_ne!(got, pairs(&[("country", "via-node-zero")]));
}

#[test]
fn language_offset_at_column_count_yields_empty_mapping() {
    // One column in the record and a language offset of exactly one: zero
    // columns are left after the skip, which is an empty mapping, not an
    // error.
    let buf = one_record_db(3, &[("EN", 1)], &["country"], &rec("x"));
    let reader = Reader::new(&buf).unwrap();
    assert_eq!(reader.find_to_map(&v6([0; 16]), "EN"), Ok(vec![]));
    assert_eq!(reader.find(&v6([0; 16]), "EN"), Ok(vec![]));
}

#[test]
fn multi_language_multi_field_projection() {
    let record = "Sweden\tStockholm\t\u{745e}\u{5178}\t\u{65af}\u{5fb7}\u{54e5}\u{5c14}\u{6469}";
    let buf = one_record_db(
        3,
        &[("EN", 0), ("ZH", 2)],
        &["country", "city"],
        &rec(record),
    );
    let reader = Reader::new(&buf).unwrap();
    let en = reader.find_to_map(&v6([0; 16]), "EN").unwrap();
    assert_eq!(en, pairs(&[("country", "Sweden"), ("city", "Stockholm")]));
    let zh = reader.find_to_map(&v4([10, 0, 0, 1]), "ZH").unwrap();
    assert_eq!(
        zh,
        pairs(&[("country", "\u{745e}\u{5178}"), ("city", "\u{65af}\u{5fb7}\u{54e5}\u{5c14}\u{6469}")])
    );
}

#[test]
fn empty_values_are_dropped_and_keys_are_fields() {
    // The second column is empty, so only the first survives; every key
    // comes from the field list.
    let buf = one_record_db(3, &[("EN", 0)], &["country", "city"], &rec("Sweden\t"));
    let reader = Reader::new(&buf).unwrap();
    let m = reader.find_to_map(&v6([0; 16]), "EN").unwrap();
    assert_eq!(m, pairs(&[("country", "Sweden")]));
    let fields = ["country", "city"];
    for (k, v) in &m {
        assert!(fields.contains(&k.as_str()));
        assert!(!v.is_empty());
    }
}

#[test]
fn short_record_truncates_without_error() {
    // Two fields but a single-column record: the zip stops at the shorter
    // side instead of failing.
    let buf = one_record_db(3, &[("EN", 0)], &["country", "city"], &rec("Sweden"));
    let reader = Reader::new(&buf).unwrap();
    let m = reader.find_to_map(&v6([0; 16]), "EN").unwrap();
    assert_eq!(m, pairs(&[("country", "Sweden")]));
}

#[test]
fn repeated_field_name_last_value_wins() {
    let buf = one_record_db(3, &[("EN", 0)], &["name", "name"], &rec("first\tsecond"));
    let reader = Reader::new(&buf).unwrap();
    let m = reader.find_to_map(&v6([0; 16]), "EN").unwrap();
    assert_eq!(m, pairs(&[("name", "second")]));
}

#[test]
fn empty_field_list_fails() {
    let buf = one_record_db(3, &[("EN", 0)], &[], &rec("x"));
    let reader = Reader::new(&buf).unwrap();
    assert_eq!(reader.find_to_map(&v6([0; 16]), "EN"), Err(IpdbError::EmptyFields));
}

#[test]
fn size_mismatch_fails_load() {
    // The header declares 37 bytes after itself but the buffer carries one
    // more.
    let json = header_json(3, 1, &[("EN", 0)], &["country"], 37);
    let data = [0u8; 38];
    let buf = assemble(&json, &data);
    assert!(matches!(Reader::new(&buf), Err(IpdbError::SizeMismatch)));
}

#[test]
fn short_buffers_fail_load() {
    assert!(matches!(Reader::new(&[0, 0, 0]), Err(IpdbError::HeaderTooShort)));
    // Declared header length runs past the end of the buffer.
    let buf = vec![0, 0, 0, 200, 1, 2, 3];
    assert!(matches!(Reader::new(&buf), Err(IpdbError::HeaderTooShort)));
}

#[test]
fn malformed_header_fails_load() {
    let buf = assemble("{not json", &[]);
    assert!(matches!(Reader::new(&buf), Err(IpdbError::HeaderParse)));
    // Valid JSON missing a required member.
    let json = "{\"build\":1,\"ip_version\":3,\"node_count\":0,\"languages\":{},\"fields\":[]}";
    let buf2 = assemble(json, &[]);
    assert!(matches!(Reader::new(&buf2), Err(IpdbError::HeaderParse)));
    // A member of the wrong kind.
    let json3 =
        "{\"build\":1,\"ip_version\":3,\"node_count\":\"no\",\"languages\":{},\"fields\":[],\"total_size\":0}";
    let buf3 = assemble(json3, &[]);
    assert!(matches!(Reader::new(&buf3), Err(IpdbError::HeaderParse)));
}

#[test]
fn truncated_node_region_fails_load() {
    // Five declared nodes need forty bytes; the region holds eight.
    let data = [0u8; 8];
    let json = header_json(3, 5, &[("EN", 0)], &["country"], data.len());
    let buf = assemble(&json, &data);
    assert!(matches!(Reader::new(&buf), Err(IpdbError::TruncatedNodeRegion)));
}

#[test]
fn node_read_past_region_end_fails_query() {
    // Node 0's zero-child is a leaf (so loading precomputes an exit), but
    // its one-child names node 2, whose bytes would start at the region's
    // end.
    let buf = make_db(2, 2, &[("EN", 0)], &["country"], &[(99, 2), (0, 0)], &[0, 0]);
    let reader = Reader::new(&buf).unwrap();
    let mut first_one = [0u8; 16];
    first_one[0] = 0x80;
    assert_eq!(reader.find_to_map(&v6(first_one), "EN"), Err(IpdbError::NodeOutOfRange));
}

#[test]
fn leaf_offset_out_of_range_fails_query() {
    // Leaf pointer 101 translates to relative offset 100, far past the
    // three-byte record tail.
    let buf = make_db(2, 1, &[("EN", 0)], &["country"], &[(101, 101)], &[0, 0, 0]);
    let reader = Reader::new(&buf).unwrap();
    assert_eq!(reader.find_to_map(&v6([0; 16]), "EN"), Err(IpdbError::ResolveOutOfRange));
}

#[test]
fn record_past_region_end_fails_query() {
    // The offset lands on the region's last byte: no room for the length
    // prefix.
    let buf = make_db(2, 1, &[("EN", 0)], &["country"], &[(3, 3)], &[0, 0, 0]);
    let reader = Reader::new(&buf).unwrap();
    assert_eq!(reader.find_to_map(&v6([0; 16]), "EN"), Err(IpdbError::RecordOutOfRange));
    // The length prefix declares five bytes where one follows.
    let buf2 = make_db(2, 1, &[("EN", 0)], &["country"], &[(2, 2)], &[0, 0, 5, b'a']);
    let reader2 = Reader::new(&buf2).unwrap();
    assert_eq!(reader2.find_to_map(&v6([0; 16]), "EN"), Err(IpdbError::RecordOutOfRange));
}

#[test]
fn malformed_utf8_fails_query() {
    let buf = make_db(2, 1, &[("EN", 0)], &["country"], &[(2, 2)], &[0, 0, 2, 0xFF, 0xFE]);
    let reader = Reader::new(&buf).unwrap();
    assert_eq!(reader.find_to_map(&v6([0; 16]), "EN"), Err(IpdbError::InvalidUtf8));
}

#[test]
fn find_returns_all_columns_from_offset() {
    let buf = one_record_db(3, &[("EN", 0), ("ZH", 1)], &["country"], &rec("a\tb\tc"));
    let reader = Reader::new(&buf).unwrap();
    assert_eq!(
        reader.find(&v6([0; 16]), "EN").unwrap(),
        vec!["a".to_string(), "b".to_string(), "c".to_string()]
    );
    assert_eq!(
        reader.find(&v6([0; 16]), "ZH").unwrap(),
        vec!["b".to_string(), "c".to_string()]
    );
}
