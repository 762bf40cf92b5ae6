//! The trie region: fixed eight-byte nodes holding two big-endian child
//! pointers, walked one address bit at a time. A child value at most the node
//! count names another node; a larger value is a leaf pointer into the data
//! region. These functions work over the whole region after the header, so a
//! read is in bounds exactly when it ends at or before that region's end.

use vstd::arithmetic::div_mod::lemma_fundamental_div_mod;
use vstd::prelude::*;

use crate::error::IpdbError;

verus! {

/// The four bytes at `off`, read most significant first.
pub open spec fn spec_be32(d: Seq<u8>, off: int) -> int
    recommends
        0 <= off,
        off + 4 <= d.len(),
{
    d[off] * 0x1000000 + d[off + 1] * 0x10000 + d[off + 2] * 0x100 + d[off + 3]
}

/// The child slot `index` of node `node`: its four bytes start at byte
/// `node * 8 + index * 4`. `None` when they do not fit before the region's
/// end.
pub open spec fn spec_read_node(d: Seq<u8>, node: int, index: int) -> Option<int>
    recommends
        0 <= node,
        0 <= index <= 1,
{
    if node * 8 + index * 4 + 4 <= d.len() {
        Some(spec_be32(d, node * 8 + index * 4))
    } else {
        None
    }
}

/// Bit `k` of `b`, counting the most significant bit as bit `7 - k`.
pub open spec fn spec_bit(b: u8, k: u8) -> bool
    recommends
        k < 8,
{
    (b >> k) & 1 == 1
}

/// The bits of `octets` in most-significant-bit-first order within each
/// octet, the order in which the trie consumes them.
pub open spec fn spec_addr_bits(octets: Seq<u8>) -> Seq<bool> {
    Seq::new(octets.len() * 8, |i: int| spec_bit(octets[i / 8], (7 - i % 8) as u8))
}

/// What a walk of the trie ends in: a leaf pointer, an internal node after
/// the last bit (no record covers the address), or a read past the region's
/// end.
pub enum WalkOutcome {
    Leaf(int),
    NotFound,
    Fail,
}

/// Descend from `node`, consuming `bits` front to back; a node value above
/// `nc` is a leaf and stops the walk, even before any bit is consumed.
pub open spec fn spec_walk(d: Seq<u8>, nc: int, node: int, bits: Seq<bool>) -> WalkOutcome
    decreases bits.len(),
{
    if node > nc {
        WalkOutcome::Leaf(node)
    } else if bits.len() == 0 {
        WalkOutcome::NotFound
    } else {
        match spec_read_node(d, node, if bits[0] { 1int } else { 0int }) {
            Some(next) => spec_walk(d, nc, next, bits.drop_first()),
            None => WalkOutcome::Fail,
        }
    }
}

/// The fixed 96-step descent that precomputes the entry point for 4-octet
/// lookups: child 0 for the first 80 steps and child 1 for the last 16,
/// mirroring the well-known 80-zero-bit, 16-one-bit embedding prefix.
/// `None` when a step would read past the region's end.
pub open spec fn spec_v4_root_from(d: Seq<u8>, nc: int, node: int, step: int) -> Option<int>
    decreases 96 - step,
{
    if step >= 96 {
        Some(node)
    } else if node > nc {
        Some(node)
    } else {
        match spec_read_node(d, node, if step < 80 { 0int } else { 1int }) {
            Some(next) => spec_v4_root_from(d, nc, next, step + 1),
            None => None,
        }
    }
}

/// The node reached from node 0 by the fixed 96-step embedding descent.
pub open spec fn spec_v4_root(d: Seq<u8>, nc: int) -> Option<int> {
    spec_v4_root_from(d, nc, 0, 0)
}

/// The four bytes at `off`, read most significant first.
pub fn be32_at(d: &[u8], off: usize) -> (r: u32)
    requires
        off + 4 <= d@.len(),
    ensures
        r as int == spec_be32(d@, off as int),
{
    let b0 = d[off] as u32;
    let b1 = d[off + 1] as u32;
    let b2 = d[off + 2] as u32;
    let b3 = d[off + 3] as u32;
    b0 * 0x1000000 + b1 * 0x10000 + b2 * 0x100 + b3
}

/// Child slot `index` of node `node` within the region `d`, or
/// [`IpdbError::NodeOutOfRange`] when its four bytes do not fit before the
/// region's end.
pub fn read_child(d: &[u8], node: usize, index: usize) -> (r: Result<usize, IpdbError>)
    requires
        index <= 1,
    ensures
        (match spec_read_node(d@, node as int, index as int) {
            Some(v) => r matches Ok(n) && n as int == v,
            None => r == Err::<usize, IpdbError>(IpdbError::NodeOutOfRange),
        }),
{
    let len = d.len();
    if len < 4 {
        return Err(IpdbError::NodeOutOfRange);
    }
    let max_off = len - 4;
    if node > max_off / 8 {
        proof {
            lemma_fundamental_div_mod(max_off as int, 8);
        }
        return Err(IpdbError::NodeOutOfRange);
    }
    proof {
        lemma_fundamental_div_mod(max_off as int, 8);
    }
    let off = node * 8 + index * 4;
    if off > max_off {
        return Err(IpdbError::NodeOutOfRange);
    }
    Ok(be32_at(d, off) as usize)
}

/// Bit `i` of the address `octets`, in most-significant-bit-first order
/// within each octet.
pub fn addr_bit(octets: &[u8], i: usize) -> (r: bool)
    requires
        i < octets@.len() * 8,
    ensures
        r == spec_addr_bits(octets@)[i as int],
{
    let byte = octets[i / 8];
    let k: u8 = (7 - (i % 8)) as u8;
    (byte >> k) & 1 == 1
}

} // verus!
