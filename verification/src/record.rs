//! The data region: length-prefixed UTF-8 records holding tab-separated
//! column values. A leaf pointer `v` above the node count translates to the
//! byte offset `v - node_count + node_count * 8` in the region after the
//! header; the two bytes there give the record's length, big-endian. A
//! record's columns hold every language's field values back to back, so a
//! query skips the queried language's column offset and pairs what is left
//! with the field names.

use vstd::prelude::*;
use vstd::utf8::{decode_utf8, valid_utf8};

use crate::error::IpdbError;

verus! {

/// The record bytes a leaf pointer `node` names inside the region `d` whose
/// first `nc * 8` bytes are trie nodes, or the error that a bounds check
/// raises: the translated offset must fall inside the region, and the
/// length-prefixed record must end at or before the region's end.
pub open spec fn spec_resolve(d: Seq<u8>, nc: int, node: int) -> Result<Seq<u8>, IpdbError>
    recommends
        node > nc,
        nc * 8 <= d.len(),
{
    let resolved = node - nc + nc * 8;
    if resolved >= d.len() {
        Err(IpdbError::ResolveOutOfRange)
    } else if resolved + 2 > d.len() {
        Err(IpdbError::RecordOutOfRange)
    } else {
        let n = d[resolved] * 0x100 + d[resolved + 1];
        if resolved + 2 + n > d.len() {
            Err(IpdbError::RecordOutOfRange)
        } else {
            Ok(d.subrange(resolved + 2, resolved + 2 + n))
        }
    }
}

/// A resolved record lies wholly inside the region: resolution reads no byte
/// outside it.
pub proof fn lemma_resolve_in_bounds(d: Seq<u8>, nc: int, node: int)
    requires
        0 <= nc,
        node > nc,
    ensures
        (match spec_resolve(d, nc, node) {
            Ok(rec) => {
                let resolved = node - nc + nc * 8;
                &&& 0 <= resolved
                &&& resolved + 2 + rec.len() <= d.len()
                &&& rec == d.subrange(resolved + 2, resolved + 2 + rec.len())
            },
            Err(_) => true,
        }),
{
}

/// The columns of `b`, split on the tab byte `0x09`: one more column than
/// there are tabs, and an empty `b` is one empty column.
pub open spec fn spec_split_tab(b: Seq<u8>) -> Seq<Seq<u8>>
    decreases b.len(),
{
    if b.len() == 0 {
        seq![Seq::<u8>::empty()]
    } else {
        let prev = spec_split_tab(b.drop_last());
        if b.last() == 9 {
            prev.push(Seq::<u8>::empty())
        } else {
            prev.update(prev.len() - 1, prev.last().push(b.last()))
        }
    }
}

/// All columns decoded from UTF-8, or `None` when any column holds
/// malformed bytes.
pub open spec fn spec_decode_columns(cols: Seq<Seq<u8>>) -> Option<Seq<Seq<char>>>
    decreases cols.len(),
{
    if cols.len() == 0 {
        Some(Seq::<Seq<char>>::empty())
    } else {
        match spec_decode_columns(cols.drop_last()) {
            None => None,
            Some(s) => if valid_utf8(cols.last()) {
                Some(s.push(decode_utf8(cols.last())))
            } else {
                None
            },
        }
    }
}

/// Once a prefix of the columns fails to decode, the whole sequence does.
pub proof fn lemma_decode_columns_prefix_none(cols: Seq<Seq<u8>>, k: int)
    requires
        0 <= k <= cols.len(),
        spec_decode_columns(cols.take(k)) is None,
    ensures
        spec_decode_columns(cols) is None,
    decreases cols.len() - k,
{
    if k == cols.len() {
        assert(cols.take(k) =~~= cols);
    } else {
        assert(cols.take(k + 1).drop_last() =~~= cols.take(k));
        lemma_decode_columns_prefix_none(cols, k + 1);
    }
}

/// No two pairs share a key.
pub open spec fn keys_distinct(s: Seq<(Seq<char>, Seq<char>)>) -> bool {
    forall|i: int, j: int| 0 <= i < j < s.len() ==> s[i].0 != s[j].0
}

/// The index of the first pair keyed `k`, or `s.len()` when none is.
pub open spec fn spec_find_key(s: Seq<(Seq<char>, Seq<char>)>, k: Seq<char>) -> int
    decreases s.len(),
{
    if s.len() == 0 {
        0
    } else if s[0].0 == k {
        0
    } else {
        1 + spec_find_key(s.drop_first(), k)
    }
}

/// What [`spec_find_key`] finds: an index at most `s.len()`, a matching pair
/// there when below it, and no match before it.
pub proof fn lemma_find_key_props(s: Seq<(Seq<char>, Seq<char>)>, k: Seq<char>)
    ensures
        0 <= spec_find_key(s, k) <= s.len(),
        spec_find_key(s, k) < s.len() ==> s[spec_find_key(s, k)].0 == k,
        forall|j: int| 0 <= j < spec_find_key(s, k) ==> s[j].0 != k,
    decreases s.len(),
{
    if s.len() > 0 && s[0].0 != k {
        lemma_find_key_props(s.drop_first(), k);
        assert forall|j: int| 0 <= j < spec_find_key(s, k) implies s[j].0 != k by {
            if j > 0 {
                assert(s.drop_first()[j - 1] == s[j]);
            }
        }
    }
}

/// `s` with the value of key `k` replaced by `v` when `k` is already bound,
/// else with the pair appended: a later binding of a key wins.
pub open spec fn spec_upsert(
    s: Seq<(Seq<char>, Seq<char>)>,
    k: Seq<char>,
    v: Seq<char>,
) -> Seq<(Seq<char>, Seq<char>)> {
    let i = spec_find_key(s, k);
    if i < s.len() {
        s.update(i, (k, v))
    } else {
        s.push((k, v))
    }
}

/// The first `n` field names paired with the first `n` values, folded
/// front to back with [`spec_upsert`].
pub open spec fn spec_build_pairs(fields: Seq<Seq<char>>, values: Seq<Seq<char>>, n: int) -> Seq<
    (Seq<char>, Seq<char>),
>
    recommends
        n <= fields.len(),
        n <= values.len(),
    decreases n,
{
    if n <= 0 {
        Seq::<(Seq<char>, Seq<char>)>::empty()
    } else {
        spec_upsert(spec_build_pairs(fields, values, n - 1), fields[n - 1], values[n - 1])
    }
}

/// The pairs whose value is non-empty, in order.
pub open spec fn spec_nonempty(s: Seq<(Seq<char>, Seq<char>)>) -> Seq<(Seq<char>, Seq<char>)>
    decreases s.len(),
{
    if s.len() == 0 {
        s
    } else {
        let prev = spec_nonempty(s.drop_last());
        if s.last().1.len() == 0 {
            prev
        } else {
            prev.push(s.last())
        }
    }
}

/// The mapping a query emits: field names paired with values, one pair per
/// position up to the shorter of the two sequences, a later pair with an
/// already-bound key replacing the earlier value, and pairs with an empty
/// value dropped.
pub open spec fn spec_project(fields: Seq<Seq<char>>, values: Seq<Seq<char>>) -> Seq<
    (Seq<char>, Seq<char>),
> {
    let n = if fields.len() <= values.len() {
        fields.len() as int
    } else {
        values.len() as int
    };
    spec_nonempty(spec_build_pairs(fields, values, n))
}

/// The folded pairs bind distinct keys, all taken from the first `n` field
/// names.
pub proof fn lemma_build_pairs_props(fields: Seq<Seq<char>>, values: Seq<Seq<char>>, n: int)
    requires
        n <= fields.len(),
        n <= values.len(),
    ensures
        keys_distinct(spec_build_pairs(fields, values, n)),
        forall|i: int|
            0 <= i < spec_build_pairs(fields, values, n).len() ==> fields.contains(
                #[trigger] spec_build_pairs(fields, values, n)[i].0,
            ),
    decreases n,
{
    if n > 0 {
        lemma_build_pairs_props(fields, values, n - 1);
        let prev = spec_build_pairs(fields, values, n - 1);
        let k = fields[n - 1];
        lemma_find_key_props(prev, k);
        let s = spec_build_pairs(fields, values, n);
        assert(fields.contains(k));
        assert forall|i: int| 0 <= i < s.len() implies fields.contains(#[trigger] s[i].0) by {
            if s[i].0 != k {
                assert(s[i] == prev[i]);
            }
        }
    }
}

/// Filtering empty values keeps keys distinct, keeps only pairs of `s`, and
/// leaves no empty value.
pub proof fn lemma_nonempty_props(s: Seq<(Seq<char>, Seq<char>)>)
    requires
        keys_distinct(s),
    ensures
        keys_distinct(spec_nonempty(s)),
        forall|i: int|
            0 <= i < spec_nonempty(s).len() ==> s.contains(#[trigger] spec_nonempty(s)[i])
                && spec_nonempty(s)[i].1.len() != 0,
    decreases s.len(),
{
    if s.len() > 0 {
        let butlast = s.drop_last();
        assert(keys_distinct(butlast)) by {
            assert forall|i: int, j: int|
                0 <= i < j < butlast.len() implies butlast[i].0 != butlast[j].0 by {
                assert(butlast[i] == s[i] && butlast[j] == s[j]);
            }
        }
        lemma_nonempty_props(butlast);
        let prev = spec_nonempty(butlast);
        assert forall|i: int|
            0 <= i < spec_nonempty(s).len() implies s.contains(#[trigger] spec_nonempty(s)[i])
            && spec_nonempty(s)[i].1.len() != 0 by {
            if i < prev.len() {
                assert(butlast.contains(prev[i]));
                let w = choose|w: int| 0 <= w < butlast.len() && butlast[w] == prev[i];
                assert(s[w] == prev[i]);
            } else {
                assert(spec_nonempty(s)[i] == s.last());
                assert(s[s.len() - 1] == s.last());
            }
        }
        if s.last().1.len() != 0 {
            assert forall|i: int, j: int|
                0 <= i < j < spec_nonempty(s).len() implies spec_nonempty(s)[i].0 != spec_nonempty(
                s,
            )[j].0 by {
                if j == spec_nonempty(s).len() - 1 && i < prev.len() {
                    assert(butlast.contains(prev[i]));
                    let w = choose|w: int| 0 <= w < butlast.len() && butlast[w] == prev[i];
                    assert(s[w] == prev[i]);
                    assert(s[w].0 != s[s.len() - 1].0);
                }
            }
        }
    }
}

/// Every pair the projection emits carries a field name from `fields` and a
/// non-empty value, and no two pairs share a key: the output's keys are a
/// subset of the field names, never a superset, and no key maps to an empty
/// string.
pub proof fn lemma_project_keys(fields: Seq<Seq<char>>, values: Seq<Seq<char>>)
    ensures
        keys_distinct(spec_project(fields, values)),
        forall|i: int|
            0 <= i < spec_project(fields, values).len() ==> fields.contains(
                #[trigger] spec_project(fields, values)[i].0,
            ) && spec_project(fields, values)[i].1.len() != 0,
{
    let n = if fields.len() <= values.len() {
        fields.len() as int
    } else {
        values.len() as int
    };
    let built = spec_build_pairs(fields, values, n);
    lemma_build_pairs_props(fields, values, n);
    lemma_nonempty_props(built);
    assert forall|i: int|
        0 <= i < spec_project(fields, values).len() implies fields.contains(
        #[trigger] spec_project(fields, values)[i].0,
    ) && spec_project(fields, values)[i].1.len() != 0 by {
        assert(built.contains(spec_project(fields, values)[i]));
        let w = choose|w: int| 0 <= w < built.len() && built[w] == spec_project(fields, values)[i];
        assert(fields.contains(built[w].0));
    }
}

/// Relies on std's `str::from_utf8`: succeeds exactly on well-formed UTF-8
/// and yields the scalar values that vstd's `decode_utf8` gives for the
/// bytes.
#[verifier::external_body]
pub(crate) fn utf8_to_string(bytes: &[u8]) -> (r: Option<String>)
    ensures
        r is Some <==> valid_utf8(bytes@),
        (match r {
            Some(s) => s@ == decode_utf8(bytes@),
            None => true,
        }),
{
    match std::str::from_utf8(bytes) {
        Ok(s) => Some(s.to_string()),
        Err(_) => None,
    }
}

/// The columns of `b`, split on the tab byte `0x09`.
pub fn split_tabs(b: &[u8]) -> (r: Vec<Vec<u8>>)
    ensures
        r.deep_view() == spec_split_tab(b@),
        r@.len() >= 1,
{
    let mut out: Vec<Vec<u8>> = Vec::new();
    let mut cur: Vec<u8> = Vec::new();
    let mut i: usize = 0;
    while i < b.len()
        invariant
            i <= b@.len(),
            out.deep_view().push(cur@) =~~= spec_split_tab(b@.take(i as int)),
        decreases b@.len() - i,
    {
        assert(b@.take(i + 1).drop_last() =~~= b@.take(i as int));
        assert(b@.take(i + 1).last() == b@[i as int]);
        if b[i] == 9 {
            out.push(cur);
            cur = Vec::new();
            assert(out.deep_view().push(cur@) =~~= spec_split_tab(b@.take(i + 1)));
        } else {
            let ghost prev = spec_split_tab(b@.take(i as int));
            cur.push(b[i]);
            assert(out.deep_view().push(cur@) =~~= prev.update(prev.len() - 1, prev.last().push(
                b@[i as int],
            )));
        }
        i = i + 1;
    }
    assert(b@.take(b@.len() as int) =~~= b@);
    out.push(cur);
    assert(out.deep_view() =~~= spec_split_tab(b@));
    out
}

/// The columns from `start` on decoded from UTF-8, or
/// [`IpdbError::InvalidUtf8`] when one of them holds malformed bytes.
pub fn decode_columns_from(cols: &Vec<Vec<u8>>, start: usize) -> (r: Result<Vec<String>, IpdbError>)
    requires
        start <= cols@.len(),
    ensures
        (match r {
            Ok(v) => spec_decode_columns(cols.deep_view().skip(start as int)) == Some(
                v.deep_view(),
            ),
            Err(e) => e == IpdbError::InvalidUtf8 && spec_decode_columns(
                cols.deep_view().skip(start as int),
            ) is None,
        }),
{
    let ghost dcols = cols.deep_view().skip(start as int);
    let mut out: Vec<String> = Vec::new();
    let mut i: usize = start;
    while i < cols.len()
        invariant
            start <= i <= cols@.len(),
            dcols == cols.deep_view().skip(start as int),
            cols.deep_view().len() == cols@.len(),
            dcols.len() == cols@.len() - start,
            spec_decode_columns(dcols.take(i - start)) == Some(out.deep_view()),
        decreases cols@.len() - i,
    {
        assert(dcols.take(i + 1 - start).drop_last() =~~= dcols.take(i - start));
        assert(dcols.take(i + 1 - start).last() == dcols[i - start]);
        assert(dcols[i - start] == cols@[i as int]@);
        match utf8_to_string(cols[i].as_slice()) {
            Some(s) => {
                out.push(s);
                assert(out.deep_view() =~~= spec_decode_columns(dcols.take(i - start)).unwrap()
                    .push(s@));
            },
            None => {
                proof {
                    lemma_decode_columns_prefix_none(dcols, i + 1 - start);
                }
                return Err(IpdbError::InvalidUtf8);
            },
        }
        i = i + 1;
    }
    assert(dcols.take(dcols.len() as int) =~~= dcols);
    Ok(out)
}

/// Pair `fields` with `values` position by position, stopping at the shorter
/// sequence, a later pair with an already-bound key replacing the earlier
/// value, and drop every pair whose value is empty.
pub fn project(fields: &Vec<String>, values: &Vec<String>) -> (r: Vec<(String, String)>)
    ensures
        r.deep_view() == spec_project(fields.deep_view(), values.deep_view()),
{
    let ghost df = fields.deep_view();
    let ghost dv = values.deep_view();
    let n = if fields.len() <= values.len() {
        fields.len()
    } else {
        values.len()
    };
    let mut acc: Vec<(String, String)> = Vec::new();
    let mut i: usize = 0;
    while i < n
        invariant
            i <= n,
            n <= fields@.len(),
            n <= values@.len(),
            df == fields.deep_view(),
            dv == values.deep_view(),
            df.len() == fields@.len(),
            dv.len() == values@.len(),
            acc.deep_view() == spec_build_pairs(df, dv, i as int),
            keys_distinct(acc.deep_view()),
        decreases n - i,
    {
        let key = fields[i].clone();
        let val = values[i].clone();
        assert(key.deep_view() == df[i as int]);
        assert(val.deep_view() == dv[i as int]);
        proof {
            lemma_find_key_props(acc.deep_view(), key@);
        }
        let mut j: usize = 0;
        let mut found = false;
        while j < acc.len() && !found
            invariant
                j <= acc@.len(),
                acc.deep_view().len() == acc@.len(),
                !found ==> forall|m: int| 0 <= m < j ==> acc.deep_view()[m].0 != key@,
                found ==> j < acc@.len() && acc.deep_view()[j as int].0 == key@,
            decreases acc@.len() - j + (if found { 0int } else { 1int }),
        {
            if acc[j].0 == key {
                found = true;
            } else {
                assert(acc.deep_view()[j as int].0 == acc@[j as int].0@);
                j = j + 1;
            }
        }
        let ghost prev = acc.deep_view();
        let ghost fk = spec_find_key(prev, key@);
        if found {
            assert(fk == j as int) by {
                if fk < j {
                    assert(prev[fk].0 == key@);
                } else if fk > j {
                    assert(prev[j as int].0 != key@);
                }
            }
            acc[j] = (key, val);
            assert(acc.deep_view() =~~= prev.update(j as int, (key@, val@)));
        } else {
            assert(fk == prev.len()) by {
                if fk < prev.len() {
                    assert(prev[fk].0 == key@);
                }
            }
            acc.push((key, val));
            assert(acc.deep_view() =~~= prev.push((key@, val@)));
        }
        proof {
            let cur = acc.deep_view();
            assert(cur == spec_upsert(prev, key@, val@));
            assert(keys_distinct(cur)) by {
                assert forall|a: int, b2: int| 0 <= a < b2 < cur.len() implies cur[a].0
                    != cur[b2].0 by {
                    lemma_find_key_props(prev, key@);
                    if a != fk && b2 != fk {
                        assert(cur[a] == prev[a] || (a == prev.len() && false));
                        if b2 < prev.len() {
                            assert(cur[b2] == prev[b2]);
                        }
                    }
                }
            }
        }
        i = i + 1;
    }
    let mut out: Vec<(String, String)> = Vec::new();
    let ghost built = acc.deep_view();
    let mut i2: usize = 0;
    while i2 < acc.len()
        invariant
            i2 <= acc@.len(),
            built == acc.deep_view(),
            built.len() == acc@.len(),
            out.deep_view() == spec_nonempty(built.take(i2 as int)),
        decreases acc@.len() - i2,
    {
        assert(built.take(i2 + 1).drop_last() =~~= built.take(i2 as int));
        assert(built.take(i2 + 1).last() == built[i2 as int]);
        assert(built[i2 as int].1 == acc@[i2 as int].1@);
        if !acc[i2].1.as_str().is_empty() {
            let p = (acc[i2].0.clone(), acc[i2].1.clone());
            out.push(p);
            assert(out.deep_view() =~~= spec_nonempty(built.take(i2 as int)).push(
                built[i2 as int],
            ));
        }
        i2 = i2 + 1;
    }
    assert(built.take(built.len() as int) =~~= built);
    out
}

} // verus!
