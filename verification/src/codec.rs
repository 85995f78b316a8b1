//! Binary codec for the counter map.
//!
//! The map occupies the index account's byte buffer in a length-prefixed
//! layout: a little-endian `u32` entry count, then for each entry a
//! little-endian `u32` key length, the key bytes (the table name's UTF-8
//! bytes), and the little-endian `u32` count.  Entries are written in
//! storage order; decoders accept the entries in any order, so only the
//! round trip of encode followed by decode is byte-order independent.
//!
//! A byte string is a valid encoding exactly when it parses completely,
//! every stored count is strictly positive and no key occurs twice — the
//! invariants of the counter map itself.

use crate::index_data::{map_of, positive_counts, unique_keys, NautilusIndexData};
use vstd::bytes::{
    lemma_auto_spec_u32_to_from_le_bytes, spec_u32_from_le_bytes, spec_u32_to_le_bytes,
    u32_from_le_bytes, u32_to_le_bytes,
};
use vstd::prelude::*;
use vstd::slice::slice_to_vec;

verus! {

/// The bytes of one entry: key length, key bytes, count.
pub open spec fn spec_encode_entry(e: (Seq<u8>, u32)) -> Seq<u8> {
    spec_u32_to_le_bytes(e.0.len() as u32) + e.0 + spec_u32_to_le_bytes(e.1)
}

/// The bytes of a list of entries, in order.
pub open spec fn spec_encode_entries(s: Seq<(Seq<u8>, u32)>) -> Seq<u8>
    decreases s.len(),
{
    if s.len() == 0 {
        Seq::empty()
    } else {
        spec_encode_entry(s[0]) + spec_encode_entries(s.drop_first())
    }
}

/// The full encoding: entry count, then the entries.
pub open spec fn spec_encode(s: Seq<(Seq<u8>, u32)>) -> Seq<u8> {
    spec_u32_to_le_bytes(s.len() as u32) + spec_encode_entries(s)
}

/// The machine limits the encoding relies on: the entry count and every
/// key length must fit the `u32` length prefixes.
pub open spec fn encodable(s: Seq<(Seq<u8>, u32)>) -> bool {
    &&& s.len() <= u32::MAX
    &&& forall|i: int| 0 <= i < s.len() ==> (#[trigger] s[i]).0.len() <= u32::MAX
}

/// Parse `n` entries from the front of `b`; the parsed entries and the
/// unconsumed remainder, or `None` where the bytes run out or a count
/// of zero is stored.
pub open spec fn spec_decode_entries(b: Seq<u8>, n: nat) -> Option<(Seq<(Seq<u8>, u32)>, Seq<u8>)>
    decreases n,
{
    if n == 0 {
        Some((Seq::empty(), b))
    } else if b.len() < 4 {
        None
    } else {
        let klen = spec_u32_from_le_bytes(b.subrange(0, 4)) as int;
        if b.len() < 8 + klen {
            None
        } else {
            let key = b.subrange(4, 4 + klen);
            let count = spec_u32_from_le_bytes(b.subrange(4 + klen, 8 + klen));
            if count == 0 {
                None
            } else {
                match spec_decode_entries(b.subrange(8 + klen, b.len() as int), (n - 1) as nat) {
                    Some(r) => Some((seq![(key, count)] + r.0, r.1)),
                    None => None,
                }
            }
        }
    }
}

/// The entry list a byte string encodes, or `None` where the bytes are
/// not a valid encoding: too short, truncated, trailing bytes, a zero
/// count, or a repeated key.
pub open spec fn spec_decode(b: Seq<u8>) -> Option<Seq<(Seq<u8>, u32)>> {
    if b.len() < 4 {
        None
    } else {
        let n = spec_u32_from_le_bytes(b.subrange(0, 4));
        match spec_decode_entries(b.subrange(4, b.len() as int), n as nat) {
            Some(r) => if r.1.len() == 0 && unique_keys(r.0) {
                Some(r.0)
            } else {
                None
            },
            None => None,
        }
    }
}

/// Already-parsed entries prepended to the outcome of parsing the rest.
pub open spec fn with_prefix(
    acc: Seq<(Seq<u8>, u32)>,
    r: Option<(Seq<(Seq<u8>, u32)>, Seq<u8>)>,
) -> Option<(Seq<(Seq<u8>, u32)>, Seq<u8>)> {
    match r {
        Some(p) => Some((acc + p.0, p.1)),
        None => None,
    }
}

/// Appending one entry appends exactly its bytes.
pub proof fn lemma_encode_entries_snoc(s: Seq<(Seq<u8>, u32)>, e: (Seq<u8>, u32))
    ensures
        spec_encode_entries(s.push(e)) == spec_encode_entries(s) + spec_encode_entry(e),
    decreases s.len(),
{
    if s.len() == 0 {
        assert(s.push(e)[0] == e);
        assert(s.push(e).drop_first() =~= s);
        assert(spec_encode_entries(s.push(e)) == spec_encode_entry(e) + spec_encode_entries(s));
        assert(spec_encode_entry(e) + spec_encode_entries(s) =~= spec_encode_entries(s)
            + spec_encode_entry(e));
    } else {
        assert(s.push(e).drop_first() =~= s.drop_first().push(e));
        lemma_encode_entries_snoc(s.drop_first(), e);
        assert(s.push(e)[0] == s[0]);
        assert(spec_encode_entries(s.push(e)) == spec_encode_entry(s[0]) + (spec_encode_entries(
            s.drop_first(),
        ) + spec_encode_entry(e)));
        assert(spec_encode_entry(s[0]) + (spec_encode_entries(s.drop_first())
            + spec_encode_entry(e)) =~= spec_encode_entries(s) + spec_encode_entry(e));
    }
}

/// Replacing one entry's count leaves the encoding's length unchanged:
/// counts are fixed-width, so only a new key grows the encoding.
pub proof fn lemma_encode_update_len(s: Seq<(Seq<u8>, u32)>, i: int, v: u32)
    requires
        0 <= i < s.len(),
    ensures
        spec_encode_entries(s.update(i, (s[i].0, v))).len() == spec_encode_entries(s).len(),
    decreases s.len(),
{
    lemma_auto_spec_u32_to_from_le_bytes();
    let t = s.update(i, (s[i].0, v));
    if i == 0 {
        assert(t[0] == (s[0].0, v));
        assert(t.drop_first() =~= s.drop_first());
        assert(spec_encode_entry(t[0]).len() == spec_encode_entry(s[0]).len());
    } else {
        assert(t[0] == s[0]);
        assert(t.drop_first() =~= s.drop_first().update(i - 1, (s.drop_first()[i - 1].0, v)));
        lemma_encode_update_len(s.drop_first(), i - 1, v);
    }
}

/// Parsing the encoding of `s` followed by any tail yields `s` and that
/// tail: the codec round-trips on every well-formed entry list.
pub proof fn lemma_decode_entries_of_encode(s: Seq<(Seq<u8>, u32)>, tail: Seq<u8>)
    requires
        encodable(s),
        positive_counts(s),
    ensures
        spec_decode_entries(spec_encode_entries(s) + tail, s.len() as nat) == Some((s, tail)),
    decreases s.len(),
{
    lemma_auto_spec_u32_to_from_le_bytes();
    if s.len() == 0 {
        assert(spec_encode_entries(s) + tail =~= tail);
    } else {
        let e0 = s[0];
        let klen = e0.0.len() as int;
        let b = spec_encode_entries(s) + tail;
        let rest_entries = s.drop_first();
        assert(spec_encode_entries(s) == spec_encode_entry(e0) + spec_encode_entries(
            rest_entries,
        ));
        let rest_bytes = spec_encode_entries(rest_entries) + tail;
        assert(spec_encode_entry(e0).len() == 8 + klen);
        assert(b.len() == 8 + klen + rest_bytes.len());
        assert(b.subrange(0, 4) =~= spec_u32_to_le_bytes(e0.0.len() as u32));
        assert(spec_u32_from_le_bytes(b.subrange(0, 4)) as int == klen);
        assert(b.subrange(4, 4 + klen) =~= e0.0);
        assert(b.subrange(4 + klen, 8 + klen) =~= spec_u32_to_le_bytes(e0.1));
        assert(spec_u32_from_le_bytes(b.subrange(4 + klen, 8 + klen)) == e0.1);
        assert(e0.1 >= 1);
        assert(b.subrange(8 + klen, b.len() as int) =~= rest_bytes);
        assert(encodable(rest_entries) && positive_counts(rest_entries)) by {
            assert(forall|i: int|
                0 <= i < rest_entries.len() ==> rest_entries[i] == s[i + 1]
                    && (#[trigger] rest_entries[i]) == s[i + 1]);
        }
        lemma_decode_entries_of_encode(rest_entries, tail);
        assert(seq![(e0.0, e0.1)] + rest_entries =~= s);
        assert((e0.0, e0.1) == e0);
    }
}

/// Round-trip law: decoding the encoding of any well-formed entry list —
/// the empty list included — yields that list again.
pub proof fn lemma_round_trip(s: Seq<(Seq<u8>, u32)>)
    requires
        encodable(s),
        positive_counts(s),
        unique_keys(s),
    ensures
        spec_decode(spec_encode(s)) == Some(s),
{
    lemma_auto_spec_u32_to_from_le_bytes();
    let b = spec_encode(s);
    assert(b.subrange(0, 4) =~= spec_u32_to_le_bytes(s.len() as u32));
    assert(b.subrange(4, b.len() as int) =~= spec_encode_entries(s) + Seq::<u8>::empty());
    lemma_decode_entries_of_encode(s, Seq::empty());
}

/// Whatever parses was a faithful encoding: the parsed entries re-encode
/// to exactly the consumed bytes, their counts are positive, and their
/// key lengths fit the length prefixes.
pub proof fn lemma_encode_of_decode_entries(b: Seq<u8>, n: nat)
    requires
        n <= u32::MAX,
        spec_decode_entries(b, n) is Some,
    ensures
        ({
            let p = spec_decode_entries(b, n)->Some_0;
            &&& p.0.len() == n
            &&& encodable(p.0)
            &&& positive_counts(p.0)
            &&& spec_encode_entries(p.0) + p.1 == b
        }),
    decreases n,
{
    lemma_auto_spec_u32_to_from_le_bytes();
    if n == 0 {
        let p = spec_decode_entries(b, n)->Some_0;
        assert(spec_encode_entries(p.0) + p.1 =~= b);
    } else {
        let klen = spec_u32_from_le_bytes(b.subrange(0, 4)) as int;
        assert(b.len() >= 8 + klen);
        let key = b.subrange(4, 4 + klen);
        let count = spec_u32_from_le_bytes(b.subrange(4 + klen, 8 + klen));
        let rest_bytes = b.subrange(8 + klen, b.len() as int);
        assert(count != 0);
        assert(spec_decode_entries(rest_bytes, (n - 1) as nat) is Some);
        lemma_encode_of_decode_entries(rest_bytes, (n - 1) as nat);
        let q = spec_decode_entries(rest_bytes, (n - 1) as nat)->Some_0;
        let p = spec_decode_entries(b, n)->Some_0;
        assert(p.0 == seq![(key, count)] + q.0 && p.1 == q.1);
        assert(p.0[0] == (key, count));
        assert(forall|i: int| 1 <= i < p.0.len() ==> p.0[i] == q.0[i - 1]);
        assert(key.len() == klen && klen <= u32::MAX);
        assert forall|i: int| 0 <= i < p.0.len() implies (#[trigger] p.0[i]).0.len()
            <= u32::MAX by {
            if i >= 1 {
                assert(q.0[i - 1].0.len() <= u32::MAX);
            }
        }
        assert(encodable(p.0));
        assert forall|i: int| 0 <= i < p.0.len() implies (#[trigger] p.0[i]).1 >= 1 by {
            if i >= 1 {
                assert(q.0[i - 1].1 >= 1);
            }
        }
        assert(positive_counts(p.0));
        assert(p.0.drop_first() =~= q.0);
        assert(key.len() as u32 == spec_u32_from_le_bytes(b.subrange(0, 4)));
        assert(spec_u32_to_le_bytes(key.len() as u32) == b.subrange(0, 4));
        assert(spec_u32_to_le_bytes(count) == b.subrange(4 + klen, 8 + klen));
        assert(spec_encode_entry((key, count)) =~= b.subrange(0, 8 + klen));
        assert(spec_encode_entries(p.0) == spec_encode_entry((key, count)) + spec_encode_entries(
            q.0,
        ));
        assert(spec_encode_entries(q.0) + q.1 == rest_bytes);
        assert(spec_encode_entries(p.0) + p.1 =~= b.subrange(0, 8 + klen) + rest_bytes);
        assert(b.subrange(0, 8 + klen) + rest_bytes =~= b);
    }
}

/// Whatever decodes was a faithful encoding: re-encoding the decoded
/// entry list yields exactly the input bytes.
pub proof fn lemma_encode_of_decode(b: Seq<u8>)
    requires
        spec_decode(b) is Some,
    ensures
        ({
            let s = spec_decode(b)->Some_0;
            &&& encodable(s)
            &&& positive_counts(s)
            &&& unique_keys(s)
            &&& spec_encode(s) == b
        }),
{
    lemma_auto_spec_u32_to_from_le_bytes();
    let n = spec_u32_from_le_bytes(b.subrange(0, 4));
    let body = b.subrange(4, b.len() as int);
    lemma_encode_of_decode_entries(body, n as nat);
    let p = spec_decode_entries(body, n as nat)->Some_0;
    let s = spec_decode(b)->Some_0;
    assert(s == p.0 && p.1.len() == 0);
    assert(spec_encode_entries(s) + p.1 =~= spec_encode_entries(s));
    assert(spec_encode(s) =~= b);
}

/// Encode the counter map into a fresh byte vector.  Deterministic in
/// the stored entry order; in particular its length depends only on the
/// logical content.
pub fn encode(data: &NautilusIndexData) -> (r: Vec<u8>)
    requires
        encodable(data.entries()),
    ensures
        r@ == spec_encode(data.entries()),
{
    let ghost s = data.entries();
    let n = data.index.len();
    let mut out: Vec<u8> = u32_to_le_bytes(n as u32);
    let mut i: usize = 0;
    while i < n
        invariant
            n == data.index@.len(),
            s == data.entries(),
            encodable(s),
            i <= n,
            out@ == spec_u32_to_le_bytes(n as u32) + spec_encode_entries(s.take(i as int)),
        decreases n - i,
    {
        assert(s[i as int] == (data.index@[i as int].0@, data.index@[i as int].1));
        let key_len = data.index[i].0.len();
        let mut piece = u32_to_le_bytes(key_len as u32);
        out.append(&mut piece);
        let mut key_copy = slice_to_vec(data.index[i].0.as_slice());
        out.append(&mut key_copy);
        let mut count_bytes = u32_to_le_bytes(data.index[i].1);
        out.append(&mut count_bytes);
        proof {
            assert(s.take(i + 1) =~= s.take(i as int).push(s[i as int]));
            lemma_encode_entries_snoc(s.take(i as int), s[i as int]);
            assert(out@ =~= spec_u32_to_le_bytes(n as u32) + spec_encode_entries(s.take(i + 1)));
        }
        i += 1;
    }
    proof {
        assert(s.take(n as int) =~= s);
    }
    out
}

/// The exact byte length `encode` produces for this map, computed without
/// touching account storage.
pub fn span(data: &NautilusIndexData) -> (r: usize)
    requires
        encodable(data.entries()),
    ensures
        r == spec_encode(data.entries()).len(),
{
    encode(data).len()
}

/// Decode a counter map from an account buffer.  Yields `None` exactly
/// where the bytes are not a valid encoding; a decoded map always
/// satisfies the counter-map invariant and re-encodes to the very same
/// bytes.
pub fn decode(bytes: &[u8]) -> (r: Option<NautilusIndexData>)
    ensures
        match r {
            Some(d) => spec_decode(bytes@) == Some(d.entries()) && d.wf(),
            None => spec_decode(bytes@) is None,
        },
{
    let len = bytes.len();
    if len < 4 {
        return None;
    }
    let n_u32 = u32_from_le_bytes(&bytes[0..4]);
    let ghost whole_body = bytes@.subrange(4, len as int);
    proof {
        assert(n_u32 == spec_u32_from_le_bytes(bytes@.subrange(0, 4)));
        if spec_decode_entries(whole_body, n_u32 as nat) is Some {
            let p = spec_decode_entries(whole_body, n_u32 as nat)->Some_0;
            assert(Seq::<(Seq<u8>, u32)>::empty() + p.0 =~= p.0);
        }
    }
    let n = n_u32 as usize;
    let mut parsed: Vec<(Vec<u8>, u32)> = Vec::new();
    let ghost mut acc: Seq<(Seq<u8>, u32)> = Seq::empty();
    let mut pos: usize = 4;
    let mut j: usize = 0;
    while j < n
        invariant
            len == bytes@.len(),
            4 <= pos <= len,
            j <= n,
            n == n_u32,
            n_u32 == spec_u32_from_le_bytes(bytes@.subrange(0, 4)),
            whole_body == bytes@.subrange(4, len as int),
            acc.len() == parsed@.len(),
            forall|k: int|
                0 <= k < acc.len() ==> (#[trigger] parsed@[k]).0@ == acc[k].0 && parsed@[k].1
                    == acc[k].1,
            forall|k: int| 0 <= k < acc.len() ==> (#[trigger] acc[k]).1 >= 1,
            spec_decode_entries(whole_body, n as nat) == with_prefix(
                acc,
                spec_decode_entries(bytes@.subrange(pos as int, len as int), (n - j) as nat),
            ),
        decreases n - j,
    {
        let ghost tail = bytes@.subrange(pos as int, len as int);
        let remaining = len - pos;
        if remaining < 4 {
            return None;
        }
        let klen_u32 = u32_from_le_bytes(&bytes[pos..pos + 4]);
        proof {
            assert(bytes@.subrange(pos as int, pos + 4) =~= tail.subrange(0, 4));
        }
        let klen = klen_u32 as usize;
        if remaining - 4 < klen || remaining - 4 - klen < 4 {
            proof {
                assert(tail.len() < 8 + klen);
            }
            return None;
        }
        let key = slice_to_vec(&bytes[pos + 4..pos + 4 + klen]);
        let count = u32_from_le_bytes(&bytes[pos + 4 + klen..pos + 8 + klen]);
        proof {
            assert(bytes@.subrange(pos + 4, pos + 4 + klen) =~= tail.subrange(4, 4 + klen));
            assert(bytes@.subrange(pos + 4 + klen, pos + 8 + klen) =~= tail.subrange(
                4 + klen,
                8 + klen,
            ));
        }
        if count == 0 {
            return None;
        }
        parsed.push((key, count));
        pos = pos + 8 + klen;
        j = j + 1;
        proof {
            let new_tail = bytes@.subrange(pos as int, len as int);
            let e = (tail.subrange(4, 4 + klen), count);
            assert(new_tail =~= tail.subrange(8 + klen, tail.len() as int));
            let old_acc = acc;
            acc = acc.push(e);
            assert(spec_decode_entries(tail, (n - j + 1) as nat) == with_prefix(
                seq![e],
                spec_decode_entries(new_tail, (n - j) as nat),
            ));
            assert(spec_decode_entries(whole_body, n as nat) == with_prefix(
                acc,
                spec_decode_entries(new_tail, (n - j) as nat),
            )) by {
                if spec_decode_entries(new_tail, (n - j) as nat) is Some {
                    let p = spec_decode_entries(new_tail, (n - j) as nat)->Some_0;
                    assert(old_acc + (seq![e] + p.0) =~= acc + p.0);
                }
            }
        }
    }
    proof {
        assert(spec_decode_entries(bytes@.subrange(pos as int, len as int), 0) == Some(
            (Seq::<(Seq<u8>, u32)>::empty(), bytes@.subrange(pos as int, len as int)),
        ));
        assert(acc + Seq::<(Seq<u8>, u32)>::empty() =~= acc);
    }
    if pos != len {
        proof {
            assert(bytes@.subrange(pos as int, len as int).len() > 0);
        }
        return None;
    }
    proof {
        assert(bytes@.subrange(pos as int, len as int).len() == 0);
        assert(spec_decode_entries(whole_body, n as nat) == Some(
            (acc, bytes@.subrange(pos as int, len as int)),
        ));
    }
    // Reject a repeated key: the counter map never stores one.
    let d = NautilusIndexData { index: parsed };
    proof {
        assert(d.entries() =~= acc);
        assert(d.index@.map_values(|p: (Vec<u8>, u32)| (p.0@, p.1)) =~= acc);
        assert(positive_counts(acc));
    }
    if !keys_unique(&d.index) {
        return None;
    }
    Some(d)
}

/// Whether the keys of the stored entries are pairwise distinct.
fn keys_unique(v: &Vec<(Vec<u8>, u32)>) -> (r: bool)
    ensures
        r == unique_keys(v@.map_values(|p: (Vec<u8>, u32)| (p.0@, p.1))),
{
    let ghost s = v@.map_values(|p: (Vec<u8>, u32)| (p.0@, p.1));
    let m = v.len();
    let mut a: usize = 0;
    while a < m
        invariant
            m == v@.len(),
            s == v@.map_values(|p: (Vec<u8>, u32)| (p.0@, p.1)),
            a <= m,
            forall|x: int, y: int| 0 <= x < a && x < y < m ==> s[x].0 != s[y].0,
        decreases m - a,
    {
        let mut b: usize = a + 1;
        while b < m
            invariant
                m == v@.len(),
                s == v@.map_values(|p: (Vec<u8>, u32)| (p.0@, p.1)),
                a < m,
                a < b <= m,
                forall|y: int| a < y < b ==> s[a as int].0 != s[y].0,
            decreases m - b,
        {
            if crate::index_data::bytes_eq(v[a].0.as_slice(), v[b].0.as_slice()) {
                proof {
                    assert(s[a as int].0 == s[b as int].0);
                    assert(!unique_keys(s));
                }
                return false;
            }
            b += 1;
        }
        a += 1;
    }
    true
}

} // verus!
