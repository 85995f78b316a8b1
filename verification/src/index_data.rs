//! The counter map: per-table record counts kept inside the index account.
//!
//! The map sends a table name, held as its UTF-8 bytes, to the current
//! record count of that table.  Counts are strictly positive once a table
//! is registered; absence means "never registered".  No entry is ever
//! removed.  The map is represented as a vector of key/count pairs with
//! pairwise distinct keys, and is viewed as a mathematical map from byte
//! sequences to counts.

use vstd::prelude::*;
use vstd::string::StrSliceExecFns;
use vstd::string::StringSliceAdditionalSpecFns;
use vstd::utf8::encode_utf8_decode_utf8;

verus! {

/// The keys of the entries are pairwise distinct.
pub open spec fn unique_keys(s: Seq<(Seq<u8>, u32)>) -> bool {
    forall|i: int, j: int| 0 <= i < j < s.len() ==> s[i].0 != s[j].0
}

/// Every stored count is strictly positive.
pub open spec fn positive_counts(s: Seq<(Seq<u8>, u32)>) -> bool {
    forall|i: int| 0 <= i < s.len() ==> (#[trigger] s[i]).1 >= 1
}

/// The mathematical map described by a sequence of key/count pairs.
/// A later entry for a key overrides an earlier one; under `unique_keys`
/// no key occurs twice, so the choice does not matter.
pub open spec fn map_of(s: Seq<(Seq<u8>, u32)>) -> Map<Seq<u8>, u32>
    decreases s.len(),
{
    if s.len() == 0 {
        Map::empty()
    } else {
        map_of(s.drop_last()).insert(s.last().0, s.last().1)
    }
}

/// The count a lookup of `key` yields in `m`, or `None` for an
/// unregistered table.
pub open spec fn spec_get(m: Map<Seq<u8>, u32>, key: Seq<u8>) -> Option<u32> {
    if m.contains_key(key) {
        Some(m[key])
    } else {
        None
    }
}

/// The next count for `key`: one past the current count, or 1 for an
/// unregistered table.
pub open spec fn spec_next_count(m: Map<Seq<u8>, u32>, key: Seq<u8>) -> int {
    if m.contains_key(key) {
        m[key] + 1
    } else {
        1
    }
}

/// One record-creation step on the map: register `key` with 1, or raise
/// its count by one.
pub open spec fn spec_add_record(m: Map<Seq<u8>, u32>, key: Seq<u8>) -> Map<Seq<u8>, u32> {
    m.insert(key, spec_next_count(m, key) as u32)
}

/// The counter map stored in the index account: one entry per registered
/// table, keyed by the table name's UTF-8 bytes.
#[derive(Clone)]
pub struct NautilusIndexData {
    /// Key/count pairs; keys are pairwise distinct and counts positive.
    pub index: Vec<(Vec<u8>, u32)>,
}

impl View for NautilusIndexData {
    type V = Map<Seq<u8>, u32>;

    open spec fn view(&self) -> Map<Seq<u8>, u32> {
        map_of(self.entries())
    }
}

impl NautilusIndexData {
    /// The stored entries as mathematical values, in storage order.
    pub open spec fn entries(&self) -> Seq<(Seq<u8>, u32)> {
        self.index@.map_values(|p: (Vec<u8>, u32)| (p.0@, p.1))
    }

    /// Internal invariant: keys pairwise distinct, counts strictly positive.
    pub open spec fn wf(&self) -> bool {
        unique_keys(self.entries()) && positive_counts(self.entries())
    }

    /// The position of `key` among the stored entries, if registered.
    fn find(&self, key: &[u8]) -> (r: Option<usize>)
        ensures
            match r {
                Some(i) => i < self.entries().len() && self.entries()[i as int].0 == key@,
                None => forall|i: int|
                    0 <= i < self.entries().len() ==> (#[trigger] self.entries()[i]).0 != key@,
            },
    {
        let n = self.index.len();
        let mut i: usize = 0;
        while i < n
            invariant
                n == self.entries().len(),
                i <= n,
                forall|j: int| 0 <= j < i ==> (#[trigger] self.entries()[j]).0 != key@,
            decreases n - i,
        {
            if bytes_eq(self.index[i].0.as_slice(), key) {
                return Some(i);
            }
            i += 1;
        }
        None
    }

    /// Get the current record count for a table, or `None` if the table
    /// was never seen.  No side effect.
    pub fn get_count(&self, table_name: &str) -> (r: Option<u32>)
        requires
            self.wf(),
        ensures
            r == spec_get(self@, table_name.spec_bytes()),
    {
        let key = table_name.as_bytes();
        match self.find(key) {
            Some(i) => {
                proof {
                    lemma_map_of_index(self.entries(), i as int);
                }
                Some(self.index[i].1)
            },
            None => {
                proof {
                    lemma_map_of_absent(self.entries(), key@);
                }
                None
            },
        }
    }

    /// Get the next record count for a table: one past the current count,
    /// or 1 for an unseen table.  Pure preview; no mutation.
    pub fn get_next_count(&self, table_name: &str) -> (r: u32)
        requires
            self.wf(),
            self@.contains_key(table_name.spec_bytes()) ==> self@[table_name.spec_bytes()]
                < u32::MAX,
        ensures
            r == spec_next_count(self@, table_name.spec_bytes()),
    {
        match self.get_count(table_name) {
            Some(count) => count + 1,
            None => 1,
        }
    }

    /// Add a new record to the index: register the table with count 1, or
    /// raise its count by one.  Returns the new count.  This is the only
    /// mutator of the map.
    pub fn add_record(&mut self, table_name: &str) -> (r: u32)
        requires
            old(self).wf(),
            old(self)@.contains_key(table_name.spec_bytes()) ==> old(self)@[table_name.spec_bytes()]
                < u32::MAX,
        ensures
            final(self).wf(),
            r == spec_next_count(old(self)@, table_name.spec_bytes()),
            final(self)@ == spec_add_record(old(self)@, table_name.spec_bytes()),
            ({
                let kb = table_name.spec_bytes();
                if old(self)@.contains_key(kb) {
                    exists|i: int|
                        0 <= i < old(self).entries().len() && (#[trigger] old(
                            self,
                        ).entries()[i]).0 == kb && final(self).entries() == old(
                            self,
                        ).entries().update(i, (kb, r))
                } else {
                    final(self).entries() == old(self).entries().push((kb, r))
                }
            }),
    {
        let key = table_name.as_bytes();
        match self.find(key) {
            Some(i) => {
                proof {
                    lemma_map_of_index(self.entries(), i as int);
                }
                let count = self.index[i].1;
                let ghost before = self.entries();
                let k = table_name.as_bytes_vec();
                self.index[i] = (k, count + 1);
                proof {
                    assert(self.entries() =~= before.update(i as int, (key@, (count + 1) as u32)));
                    lemma_map_of_update(before, i as int, (count + 1) as u32);
                    assert(self@ == spec_add_record(map_of(before), key@));
                }
                count + 1
            },
            None => {
                proof {
                    lemma_map_of_absent(self.entries(), key@);
                }
                let ghost before = self.entries();
                let k = table_name.as_bytes_vec();
                self.index.push((k, 1));
                proof {
                    assert(self.entries() =~= before.push((key@, 1u32)));
                    lemma_map_of_push(before, (key@, 1u32));
                    assert forall|i: int, j: int|
                        0 <= i < j < self.entries().len() implies self.entries()[i].0
                        != self.entries()[j].0 by {
                        assert(forall|l: int|
                            0 <= l < before.len() ==> (#[trigger] before[l]).0 != key@);
                    }
                }
                1
            },
        }
    }

    /// The fixed primary key of the index account itself.
    pub fn primary_key(&self) -> (r: Vec<u8>)
        ensures
            r@ == seq![0u8],
    {
        let mut v: Vec<u8> = Vec::new();
        v.push(0);
        proof {
            assert(v@ =~= seq![0u8]);
        }
        v
    }
}

impl Default for NautilusIndexData {
    /// An empty counter map: no table has been registered.
    fn default() -> (d: Self)
        ensures
            d.wf(),
            d@ == Map::<Seq<u8>, u32>::empty(),
            d.entries() == Seq::<(Seq<u8>, u32)>::empty(),
    {
        let d = NautilusIndexData { index: Vec::new() };
        proof {
            assert(d.entries() =~= Seq::<(Seq<u8>, u32)>::empty());
        }
        d
    }
}

/// Whether two byte slices hold the same bytes.
pub(crate) fn bytes_eq(a: &[u8], b: &[u8]) -> (r: bool)
    ensures
        r == (a@ == b@),
{
    if a.len() != b.len() {
        assert(a@ != b@);
        return false;
    }
    let n = a.len();
    let mut i: usize = 0;
    while i < n
        invariant
            n == a@.len() && n == b@.len(),
            i <= n,
            forall|j: int| 0 <= j < i ==> a@[j] == b@[j],
        decreases n - i,
    {
        if a[i] != b[i] {
            return false;
        }
        i += 1;
    }
    proof {
        assert(a@ =~= b@);
    }
    true
}

/// An entry's key and count are in the map described by the entry list.
pub proof fn lemma_map_of_index(s: Seq<(Seq<u8>, u32)>, i: int)
    requires
        unique_keys(s),
        0 <= i < s.len(),
    ensures
        map_of(s).contains_key(s[i].0),
        map_of(s)[s[i].0] == s[i].1,
    decreases s.len(),
{
    if i < s.len() - 1 {
        assert(unique_keys(s.drop_last()));
        lemma_map_of_index(s.drop_last(), i);
        assert(s[i].0 != s.last().0);
    }
}

/// A key under which no entry is stored is not in the described map.
pub proof fn lemma_map_of_absent(s: Seq<(Seq<u8>, u32)>, key: Seq<u8>)
    requires
        forall|i: int| 0 <= i < s.len() ==> (#[trigger] s[i]).0 != key,
    ensures
        !map_of(s).contains_key(key),
    decreases s.len(),
{
    if s.len() > 0 {
        lemma_map_of_absent(s.drop_last(), key);
    }
}

/// Replacing the count stored at position `i` updates exactly that key
/// in the described map.
pub proof fn lemma_map_of_update(s: Seq<(Seq<u8>, u32)>, i: int, v: u32)
    requires
        unique_keys(s),
        0 <= i < s.len(),
    ensures
        map_of(s.update(i, (s[i].0, v))) == map_of(s).insert(s[i].0, v),
    decreases s.len(),
{
    let t = s.update(i, (s[i].0, v));
    if i == s.len() - 1 {
        assert(t.drop_last() =~= s.drop_last());
        assert(map_of(t) =~= map_of(s).insert(s[i].0, v));
    } else {
        assert(unique_keys(s.drop_last()));
        assert(t.drop_last() =~= s.drop_last().update(i, (s[i].0, v)));
        lemma_map_of_update(s.drop_last(), i, v);
        assert(s[i].0 != s.last().0);
        assert(t.last() == s.last());
        assert(map_of(t) =~= map_of(s).insert(s[i].0, v));
    }
}

/// Appending an entry inserts exactly its key into the described map.
pub proof fn lemma_map_of_push(s: Seq<(Seq<u8>, u32)>, e: (Seq<u8>, u32))
    ensures
        map_of(s.push(e)) == map_of(s).insert(e.0, e.1),
{
    assert(s.push(e).drop_last() =~= s);
    assert(s.push(e).last() == e);
}

/// For all sequences of record additions for one table with no
/// interleaving mutation of other tables, the k-th addition returns
/// exactly k: starting from a map in which the table is unregistered,
/// after n additions its count is n, so the n-th addition returned n.
pub proof fn lemma_sequential_counts(m: Map<Seq<u8>, u32>, key: Seq<u8>, n: nat)
    requires
        !m.contains_key(key),
        1 <= n <= u32::MAX,
    ensures
        spec_add_record_n(m, key, n)[key] == n,
        spec_next_count(spec_add_record_n(m, key, (n - 1) as nat), key) == n,
    decreases n,
{
    if n == 1 {
        assert(spec_add_record_n(m, key, 0) == m);
        assert(spec_add_record_n(m, key, 1) == spec_add_record(m, key));
        assert(spec_add_record(m, key)[key] == 1);
    } else {
        lemma_sequential_counts(m, key, (n - 1) as nat);
        let prev = spec_add_record_n(m, key, (n - 1) as nat);
        assert(prev[key] == n - 1);
        assert(spec_next_count(prev, key) == n);
        assert(spec_add_record_n(m, key, n) == spec_add_record(prev, key));
        assert(spec_add_record(prev, key)[key] == n);
    }
}

/// The map after `n` record additions for `key`.
pub open spec fn spec_add_record_n(m: Map<Seq<u8>, u32>, key: Seq<u8>, n: nat) -> Map<Seq<u8>, u32>
    decreases n,
{
    if n == 0 {
        m
    } else {
        spec_add_record(spec_add_record_n(m, key, (n - 1) as nat), key)
    }
}

/// Adding a record for one table leaves every other table's count
/// unaffected: an addition for `b` neither changes nor registers `a`.
pub proof fn lemma_independent_tables(m: Map<Seq<u8>, u32>, a: Seq<u8>, b: Seq<u8>)
    requires
        a != b,
    ensures
        spec_get(spec_add_record(m, b), a) == spec_get(m, a),
{
}

/// Distinct table names have distinct UTF-8 byte keys, so laws stated
/// over byte keys carry over to table names.
pub proof fn lemma_distinct_names_distinct_keys(a: Seq<char>, b: Seq<char>)
    requires
        a != b,
    ensures
        vstd::utf8::encode_utf8(a) != vstd::utf8::encode_utf8(b),
{
    if vstd::utf8::encode_utf8(a) == vstd::utf8::encode_utf8(b) {
        encode_utf8_decode_utf8(a);
        encode_utf8_decode_utf8(b);
    }
}

} // verus!
