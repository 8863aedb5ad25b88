//! The chained hash table itself.

use crate::hashkey::HashKey;
use vstd::prelude::*;

verus! {

/// The number of buckets allocated when an empty table first grows.
pub const INITIAL_NBUCKETS: usize = 10;

/// An associative container built with open hashing and separate chaining.
///
/// The table owns a bucket array; each bucket is an ordered sequence of
/// key/value pairs colliding on the same bucket index. `items` counts the
/// live pairs and always equals the true total across all buckets.
pub struct HashMap<K, V> {
    buckets: Vec<Vec<(K, V)>>,
    items: usize,
}

/// True when `(i, j)` addresses an entry of the bucket array: bucket `i`,
/// position `j` within it.
pub(crate) open spec fn entry_at<K, V>(bs: Seq<Vec<(K, V)>>, i: int, j: int) -> bool {
    0 <= i < bs.len() && 0 <= j < bs[i]@.len()
}

/// The abstract value of the key stored at `(i, j)`.
pub(crate) open spec fn key_at<K: View, V>(bs: Seq<Vec<(K, V)>>, i: int, j: int) -> K::V {
    bs[i]@[j].0@
}

/// The value stored at `(i, j)`.
pub(crate) open spec fn value_at<K, V>(bs: Seq<Vec<(K, V)>>, i: int, j: int) -> V {
    bs[i]@[j].1
}

/// True when some entry of the bucket array holds a key with abstract
/// value `k`.
pub(crate) open spec fn has_key<K: View, V>(bs: Seq<Vec<(K, V)>>, k: K::V) -> bool {
    exists|i: int, j: int| entry_at(bs, i, j) && #[trigger] key_at(bs, i, j) == k
}

/// The value bound to `k`; meaningful only when `has_key(bs, k)`.
pub(crate) open spec fn value_of<K: View, V>(bs: Seq<Vec<(K, V)>>, k: K::V) -> V {
    let (i, j) = choose|i: int, j: int| entry_at(bs, i, j) && #[trigger] key_at(bs, i, j) == k;
    value_at(bs, i, j)
}

/// The mapping from abstract key values to values that a bucket array
/// represents.
pub(crate) open spec fn map_of<K: View, V>(bs: Seq<Vec<(K, V)>>) -> Map<K::V, V> {
    Map::new(|k: K::V| has_key(bs, k), |k: K::V| value_of(bs, k))
}

/// The home bucket of a key with abstract value `k` among `n` buckets.
pub(crate) open spec fn home_bucket<K: HashKey>(k: K::V, n: nat) -> nat
    recommends
        n > 0,
{
    (K::hash_of(k) as nat) % n
}

/// Every entry lies in the bucket its key hashes to, modulo the current
/// bucket count.
pub(crate) open spec fn entries_placed<K: HashKey, V>(bs: Seq<Vec<(K, V)>>) -> bool {
    forall|i: int, j: int|
        #[trigger] entry_at(bs, i, j) ==> home_bucket::<K>(key_at(bs, i, j), bs.len() as nat) == i
}

/// No bucket holds two entries whose keys have the same abstract value.
pub(crate) open spec fn no_dup_in_buckets<K: View, V>(bs: Seq<Vec<(K, V)>>) -> bool {
    forall|i: int, j1: int, j2: int|
        entry_at(bs, i, j1) && entry_at(bs, i, j2) && j1 != j2 ==> #[trigger] key_at(bs, i, j1)
            != #[trigger] key_at(bs, i, j2)
}

/// A bucket count the table can reach: zero before the first allocation, or
/// the base count doubled some number of times.
pub(crate) open spec fn valid_bucket_count(n: nat) -> bool
    decreases n,
{
    ||| n == 0
    ||| n == INITIAL_NBUCKETS as nat
    ||| (n > INITIAL_NBUCKETS as nat && n % 2 == 0 && valid_bucket_count(n / 2))
}

/// True when some pair of the flat sequence `s` holds a key with abstract
/// value `k`.
pub(crate) open spec fn seq_has_key<K: View, V>(s: Seq<(K, V)>, k: K::V) -> bool {
    exists|j: int| 0 <= j < s.len() && #[trigger] s[j].0@ == k
}

/// Every entry of the bucket array agrees with the mapping `m`: its key is
/// bound, and bound to the value stored beside it.
pub(crate) open spec fn entries_agree<K: View, V>(bs: Seq<Vec<(K, V)>>, m: Map<K::V, V>) -> bool {
    forall|i: int, j: int|
        #[trigger] entry_at(bs, i, j) ==> m.contains_key(key_at(bs, i, j)) && m[key_at(bs, i, j)]
            == value_at(bs, i, j)
}

/// Two entries holding keys with the same abstract value are the same entry:
/// placement confines them to one bucket, and that bucket holds no duplicate.
proof fn lemma_entry_unique<K: HashKey, V>(bs: Seq<Vec<(K, V)>>, i1: int, j1: int, i2: int, j2: int)
    requires
        entries_placed::<K, V>(bs),
        no_dup_in_buckets(bs),
        entry_at(bs, i1, j1),
        entry_at(bs, i2, j2),
        key_at(bs, i1, j1) == key_at(bs, i2, j2),
    ensures
        i1 == i2,
        j1 == j2,
{
    assert(home_bucket::<K>(key_at(bs, i1, j1), bs.len() as nat) == i1);
    assert(home_bucket::<K>(key_at(bs, i2, j2), bs.len() as nat) == i2);
}

/// The mapping a bucket array represents binds each stored key to the value
/// beside it.
proof fn lemma_entry_in_map<K: HashKey, V>(bs: Seq<Vec<(K, V)>>, i: int, j: int)
    requires
        entries_placed::<K, V>(bs),
        no_dup_in_buckets(bs),
        entry_at(bs, i, j),
    ensures
        map_of(bs).contains_key(key_at(bs, i, j)),
        map_of(bs)[key_at(bs, i, j)] == value_at(bs, i, j),
{
    let k = key_at(bs, i, j);
    assert(has_key(bs, k));
    let (i2, j2) = choose|i2: int, j2: int|
        entry_at(bs, i2, j2) && #[trigger] key_at(bs, i2, j2) == k;
    lemma_entry_unique(bs, i, j, i2, j2);
}

/// A key absent from its home bucket is absent from the whole table.
proof fn lemma_absent<K: HashKey, V>(bs: Seq<Vec<(K, V)>>, k: K::V)
    requires
        entries_placed::<K, V>(bs),
        bs.len() > 0,
        forall|j: int|
            0 <= j < bs[home_bucket::<K>(k, bs.len() as nat) as int]@.len() ==> key_at(
                bs,
                home_bucket::<K>(k, bs.len() as nat) as int,
                j,
            ) != k,
    ensures
        !has_key(bs, k),
        !map_of(bs).contains_key(k),
{
    if has_key(bs, k) {
        let (i, j) = choose|i: int, j: int|
            entry_at(bs, i, j) && #[trigger] key_at(bs, i, j) == k;
        assert(home_bucket::<K>(k, bs.len() as nat) == i);
    }
}

/// All entries across all buckets hold pairwise-distinct keys.
pub(crate) open spec fn all_keys_distinct<K: View, V>(bs: Seq<Vec<(K, V)>>) -> bool {
    forall|i1: int, j1: int, i2: int, j2: int|
        entry_at(bs, i1, j1) && entry_at(bs, i2, j2) && !(i1 == i2 && j1 == j2)
            ==> #[trigger] key_at(bs, i1, j1) != #[trigger] key_at(bs, i2, j2)
}

/// Placement and per-bucket duplicate-freedom make all keys in the table
/// pairwise distinct.
proof fn lemma_all_keys_distinct<K: HashKey, V>(bs: Seq<Vec<(K, V)>>)
    requires
        entries_placed::<K, V>(bs),
        no_dup_in_buckets(bs),
    ensures
        all_keys_distinct(bs),
{
    assert forall|i1: int, j1: int, i2: int, j2: int|
        entry_at(bs, i1, j1) && entry_at(bs, i2, j2) && !(i1 == i2 && j1 == j2)
            implies #[trigger] key_at(bs, i1, j1) != #[trigger] key_at(bs, i2, j2) by {
        if key_at(bs, i1, j1) == key_at(bs, i2, j2) {
            lemma_entry_unique(bs, i1, j1, i2, j2);
        }
    }
}

/// A bucket array whose entries agree with `m` and whose keys cover the
/// domain of `m` represents exactly `m`.
proof fn lemma_map_of_eq<K: HashKey, V>(bs: Seq<Vec<(K, V)>>, m: Map<K::V, V>)
    requires
        entries_placed::<K, V>(bs),
        no_dup_in_buckets(bs),
        entries_agree(bs, m),
        forall|k: K::V| #[trigger] m.contains_key(k) ==> has_key(bs, k),
    ensures
        map_of(bs) == m,
{
    assert forall|k: K::V| #[trigger] has_key(bs, k) implies m.contains_key(k) && map_of(bs)[k]
        == m[k] by {
        let (i, j) = choose|i: int, j: int|
            entry_at(bs, i, j) && #[trigger] key_at(bs, i, j) == k;
        lemma_entry_in_map(bs, i, j);
    }
    assert(map_of(bs) =~= m);
}

/// Rebinding the value stored at `(bi, j)` — to any value `w` — keeps every
/// key in place and turns the represented mapping into an insertion of `w` at
/// that entry's key.
proof fn lemma_value_update<K: HashKey, V>(
    bs: Seq<Vec<(K, V)>>,
    bs2: Seq<Vec<(K, V)>>,
    bi: int,
    j: int,
    m: Map<K::V, V>,
    w: V,
)
    requires
        entries_placed::<K, V>(bs),
        no_dup_in_buckets(bs),
        entries_agree(bs, m),
        forall|k: K::V| #[trigger] m.contains_key(k) ==> has_key(bs, k),
        entry_at(bs, bi, j),
        bs2.len() == bs.len(),
        forall|q: int| 0 <= q < bs.len() && q != bi ==> bs2[q]@ == bs[q]@,
        bs2[bi]@ == bs[bi]@.update(j, (bs[bi]@[j].0, w)),
    ensures
        entries_placed::<K, V>(bs2),
        no_dup_in_buckets(bs2),
        map_of(bs2) == m.insert(key_at(bs, bi, j), w),
        map_of(bs2).dom() == m.dom(),
{
    let kv = key_at(bs, bi, j);
    let m2 = m.insert(kv, w);
    assert forall|i: int, j2: int| #[trigger] entry_at(bs2, i, j2) implies entry_at(bs, i, j2)
        && key_at(bs2, i, j2) == key_at(bs, i, j2) && (if i == bi && j2 == j {
        value_at(bs2, i, j2) == w
    } else {
        value_at(bs2, i, j2) == value_at(bs, i, j2)
    }) by {
        if i == bi {
            if j2 == j {
                assert(bs2[i]@[j2] == (bs[i]@[j].0, w));
            } else {
                assert(bs2[i]@[j2] == bs[i]@[j2]);
            }
        }
    }
    assert forall|i: int, j2: int| entry_at(bs, i, j2) implies #[trigger] entry_at(
        bs2,
        i,
        j2,
    ) by {}
    assert forall|i: int, j2: int| #[trigger] entry_at(bs2, i, j2) implies home_bucket::<K>(
        key_at(bs2, i, j2),
        bs2.len() as nat,
    ) == i by {}
    assert forall|i: int, j1: int, j2: int|
        entry_at(bs2, i, j1) && entry_at(bs2, i, j2) && j1 != j2 implies #[trigger] key_at(
        bs2,
        i,
        j1,
    ) != #[trigger] key_at(bs2, i, j2) by {}
    assert forall|i: int, j2: int| #[trigger] entry_at(bs2, i, j2) implies m2.contains_key(
        key_at(bs2, i, j2),
    ) && m2[key_at(bs2, i, j2)] == value_at(bs2, i, j2) by {
        if !(i == bi && j2 == j) {
            if key_at(bs, i, j2) == kv {
                lemma_entry_unique(bs, bi, j, i, j2);
            }
        }
    }
    assert forall|k: K::V| #[trigger] m2.contains_key(k) implies has_key(bs2, k) by {
        if k == kv {
            assert(entry_at(bs2, bi, j) && key_at(bs2, bi, j) == kv);
        } else {
            let (i, j2) = choose|i: int, j2: int|
                entry_at(bs, i, j2) && #[trigger] key_at(bs, i, j2) == k;
            assert(entry_at(bs2, i, j2) && key_at(bs2, i, j2) == k);
        }
    }
    lemma_map_of_eq(bs2, m2);
    assert(m2.dom() =~= m.dom());
}

/// Relies on std's `Vec::capacity`: the number of elements a vector can hold
/// without reallocating, never less than its length.
#[verifier::external_body]
fn vec_capacity<T>(v: &Vec<T>) -> (c: usize)
    ensures
        c >= v@.len(),
{
    v.capacity()
}

impl<K: HashKey, V> View for HashMap<K, V> {
    type V = Map<K::V, V>;

    closed spec fn view(&self) -> Map<K::V, V> {
        map_of(self.buckets@)
    }
}

impl<K: HashKey, V> HashMap<K, V> {
    /// The number of buckets in the bucket array. Distinct from both the
    /// occupancy count (`len`) and the allocation capacity (`capacity`).
    pub closed spec fn num_buckets(&self) -> nat {
        self.buckets@.len()
    }

    /// Well-formedness: every entry sits in its key's home bucket, no key
    /// appears twice, the occupancy count equals the number of distinct keys
    /// stored, and the bucket count follows the growth sequence.
    pub closed spec fn wf(&self) -> bool {
        &&& entries_placed::<K, V>(self.buckets@)
        &&& no_dup_in_buckets(self.buckets@)
        &&& self@.dom().finite()
        &&& self.items as nat == self@.len()
        &&& valid_bucket_count(self.buckets@.len() as nat)
    }

    /// Create an empty table with zero buckets; no allocation happens until
    /// the first insertion.
    pub fn new() -> (m: Self)
        ensures
            m.wf(),
            m@ == Map::<K::V, V>::empty(),
            m.num_buckets() == 0,
    {
        let m = HashMap { buckets: Vec::new(), items: 0 };
        proof {
            assert forall|k: K::V| !has_key(m.buckets@, k) by {
                assert(forall|i: int, j: int| !entry_at(m.buckets@, i, j));
            }
            assert(m@ =~= Map::<K::V, V>::empty());
        }
        m
    }

    /// The current occupancy count: the number of distinct keys stored.
    pub fn len(&self) -> (n: usize)
        requires
            self.wf(),
        ensures
            n as nat == self@.len(),
    {
        self.items
    }

    /// The bucket index `key` hashes to among `n` buckets.
    fn home_index(key: &K, n: usize) -> (bi: usize)
        requires
            n > 0,
        ensures
            bi as nat == home_bucket::<K>(key@, n as nat),
            bi < n,
    {
        let h = key.hash_code();
        (h % (n as u64)) as usize
    }

    /// The bucket index `key` hashes to in the current bucket array.
    fn bucket(&self, key: &K) -> (bi: usize)
        requires
            self.buckets@.len() > 0,
        ensures
            bi as nat == home_bucket::<K>(key@, self.buckets@.len() as nat),
            bi < self.buckets@.len(),
    {
        Self::home_index(key, self.buckets.len())
    }

    /// Scan `bucket` for an entry whose key has the same abstract value as
    /// `key`, returning its position.
    fn find_entry(bucket: &Vec<(K, V)>, key: &K) -> (r: Option<usize>)
        ensures
            match r {
                Some(j) => j < bucket@.len() && bucket@[j as int].0@ == key@,
                None => forall|q: int| 0 <= q < bucket@.len() ==> bucket@[q].0@ != key@,
            },
    {
        let mut j: usize = 0;
        while j < bucket.len()
            invariant
                j <= bucket@.len(),
                forall|q: int| 0 <= q < j ==> bucket@[q].0@ != key@,
            decreases bucket@.len() - j,
        {
            let pair = &bucket[j];
            if pair.0.key_eq(key) {
                return Some(j);
            }
            j = j + 1;
        }
        None
    }

    /// Grow the bucket array — to the base count when the table has none yet,
    /// else to double the current count — and move every entry into the
    /// bucket its key hashes to under the new count. The represented mapping
    /// does not change.
    fn resize(&mut self)
        requires
            old(self).wf(),
            old(self).buckets@.len() <= usize::MAX as nat / 4,
        ensures
            final(self).wf(),
            final(self)@ == old(self)@,
            final(self).items == old(self).items,
            final(self).buckets@.len() == (if old(self).buckets@.len() == 0 {
                INITIAL_NBUCKETS as nat
            } else {
                2 * old(self).buckets@.len()
            }),
    {
        let target: usize = if self.buckets.len() == 0 {
            INITIAL_NBUCKETS
        } else {
            2 * self.buckets.len()
        };
        let ghost orig_map = self@;
        let ghost orig_bs = self.buckets@;
        let ghost orig_items = self.items;

        let mut new_buckets: Vec<Vec<(K, V)>> = Vec::with_capacity(target);
        while new_buckets.len() < target
            invariant
                new_buckets@.len() <= target,
                forall|q: int| 0 <= q < new_buckets@.len() ==> new_buckets@[q]@.len() == 0,
            decreases target - new_buckets@.len(),
        {
            new_buckets.push(Vec::new());
        }
        proof {
            lemma_all_keys_distinct(self.buckets@);
            assert(forall|a: int, b: int| !entry_at(new_buckets@, a, b));
            assert forall|k: K::V| !has_key(new_buckets@, k) by {
                if has_key(new_buckets@, k) {
                    let (a, b) = choose|a: int, b: int|
                        entry_at(new_buckets@, a, b) && #[trigger] key_at(new_buckets@, a, b)
                            == k;
                }
            }
            assert forall|k: K::V| #[trigger] orig_map.contains_key(k) implies has_key(
                self.buckets@,
                k,
            ) by {}
            assert forall|i: int, j: int| #[trigger] entry_at(self.buckets@, i, j) implies
                orig_map.contains_key(key_at(self.buckets@, i, j)) && orig_map[key_at(
                self.buckets@,
                i,
                j,
            )] == value_at(self.buckets@, i, j) by {
                lemma_entry_in_map(self.buckets@, i, j);
            }
        }
        while self.buckets.len() > 0
            invariant
                target > 0,
                new_buckets@.len() == target as nat,
                self.items == orig_items,
                entries_placed::<K, V>(new_buckets@),
                no_dup_in_buckets(new_buckets@),
                entries_agree(new_buckets@, orig_map),
                entries_agree(self.buckets@, orig_map),
                all_keys_distinct(self.buckets@),
                forall|k: K::V| !(has_key(self.buckets@, k) && has_key(new_buckets@, k)),
                forall|k: K::V| #[trigger]
                    orig_map.contains_key(k) <==> (has_key(self.buckets@, k) || has_key(
                        new_buckets@,
                        k,
                    )),
            decreases self.buckets@.len(),
        {
            let ghost pre_bss = self.buckets@;
            let mut b = self.buckets.pop().unwrap();
            proof {
                assert(self.buckets@ =~= pre_bss.drop_last());
                assert(b@ == pre_bss[pre_bss.len() - 1]@);
                assert forall|i: int, j: int| #[trigger] entry_at(self.buckets@, i, j) implies
                    entry_at(pre_bss, i, j) && key_at(self.buckets@, i, j) == key_at(
                    pre_bss,
                    i,
                    j,
                ) && value_at(self.buckets@, i, j) == value_at(pre_bss, i, j) by {}
                assert forall|k: K::V| #[trigger] has_key(pre_bss, k) implies has_key(
                    self.buckets@,
                    k,
                ) || seq_has_key(b@, k) by {
                    let (i, j) = choose|i: int, j: int|
                        entry_at(pre_bss, i, j) && #[trigger] key_at(pre_bss, i, j) == k;
                    if i == pre_bss.len() - 1 {
                        assert(b@[j].0@ == k);
                    } else {
                        assert(entry_at(self.buckets@, i, j));
                        assert(key_at(self.buckets@, i, j) == k);
                    }
                }
                assert forall|k: K::V| has_key(self.buckets@, k) implies #[trigger] has_key(
                    pre_bss,
                    k,
                ) by {
                    let (i, j) = choose|i: int, j: int|
                        entry_at(self.buckets@, i, j) && #[trigger] key_at(self.buckets@, i, j)
                            == k;
                    assert(entry_at(pre_bss, i, j) && key_at(pre_bss, i, j) == k);
                }
                assert forall|k: K::V| seq_has_key(b@, k) implies #[trigger] has_key(
                    pre_bss,
                    k,
                ) by {
                    let j = choose|j: int| 0 <= j < b@.len() && #[trigger] b@[j].0@ == k;
                    assert(entry_at(pre_bss, pre_bss.len() - 1, j));
                    assert(key_at(pre_bss, pre_bss.len() - 1, j) == k);
                }
                assert forall|j1: int, j2: int| 0 <= j1 < j2 < b@.len() implies b@[j1].0@
                    != b@[j2].0@ by {
                    assert(entry_at(pre_bss, pre_bss.len() - 1, j1));
                    assert(entry_at(pre_bss, pre_bss.len() - 1, j2));
                    assert(key_at(pre_bss, pre_bss.len() - 1, j1) == b@[j1].0@);
                    assert(key_at(pre_bss, pre_bss.len() - 1, j2) == b@[j2].0@);
                }
                assert forall|j: int| 0 <= j < b@.len() implies orig_map.contains_key(b@[j].0@)
                    && orig_map[b@[j].0@] == b@[j].1 by {
                    assert(entry_at(pre_bss, pre_bss.len() - 1, j));
                    assert(key_at(pre_bss, pre_bss.len() - 1, j) == b@[j].0@);
                    assert(value_at(pre_bss, pre_bss.len() - 1, j) == b@[j].1);
                }
                assert forall|k: K::V| !(has_key(self.buckets@, k) && seq_has_key(b@, k)) by {
                    if has_key(self.buckets@, k) && seq_has_key(b@, k) {
                        let (i, j) = choose|i: int, j: int|
                            entry_at(self.buckets@, i, j) && #[trigger] key_at(
                                self.buckets@,
                                i,
                                j,
                            ) == k;
                        let j2 = choose|j2: int| 0 <= j2 < b@.len() && #[trigger] b@[j2].0@ == k;
                        assert(entry_at(pre_bss, i, j) && key_at(pre_bss, i, j) == k);
                        assert(entry_at(pre_bss, pre_bss.len() - 1, j2) && key_at(
                            pre_bss,
                            pre_bss.len() - 1,
                            j2,
                        ) == k);
                    }
                }
            }
            while b.len() > 0
                invariant
                    target > 0,
                    new_buckets@.len() == target as nat,
                    entries_placed::<K, V>(new_buckets@),
                    no_dup_in_buckets(new_buckets@),
                    entries_agree(new_buckets@, orig_map),
                    forall|j1: int, j2: int|
                        0 <= j1 < j2 < b@.len() ==> #[trigger] b@[j1].0@ != #[trigger] b@[j2].0@,
                    forall|j: int|
                        0 <= j < b@.len() ==> orig_map.contains_key(#[trigger] b@[j].0@)
                            && orig_map[b@[j].0@] == b@[j].1,
                    forall|k: K::V| !(seq_has_key(b@, k) && has_key(new_buckets@, k)),
                    forall|k: K::V| !(has_key(self.buckets@, k) && has_key(new_buckets@, k)),
                    forall|k: K::V| !(has_key(self.buckets@, k) && seq_has_key(b@, k)),
                    forall|k: K::V| #[trigger]
                        orig_map.contains_key(k) <==> (has_key(self.buckets@, k) || seq_has_key(
                            b@,
                            k,
                        ) || has_key(new_buckets@, k)),
                decreases b@.len(),
            {
                let ghost pre_b = b@;
                let ghost pre_nb = new_buckets@;
                let pair = b.pop().unwrap();
                let ghost gpair = pair;
                let ghost kv = pair.0@;
                let bi = Self::home_index(&pair.0, target);
                let nbr = &mut new_buckets[bi];
                nbr.push(pair);
                proof {
                    let nb2 = new_buckets@;
                    let pos = pre_nb[bi as int]@.len() as int;
                    assert(b@ =~= pre_b.drop_last());
                    assert(nb2.len() == pre_nb.len());
                    assert(nb2[bi as int]@ == pre_nb[bi as int]@.push(gpair));
                    assert(gpair.0@ == kv);
                    assert(seq_has_key(pre_b, kv)) by {
                        assert(pre_b[pre_b.len() - 1].0@ == kv);
                    }
                    // every entry of the grown array is the new pair or an old entry
                    assert forall|i: int, j: int| #[trigger] entry_at(nb2, i, j) implies (
                        (i == bi as int && j == pos && key_at(nb2, i, j) == kv && value_at(nb2, i, j) == gpair.1)
                        || (entry_at(pre_nb, i, j) && key_at(nb2, i, j) == key_at(pre_nb, i, j)
                            && value_at(nb2, i, j) == value_at(pre_nb, i, j))) by {}
                    // kv was pending, so it is not yet in the new array
                    assert(!has_key(pre_nb, kv));
                    assert forall|i: int, j: int| #[trigger] entry_at(nb2, i, j) implies
                        home_bucket::<K>(key_at(nb2, i, j), nb2.len() as nat) == i by {
                        if !(i == bi as int && j == pos) {
                            assert(entry_at(pre_nb, i, j));
                        }
                    }
                    assert forall|i: int, j1: int, j2: int|
                        entry_at(nb2, i, j1) && entry_at(nb2, i, j2) && j1 != j2 implies #[trigger] key_at(
                        nb2,
                        i,
                        j1,
                    ) != #[trigger] key_at(nb2, i, j2) by {
                        if entry_at(pre_nb, i, j1) && entry_at(pre_nb, i, j2) {
                        } else if entry_at(pre_nb, i, j1) {
                            // j2 is the new pair
                            if key_at(pre_nb, i, j1) == kv {
                                assert(has_key(pre_nb, kv));
                            }
                        } else if entry_at(pre_nb, i, j2) {
                            if key_at(pre_nb, i, j2) == kv {
                                assert(has_key(pre_nb, kv));
                            }
                        }
                    }
                    assert forall|i: int, j: int| #[trigger] entry_at(nb2, i, j) implies
                        orig_map.contains_key(key_at(nb2, i, j)) && orig_map[key_at(nb2, i, j)]
                            == value_at(nb2, i, j) by {
                        if !(i == bi as int && j == pos) {
                            assert(entry_at(pre_nb, i, j));
                        } else {
                            assert(orig_map.contains_key(pre_b[pre_b.len() - 1].0@));
                        }
                    }
                    // key-set characterizations
                    assert forall|k: K::V| #[trigger] has_key(nb2, k) implies (has_key(pre_nb, k)
                        || k == kv) by {
                        let (i, j) = choose|i: int, j: int|
                            entry_at(nb2, i, j) && #[trigger] key_at(nb2, i, j) == k;
                    }
                    assert forall|k: K::V| has_key(pre_nb, k) implies #[trigger] has_key(
                        nb2,
                        k,
                    ) by {
                        let (i, j) = choose|i: int, j: int|
                            entry_at(pre_nb, i, j) && #[trigger] key_at(pre_nb, i, j) == k;
                        if i == bi as int {
                            assert(entry_at(nb2, i, j) && key_at(nb2, i, j) == k);
                        } else {
                            assert(entry_at(nb2, i, j) && key_at(nb2, i, j) == k);
                        }
                    }
                    assert(has_key(nb2, kv)) by {
                        assert(entry_at(nb2, bi as int, pos) && key_at(nb2, bi as int, pos) == kv);
                    }
                    assert(!seq_has_key(b@, kv)) by {
                        if seq_has_key(b@, kv) {
                            let j = choose|j: int| 0 <= j < b@.len() && #[trigger] b@[j].0@ == kv;
                            assert(pre_b[j].0@ == pre_b[pre_b.len() - 1].0@);
                        }
                    }
                    assert forall|k: K::V| #[trigger] seq_has_key(b@, k) implies seq_has_key(
                        pre_b,
                        k,
                    ) && k != kv by {
                        let j = choose|j: int| 0 <= j < b@.len() && #[trigger] b@[j].0@ == k;
                        assert(pre_b[j].0@ == k);
                    }
                    assert forall|k: K::V| seq_has_key(pre_b, k) && k != kv implies #[trigger] seq_has_key(
                        b@,
                        k,
                    ) by {
                        let j = choose|j: int| 0 <= j < pre_b.len() && #[trigger] pre_b[j].0@ == k;
                        assert(j < pre_b.len() - 1);
                        assert(b@[j].0@ == k);
                    }
                }
            }
            proof {
                assert forall|k: K::V| !seq_has_key(b@, k) by {
                    if seq_has_key(b@, k) {
                        let j = choose|j: int| 0 <= j < b@.len() && #[trigger] b@[j].0@ == k;
                    }
                }
            }
        }
        proof {
            assert forall|k: K::V| #[trigger] orig_map.contains_key(k) implies has_key(
                new_buckets@,
                k,
            ) by {
                if has_key(self.buckets@, k) {
                    let (i, j) = choose|i: int, j: int|
                        entry_at(self.buckets@, i, j) && #[trigger] key_at(self.buckets@, i, j)
                            == k;
                }
            }
            lemma_map_of_eq(new_buckets@, orig_map);
        }
        self.buckets = new_buckets;
        proof {
            assert(self@ == orig_map);
            if orig_bs.len() == 0 {
                assert(valid_bucket_count(INITIAL_NBUCKETS as nat));
            } else {
                let n = orig_bs.len() as nat;
                assert(n >= INITIAL_NBUCKETS as nat);
                assert(2 * n / 2 == n);
                assert(valid_bucket_count(2 * n));
            }
        }
    }

    /// Insert `key` with `value`, returning the value the key was bound to
    /// before, or nothing when the key is new. When the table has no buckets
    /// yet, or its occupancy exceeds 3/4 of the bucket count, the bucket
    /// array grows first; the pair is then placed in the key's home bucket.
    ///
    /// The bounds required of the table's size are machine limits: the
    /// occupancy count must stay a `usize`, and the doubled bucket count must
    /// fit in one.
    pub fn insert(&mut self, key: K, value: V) -> (prev: Option<V>)
        requires
            old(self).wf(),
            old(self)@.len() < usize::MAX as nat,
            old(self).num_buckets() <= usize::MAX as nat / 4,
        ensures
            final(self).wf(),
            final(self)@ == old(self)@.insert(key@, value),
            prev == (if old(self)@.contains_key(key@) {
                Some(old(self)@[key@])
            } else {
                None::<V>
            }),
            final(self)@.len() == old(self)@.len() + (if old(self)@.contains_key(key@) {
                0int
            } else {
                1int
            }),
            final(self).num_buckets() == (if old(self).num_buckets() == 0 {
                INITIAL_NBUCKETS as nat
            } else if old(self)@.len() > 3 * old(self).num_buckets() / 4 {
                2 * old(self).num_buckets()
            } else {
                old(self).num_buckets()
            }),
    {
        if self.buckets.is_empty() || self.items > 3 * self.buckets.len() / 4 {
            self.resize();
        }
        let ghost pre = *self;
        let ghost kv = key@;
        let ghost pv = value;
        let ghost gkey = key;
        let bi = self.bucket(&key);
        let ghost bs = self.buckets@;
        proof {
            assert forall|i: int, j: int| #[trigger] entry_at(bs, i, j) implies pre@.contains_key(
                key_at(bs, i, j),
            ) && pre@[key_at(bs, i, j)] == value_at(bs, i, j) by {
                lemma_entry_in_map(bs, i, j);
            }
        }
        match Self::find_entry(&self.buckets[bi], &key) {
            Some(j) => {
                proof {
                    lemma_entry_in_map(bs, bi as int, j as int);
                    assert forall|k: K::V| #[trigger] pre@.contains_key(k) implies has_key(
                        bs,
                        k,
                    ) by {}
                }
                // replace the value in place; the entry keeps its key and
                // its position in the bucket
                let mut displaced = value;
                let slot = Self::slot_handle(&mut self.buckets, bi, j);
                core::mem::swap(slot, &mut displaced);
                proof {
                    lemma_value_update(bs, self.buckets@, bi as int, j as int, pre@, pv);
                    assert(pre@.insert(kv, pv).dom() =~= pre@.dom());
                }
                Some(displaced)
            },
            None => {
                proof {
                    assert forall|q: int| 0 <= q < bs[bi as int]@.len() implies key_at(
                        bs,
                        bi as int,
                        q,
                    ) != kv by {}
                    lemma_absent(bs, kv);
                }
                let bucket = &mut self.buckets[bi];
                bucket.push((key, value));
                self.items = self.items + 1;
                proof {
                    let m2 = pre@.insert(kv, pv);
                    let bs2 = self.buckets@;
                    let s = bs[bi as int]@;
                    let pos = s.len() as int;
                    assert(bs2.len() == bs.len());
                    assert(bs2[bi as int]@ == s.push((gkey, pv)));
                    assert forall|i: int, j2: int| #[trigger] entry_at(bs2, i, j2) implies ((i
                        == bi as int && j2 == pos && key_at(bs2, i, j2) == kv && value_at(
                        bs2,
                        i,
                        j2,
                    ) == pv) || (entry_at(bs, i, j2) && key_at(bs2, i, j2) == key_at(bs, i, j2)
                        && value_at(bs2, i, j2) == value_at(bs, i, j2))) by {}
                    assert forall|i: int, j2: int| #[trigger] entry_at(bs2, i, j2) implies
                        home_bucket::<K>(key_at(bs2, i, j2), bs2.len() as nat) == i by {}
                    assert forall|i: int, j1: int, j2: int|
                        entry_at(bs2, i, j1) && entry_at(bs2, i, j2) && j1 != j2 implies #[trigger] key_at(
                        bs2,
                        i,
                        j1,
                    ) != #[trigger] key_at(bs2, i, j2) by {
                        if key_at(bs2, i, j1) == key_at(bs2, i, j2) {
                            if i == bi as int && j1 == pos {
                                assert(entry_at(bs, i, j2) && key_at(bs, i, j2) == kv);
                            } else if i == bi as int && j2 == pos {
                                assert(entry_at(bs, i, j1) && key_at(bs, i, j1) == kv);
                            }
                        }
                    }
                    assert forall|i: int, j2: int| #[trigger] entry_at(bs2, i, j2) implies
                        m2.contains_key(key_at(bs2, i, j2)) && m2[key_at(bs2, i, j2)] == value_at(
                        bs2,
                        i,
                        j2,
                    ) by {
                        if !(i == bi as int && j2 == pos) {
                            if key_at(bs, i, j2) == kv {
                                assert(has_key(bs, kv));
                            }
                        }
                    }
                    assert forall|k: K::V| #[trigger] m2.contains_key(k) implies has_key(
                        bs2,
                        k,
                    ) by {
                        if k == kv {
                            assert(entry_at(bs2, bi as int, pos) && key_at(bs2, bi as int, pos)
                                == kv);
                        } else {
                            let (i, j2) = choose|i: int, j2: int|
                                entry_at(bs, i, j2) && #[trigger] key_at(bs, i, j2) == k;
                            assert(entry_at(bs2, i, j2) && key_at(bs2, i, j2) == k);
                        }
                    }
                    lemma_map_of_eq(bs2, m2);
                    assert(m2.dom() =~= pre@.dom().insert(kv));
                }
                None
            },
        }
    }

    /// Look up `key`, returning a reference to its value when present.
    pub fn get(&self, key: &K) -> (r: Option<&V>)
        requires
            self.wf(),
        ensures
            match r {
                Some(v) => self@.contains_key(key@) && *v == self@[key@],
                None => !self@.contains_key(key@),
            },
    {
        if self.buckets.len() == 0 {
            proof {
                if has_key(self.buckets@, key@) {
                    let (i, j) = choose|i: int, j: int|
                        entry_at(self.buckets@, i, j) && #[trigger] key_at(self.buckets@, i, j)
                            == key@;
                }
            }
            return None;
        }
        let bi = self.bucket(key);
        match Self::find_entry(&self.buckets[bi], key) {
            Some(j) => {
                proof {
                    lemma_entry_in_map(self.buckets@, bi as int, j as int);
                }
                Some(&self.buckets[bi][j].1)
            },
            None => {
                proof {
                    assert forall|j: int|
                        0 <= j < self.buckets@[bi as int]@.len() implies key_at(
                        self.buckets@,
                        bi as int,
                        j,
                    ) != key@ by {}
                    lemma_absent(self.buckets@, key@);
                }
                None
            },
        }
    }

    /// An exclusive handle to the value at bucket `bi`, position `j`. The
    /// entry keeps its key: only the value can change through the handle.
    fn slot_handle(bs: &mut Vec<Vec<(K, V)>>, bi: usize, j: usize) -> (v: &mut V)
        requires
            bi < old(bs)@.len(),
            j < old(bs)@[bi as int]@.len(),
        ensures
            *v == old(bs)@[bi as int]@[j as int].1,
            final(bs)@.len() == old(bs)@.len(),
            forall|q: int| 0 <= q < old(bs)@.len() && q != bi ==> final(bs)@[q]@ == old(bs)@[q]@,
            final(bs)@[bi as int]@ == old(bs)@[bi as int]@.update(
                j as int,
                (old(bs)@[bi as int]@[j as int].0, *final(v)),
            ),
    {
        let bucket = &mut bs[bi];
        let slot = &mut bucket[j];
        &mut slot.1
    }

    /// Look up `key`, returning an exclusive handle to its value when
    /// present. The caller may replace the value in place; the key itself
    /// cannot be reached through the handle, so every entry stays in its home
    /// bucket.
    pub fn get_mut(&mut self, key: &K) -> (r: Option<&mut V>)
        requires
            old(self).wf(),
        ensures
            final(self).wf(),
            final(self).num_buckets() == old(self).num_buckets(),
            r.is_some() == old(self)@.contains_key(key@),
            r.is_none() ==> final(self)@ == old(self)@,
            r.is_some() ==> *r.unwrap() == old(self)@[key@] && final(self)@ == old(
                self,
            )@.insert(key@, *final(r.unwrap())),
    {
        let ghost m0 = self@;
        let ghost kv = key@;
        if self.buckets.is_empty() {
            proof {
                if has_key(self.buckets@, kv) {
                    let (a, b) = choose|a: int, b: int|
                        entry_at(self.buckets@, a, b) && #[trigger] key_at(self.buckets@, a, b)
                            == kv;
                }
            }
            return None;
        }
        let bi = self.bucket(key);
        let ghost bs = self.buckets@;
        proof {
            assert forall|i: int, j: int| #[trigger] entry_at(bs, i, j) implies m0.contains_key(
                key_at(bs, i, j),
            ) && m0[key_at(bs, i, j)] == value_at(bs, i, j) by {
                lemma_entry_in_map(bs, i, j);
            }
        }
        match Self::find_entry(&self.buckets[bi], key) {
            None => {
                proof {
                    assert forall|q: int| 0 <= q < bs[bi as int]@.len() implies key_at(
                        bs,
                        bi as int,
                        q,
                    ) != kv by {}
                    lemma_absent(bs, kv);
                }
                None
            },
            Some(j) => {
                proof {
                    lemma_entry_in_map(bs, bi as int, j as int);
                    assert forall|bs2: Seq<Vec<(K, V)>>|
                        #![trigger map_of(bs2)]
                        #![trigger entries_placed::<K, V>(bs2)]
                        #![trigger no_dup_in_buckets(bs2)]
                        (bs2.len() == bs.len() && (forall|q: int|
                            0 <= q < bs.len() && q != bi ==> bs2[q]@ == bs[q]@) && bs2[bi as int]@
                            == bs[bi as int]@.update(
                            j as int,
                            (bs[bi as int]@[j as int].0, value_at(bs2, bi as int, j as int)),
                        )) implies (entries_placed::<K, V>(bs2) && no_dup_in_buckets(bs2)
                        && map_of(bs2) == m0.insert(kv, value_at(bs2, bi as int, j as int))
                        && map_of(bs2).dom() == m0.dom()) by {
                        lemma_value_update(
                            bs,
                            bs2,
                            bi as int,
                            j as int,
                            m0,
                            value_at(bs2, bi as int, j as int),
                        );
                    }
                }
                let v = Self::slot_handle(&mut self.buckets, bi, j);
                Some(v)
            },
        }
    }

    /// Remove `key`'s entry, returning the value it was bound to, or nothing
    /// when the key is absent, in which case the table is unchanged. Removal
    /// never shrinks or grows the bucket array.
    pub fn remove(&mut self, key: &K) -> (r: Option<V>)
        requires
            old(self).wf(),
        ensures
            final(self).wf(),
            final(self)@ == old(self)@.remove(key@),
            r == (if old(self)@.contains_key(key@) {
                Some(old(self)@[key@])
            } else {
                None::<V>
            }),
            final(self)@.len() == old(self)@.len() - (if old(self)@.contains_key(key@) {
                1int
            } else {
                0int
            }),
            final(self).num_buckets() == old(self).num_buckets(),
    {
        let ghost m0 = self@;
        let ghost kv = key@;
        if self.buckets.is_empty() {
            proof {
                if has_key(self.buckets@, kv) {
                    let (a, b) = choose|a: int, b: int|
                        entry_at(self.buckets@, a, b) && #[trigger] key_at(self.buckets@, a, b)
                            == kv;
                }
                assert(m0.remove(kv) =~= m0);
            }
            return None;
        }
        let bi = self.bucket(key);
        let ghost bs = self.buckets@;
        proof {
            assert forall|i: int, j: int| #[trigger] entry_at(bs, i, j) implies m0.contains_key(
                key_at(bs, i, j),
            ) && m0[key_at(bs, i, j)] == value_at(bs, i, j) by {
                lemma_entry_in_map(bs, i, j);
            }
        }
        match Self::find_entry(&self.buckets[bi], key) {
            None => {
                proof {
                    assert forall|q: int| 0 <= q < bs[bi as int]@.len() implies key_at(
                        bs,
                        bi as int,
                        q,
                    ) != kv by {}
                    lemma_absent(bs, kv);
                    assert(m0.remove(kv) =~= m0);
                }
                None
            },
            Some(j) => {
                proof {
                    lemma_entry_in_map(bs, bi as int, j as int);
                    assert(m0.dom().remove(kv).len() == m0.len() - 1);
                }
                let bucket = &mut self.buckets[bi];
                let pair = bucket.remove(j);
                if self.items > 0 {
                    self.items = self.items - 1;
                }
                proof {
                    let m2 = m0.remove(kv);
                    let bs2 = self.buckets@;
                    let s = bs[bi as int]@;
                    s.remove_ensures(j as int);
                    assert(bs2.len() == bs.len());
                    assert(bs2[bi as int]@ == s.remove(j as int));
                    assert(key_at(bs, bi as int, j as int) == kv);
                    lemma_all_keys_distinct(bs);
                    // every surviving entry is an entry of the old array with
                    // a key other than kv
                    assert forall|i: int, j2: int| #[trigger] entry_at(bs2, i, j2) implies (
                        entry_at(bs, i, j2) && i != bi as int && key_at(bs2, i, j2) == key_at(
                        bs,
                        i,
                        j2,
                    ) && value_at(bs2, i, j2) == value_at(bs, i, j2)) || (i == bi as int && exists|
                        o: int,
                    |
                        entry_at(bs, i, o) && o != j && #[trigger] key_at(bs, i, o) == key_at(
                            bs2,
                            i,
                            j2,
                        ) && value_at(bs, i, o) == value_at(bs2, i, j2)) by {
                        if i == bi as int {
                            let o: int = if j2 < j { j2 } else { j2 + 1 };
                            assert(bs2[i]@[j2] == bs[i]@[o]);
                            assert(entry_at(bs, i, o) && o != j);
                            assert(key_at(bs, i, o) == key_at(bs2, i, j2) && value_at(bs, i, o)
                                == value_at(bs2, i, j2));
                        }
                    }
                    assert forall|i: int, j2: int| #[trigger] entry_at(bs2, i, j2) implies
                        home_bucket::<K>(key_at(bs2, i, j2), bs2.len() as nat) == i by {}
                    assert forall|i: int, j1: int, j2: int|
                        entry_at(bs2, i, j1) && entry_at(bs2, i, j2) && j1 != j2 implies #[trigger] key_at(
                        bs2,
                        i,
                        j1,
                    ) != #[trigger] key_at(bs2, i, j2) by {
                        if i == bi as int {
                            let o1: int = if j1 < j { j1 } else { j1 + 1 };
                            let o2: int = if j2 < j { j2 } else { j2 + 1 };
                            assert(bs2[i]@[j1] == bs[i]@[o1]);
                            assert(bs2[i]@[j2] == bs[i]@[o2]);
                            assert(entry_at(bs, i, o1) && entry_at(bs, i, o2) && o1 != o2);
                            assert(key_at(bs, i, o1) != key_at(bs, i, o2));
                        }
                    }
                    assert forall|i: int, j2: int| #[trigger] entry_at(bs2, i, j2) implies
                        m2.contains_key(key_at(bs2, i, j2)) && m2[key_at(bs2, i, j2)] == value_at(
                        bs2,
                        i,
                        j2,
                    ) by {
                        if i == bi as int {
                            let o: int = if j2 < j { j2 } else { j2 + 1 };
                            assert(bs2[i]@[j2] == bs[i]@[o]);
                            assert(entry_at(bs, i, o) && o != j);
                            assert(key_at(bs, i, o) != kv);
                        } else {
                            assert(entry_at(bs, i, j2));
                            if key_at(bs, i, j2) == kv {
                                lemma_entry_unique(bs, bi as int, j as int, i, j2);
                            }
                        }
                    }
                    assert forall|k: K::V| #[trigger] m2.contains_key(k) implies has_key(
                        bs2,
                        k,
                    ) by {
                        let (i, j2) = choose|i: int, j2: int|
                            entry_at(bs, i, j2) && #[trigger] key_at(bs, i, j2) == k;
                        if i != bi as int {
                            assert(entry_at(bs2, i, j2) && key_at(bs2, i, j2) == k);
                        } else {
                            assert(j2 != j);
                            if j2 < j {
                                assert(bs2[i]@[j2] == bs[i]@[j2]);
                                assert(entry_at(bs2, i, j2) && key_at(bs2, i, j2) == k);
                            } else {
                                assert(bs2[i]@[j2 - 1] == bs[i]@[j2]);
                                assert(entry_at(bs2, i, j2 - 1) && key_at(bs2, i, j2 - 1) == k);
                            }
                        }
                    }
                    lemma_map_of_eq(bs2, m2);
                    assert(m2.dom() =~= m0.dom().remove(kv));
                }
                Some(pair.1)
            },
        }
    }

    /// True when the table holds an entry for `key`; defined exactly as
    /// "`get` finds something".
    pub fn contains_key(&self, key: &K) -> (r: bool)
        requires
            self.wf(),
        ensures
            r == self@.contains_key(key@),
    {
        self.get(key).is_some()
    }

    /// The allocated storage capacity of the bucket array. This introspects
    /// the allocation; it is distinct from both the bucket count and the
    /// occupancy count.
    pub fn capacity(&self) -> (c: usize)
        ensures
            c >= self.num_buckets(),
    {
        vec_capacity(&self.buckets)
    }

    /// Empty every bucket and reset the occupancy count to zero. The bucket
    /// array keeps its length (and its allocation) for reuse.
    pub fn clear(&mut self)
        requires
            old(self).wf(),
        ensures
            final(self).wf(),
            final(self)@ == Map::<K::V, V>::empty(),
            final(self).num_buckets() == old(self).num_buckets(),
    {
        let n = self.buckets.len();
        let mut i: usize = 0;
        while i < n
            invariant
                i <= n,
                self.buckets@.len() == n,
                valid_bucket_count(n as nat),
                forall|q: int| 0 <= q < i ==> self.buckets@[q]@.len() == 0,
            decreases n - i,
        {
            let bucket = &mut self.buckets[i];
            bucket.clear();
            i = i + 1;
        }
        self.items = 0;
        proof {
            assert forall|k: K::V| !has_key(self.buckets@, k) by {
                if has_key(self.buckets@, k) {
                    let (a, b) = choose|a: int, b: int|
                        entry_at(self.buckets@, a, b) && #[trigger] key_at(self.buckets@, a, b)
                            == k;
                }
            }
            assert(self@ =~= Map::<K::V, V>::empty());
            assert(self@.dom() =~= Set::<K::V>::empty());
        }
    }

    /// True when the table holds no entries.
    pub fn is_empty(&self) -> (r: bool)
        requires
            self.wf(),
        ensures
            r == (self@.len() == 0),
    {
        self.items == 0
    }
}

} // verus!
