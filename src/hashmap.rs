//! A hash table with separate chaining, seeded once per table.
use vstd::prelude::*;
use crate::hasher::{bucket_index, slot_of};
use crate::key::HashKey;

verus! {

/// The number of buckets of a table made by `HashMap::new`.
pub const DEFAULT_CAPACITY: usize = 16;

/// Whether some entry of the chain has key `k`.
pub open spec fn chain_has<K, V>(chain: Seq<(K, V)>, k: K) -> bool {
    exists|j: int| 0 <= j < chain.len() && (#[trigger] chain[j]).0 == k
}

/// Whether some entry of some bucket has key `k`.
pub open spec fn table_has<K, V>(b: Seq<Vec<(K, V)>>, k: K) -> bool {
    exists|i: int, j: int| 0 <= i < b.len() && 0 <= j < b[i]@.len() && (#[trigger] b[i]@[j]).0 == k
}

/// The value stored with key `k`, for a key that `table_has`.
pub open spec fn table_val<K, V>(b: Seq<Vec<(K, V)>>, k: K) -> V {
    let (i, j) = choose|i: int, j: int|
        0 <= i < b.len() && 0 <= j < b[i]@.len() && (#[trigger] b[i]@[j]).0 == k;
    b[i]@[j].1
}

/// The key-value map that a sequence of buckets holds.
pub open spec fn table_map<K, V>(b: Seq<Vec<(K, V)>>) -> Map<K, V> {
    Map::new(|k: K| table_has(b, k), |k: K| table_val(b, k))
}

/// Buckets laid out for `capacity` slots and `seed`: every entry sits in the
/// bucket that its key hashes to, and no bucket holds a key twice.
pub open spec fn table_wf<K: HashKey, V>(b: Seq<Vec<(K, V)>>, seed: u64, capacity: nat) -> bool {
    &&& capacity > 0
    &&& b.len() == capacity
    &&& forall|i: int, j: int|
        0 <= i < b.len() && 0 <= j < b[i]@.len() ==> slot_of(
            seed,
            (#[trigger] b[i]@[j]).0.key_bytes(),
            capacity,
        ) == i
    &&& forall|i: int, j1: int, j2: int|
        0 <= i < b.len() && 0 <= j1 < b[i]@.len() && 0 <= j2 < b[i]@.len() && (
        #[trigger] b[i]@[j1]).0 == (#[trigger] b[i]@[j2]).0 ==> j1 == j2
}

/// In well-formed buckets an entry's value is the value the table maps its key to.
pub proof fn lemma_entry_value<K: HashKey, V>(
    b: Seq<Vec<(K, V)>>,
    seed: u64,
    capacity: nat,
    i: int,
    j: int,
)
    requires
        table_wf(b, seed, capacity),
        0 <= i < b.len(),
        0 <= j < b[i]@.len(),
    ensures
        table_has(b, b[i]@[j].0),
        table_val(b, b[i]@[j].0) == b[i]@[j].1,
{
    let k = b[i]@[j].0;
    assert(table_has(b, k));
    let (i2, j2) = choose|i2: int, j2: int|
        0 <= i2 < b.len() && 0 <= j2 < b[i2]@.len() && (#[trigger] b[i2]@[j2]).0 == k;
    assert(slot_of(seed, b[i2]@[j2].0.key_bytes(), capacity) == i2);
    assert(slot_of(seed, b[i]@[j].0.key_bytes(), capacity) == i);
    assert(b[i]@[j2].0 == b[i]@[j].0);
}

/// In well-formed buckets a key can only be in the bucket that it hashes to.
pub proof fn lemma_key_slot<K: HashKey, V>(b: Seq<Vec<(K, V)>>, seed: u64, capacity: nat, k: K)
    requires
        table_wf(b, seed, capacity),
    ensures
        table_has(b, k) == chain_has(b[slot_of(seed, k.key_bytes(), capacity)]@, k),
{
    let s = slot_of(seed, k.key_bytes(), capacity);
    if table_has(b, k) {
        let (i, j) = choose|i: int, j: int|
            0 <= i < b.len() && 0 <= j < b[i]@.len() && (#[trigger] b[i]@[j]).0 == k;
        assert(slot_of(seed, b[i]@[j].0.key_bytes(), capacity) == i);
        assert(b[s]@[j] == b[i]@[j]);
    }
    if chain_has(b[s]@, k) {
        let j = choose|j: int| 0 <= j < b[s]@.len() && (#[trigger] b[s]@[j]).0 == k;
        assert(b[s]@[j].0 == k);
    }
}

/// Appending an entry whose key is absent to the bucket that the key hashes to
/// keeps the buckets well-formed and adds the entry to the map.
pub proof fn lemma_push<K: HashKey, V>(
    b: Seq<Vec<(K, V)>>,
    b2: Seq<Vec<(K, V)>>,
    seed: u64,
    capacity: nat,
    idx: int,
    e: (K, V),
)
    requires
        table_wf(b, seed, capacity),
        idx == slot_of(seed, e.0.key_bytes(), capacity),
        !table_has(b, e.0),
        b2.len() == b.len(),
        b2[idx]@ == b[idx]@.push(e),
        forall|i: int| 0 <= i < b.len() && i != idx ==> (#[trigger] b2[i])@ == b[i]@,
    ensures
        table_wf(b2, seed, capacity),
        table_map(b2) == table_map(b).insert(e.0, e.1),
{
    let n = b[idx]@.len() as int;
    assert forall|i: int, j: int| 0 <= i < b2.len() && 0 <= j < b2[i]@.len() implies (
    #[trigger] b2[i]@[j]) == (if i == idx && j == n {
        e
    } else {
        b[i]@[j]
    }) by {}
    assert forall|i: int, j: int| 0 <= i < b2.len() && 0 <= j < b2[i]@.len() implies slot_of(
        seed,
        (#[trigger] b2[i]@[j]).0.key_bytes(),
        capacity,
    ) == i by {
        if !(i == idx && j == n) {
            assert(b2[i]@[j] == b[i]@[j]);
        }
    }
    assert forall|i: int, j1: int, j2: int|
        0 <= i < b2.len() && 0 <= j1 < b2[i]@.len() && 0 <= j2 < b2[i]@.len() && (
        #[trigger] b2[i]@[j1]).0 == (#[trigger] b2[i]@[j2]).0 implies j1 == j2 by {
        if i == idx && j1 == n && j2 != n {
            assert(b[i]@[j2].0 == e.0);
        } else if i == idx && j2 == n && j1 != n {
            assert(b[i]@[j1].0 == e.0);
        } else if j1 != j2 {
            assert(b[i]@[j1] == b2[i]@[j1]);
            assert(b[i]@[j2] == b2[i]@[j2]);
        }
    }
    assert forall|k: K| #[trigger] table_has(b2, k) == (table_has(b, k) || k == e.0) by {
        if table_has(b2, k) {
            let (i, j) = choose|i: int, j: int|
                0 <= i < b2.len() && 0 <= j < b2[i]@.len() && (#[trigger] b2[i]@[j]).0 == k;
            if !(i == idx && j == n) {
                assert(b[i]@[j] == b2[i]@[j]);
            }
        }
        if table_has(b, k) {
            let (i, j) = choose|i: int, j: int|
                0 <= i < b.len() && 0 <= j < b[i]@.len() && (#[trigger] b[i]@[j]).0 == k;
            assert(b2[i]@[j] == b[i]@[j]);
        }
        if k == e.0 {
            assert(b2[idx]@[n] == e);
        }
    }
    assert forall|k: K| #[trigger] table_has(b2, k) implies table_val(b2, k) == (if k == e.0 {
        e.1
    } else {
        table_val(b, k)
    }) by {
        if k == e.0 {
            assert(b2[idx]@[n] == e);
            lemma_entry_value(b2, seed, capacity, idx, n);
        } else {
            let (i, j) = choose|i: int, j: int|
                0 <= i < b.len() && 0 <= j < b[i]@.len() && (#[trigger] b[i]@[j]).0 == k;
            lemma_entry_value(b, seed, capacity, i, j);
            assert(b2[i]@[j] == b[i]@[j]);
            lemma_entry_value(b2, seed, capacity, i, j);
        }
    }
    assert(table_map(b2) =~= table_map(b).insert(e.0, e.1));
}

/// Taking the entry at position `j0` out of bucket `idx` keeps the buckets
/// well-formed and removes its key from the map.
pub proof fn lemma_remove<K: HashKey, V>(
    b: Seq<Vec<(K, V)>>,
    b2: Seq<Vec<(K, V)>>,
    seed: u64,
    capacity: nat,
    idx: int,
    j0: int,
)
    requires
        table_wf(b, seed, capacity),
        0 <= idx < b.len(),
        0 <= j0 < b[idx]@.len(),
        b2.len() == b.len(),
        b2[idx]@ == b[idx]@.remove(j0),
        forall|i: int| 0 <= i < b.len() && i != idx ==> (#[trigger] b2[i])@ == b[i]@,
    ensures
        table_wf(b2, seed, capacity),
        table_map(b2) == table_map(b).remove(b[idx]@[j0].0),
{
    let gone = b[idx]@[j0].0;
    assert forall|i: int, j: int| 0 <= i < b2.len() && 0 <= j < b2[i]@.len() implies (
    #[trigger] b2[i]@[j]) == (if i == idx && j >= j0 {
        b[i]@[j + 1]
    } else {
        b[i]@[j]
    }) by {}
    assert forall|i: int, j: int| 0 <= i < b2.len() && 0 <= j < b2[i]@.len() implies slot_of(
        seed,
        (#[trigger] b2[i]@[j]).0.key_bytes(),
        capacity,
    ) == i by {
        if i == idx && j >= j0 {
            assert(b2[i]@[j] == b[i]@[j + 1]);
        } else {
            assert(b2[i]@[j] == b[i]@[j]);
        }
    }
    assert forall|i: int, j1: int, j2: int|
        0 <= i < b2.len() && 0 <= j1 < b2[i]@.len() && 0 <= j2 < b2[i]@.len() && (
        #[trigger] b2[i]@[j1]).0 == (#[trigger] b2[i]@[j2]).0 implies j1 == j2 by {
        let o1 = if i == idx && j1 >= j0 { j1 + 1 } else { j1 };
        let o2 = if i == idx && j2 >= j0 { j2 + 1 } else { j2 };
        assert(b2[i]@[j1] == b[i]@[o1]);
        assert(b2[i]@[j2] == b[i]@[o2]);
    }
    assert forall|k: K| #[trigger] table_has(b2, k) == (table_has(b, k) && k != gone) by {
        if table_has(b2, k) {
            let (i, j) = choose|i: int, j: int|
                0 <= i < b2.len() && 0 <= j < b2[i]@.len() && (#[trigger] b2[i]@[j]).0 == k;
            let o = if i == idx && j >= j0 { j + 1 } else { j };
            assert(b2[i]@[j] == b[i]@[o]);
            assert(b[idx]@[j0] == b[idx]@[j0]);
        }
        if table_has(b, k) && k != gone {
            let (i, j) = choose|i: int, j: int|
                0 <= i < b.len() && 0 <= j < b[i]@.len() && (#[trigger] b[i]@[j]).0 == k;
            if i == idx && j > j0 {
                assert(b2[i]@[j - 1] == b[i]@[j]);
            } else {
                assert(b2[i]@[j] == b[i]@[j]);
            }
        }
    }
    assert forall|k: K| #[trigger] table_has(b2, k) implies table_val(b2, k) == table_val(b, k) by {
        let (i, j) = choose|i: int, j: int|
            0 <= i < b2.len() && 0 <= j < b2[i]@.len() && (#[trigger] b2[i]@[j]).0 == k;
        let o = if i == idx && j >= j0 { j + 1 } else { j };
        assert(b2[i]@[j] == b[i]@[o]);
        lemma_entry_value(b2, seed, capacity, i, j);
        lemma_entry_value(b, seed, capacity, i, o);
    }
    assert(table_map(b2) =~= table_map(b).remove(gone));
}

/// Giving the entry at position `j0` of bucket `idx` a new value keeps the
/// buckets well-formed and maps its key to that value.
pub proof fn lemma_replace<K: HashKey, V>(
    b: Seq<Vec<(K, V)>>,
    b2: Seq<Vec<(K, V)>>,
    seed: u64,
    capacity: nat,
    idx: int,
    j0: int,
    v: V,
)
    requires
        table_wf(b, seed, capacity),
        0 <= idx < b.len(),
        0 <= j0 < b[idx]@.len(),
        b2.len() == b.len(),
        b2[idx]@ == b[idx]@.update(j0, (b[idx]@[j0].0, v)),
        forall|i: int| 0 <= i < b.len() && i != idx ==> (#[trigger] b2[i])@ == b[i]@,
    ensures
        table_wf(b2, seed, capacity),
        table_map(b2) == table_map(b).insert(b[idx]@[j0].0, v),
{
    let k0 = b[idx]@[j0].0;
    assert forall|i: int, j: int| 0 <= i < b2.len() && 0 <= j < b2[i]@.len() implies (
    #[trigger] b2[i]@[j]).0 == b[i]@[j].0 && (!(i == idx && j == j0) ==> b2[i]@[j] == b[i]@[j]) by {}
    assert forall|i: int, j: int| 0 <= i < b2.len() && 0 <= j < b2[i]@.len() implies slot_of(
        seed,
        (#[trigger] b2[i]@[j]).0.key_bytes(),
        capacity,
    ) == i by {
        assert(b2[i]@[j].0 == b[i]@[j].0);
    }
    assert forall|i: int, j1: int, j2: int|
        0 <= i < b2.len() && 0 <= j1 < b2[i]@.len() && 0 <= j2 < b2[i]@.len() && (
        #[trigger] b2[i]@[j1]).0 == (#[trigger] b2[i]@[j2]).0 implies j1 == j2 by {
        assert(b2[i]@[j1].0 == b[i]@[j1].0);
        assert(b2[i]@[j2].0 == b[i]@[j2].0);
    }
    assert forall|k: K| #[trigger] table_has(b2, k) == table_has(b, k) by {
        if table_has(b2, k) {
            let (i, j) = choose|i: int, j: int|
                0 <= i < b2.len() && 0 <= j < b2[i]@.len() && (#[trigger] b2[i]@[j]).0 == k;
            assert(b2[i]@[j].0 == b[i]@[j].0);
        }
        if table_has(b, k) {
            let (i, j) = choose|i: int, j: int|
                0 <= i < b.len() && 0 <= j < b[i]@.len() && (#[trigger] b[i]@[j]).0 == k;
            assert(b2[i]@[j].0 == b[i]@[j].0);
        }
    }
    assert forall|k: K| #[trigger] table_has(b2, k) implies table_val(b2, k) == (if k == k0 {
        v
    } else {
        table_val(b, k)
    }) by {
        let (i, j) = choose|i: int, j: int|
            0 <= i < b2.len() && 0 <= j < b2[i]@.len() && (#[trigger] b2[i]@[j]).0 == k;
        assert(b2[i]@[j].0 == b[i]@[j].0);
        lemma_entry_value(b2, seed, capacity, i, j);
        lemma_entry_value(b, seed, capacity, i, j);
        if k == k0 {
            lemma_entry_value(b, seed, capacity, idx, j0);
            assert(i == idx && j == j0);
        }
    }
    assert(table_map(b2) =~= table_map(b).insert(k0, v));
}

/// The entries of all buckets, bucket by bucket, each bucket in its own order.
pub open spec fn entries_of<K, V>(b: Seq<Vec<(K, V)>>) -> Seq<(K, V)>
    decreases b.len(),
{
    if b.len() == 0 {
        Seq::empty()
    } else {
        entries_of(b.drop_last()).add(b.last()@)
    }
}

/// Entry `j` of bucket `i` stands at position `entries_of(b.take(i)).len() + j`.
pub proof fn lemma_entries_index<K, V>(b: Seq<Vec<(K, V)>>, i: int, j: int)
    requires
        0 <= i < b.len(),
        0 <= j < b[i]@.len(),
    ensures
        entries_of(b.take(i)).len() + j < entries_of(b).len(),
        entries_of(b)[entries_of(b.take(i)).len() + j] == b[i]@[j],
    decreases b.len(),
{
    let front = b.drop_last();
    if i == b.len() - 1 {
        assert(b.take(i) =~= front);
    } else {
        assert(b.take(i) =~= front.take(i));
        lemma_entries_index(front, i, j);
    }
}

/// Moving past bucket `i` adds its entries to the prefix.
pub proof fn lemma_entries_step<K, V>(b: Seq<Vec<(K, V)>>, i: int)
    requires
        0 <= i < b.len(),
    ensures
        entries_of(b.take(i + 1)) == entries_of(b.take(i)).add(b[i]@),
{
    assert(b.take(i + 1).drop_last() =~= b.take(i));
}

/// The entries of the first `n` well-formed buckets: each is an entry of the
/// table, no key comes twice, and every key that hashes below `n` is there.
pub proof fn lemma_entries_prefix<K: HashKey, V>(
    b: Seq<Vec<(K, V)>>,
    seed: u64,
    capacity: nat,
    n: int,
)
    requires
        table_wf(b, seed, capacity),
        0 <= n <= b.len(),
    ensures
        forall|p: int|
            0 <= p < entries_of(b.take(n)).len() ==> {
                let e = #[trigger] entries_of(b.take(n))[p];
                &&& slot_of(seed, e.0.key_bytes(), capacity) < n
                &&& table_has(b, e.0)
                &&& table_val(b, e.0) == e.1
            },
        forall|p1: int, p2: int|
            0 <= p1 < entries_of(b.take(n)).len() && 0 <= p2 < entries_of(b.take(n)).len() && (
            #[trigger] entries_of(b.take(n))[p1]).0 == (#[trigger] entries_of(b.take(n))[p2]).0
                ==> p1 == p2,
        forall|k: K|
            table_has(b, k) && slot_of(seed, k.key_bytes(), capacity) < n ==> exists|p: int|
                0 <= p < entries_of(b.take(n)).len() && (#[trigger] entries_of(b.take(n))[p]).0
                    == k,
    decreases n,
{
    if n == 0 {
        assert(b.take(0) =~= Seq::<Vec<(K, V)>>::empty());
        assert forall|k: K|
            table_has(b, k) && slot_of(seed, k.key_bytes(), capacity) < n implies exists|p: int|
                0 <= p < entries_of(b.take(n)).len() && (#[trigger] entries_of(b.take(n))[p]).0
                    == k by {
            assert(slot_of(seed, k.key_bytes(), capacity) >= 0);
        }
    } else {
        let m = n - 1;
        lemma_entries_prefix(b, seed, capacity, m);
        lemma_entries_step(b, m);
        let e0 = entries_of(b.take(m));
        let e1 = entries_of(b.take(n));
        let c = b[m]@;
        assert forall|p: int| 0 <= p < e1.len() implies {
            let e = #[trigger] e1[p];
            &&& slot_of(seed, e.0.key_bytes(), capacity) < n
            &&& table_has(b, e.0)
            &&& table_val(b, e.0) == e.1
        } by {
            if p < e0.len() {
                assert(e1[p] == e0[p]);
            } else {
                let j = p - e0.len();
                assert(e1[p] == c[j]);
                assert(c[j] == b[m]@[j]);
                lemma_entry_value(b, seed, capacity, m, j);
            }
        }
        assert forall|p1: int, p2: int|
            0 <= p1 < e1.len() && 0 <= p2 < e1.len() && (#[trigger] e1[p1]).0 == (
            #[trigger] e1[p2]).0 implies p1 == p2 by {
            if p1 < e0.len() && p2 < e0.len() {
                assert(e1[p1] == e0[p1]);
                assert(e1[p2] == e0[p2]);
            } else if p1 >= e0.len() && p2 >= e0.len() {
                assert(e1[p1] == b[m]@[p1 - e0.len()]);
                assert(e1[p2] == b[m]@[p2 - e0.len()]);
            } else if p1 < e0.len() {
                assert(e1[p1] == e0[p1]);
                assert(e1[p2] == b[m]@[p2 - e0.len()]);
            } else {
                assert(e1[p2] == e0[p2]);
                assert(e1[p1] == b[m]@[p1 - e0.len()]);
            }
        }
        assert forall|k: K| table_has(b, k) && slot_of(seed, k.key_bytes(), capacity) < n implies exists|
            p: int,
        | 0 <= p < e1.len() && (#[trigger] e1[p]).0 == k by {
            if slot_of(seed, k.key_bytes(), capacity) < m {
                let p = choose|p: int| 0 <= p < e0.len() && (#[trigger] e0[p]).0 == k;
                assert(e1[p] == e0[p]);
            } else {
                lemma_key_slot(b, seed, capacity, k);
                let j = choose|j: int| 0 <= j < c.len() && (#[trigger] c[j]).0 == k;
                assert(e1[e0.len() + j] == c[j]);
            }
        }
    }
}

/// The position of the entry with key `k` in `chain`, for a key that the chain holds.
pub open spec fn chain_pos<K, V>(chain: Seq<(K, V)>, k: K) -> int {
    choose|j: int| 0 <= j < chain.len() && (#[trigger] chain[j]).0 == k
}

/// In well-formed buckets the entry at position `j` of bucket `i` is the one
/// that `chain_pos` finds for its key.
pub proof fn lemma_chain_pos<K: HashKey, V>(
    b: Seq<Vec<(K, V)>>,
    seed: u64,
    capacity: nat,
    i: int,
    j: int,
)
    requires
        table_wf(b, seed, capacity),
        0 <= i < b.len(),
        0 <= j < b[i]@.len(),
    ensures
        chain_pos(b[i]@, b[i]@[j].0) == j,
{
    let c = b[i]@;
    assert(c[j].0 == b[i]@[j].0);
    let j2 = chain_pos(c, c[j].0);
    assert(b[i]@[j2].0 == b[i]@[j].0);
}

/// `b2` is `b` with the entries of bucket `idx` replaced by `chain`.
pub open spec fn with_bucket<K, V>(
    b: Seq<Vec<(K, V)>>,
    b2: Seq<Vec<(K, V)>>,
    idx: int,
    chain: Seq<(K, V)>,
) -> bool {
    &&& b2.len() == b.len()
    &&& b2[idx]@ == chain
    &&& forall|i: int| 0 <= i < b.len() && i != idx ==> (#[trigger] b2[i])@ == b[i]@
}

/// Whether a table holding `len` entries in `capacity` buckets is at or past
/// its load factor of three quarters.
pub open spec fn over_load(len: nat, capacity: nat) -> bool {
    4 * len >= 3 * capacity
}

/// The number of buckets after one growth step: one and a half times as many, rounded down.
pub open spec fn grown(capacity: nat) -> nat {
    capacity + capacity / 2
}

/// A hash table with separate chaining: each bucket is a vector of entries.
///
/// The seed that every hash starts from is fixed when the table is made and
/// kept with it, so a key falls in the same bucket for the table's whole life.
/// Give each table a seed drawn from an entropy source, so that nobody can
/// pick keys that all land in one bucket.
pub struct HashMap<K, V> {
    buckets: Vec<Vec<(K, V)>>,
    len: usize,
    capacity: usize,
    seed: u64,
}

impl<K: HashKey, V> View for HashMap<K, V> {
    type V = Map<K, V>;

    closed spec fn view(&self) -> Map<K, V> {
        table_map(self.buckets@)
    }
}

impl<K: HashKey, V> HashMap<K, V> {
    /// The table's invariant: the buckets are laid out for its capacity and
    /// seed, and the stored length counts the keys it holds.
    pub closed spec fn wf(&self) -> bool {
        &&& table_wf(self.buckets@, self.seed, self.capacity as nat)
        &&& self@.dom().finite()
        &&& self.len == self@.len()
    }

    /// The number of buckets.
    pub closed spec fn spec_capacity(&self) -> nat {
        self.capacity as nat
    }

    /// The seed that every hash of this table starts from.
    pub closed spec fn spec_seed(&self) -> u64 {
        self.seed
    }

    /// The buckets, in order; each holds its entries in order.
    pub closed spec fn spec_buckets(&self) -> Seq<Vec<(K, V)>> {
        self.buckets@
    }

    /// The bucket that key `k` hashes to.
    pub open spec fn spec_slot(&self, k: K) -> int {
        slot_of(self.spec_seed(), k.key_bytes(), self.spec_capacity())
    }

    /// Every entry, in the order that iteration visits them: bucket by
    /// bucket, and each bucket in its own order.
    pub open spec fn spec_entries(&self) -> Seq<(K, V)> {
        entries_of(self.spec_buckets())
    }

    /// A table with the default number of buckets, hashing from `seed`.
    pub fn new(seed: u64) -> (r: Self)
        ensures
            r.wf(),
            r@ == Map::<K, V>::empty(),
            r.spec_capacity() == DEFAULT_CAPACITY,
            r.spec_seed() == seed,
    {
        Self::with_capacity(DEFAULT_CAPACITY, seed)
    }

    /// A table with `capacity` empty buckets, hashing from `seed`.
    pub fn with_capacity(capacity: usize, seed: u64) -> (r: Self)
        requires
            capacity > 0,
        ensures
            r.wf(),
            r@ == Map::<K, V>::empty(),
            r.spec_capacity() == capacity,
            r.spec_seed() == seed,
    {
        let buckets = empty_buckets(capacity);
        let r = HashMap { buckets, len: 0, capacity, seed };
        assert(r@ =~= Map::<K, V>::empty());
        r
    }

    /// The number of entries.
    pub fn len(&self) -> (r: usize)
        requires
            self.wf(),
        ensures
            r == self@.len(),
    {
        self.len
    }

    /// Whether the table holds no entry.
    pub fn is_empty(&self) -> (r: bool)
        requires
            self.wf(),
        ensures
            r == (self@.len() == 0),
    {
        self.len == 0
    }

    /// The number of buckets.
    pub fn capacity(&self) -> (r: usize)
        ensures
            r == self.spec_capacity(),
    {
        self.capacity
    }

    /// The bucket that `key` hashes to.
    fn hash(&self, key: &K) -> (r: usize)
        requires
            self.wf(),
        ensures
            r as int == slot_of(self.seed, key.key_bytes(), self.capacity as nat),
            r < self.buckets@.len(),
    {
        let bytes = key.hash_bytes();
        bucket_index(self.seed, &bytes, self.capacity)
    }

    /// The value stored with `key`, if any.
    pub fn get(&self, key: &K) -> (r: Option<&V>)
        requires
            self.wf(),
        ensures
            match r {
                Some(v) => self@.contains_key(*key) && *v == self@[*key],
                None => !self@.contains_key(*key),
            },
    {
        let h = self.hash(key);
        let bucket = &self.buckets[h];
        proof {
            lemma_key_slot(self.buckets@, self.seed, self.capacity as nat, *key);
        }
        match find_in_chain(bucket, key) {
            Some(j) => {
                proof {
                    lemma_entry_value(self.buckets@, self.seed, self.capacity as nat, h as int, j as int);
                }
                Some(&bucket[j].1)
            },
            None => None,
        }
    }

    /// Stores `value` under `key`. Returns the value that `key` held before, if any.
    ///
    /// When the table is at its load factor before the call, it first grows.
    pub fn insert(&mut self, key: K, value: V) -> (r: Option<V>)
        requires
            old(self).wf(),
            old(self)@.len() < usize::MAX,
            over_load(old(self)@.len(), old(self).spec_capacity()) ==> grown(
                old(self).spec_capacity(),
            ) <= usize::MAX,
        ensures
            final(self).wf(),
            final(self)@ == old(self)@.insert(key, value),
            r == (if old(self)@.contains_key(key) {
                Some(old(self)@[key])
            } else {
                None
            }),
            final(self).spec_seed() == old(self).spec_seed(),
            final(self).spec_capacity() == (if over_load(
                old(self)@.len(),
                old(self).spec_capacity(),
            ) {
                grown(old(self).spec_capacity())
            } else {
                old(self).spec_capacity()
            }),
            ({
                let ob = old(self).spec_buckets();
                let fb = final(self).spec_buckets();
                let s = old(self).spec_slot(key);
                !over_load(old(self)@.len(), old(self).spec_capacity()) ==> if old(
                    self,
                )@.contains_key(key) {
                    with_bucket(ob, fb, s, ob[s]@.update(chain_pos(ob[s]@, key), (key, value)))
                } else {
                    with_bucket(ob, fb, s, ob[s]@.push((key, value)))
                }
            }),
    {
        if (self.len as u128) * 4 >= (self.capacity as u128) * 3 {
            self.resize();
        }
        let h = self.hash(&key);
        proof {
            lemma_key_slot(self.buckets@, self.seed, self.capacity as nat, key);
        }
        let ghost b = self.buckets@;
        let ghost cap = self.capacity as nat;
        let ghost m = self@;
        let ghost gv = value;
        match find_in_chain(&self.buckets[h], &key) {
            Some(j) => {
                proof {
                    lemma_entry_value(b, self.seed, cap, h as int, j as int);
                }
                let mut pair = (key, value);
                std::mem::swap(&mut self.buckets[h][j], &mut pair);
                proof {
                    lemma_replace(b, self.buckets@, self.seed, cap, h as int, j as int, gv);
                    assert(b[h as int]@[j as int].0 == key);
                    lemma_chain_pos(b, self.seed, cap, h as int, j as int);
                    assert(with_bucket(b, self.buckets@, h as int, b[h as int]@.update(j as int, (key, gv))));
                }
                Some(pair.1)
            },
            None => {
                self.buckets[h].push((key, value));
                proof {
                    lemma_push(b, self.buckets@, self.seed, cap, h as int, (key, gv));
                    assert(with_bucket(b, self.buckets@, h as int, b[h as int]@.push((key, gv))));
                }
                self.len = self.len + 1;
                None
            },
        }
    }

    /// A mutable reference to the value stored with `key`, if any.
    pub fn get_mut(&mut self, key: &K) -> (r: Option<&mut V>)
        requires
            old(self).wf(),
        ensures
            final(self).wf(),
            final(self).spec_seed() == old(self).spec_seed(),
            final(self).spec_capacity() == old(self).spec_capacity(),
            match r {
                Some(v) => {
                    let ob = old(self).spec_buckets();
                    let s = old(self).spec_slot(*key);
                    &&& old(self)@.contains_key(*key)
                    &&& *v == old(self)@[*key]
                    &&& final(self)@ == old(self)@.insert(*key, *final(v))
                    &&& with_bucket(
                        ob,
                        final(self).spec_buckets(),
                        s,
                        ob[s]@.update(chain_pos(ob[s]@, *key), (*key, *final(v))),
                    )
                },
                None => !old(self)@.contains_key(*key) && *final(self) == *old(self),
            },
    {
        let h = self.hash(key);
        proof {
            lemma_key_slot(self.buckets@, self.seed, self.capacity as nat, *key);
        }
        let ghost b = self.buckets@;
        let ghost cap = self.capacity as nat;
        match find_in_chain(&self.buckets[h], key) {
            Some(j) => {
                proof {
                    lemma_entry_value(b, self.seed, cap, h as int, j as int);
                }
                let bucket = &mut self.buckets[h];
                let entry = &mut bucket[j];
                let v = &mut entry.1;
                proof {
                    lemma_replace(
                        b,
                        after_borrow(self.buckets)@,
                        self.seed,
                        cap,
                        h as int,
                        j as int,
                        *final(v),
                    );
                    assert(table_map(after_borrow(self.buckets)@).dom() =~= table_map(b).dom());
                    assert(b[h as int]@[j as int].0 == *key);
                    lemma_chain_pos(b, self.seed, cap, h as int, j as int);
                    assert(with_bucket(
                        b,
                        after_borrow(self.buckets)@,
                        h as int,
                        b[h as int]@.update(j as int, (*key, *final(v))),
                    ));
                }
                Some(v)
            },
            None => None,
        }
    }

    /// Takes `key` out of the table. Returns the value it held, if any.
    pub fn remove(&mut self, key: &K) -> (r: Option<V>)
        requires
            old(self).wf(),
        ensures
            final(self).wf(),
            final(self)@ == old(self)@.remove(*key),
            r == (if old(self)@.contains_key(*key) {
                Some(old(self)@[*key])
            } else {
                None
            }),
            final(self).spec_seed() == old(self).spec_seed(),
            final(self).spec_capacity() == old(self).spec_capacity(),
            ({
                let ob = old(self).spec_buckets();
                let s = old(self).spec_slot(*key);
                if old(self)@.contains_key(*key) {
                    with_bucket(
                        ob,
                        final(self).spec_buckets(),
                        s,
                        ob[s]@.remove(chain_pos(ob[s]@, *key)),
                    )
                } else {
                    *final(self) == *old(self)
                }
            }),
    {
        let h = self.hash(key);
        proof {
            lemma_key_slot(self.buckets@, self.seed, self.capacity as nat, *key);
        }
        let ghost b = self.buckets@;
        let ghost cap = self.capacity as nat;
        match find_in_chain(&self.buckets[h], key) {
            Some(j) => {
                proof {
                    lemma_entry_value(b, self.seed, cap, h as int, j as int);
                }
                let pair = self.buckets[h].remove(j);
                proof {
                    lemma_remove(b, self.buckets@, self.seed, cap, h as int, j as int);
                    assert(b[h as int]@[j as int].0 == *key);
                    lemma_chain_pos(b, self.seed, cap, h as int, j as int);
                    assert(with_bucket(b, self.buckets@, h as int, b[h as int]@.remove(j as int)));
                    assert(table_map(b).dom().contains(*key));
                    assert(table_map(b).dom().remove(*key).len() == table_map(b).dom().len() - 1);
                }
                self.len = self.len - 1;
                Some(pair.1)
            },
            None => {
                assert(self@ =~= self@.remove(*key));
                None
            },
        }
    }

    /// Moves every entry into one and a half times as many buckets, each to the
    /// bucket that its key hashes to among them.
    fn resize(&mut self)
        requires
            old(self).wf(),
            grown(old(self).capacity as nat) <= usize::MAX,
        ensures
            final(self).wf(),
            final(self)@ == old(self)@,
            final(self).capacity == grown(old(self).capacity as nat),
            final(self).seed == old(self).seed,
    {
        let new_capacity: usize = self.capacity + self.capacity / 2;
        let ghost orig = self.buckets@;
        let ghost cap0 = self.capacity as nat;
        let ghost ncap = new_capacity as nat;
        let ghost seed0 = self.seed;
        let ghost len0 = self.len;
        let mut fresh: Vec<Vec<(K, V)>> = empty_buckets(new_capacity);
        assert(table_map(fresh@) =~= Map::<K, V>::empty());
        while self.buckets.len() > 0
            invariant
                self.seed == seed0,
                self.len == len0,
                ncap == new_capacity,
                new_capacity > 0,
                table_wf(orig, self.seed, cap0),
                self.buckets@.len() <= orig.len(),
                forall|i: int| 0 <= i < self.buckets@.len() ==> #[trigger] self.buckets@[i] == orig[i],
                table_wf(fresh@, self.seed, ncap),
                forall|k: K| #[trigger]
                    table_has(fresh@, k) == (table_has(orig, k) && !table_has(self.buckets@, k)),
                forall|k: K|
                    table_has(fresh@, k) ==> #[trigger] table_val(fresh@, k) == table_val(orig, k),
            decreases self.buckets@.len(),
        {
            let ghost before = self.buckets@;
            let mut chain = self.buckets.pop().unwrap();
            let ghost r = self.buckets@.len() as int;
            proof {
                assert(before[r] == orig[r]);
                assert forall|k: K| #[trigger]
                    table_has(before, k) == (table_has(self.buckets@, k) || chain_has(chain@, k)) by {
                    if table_has(before, k) {
                        let (i, j) = choose|i: int, j: int|
                            0 <= i < before.len() && 0 <= j < before[i]@.len() && (
                            #[trigger] before[i]@[j]).0 == k;
                        if i < r {
                            assert(self.buckets@[i]@[j] == before[i]@[j]);
                        } else {
                            assert(chain@[j] == before[i]@[j]);
                        }
                    }
                    if table_has(self.buckets@, k) {
                        let (i, j) = choose|i: int, j: int|
                            0 <= i < self.buckets@.len() && 0 <= j < self.buckets@[i]@.len() && (
                            #[trigger] self.buckets@[i]@[j]).0 == k;
                        assert(self.buckets@[i]@[j] == before[i]@[j]);
                    }
                    if chain_has(chain@, k) {
                        let j = choose|j: int| 0 <= j < chain@.len() && (#[trigger] chain@[j]).0 == k;
                        assert(chain@[j] == before[r]@[j]);
                    }
                }
                assert(chain@ =~= orig[r]@.subrange(0, chain@.len() as int));
            }
            while chain.len() > 0
                invariant
                    self.seed == seed0,
                    self.len == len0,
                    ncap == new_capacity,
                    new_capacity > 0,
                    table_wf(orig, self.seed, cap0),
                    r == self.buckets@.len(),
                    0 <= r < orig.len(),
                    forall|i: int| 0 <= i < self.buckets@.len() ==> #[trigger] self.buckets@[i] == orig[i],
                    chain@.len() <= orig[r]@.len(),
                    chain@ =~= orig[r]@.subrange(0, chain@.len() as int),
                    table_wf(fresh@, self.seed, ncap),
                    forall|k: K| #[trigger]
                        table_has(fresh@, k) == (table_has(orig, k) && !table_has(self.buckets@, k)
                            && !chain_has(chain@, k)),
                    forall|k: K|
                        table_has(fresh@, k) ==> #[trigger] table_val(fresh@, k) == table_val(
                            orig,
                            k,
                        ),
                decreases chain@.len(),
            {
                let ghost c0 = chain@;
                let ghost f0 = fresh@;
                let e = chain.pop().unwrap();
                let ghost n = chain@.len() as int;
                let bytes = e.0.hash_bytes();
                let idx = bucket_index(self.seed, &bytes, new_capacity);
                proof {
                    assert(orig[r]@[n] == e);
                    assert(c0[n] == e);
                    lemma_entry_value(orig, self.seed, cap0, r, n);
                    assert(!table_has(self.buckets@, e.0)) by {
                        if table_has(self.buckets@, e.0) {
                            let (i, j) = choose|i: int, j: int|
                                0 <= i < self.buckets@.len() && 0 <= j < self.buckets@[i]@.len()
                                    && (#[trigger] self.buckets@[i]@[j]).0 == e.0;
                            assert(orig[i]@[j] == self.buckets@[i]@[j]);
                            assert(slot_of(self.seed, orig[i]@[j].0.key_bytes(), cap0) == i);
                            assert(slot_of(self.seed, orig[r]@[n].0.key_bytes(), cap0) == r);
                        }
                    }
                    assert(chain_has(c0, e.0));
                    assert forall|k: K| #[trigger]
                        chain_has(chain@, k) == (chain_has(c0, k) && k != e.0) by {
                        if chain_has(chain@, k) {
                            let j = choose|j: int| 0 <= j < chain@.len() && (#[trigger] chain@[j]).0 == k;
                            assert(c0[j] == chain@[j]);
                            assert(orig[r]@[j] == c0[j]);
                        }
                        if chain_has(c0, k) && k != e.0 {
                            let j = choose|j: int| 0 <= j < c0.len() && (#[trigger] c0[j]).0 == k;
                            assert(chain@[j] == c0[j]);
                        }
                    }
                }
                fresh[idx].push(e);
                proof {
                    lemma_push(f0, fresh@, self.seed, ncap, idx as int, e);
                    assert(table_map(fresh@).dom().contains(e.0));
                    assert forall|k: K| #[trigger] table_has(fresh@, k) == (table_has(f0, k) || k == e.0) by {
                        assert(table_map(fresh@).dom().contains(k) == table_has(fresh@, k));
                        assert(table_map(f0).dom().contains(k) == table_has(f0, k));
                    }
                    assert forall|k: K|
                        table_has(fresh@, k) implies #[trigger] table_val(fresh@, k) == table_val(orig, k) by {
                        assert(table_map(fresh@).dom().contains(k) == table_has(fresh@, k));
                        assert(table_map(f0).dom().contains(k) == table_has(f0, k));
                        assert(table_map(fresh@)[k] == table_val(fresh@, k));
                        if k != e.0 {
                            assert(table_map(f0)[k] == table_val(f0, k));
                        }
                    }
                }
            }
            assert(chain@ =~= Seq::<(K, V)>::empty());
        }
        assert(table_map(fresh@) =~= table_map(orig));
        self.buckets = fresh;
        self.capacity = new_capacity;
    }

    /// A cursor at the first entry: bucket by bucket, each bucket in order.
    pub fn iter(&self) -> (r: Iter<'_, K, V>)
        ensures
            r.wf(),
            r.pos() == 0,
            r.entries() == self.spec_entries(),
    {
        assert(self.buckets@.take(0) =~= Seq::<Vec<(K, V)>>::empty());
        Iter { buckets: &self.buckets, bucket_index: 0, element_index: 0 }
    }

    /// Whether the table holds `key`.
    pub fn contains_key(&self, key: &K) -> (r: bool)
        requires
            self.wf(),
        ensures
            r == self@.contains_key(*key),
    {
        self.get(key).is_some()
    }
}

/// A cursor over the entries of a table. It is valid while the table is not
/// changed, which the borrow it holds enforces.
pub struct Iter<'a, K, V> {
    buckets: &'a Vec<Vec<(K, V)>>,
    bucket_index: usize,
    element_index: usize,
}

impl<'a, K, V> Iter<'a, K, V> {
    /// The entries that the cursor walks, in order.
    pub closed spec fn entries(&self) -> Seq<(K, V)> {
        entries_of(self.buckets@)
    }

    /// How many entries the cursor has passed.
    pub closed spec fn pos(&self) -> int {
        entries_of(self.buckets@.take(self.bucket_index as int)).len() + self.element_index
    }

    /// The cursor points into the buckets, or just past the last one.
    pub closed spec fn wf(&self) -> bool {
        &&& self.bucket_index <= self.buckets@.len()
        &&& self.bucket_index < self.buckets@.len() ==> self.element_index
            <= self.buckets@[self.bucket_index as int]@.len()
        &&& self.bucket_index == self.buckets@.len() ==> self.element_index == 0
    }

    /// The next entry, or `None` once every entry has been handed out.
    pub fn next(&mut self) -> (r: Option<(&'a K, &'a V)>)
        requires
            old(self).wf(),
        ensures
            final(self).wf(),
            final(self).entries() == old(self).entries(),
            match r {
                Some(e) => {
                    &&& old(self).pos() < old(self).entries().len()
                    &&& (*e.0, *e.1) == old(self).entries()[old(self).pos()]
                    &&& final(self).pos() == old(self).pos() + 1
                },
                None => old(self).pos() == old(self).entries().len() && final(self).pos() == old(
                    self,
                ).pos(),
            },
    {
        let buckets: &'a Vec<Vec<(K, V)>> = self.buckets;
        while self.bucket_index < buckets.len()
            invariant
                self.wf(),
                self.buckets == buckets,
                buckets == old(self).buckets,
                self.pos() == old(self).pos(),
            decreases buckets@.len() - self.bucket_index,
        {
            let bucket = &buckets[self.bucket_index];
            if self.element_index < bucket.len() {
                let e = &bucket[self.element_index];
                proof {
                    lemma_entries_index(buckets@, self.bucket_index as int, self.element_index as int);
                }
                self.element_index = self.element_index + 1;
                return Some((&e.0, &e.1));
            }
            proof {
                lemma_entries_step(buckets@, self.bucket_index as int);
            }
            self.bucket_index = self.bucket_index + 1;
            self.element_index = 0;
        }
        assert(buckets@.take(buckets@.len() as int) =~= buckets@);
        None
    }
}

/// The keys present after a run of inserts (`Some(v)`) and removals (`None`),
/// applied in order to an empty table.
pub open spec fn live_keys<K, V>(ops: Seq<(K, Option<V>)>) -> Set<K>
    decreases ops.len(),
{
    if ops.len() == 0 {
        Set::empty()
    } else {
        let (k, op) = ops.last();
        match op {
            Some(_) => live_keys(ops.drop_last()).insert(k),
            None => live_keys(ops.drop_last()).remove(k),
        }
    }
}

/// The map that a run of inserts (`Some(v)`) and removals (`None`) leaves,
/// applied in order to an empty table.
pub open spec fn replay<K, V>(ops: Seq<(K, Option<V>)>) -> Map<K, V>
    decreases ops.len(),
{
    if ops.len() == 0 {
        Map::empty()
    } else {
        let (k, op) = ops.last();
        match op {
            Some(v) => replay(ops.drop_last()).insert(k, v),
            None => replay(ops.drop_last()).remove(k),
        }
    }
}

/// The keys of a replayed run are its live keys.
proof fn lemma_replay_keys<K, V>(ops: Seq<(K, Option<V>)>)
    ensures
        replay(ops).dom() == live_keys(ops),
    decreases ops.len(),
{
    if ops.len() > 0 {
        lemma_replay_keys(ops.drop_last());
        assert(replay(ops).dom() =~= live_keys(ops));
    }
}

/// After `insert(k, v)`, looking up `k` finds `v`.
pub proof fn law_insert_then_get<K: HashKey, V>(before: HashMap<K, V>, after: HashMap<K, V>, k: K, v: V)
    requires
        before.wf(),
        after@ == before@.insert(k, v),
    ensures
        after@.contains_key(k),
        after@[k] == v,
{
}

/// Inserting `v1` and then `v2` under one key: the second insert hands back
/// `v1`, the key then holds `v2`, and the second insert leaves the length as it was.
pub proof fn law_update_in_place<K: HashKey, V>(
    before: HashMap<K, V>,
    mid: HashMap<K, V>,
    after: HashMap<K, V>,
    k: K,
    v1: V,
    v2: V,
)
    requires
        before.wf(),
        mid.wf(),
        after.wf(),
        mid@ == before@.insert(k, v1),
        after@ == mid@.insert(k, v2),
    ensures
        mid@.contains_key(k),
        mid@[k] == v1,
        after@.contains_key(k),
        after@[k] == v2,
        after@.len() == mid@.len(),
{
    assert(after@.dom() =~= mid@.dom());
}

/// After `insert(k, v)`, `remove(k)` hands back `v`, the key is gone, and the
/// length drops by one.
pub proof fn law_insert_then_remove<K: HashKey, V>(
    before: HashMap<K, V>,
    mid: HashMap<K, V>,
    after: HashMap<K, V>,
    k: K,
    v: V,
)
    requires
        before.wf(),
        mid.wf(),
        after.wf(),
        mid@ == before@.insert(k, v),
        after@ == mid@.remove(k),
    ensures
        mid@.contains_key(k),
        mid@[k] == v,
        !after@.contains_key(k),
        after@.len() == mid@.len() - 1,
{
}

/// Removing a key that is absent hands back nothing and leaves the length as it was.
pub proof fn law_remove_absent<K: HashKey, V>(before: HashMap<K, V>, after: HashMap<K, V>, k: K)
    requires
        before.wf(),
        !before@.contains_key(k),
        after@ == before@.remove(k),
    ensures
        after@ == before@,
        after@.len() == before@.len(),
{
    assert(after@ =~= before@);
}

/// The length of a table equals the number of distinct keys inserted and not
/// removed since, over any run of inserts and removals on an empty table.
pub proof fn law_cardinality<K: HashKey, V>(t: HashMap<K, V>, ops: Seq<(K, Option<V>)>)
    requires
        t.wf(),
        t@ == replay(ops),
    ensures
        t@.len() == live_keys(ops).len(),
{
    lemma_replay_keys(ops);
}

/// An insert that makes the table grow keeps every other key, with its value.
pub proof fn law_growth_keeps_entries<K: HashKey, V>(
    before: HashMap<K, V>,
    after: HashMap<K, V>,
    k: K,
    v: V,
)
    requires
        before.wf(),
        over_load(before@.len(), before.spec_capacity()),
        after@ == before@.insert(k, v),
        after.spec_capacity() == grown(before.spec_capacity()),
    ensures
        forall|k2: K|
            #[trigger] before@.contains_key(k2) && k2 != k ==> after@.contains_key(k2) && after@[k2]
                == before@[k2],
        after.spec_capacity() > before.spec_capacity() || before.spec_capacity() == 1,
{
}

/// Iteration hands out exactly `len()` entries: each is an entry of the table,
/// each key of the table comes once.
pub proof fn law_iteration_complete<K: HashKey, V>(t: HashMap<K, V>)
    requires
        t.wf(),
    ensures
        t.spec_entries().len() == t@.len(),
        forall|p: int|
            0 <= p < t.spec_entries().len() ==> t@.contains_key((#[trigger] t.spec_entries()[p]).0)
                && t@[t.spec_entries()[p].0] == t.spec_entries()[p].1,
        forall|p1: int, p2: int|
            0 <= p1 < t.spec_entries().len() && 0 <= p2 < t.spec_entries().len() && (
            #[trigger] t.spec_entries()[p1]).0 == (#[trigger] t.spec_entries()[p2]).0 ==> p1 == p2,
        forall|k: K|
            #[trigger] t@.contains_key(k) ==> exists|p: int|
                0 <= p < t.spec_entries().len() && (#[trigger] t.spec_entries()[p]).0 == k,
{
    t.lemma_iteration_complete();
}

impl<K: HashKey, V> HashMap<K, V> {
    proof fn lemma_iteration_complete(&self)
        requires
            self.wf(),
        ensures
            self.spec_entries().len() == self@.len(),
            forall|p: int|
                0 <= p < self.spec_entries().len() ==> self@.contains_key(
                    (#[trigger] self.spec_entries()[p]).0,
                ) && self@[self.spec_entries()[p].0] == self.spec_entries()[p].1,
            forall|p1: int, p2: int|
                0 <= p1 < self.spec_entries().len() && 0 <= p2 < self.spec_entries().len() && (
                #[trigger] self.spec_entries()[p1]).0 == (#[trigger] self.spec_entries()[p2]).0
                    ==> p1 == p2,
            forall|k: K|
                #[trigger] self@.contains_key(k) ==> exists|p: int|
                    0 <= p < self.spec_entries().len() && (#[trigger] self.spec_entries()[p]).0
                        == k,
    {
        let b = self.buckets@;
        let cap = self.capacity as nat;
        let n = b.len() as int;
        lemma_entries_prefix(b, self.seed, cap, n);
        assert(b.take(n) =~= b);
        let es = entries_of(b);
        assert forall|k: K| #[trigger] self@.contains_key(k) implies exists|p: int|
            0 <= p < es.len() && (#[trigger] es[p]).0 == k by {
            assert(slot_of(self.seed, k.key_bytes(), cap) < n);
        }
        let keys = es.map_values(|e: (K, V)| e.0);
        assert(keys.no_duplicates()) by {
            assert forall|p1: int, p2: int|
                0 <= p1 < keys.len() && 0 <= p2 < keys.len() && p1 != p2 implies keys[p1]
                != keys[p2] by {
                assert(keys[p1] == es[p1].0);
                assert(keys[p2] == es[p2].0);
            }
        }
        keys.unique_seq_to_set();
        assert(keys.to_set() =~= self@.dom()) by {
            assert forall|k: K| keys.to_set().contains(k) implies self@.dom().contains(k) by {
                let p = choose|p: int| 0 <= p < keys.len() && keys[p] == k;
                assert(keys[p] == es[p].0);
            }
            assert forall|k: K| self@.dom().contains(k) implies keys.to_set().contains(k) by {
                assert(self@.contains_key(k));
                let p = choose|p: int| 0 <= p < es.len() && (#[trigger] es[p]).0 == k;
                assert(keys[p] == k);
            }
        }
    }
}

/// `capacity` empty buckets.
fn empty_buckets<K, V>(capacity: usize) -> (r: Vec<Vec<(K, V)>>)
    ensures
        r@.len() == capacity,
        forall|i: int| 0 <= i < capacity ==> (#[trigger] r@[i])@.len() == 0,
{
    let mut buckets: Vec<Vec<(K, V)>> = Vec::with_capacity(capacity);
    let mut i: usize = 0;
    while i < capacity
        invariant
            i <= capacity,
            buckets@.len() == i,
            forall|t: int| 0 <= t < i ==> (#[trigger] buckets@[t])@.len() == 0,
        decreases capacity - i,
    {
        buckets.push(Vec::new());
        i = i + 1;
    }
    buckets
}

/// The position of `key` in `chain`, if it is there.
fn find_in_chain<K: HashKey, V>(chain: &Vec<(K, V)>, key: &K) -> (r: Option<usize>)
    ensures
        match r {
            Some(j) => j < chain@.len() && chain@[j as int].0 == *key,
            None => !chain_has(chain@, *key),
        },
{
    let mut j: usize = 0;
    while j < chain.len()
        invariant
            j <= chain@.len(),
            forall|t: int| 0 <= t < j ==> (#[trigger] chain@[t]).0 != *key,
        decreases chain@.len() - j,
    {
        if chain[j].0.key_eq(key) {
            return Some(j);
        }
        j = j + 1;
    }
    None
}

} // verus!
