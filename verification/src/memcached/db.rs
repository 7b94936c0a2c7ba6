//! An in-memory item store for a memcached-like server.
//!
//! Items are spread over a fixed number of buckets by the hash of their key.
//! Within a bucket no two items share a key, so the store as a whole maps each
//! key to at most one item.

use std::collections::hash_map::DefaultHasher;
use std::hash::Hash;
use std::hash::Hasher;
use std::sync::Arc;
use vstd::prelude::*;
use vstd::std_specs::cmp::PartialEqSpec;
use vstd::std_specs::hash::DefaultHasherAdditionalSpecFns;

verus! {

/// A cached item: the key and the value are stored back to back in `data`,
/// the first `key_len` bytes being the key.
#[derive(Debug)]
pub struct Item {
    pub key_len: usize,
    pub flags: u32,
    pub rel_exptime: i32,
    pub cas: u64,
    pub data: Box<[u8]>,
}

/// `Vec::into_boxed_slice`: the boxed slice holds the same bytes as the vector.
#[verifier::external_body]
fn into_boxed_bytes(v: Vec<u8>) -> (b: Box<[u8]>)
    ensures
        b@ == v@,
{
    v.into_boxed_slice()
}

impl Item {
    /// The key length lies within the stored bytes.
    pub open spec fn wf(&self) -> bool {
        self.key_len <= self.data@.len()
    }

    pub open spec fn key(&self) -> Seq<u8> {
        self.data@.subrange(0, self.key_len as int)
    }

    pub open spec fn value(&self) -> Seq<u8> {
        self.data@.subrange(self.key_len as int, self.data@.len() as int)
    }

    /// Builds an item whose data is `key` followed by `value`.
    pub fn new(key: &[u8], flags: u32, rel_exptime: i32, cas: u64, value: &[u8]) -> (item: Item)
        requires
            key@.len() + value@.len() <= usize::MAX,
        ensures
            item.wf(),
            item.key_len == key@.len(),
            item.data@ == key@ + value@,
            item.key() == key@,
            item.value() == value@,
            item.flags == flags,
            item.rel_exptime == rel_exptime,
            item.cas == cas,
    {
        let mut data: Vec<u8> = Vec::with_capacity(key.len() + value.len());
        let mut i: usize = 0;
        while i < key.len()
            invariant
                i <= key@.len(),
                data@ == key@.subrange(0, i as int),
            decreases key@.len() - i,
        {
            data.push(key[i]);
            i = i + 1;
        }
        let mut j: usize = 0;
        while j < value.len()
            invariant
                j <= value@.len(),
                data@ == key@ + value@.subrange(0, j as int),
            decreases value@.len() - j,
        {
            data.push(value[j]);
            j = j + 1;
        }
        assert(value@.subrange(0, value@.len() as int) == value@);
        let item = Item { key_len: key.len(), flags, rel_exptime, cas, data: into_boxed_bytes(data) };
        assert(item.key() =~= key@);
        assert(item.value() =~= value@);
        item
    }

    /// Whether this item's key is exactly `key`.
    pub fn key_matches(&self, key: &[u8]) -> (r: bool)
        requires
            self.wf(),
        ensures
            r == (self.key() == key@),
    {
        if self.key_len != key.len() {
            assert(self.key().len() != key@.len());
            return false;
        }
        let mut i: usize = 0;
        while i < self.key_len
            invariant
                self.key_len == key@.len(),
                self.key_len <= self.data@.len(),
                i <= self.key_len,
                forall|j: int| 0 <= j < i ==> self.data@[j] == key@[j],
            decreases self.key_len - i,
        {
            if self.data[i] != key[i] {
                assert(self.key()[i as int] != key@[i as int]);
                return false;
            }
            i = i + 1;
        }
        assert(self.key() =~= key@);
        true
    }

    /// The key bytes; when `key_len` overruns the data, all of the data.
    pub fn key_bytes(&self) -> (k: &[u8])
        ensures
            self.wf() ==> k@ == self.key(),
            !self.wf() ==> k@ == self.data@,
    {
        if self.key_len <= self.data.len() {
            &self.data[0..self.key_len]
        } else {
            &self.data[0..self.data.len()]
        }
    }
}

/// Two items are equal when their keys are equal.
impl PartialEq for Item {
    fn eq(&self, other: &Self) -> (r: bool)
        ensures
            r == (self.key_len <= self.data@.len() && other.key_len <= other.data@.len()
                && self.data@.subrange(0, self.key_len as int) == other.data@.subrange(
                0,
                other.key_len as int,
            )),
    {
        if self.key_len <= self.data.len() && other.key_len <= other.data.len() {
            other.key_matches(self.key_bytes())
        } else {
            false
        }
    }
}

impl vstd::std_specs::cmp::PartialEqSpecImpl for Item {
    open spec fn obeys_eq_spec() -> bool {
        true
    }

    open spec fn eq_spec(&self, other: &Self) -> bool {
        self.wf() && other.wf() && self.key() == other.key()
    }
}

impl Eq for Item {}

/// Items are equal exactly when both are well formed and their key bytes,
/// the first `key_len` bytes of their data, are the same: same length and
/// the same byte at every position. Flags, expiry, cas and value play no part.
pub proof fn lemma_item_eq_is_key_eq(a: Item, b: Item)
    ensures
        a.eq_spec(&b) <==> (a.key_len <= a.data@.len() && b.key_len <= b.data@.len() && a.key_len
            == b.key_len && forall|j: int| 0 <= j < a.key_len ==> a.data@[j] == b.data@[j]),
        a.eq_spec(&b) <==> b.eq_spec(&a),
        a.wf() ==> a.eq_spec(&a),
{
    if a.key_len <= a.data@.len() && b.key_len <= b.data@.len() && a.key_len == b.key_len && (
    forall|j: int| 0 <= j < a.key_len ==> a.data@[j] == b.data@[j]) {
        assert(a.key() =~= b.key());
    }
    if a.eq_spec(&b) {
        assert(a.wf() && b.wf() && a.key() == b.key());
        assert(a.key().len() == a.key_len);
        assert forall|j: int| 0 <= j < a.key_len implies a.data@[j] == b.data@[j] by {
            assert(a.key()[j] == b.key()[j]);
        }
    }
}

impl Clone for Item {
    /// A copy of the item, with its own copy of the bytes.
    fn clone(&self) -> (r: Self)
        ensures
            r.key_len == self.key_len,
            r.flags == self.flags,
            r.rel_exptime == self.rel_exptime,
            r.cas == self.cas,
            r.data@ == self.data@,
    {
        let mut data: Vec<u8> = Vec::with_capacity(self.data.len());
        let mut i: usize = 0;
        while i < self.data.len()
            invariant
                i <= self.data@.len(),
                data@ == self.data@.subrange(0, i as int),
            decreases self.data@.len() - i,
        {
            data.push(self.data[i]);
            i = i + 1;
        }
        assert(data@ =~= self.data@);
        Item {
            key_len: self.key_len,
            flags: self.flags,
            rel_exptime: self.rel_exptime,
            cas: self.cas,
            data: into_boxed_bytes(data),
        }
    }
}

/// `<[u8] as Hash>::hash`: feeds the bytes, behind their length, to the
/// hasher. What the hasher makes of them is left unsaid.
#[verifier::external_body]
fn hash_bytes<H: Hasher>(bytes: &[u8], state: &mut H) {
    bytes.hash(state)
}

impl Hash for Item {
    /// Hashes the key bytes only, so that equal items hash alike.
    fn hash<H: Hasher>(&self, state: &mut H) {
        hash_bytes(self.key_bytes(), state)
    }
}

/// The hash of a key: what a fresh `DefaultHasher` finishes with after the
/// key bytes were written to it.
pub open spec fn key_hash(key: Seq<u8>) -> u64 {
    DefaultHasher::spec_finish(seq![key])
}

/// The bucket, among `n`, that holds `key`.
pub open spec fn bucket_index(key: Seq<u8>, n: int) -> int {
    (key_hash(key) as usize) as int % n
}

/// The hash of a key, the same on every call for the same key bytes.
pub fn calculate_hash(key: &[u8]) -> (h: u64)
    ensures
        h == key_hash(key@),
{
    let mut s = DefaultHasher::new();
    s.write(key);
    s.finish()
}

/// The item found under `key` in a store whose contents are `m`.
pub open spec fn lookup(m: Map<Seq<u8>, Arc<Item>>, key: Seq<u8>) -> Option<Arc<Item>> {
    if m.contains_key(key) {
        Some(m[key])
    } else {
        None
    }
}

/// The keys of the items in `entries` are pairwise distinct.
pub open spec fn unique_keys(entries: Seq<Arc<Item>>) -> bool {
    forall|i: int, j: int|
        0 <= i < entries.len() && 0 <= j < entries.len() && i != j ==> (#[trigger] entries[i]).key()
            != (#[trigger] entries[j]).key()
}

/// Whether some item of `entries` has the key `key`.
pub open spec fn bucket_has(entries: Seq<Arc<Item>>, key: Seq<u8>) -> bool {
    exists|i: int| 0 <= i < entries.len() && (#[trigger] entries[i]).key() == key
}

/// What a bucket holds, by key.
pub open spec fn bucket_map(entries: Seq<Arc<Item>>) -> Map<Seq<u8>, Arc<Item>> {
    Map::new(
        |k: Seq<u8>| bucket_has(entries, k),
        |k: Seq<u8>| entries[choose|i: int| 0 <= i < entries.len() && (#[trigger] entries[i]).key() == k],
    )
}

proof fn lemma_bucket_map_at(entries: Seq<Arc<Item>>, i: int)
    requires
        unique_keys(entries),
        0 <= i < entries.len(),
    ensures
        bucket_map(entries).contains_key(entries[i].key()),
        bucket_map(entries)[entries[i].key()] == entries[i],
{
    let k = entries[i].key();
    assert(bucket_has(entries, k));
    let j = choose|j: int| 0 <= j < entries.len() && (#[trigger] entries[j]).key() == k;
    assert(entries[j].key() == k);
    if j != i {
        assert(entries[i].key() != entries[j].key());
    }
}

proof fn lemma_bucket_replace(entries: Seq<Arc<Item>>, i: int, item: Arc<Item>)
    requires
        unique_keys(entries),
        0 <= i < entries.len(),
        entries[i].key() == item.key(),
    ensures
        unique_keys(entries.update(i, item)),
        bucket_map(entries.update(i, item)) == bucket_map(entries).insert(item.key(), item),
{
    let e2 = entries.update(i, item);
    assert forall|a: int, b: int|
        0 <= a < e2.len() && 0 <= b < e2.len() && a != b implies (#[trigger] e2[a]).key() != (
    #[trigger] e2[b]).key() by {
        assert(entries[a].key() != entries[b].key());
    }
    let m2 = bucket_map(e2);
    let m = bucket_map(entries).insert(item.key(), item);
    lemma_bucket_map_at(e2, i);
    assert forall|k: Seq<u8>| #[trigger] m2.contains_key(k) == m.contains_key(k) by {
        if bucket_has(entries, k) {
            let j = choose|j: int| 0 <= j < entries.len() && (#[trigger] entries[j]).key() == k;
            assert(e2[j].key() == k);
        }
        if bucket_has(e2, k) {
            let j = choose|j: int| 0 <= j < e2.len() && (#[trigger] e2[j]).key() == k;
            assert(entries[j].key() == k);
        }
    }
    assert forall|k: Seq<u8>| #[trigger] m2.contains_key(k) implies m2[k] == m[k] by {
        if k != item.key() {
            let j = choose|j: int| 0 <= j < e2.len() && (#[trigger] e2[j]).key() == k;
            assert(j != i);
            assert(entries[j] == e2[j]);
            lemma_bucket_map_at(e2, j);
            lemma_bucket_map_at(entries, j);
        }
    }
    assert(m2 =~= m);
}

proof fn lemma_bucket_push(entries: Seq<Arc<Item>>, item: Arc<Item>)
    requires
        unique_keys(entries),
        !bucket_has(entries, item.key()),
    ensures
        unique_keys(entries.push(item)),
        bucket_map(entries.push(item)) == bucket_map(entries).insert(item.key(), item),
{
    let e2 = entries.push(item);
    let n = entries.len() as int;
    assert forall|a: int, b: int|
        0 <= a < e2.len() && 0 <= b < e2.len() && a != b implies (#[trigger] e2[a]).key() != (
    #[trigger] e2[b]).key() by {
        if a < n && b < n {
            assert(entries[a].key() != entries[b].key());
        } else if a < n {
            assert(entries[a].key() != item.key());
        } else {
            assert(entries[b].key() != item.key());
        }
    }
    let m2 = bucket_map(e2);
    let m = bucket_map(entries).insert(item.key(), item);
    lemma_bucket_map_at(e2, n);
    assert forall|k: Seq<u8>| #[trigger] m2.contains_key(k) == m.contains_key(k) by {
        if bucket_has(entries, k) {
            let j = choose|j: int| 0 <= j < entries.len() && (#[trigger] entries[j]).key() == k;
            assert(e2[j].key() == k);
        }
        if bucket_has(e2, k) && k != item.key() {
            let j = choose|j: int| 0 <= j < e2.len() && (#[trigger] e2[j]).key() == k;
            assert(j != n);
            assert(entries[j].key() == k);
        }
    }
    assert forall|k: Seq<u8>| #[trigger] m2.contains_key(k) implies m2[k] == m[k] by {
        if k != item.key() {
            let j = choose|j: int| 0 <= j < e2.len() && (#[trigger] e2[j]).key() == k;
            assert(j != n);
            assert(entries[j] == e2[j]);
            lemma_bucket_map_at(e2, j);
            lemma_bucket_map_at(entries, j);
        }
    }
    assert(m2 =~= m);
}

proof fn lemma_bucket_swap_remove(entries: Seq<Arc<Item>>, i: int)
    requires
        unique_keys(entries),
        0 <= i < entries.len(),
    ensures
        unique_keys(entries.update(i, entries.last()).drop_last()),
        bucket_map(entries.update(i, entries.last()).drop_last()) == bucket_map(entries).remove(
            entries[i].key(),
        ),
{
    let n = entries.len() - 1;
    let e2 = entries.update(i, entries.last()).drop_last();
    let k0 = entries[i].key();
    // each new slot holds an old item, at a known old position
    assert forall|a: int| 0 <= a < e2.len() implies #[trigger] e2[a] == entries[if a == i {
        n
    } else {
        a
    }] by {}
    assert forall|a: int, b: int|
        0 <= a < e2.len() && 0 <= b < e2.len() && a != b implies (#[trigger] e2[a]).key() != (
    #[trigger] e2[b]).key() by {
        let oa = if a == i { n } else { a };
        let ob = if b == i { n } else { b };
        assert(e2[a] == entries[oa]);
        assert(e2[b] == entries[ob]);
        assert(entries[oa].key() != entries[ob].key());
    }
    let m2 = bucket_map(e2);
    let m = bucket_map(entries).remove(k0);
    assert forall|k: Seq<u8>| #[trigger] m2.contains_key(k) == m.contains_key(k) by {
        if bucket_has(e2, k) {
            let j = choose|j: int| 0 <= j < e2.len() && (#[trigger] e2[j]).key() == k;
            let oj = if j == i { n } else { j };
            assert(e2[j] == entries[oj]);
            assert(entries[oj].key() == k);
            if oj != i {
                assert(entries[oj].key() != entries[i].key());
            }
        }
        if bucket_has(entries, k) && k != k0 {
            let j = choose|j: int| 0 <= j < entries.len() && (#[trigger] entries[j]).key() == k;
            assert(j != i);
            let nj = if j == n { i } else { j };
            assert(e2[nj] == entries[j]);
            assert(e2[nj].key() == k);
        }
    }
    assert forall|k: Seq<u8>| #[trigger] m2.contains_key(k) implies m2[k] == m[k] by {
        let j = choose|j: int| 0 <= j < e2.len() && (#[trigger] e2[j]).key() == k;
        let oj = if j == i { n } else { j };
        assert(e2[j] == entries[oj]);
        lemma_bucket_map_at(e2, j);
        lemma_bucket_map_at(entries, oj);
        if oj != i {
            assert(entries[oj].key() != entries[i].key());
        }
    }
    assert(m2 =~= m);
}

#[derive(Debug)]
struct Bucket {
    entries: Vec<Arc<Item>>,
}

/// A store of items keyed by their key bytes.
#[derive(Debug)]
pub struct Db {
    buckets: Vec<Bucket>,
}

impl Db {
    /// The number of buckets the store was made with.
    pub closed spec fn bucket_count(&self) -> nat {
        self.buckets@.len()
    }

    closed spec fn entries_of(&self, b: int) -> Seq<Arc<Item>> {
        self.buckets@[b].entries@
    }

    /// Bucket `b` holds well-formed items with distinct keys, each of which
    /// selects bucket `b`.
    closed spec fn bucket_ok(&self, b: int) -> bool {
        &&& unique_keys(self.entries_of(b))
        &&& forall|i: int|
            0 <= i < self.entries_of(b).len() ==> {
                &&& (#[trigger] self.entries_of(b)[i]).wf()
                &&& bucket_index(self.entries_of(b)[i].key(), self.buckets@.len() as int) == b
            }
    }

    /// Every item is well formed and sits in the bucket of its key, and no
    /// bucket holds two items with the same key.
    pub closed spec fn wf(&self) -> bool {
        forall|b: int| 0 <= b < self.buckets@.len() ==> #[trigger] self.bucket_ok(b)
    }

    pub fn new(bucket_size: usize) -> (db: Db)
        ensures
            db.wf(),
            db.bucket_count() == bucket_size,
            db@ == Map::<Seq<u8>, Arc<Item>>::empty(),
    {
        let mut buckets: Vec<Bucket> = Vec::with_capacity(bucket_size);
        let mut i: usize = 0;
        while i < bucket_size
            invariant
                i <= bucket_size,
                buckets@.len() == i,
                forall|b: int| 0 <= b < i ==> (#[trigger] buckets@[b]).entries@.len() == 0,
            decreases bucket_size - i,
        {
            buckets.push(Bucket { entries: Vec::new() });
            i = i + 1;
        }
        let db = Db { buckets };
        assert(db@ =~= Map::<Seq<u8>, Arc<Item>>::empty());
        db
    }
}

impl Db {
    proof fn lemma_view_after_bucket_insert(old_db: &Db, new_db: &Db, b: int, item: Arc<Item>)
        requires
            old_db.buckets@.len() == new_db.buckets@.len(),
            0 <= b < old_db.buckets@.len(),
            forall|c: int|
                0 <= c < old_db.buckets@.len() && c != b ==> new_db.entries_of(c)
                    == old_db.entries_of(c),
            bucket_index(item.key(), old_db.buckets@.len() as int) == b,
            bucket_map(new_db.entries_of(b)) == bucket_map(old_db.entries_of(b)).insert(
                item.key(),
                item,
            ),
        ensures
            new_db@ == old_db@.insert(item.key(), item),
    {
        let n = old_db.buckets@.len() as int;
        assert forall|k: Seq<u8>| #[trigger] new_db@.contains_key(k) == old_db@.insert(item.key(), item).contains_key(k) by {
            let c = bucket_index(k, n);
            if c != b {
                assert(0 <= c < n);
                assert(new_db.entries_of(c) == old_db.entries_of(c));
            }
        }
        assert forall|k: Seq<u8>| #[trigger] new_db@.contains_key(k) implies new_db@[k]
            == old_db@.insert(item.key(), item)[k] by {
            let c = bucket_index(k, n);
            if c != b {
                assert(new_db.entries_of(c) == old_db.entries_of(c));
            }
        }
        assert(new_db@ =~= old_db@.insert(item.key(), item));
    }

    proof fn lemma_view_after_bucket_remove(old_db: &Db, new_db: &Db, b: int, key: Seq<u8>)
        requires
            old_db.buckets@.len() == new_db.buckets@.len(),
            0 <= b < old_db.buckets@.len(),
            forall|c: int|
                0 <= c < old_db.buckets@.len() && c != b ==> new_db.entries_of(c)
                    == old_db.entries_of(c),
            bucket_index(key, old_db.buckets@.len() as int) == b,
            bucket_map(new_db.entries_of(b)) == bucket_map(old_db.entries_of(b)).remove(key),
        ensures
            new_db@ == old_db@.remove(key),
    {
        let n = old_db.buckets@.len() as int;
        assert forall|k: Seq<u8>| #[trigger] new_db@.contains_key(k) == old_db@.remove(key).contains_key(k) by {
            let c = bucket_index(k, n);
            if c != b {
                assert(new_db.entries_of(c) == old_db.entries_of(c));
            }
        }
        assert forall|k: Seq<u8>| #[trigger] new_db@.contains_key(k) implies new_db@[k]
            == old_db@.remove(key)[k] by {
            let c = bucket_index(k, n);
            if c != b {
                assert(new_db.entries_of(c) == old_db.entries_of(c));
            }
        }
        assert(new_db@ =~= old_db@.remove(key));
    }

    /// A store stays well formed when one bucket `b` changes so that its keys
    /// stay distinct and each of its items is `item`, which belongs in `b`,
    /// or one that was in `b` before.
    proof fn lemma_wf_after_bucket_change(old_db: &Db, new_db: &Db, b: int, item: Arc<Item>)
        requires
            old_db.wf(),
            old_db.buckets@.len() == new_db.buckets@.len(),
            0 <= b < old_db.buckets@.len(),
            forall|c: int|
                0 <= c < old_db.buckets@.len() && c != b ==> new_db.entries_of(c)
                    == old_db.entries_of(c),
            unique_keys(new_db.entries_of(b)),
            item.wf(),
            bucket_index(item.key(), old_db.buckets@.len() as int) == b,
            forall|j: int|
                0 <= j < new_db.entries_of(b).len() ==> #[trigger] new_db.entries_of(b)[j] == item
                    || old_db.entries_of(b).contains(new_db.entries_of(b)[j]),
        ensures
            new_db.wf(),
    {
        let n = old_db.buckets@.len() as int;
        assert forall|c: int| 0 <= c < n implies #[trigger] new_db.bucket_ok(c) by {
            assert(old_db.bucket_ok(c));
            if c != b {
                assert(new_db.entries_of(c) == old_db.entries_of(c));
            } else {
                assert forall|j: int| 0 <= j < new_db.entries_of(c).len() implies {
                    &&& (#[trigger] new_db.entries_of(c)[j]).wf()
                    &&& bucket_index(new_db.entries_of(c)[j].key(), n) == c
                } by {
                    if new_db.entries_of(c)[j] != item {
                        let e = old_db.entries_of(c);
                        let i = choose|i: int| 0 <= i < e.len() && e[i] == new_db.entries_of(c)[j];
                        assert(e[i].wf());
                    }
                }
            }
        }
    }

    /// Every item in the store is well formed and stored under its own key.
    pub proof fn lemma_items_under_own_key(&self)
        requires
            self.wf(),
        ensures
            forall|k: Seq<u8>| #[trigger] self@.contains_key(k) ==> self@[k].key() == k && self@[k].wf(),
    {
        let n = self.buckets@.len() as int;
        assert forall|k: Seq<u8>| #[trigger] self@.contains_key(k) implies self@[k].key() == k
            && self@[k].wf() by {
            let b = bucket_index(k, n);
            let e = self.entries_of(b);
            assert(0 <= b < n);
            assert(self.bucket_ok(b));
            let i = choose|i: int| 0 <= i < e.len() && (#[trigger] e[i]).key() == k;
            assert(e[i].wf());
        }
    }

    /// The bucket that holds `key`.
    fn bucket_of(&self, key: &[u8]) -> (b: usize)
        requires
            self.buckets@.len() > 0,
        ensures
            b as int == bucket_index(key@, self.buckets@.len() as int),
            b < self.buckets@.len(),
    {
        let hash = calculate_hash(key);
        (hash as usize) % self.buckets.len()
    }

    /// Stores `item` under its key, replacing the item that had that key.
    /// Returns whether an item with that key was there before.
    pub fn set(&mut self, item: &Arc<Item>) -> (existed: bool)
        requires
            old(self).wf(),
            old(self).bucket_count() > 0,
            item.wf(),
        ensures
            final(self).wf(),
            final(self).bucket_count() == old(self).bucket_count(),
            existed == old(self)@.contains_key(item.key()),
            final(self)@ == old(self)@.insert(item.key(), *item),
    {
        let key = item.key_bytes();
        let b = self.bucket_of(key);
        let ghost old_db = *self;
        let ghost old_entries = self.entries_of(b as int);
        proof {
            assert(self.bucket_ok(b as int));
            assert forall|i: int| 0 <= i < old_entries.len() implies (#[trigger] old_entries[i]).wf() by {
                assert(self.bucket_ok(b as int));
            }
        }
        match find_in_bucket(&self.buckets[b].entries, key) {
            Some(i) => {
                self.buckets[b].entries.set(i, item.clone());
                proof {
                    lemma_bucket_replace(old_entries, i as int, *item);
                    assert(self.entries_of(b as int) == old_entries.update(i as int, *item));
                    lemma_bucket_map_at(old_entries, i as int);
                    Db::lemma_view_after_bucket_insert(&old_db, self, b as int, *item);
                    Db::lemma_wf_after_bucket_change(&old_db, self, b as int, *item);
                }
                true
            },
            None => {
                self.buckets[b].entries.push(item.clone());
                proof {
                    lemma_bucket_push(old_entries, *item);
                    assert(self.entries_of(b as int) == old_entries.push(*item));
                    Db::lemma_view_after_bucket_insert(&old_db, self, b as int, *item);
                    Db::lemma_wf_after_bucket_change(&old_db, self, b as int, *item);
                }
                false
            },
        }
    }

    /// The item stored under the key of `item`, if any.
    pub fn get(&self, item: &Arc<Item>) -> (r: Option<Arc<Item>>)
        requires
            self.wf(),
            self.bucket_count() > 0,
            item.wf(),
        ensures
            r == lookup(self@, item.key()),
            r matches Some(x) ==> x.key() == item.key() && x.wf(),
    {
        let key = item.key_bytes();
        let b = self.bucket_of(key);
        let ghost entries = self.entries_of(b as int);
        proof {
            assert(self.bucket_ok(b as int));
            assert forall|i: int| 0 <= i < entries.len() implies (#[trigger] entries[i]).wf() by {
                assert(self.bucket_ok(b as int));
            }
        }
        match find_in_bucket(&self.buckets[b].entries, key) {
            Some(i) => {
                proof {
                    lemma_bucket_map_at(entries, i as int);
                }
                Some(self.buckets[b].entries[i].clone())
            },
            None => None,
        }
    }

    /// Removes the item stored under the key of `item`.
    /// Returns whether there was one.
    pub fn delete(&mut self, item: &Arc<Item>) -> (removed: bool)
        requires
            old(self).wf(),
            old(self).bucket_count() > 0,
            item.wf(),
        ensures
            final(self).wf(),
            final(self).bucket_count() == old(self).bucket_count(),
            removed == old(self)@.contains_key(item.key()),
            final(self)@ == old(self)@.remove(item.key()),
    {
        let key = item.key_bytes();
        let b = self.bucket_of(key);
        let ghost old_db = *self;
        let ghost old_entries = self.entries_of(b as int);
        proof {
            assert(self.bucket_ok(b as int));
            assert forall|i: int| 0 <= i < old_entries.len() implies (#[trigger] old_entries[i]).wf() by {
                assert(self.bucket_ok(b as int));
            }
        }
        match find_in_bucket(&self.buckets[b].entries, key) {
            Some(i) => {
                let _old_item = self.buckets[b].entries.swap_remove(i);
                proof {
                    lemma_bucket_swap_remove(old_entries, i as int);
                    lemma_bucket_map_at(old_entries, i as int);
                    let e2 = old_entries.update(i as int, old_entries.last()).drop_last();
                    assert(self.entries_of(b as int) == e2);
                    assert forall|a: int| 0 <= a < e2.len() implies #[trigger] e2[a] == old_entries[
                        if a == i {
                            old_entries.len() - 1
                        } else {
                            a
                        }
                    ] by {}
                    Db::lemma_view_after_bucket_remove(&old_db, self, b as int, item.key());
                    Db::lemma_wf_after_bucket_change(&old_db, self, b as int, old_entries[i as int]);
                }
                true
            },
            None => {
                proof {
                    assert(bucket_map(old_entries).remove(item.key()) =~= bucket_map(old_entries));
                    assert(old_db@.remove(item.key()) =~= old_db@);
                }
                false
            },
        }
    }
}

/// Looks for the item with key `key` among `entries`.
fn find_in_bucket(entries: &Vec<Arc<Item>>, key: &[u8]) -> (r: Option<usize>)
    requires
        forall|i: int| 0 <= i < entries@.len() ==> (#[trigger] entries@[i]).wf(),
    ensures
        match r {
            Some(i) => i < entries@.len() && entries@[i as int].key() == key@,
            None => !bucket_has(entries@, key@),
        },
{
    let mut i: usize = 0;
    while i < entries.len()
        invariant
            i <= entries@.len(),
            forall|j: int| 0 <= j < entries@.len() ==> (#[trigger] entries@[j]).wf(),
            forall|j: int| 0 <= j < i ==> (#[trigger] entries@[j]).key() != key@,
        decreases entries@.len() - i,
    {
        if entries[i].key_matches(key) {
            return Some(i);
        }
        i = i + 1;
    }
    None
}

impl View for Db {
    type V = Map<Seq<u8>, Arc<Item>>;

    /// Each key is looked up in the bucket that its hash selects.
    closed spec fn view(&self) -> Map<Seq<u8>, Arc<Item>> {
        Map::new(
            |k: Seq<u8>|
                self.buckets@.len() > 0 && bucket_map(
                    self.entries_of(bucket_index(k, self.buckets@.len() as int)),
                ).contains_key(k),
            |k: Seq<u8>| bucket_map(self.entries_of(bucket_index(k, self.buckets@.len() as int)))[k],
        )
    }
}

/// The contents of a store that started empty after `items` were set in
/// order.
pub open spec fn contents_after_sets(items: Seq<Arc<Item>>) -> Map<Seq<u8>, Arc<Item>> {
    contents_after_sets_from(Map::empty(), items)
}

/// The contents of a store that held `m` after `items` were set in order.
pub open spec fn contents_after_sets_from(
    m: Map<Seq<u8>, Arc<Item>>,
    items: Seq<Arc<Item>>,
) -> Map<Seq<u8>, Arc<Item>>
    decreases items.len(),
{
    if items.len() == 0 {
        m
    } else {
        contents_after_sets_from(m, items.drop_last()).insert(items.last().key(), items.last())
    }
}

/// A read gives back what the last write under that key stored: after
/// `set(item)`, `get` of the item's key returns `item`.
pub proof fn lemma_get_after_set(m: Map<Seq<u8>, Arc<Item>>, item: Arc<Item>)
    ensures
        lookup(m.insert(item.key(), item), item.key()) == Some(item),
{
}

/// Setting an item leaves every other key as it was.
pub proof fn lemma_set_keeps_other_keys(m: Map<Seq<u8>, Arc<Item>>, item: Arc<Item>, key: Seq<u8>)
    requires
        key != item.key(),
    ensures
        lookup(m.insert(item.key(), item), key) == lookup(m, key),
{
}

/// Setting two items with the same key: the second `set` reports that the
/// key existed, and the second item replaces the first.
pub proof fn lemma_second_set_replaces(m: Map<Seq<u8>, Arc<Item>>, a: Arc<Item>, b: Arc<Item>)
    requires
        a.key() == b.key(),
    ensures
        m.insert(a.key(), a).contains_key(b.key()),
        m.insert(a.key(), a).insert(b.key(), b) == m.insert(b.key(), b),
{
    assert(m.insert(a.key(), a).insert(b.key(), b) =~= m.insert(b.key(), b));
}

/// Deleting what was just set: `delete` reports the key, and a `get` then
/// finds nothing.
pub proof fn lemma_delete_after_set(m: Map<Seq<u8>, Arc<Item>>, item: Arc<Item>)
    ensures
        m.insert(item.key(), item).contains_key(item.key()),
        lookup(m.insert(item.key(), item).remove(item.key()), item.key()) == None::<Arc<Item>>,
{
}

/// Deleting a key that is not there reports false and changes nothing.
pub proof fn lemma_delete_absent(m: Map<Seq<u8>, Arc<Item>>, key: Seq<u8>)
    requires
        !m.contains_key(key),
    ensures
        m.remove(key) == m,
{
    assert(m.remove(key) =~= m);
}

/// Setting items with pairwise distinct keys into an empty store: no `set`
/// finds its key already there, and each item can be read back.
pub proof fn lemma_distinct_keys_are_fresh(items: Seq<Arc<Item>>)
    requires
        forall|i: int, j: int|
            0 <= i < items.len() && 0 <= j < items.len() && i != j ==> (#[trigger] items[i]).key()
                != (#[trigger] items[j]).key(),
    ensures
        forall|j: int|
            0 <= j < items.len() ==> !contents_after_sets(#[trigger] items.subrange(0, j)).contains_key(
                items[j].key(),
            ),
        forall|j: int|
            0 <= j < items.len() ==> lookup(contents_after_sets(items), (#[trigger] items[j]).key())
                == Some(items[j]),
    decreases items.len(),
{
    if items.len() > 0 {
        let init = items.drop_last();
        lemma_distinct_keys_are_fresh(init);
        assert forall|j: int| 0 <= j < items.len() implies !contents_after_sets(
            #[trigger] items.subrange(0, j),
        ).contains_key(items[j].key()) by {
            if j < init.len() {
                assert(items.subrange(0, j) =~= init.subrange(0, j));
                assert(init[j] == items[j]);
            } else {
                assert(items.subrange(0, j) =~= init);
                lemma_keys_of_sets(init, items[j].key());
                if contents_after_sets(init).contains_key(items[j].key()) {
                    let i = choose|i: int| 0 <= i < init.len() && (#[trigger] init[i]).key() == items[j].key();
                    assert(items[i].key() != items[j].key());
                }
            }
        }
        assert forall|j: int| 0 <= j < items.len() implies lookup(
            contents_after_sets(items),
            (#[trigger] items[j]).key(),
        ) == Some(items[j]) by {
            if j < init.len() {
                assert(init[j] == items[j]);
                assert(items[j].key() != items.last().key());
            }
        }
    }
}

/// A key is in the contents after a run of sets exactly when one of the
/// items set has it.
pub proof fn lemma_keys_of_sets(items: Seq<Arc<Item>>, key: Seq<u8>)
    ensures
        contents_after_sets(items).contains_key(key) <==> exists|i: int|
            0 <= i < items.len() && (#[trigger] items[i]).key() == key,
    decreases items.len(),
{
    if items.len() > 0 {
        let init = items.drop_last();
        lemma_keys_of_sets(init, key);
        if contents_after_sets(init).contains_key(key) {
            let i = choose|i: int| 0 <= i < init.len() && (#[trigger] init[i]).key() == key;
            assert(items[i] == init[i]);
        }
        if exists|i: int| 0 <= i < items.len() && (#[trigger] items[i]).key() == key {
            let i = choose|i: int| 0 <= i < items.len() && (#[trigger] items[i]).key() == key;
            if i < init.len() {
                assert(init[i] == items[i]);
            }
        }
    }
}

/// The bucket of an item is a function of its key alone: items with equal
/// keys hash alike, every time their hash is computed, and so land in the
/// same bucket.
pub proof fn lemma_equal_keys_same_bucket(a: Item, b: Item, n: int)
    requires
        a.key() == b.key(),
    ensures
        key_hash(a.key()) == key_hash(b.key()),
        bucket_index(a.key(), n) == bucket_index(b.key(), n),
{
}

proof fn lemma_views_are_prefix_contents(
    items: Seq<Arc<Item>>,
    views: Seq<Map<Seq<u8>, Arc<Item>>>,
    k: int,
)
    requires
        views.len() == items.len() + 1,
        views[0] == Map::<Seq<u8>, Arc<Item>>::empty(),
        forall|i: int|
            0 <= i < items.len() ==> #[trigger] views[i + 1] == views[i].insert(
                items[i].key(),
                items[i],
            ),
        0 <= k <= items.len(),
    ensures
        views[k] == contents_after_sets(items.subrange(0, k)),
    decreases k,
{
    if k == 0 {
        assert(items.subrange(0, 0) =~= Seq::<Arc<Item>>::empty());
    } else {
        lemma_views_are_prefix_contents(items, views, k - 1);
        assert(items.subrange(0, k).drop_last() =~= items.subrange(0, k - 1));
        assert(views[(k - 1) + 1] == views[k - 1].insert(items[k - 1].key(), items[k - 1]));
    }
}

/// A run of `set` calls on an empty store with items of pairwise distinct
/// keys, as the footprint benchmark makes: `views[i]` is the store's
/// contents before call `i` and `existed[i]` what that call returned, as the
/// contract of `set` gives them. No call reports an existing key, the store
/// ends up holding exactly the items set, and `get` finds each of them.
pub proof fn lemma_sets_of_distinct_keys(
    items: Seq<Arc<Item>>,
    views: Seq<Map<Seq<u8>, Arc<Item>>>,
    existed: Seq<bool>,
)
    requires
        views.len() == items.len() + 1,
        existed.len() == items.len(),
        views[0] == Map::<Seq<u8>, Arc<Item>>::empty(),
        forall|i: int|
            0 <= i < items.len() ==> #[trigger] views[i + 1] == views[i].insert(
                items[i].key(),
                items[i],
            ) && existed[i] == views[i].contains_key(items[i].key()),
        forall|i: int, j: int|
            0 <= i < items.len() && 0 <= j < items.len() && i != j ==> (#[trigger] items[i]).key()
                != (#[trigger] items[j]).key(),
    ensures
        forall|i: int| 0 <= i < items.len() ==> !(#[trigger] existed[i]),
        views.last() == contents_after_sets(items),
        forall|i: int|
            0 <= i < items.len() ==> lookup(views.last(), (#[trigger] items[i]).key()) == Some(
                items[i],
            ),
{
    lemma_distinct_keys_are_fresh(items);
    assert forall|i: int| 0 <= i < items.len() implies !(#[trigger] existed[i]) by {
        lemma_views_are_prefix_contents(items, views, i);
        assert(views[i + 1] == views[i].insert(items[i].key(), items[i]));
        assert(!contents_after_sets(items.subrange(0, i)).contains_key(items[i].key()));
    }
    lemma_views_are_prefix_contents(items, views, items.len() as int);
    assert(items.subrange(0, items.len() as int) =~= items);
}

} // verus!
