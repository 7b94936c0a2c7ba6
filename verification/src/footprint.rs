//! The items with which the footprint benchmark fills the store.

use crate::memcached::db::{contents_after_sets_from, lemma_keys_of_sets, Db, Item};
use std::sync::Arc;
use vstd::endian::{endianness, Endian};
use vstd::prelude::*;

verus! {

/// The number of bytes of a `usize`.
pub open spec fn usize_bytes() -> nat {
    (usize::BITS / 8) as nat
}

/// The bytes of `x`, least significant first.
pub open spec fn le_bytes_usize(x: usize) -> Seq<u8> {
    Seq::new(usize_bytes(), |k: int| (x >> ((8 * k) as usize)) as u8)
}

/// `b` is `x` written in one of the two byte orders a machine can have.
pub open spec fn native_bytes_of_usize(b: Seq<u8>, x: usize) -> bool {
    b == le_bytes_usize(x) || b == le_bytes_usize(x).reverse()
}

/// The bytes of `x` in the byte order of the machine running the code, the
/// same order everywhere in one program.
pub open spec fn ne_bytes_usize(x: usize) -> Seq<u8> {
    match endianness() {
        Endian::Little => le_bytes_usize(x),
        Endian::Big => le_bytes_usize(x).reverse(),
    }
}

/// Different numbers have different bytes in little-endian order.
pub proof fn lemma_le_bytes_usize_injective(x: usize, y: usize)
    requires
        le_bytes_usize(x) == le_bytes_usize(y),
    ensures
        x == y,
{
    let w = usize::BITS;
    assert(w == 32 || w == 64);
    assert(le_bytes_usize(x)[0] == le_bytes_usize(y)[0]);
    assert(le_bytes_usize(x)[0] == (x >> 0usize) as u8);
    assert(le_bytes_usize(y)[0] == (y >> 0usize) as u8);
    assert(le_bytes_usize(x)[1] == le_bytes_usize(y)[1]);
    assert(le_bytes_usize(x)[1] == (x >> 8usize) as u8);
    assert(le_bytes_usize(y)[1] == (y >> 8usize) as u8);
    assert(le_bytes_usize(x)[2] == le_bytes_usize(y)[2]);
    assert(le_bytes_usize(x)[2] == (x >> 16usize) as u8);
    assert(le_bytes_usize(y)[2] == (y >> 16usize) as u8);
    assert(le_bytes_usize(x)[3] == le_bytes_usize(y)[3]);
    assert(le_bytes_usize(x)[3] == (x >> 24usize) as u8);
    assert(le_bytes_usize(y)[3] == (y >> 24usize) as u8);
    if w == 64 {
        assert(le_bytes_usize(x)[4] == le_bytes_usize(y)[4]);
        assert(le_bytes_usize(x)[4] == (x >> 32usize) as u8);
        assert(le_bytes_usize(y)[4] == (y >> 32usize) as u8);
        assert(le_bytes_usize(x)[5] == le_bytes_usize(y)[5]);
        assert(le_bytes_usize(x)[5] == (x >> 40usize) as u8);
        assert(le_bytes_usize(y)[5] == (y >> 40usize) as u8);
        assert(le_bytes_usize(x)[6] == le_bytes_usize(y)[6]);
        assert(le_bytes_usize(x)[6] == (x >> 48usize) as u8);
        assert(le_bytes_usize(y)[6] == (y >> 48usize) as u8);
        assert(le_bytes_usize(x)[7] == le_bytes_usize(y)[7]);
        assert(le_bytes_usize(x)[7] == (x >> 56usize) as u8);
        assert(le_bytes_usize(y)[7] == (y >> 56usize) as u8);
    }
    assert(x == y) by (bit_vector)
        requires
            (x >> 0usize) as u8 == (y >> 0usize) as u8,
            (x >> 8usize) as u8 == (y >> 8usize) as u8,
            (x >> 16usize) as u8 == (y >> 16usize) as u8,
            (x >> 24usize) as u8 == (y >> 24usize) as u8,
            usize::BITS == 64 ==> (x >> 32usize) as u8 == (y >> 32usize) as u8,
            usize::BITS == 64 ==> (x >> 40usize) as u8 == (y >> 40usize) as u8,
            usize::BITS == 64 ==> (x >> 48usize) as u8 == (y >> 48usize) as u8,
            usize::BITS == 64 ==> (x >> 56usize) as u8 == (y >> 56usize) as u8,
            usize::BITS == 32 || usize::BITS == 64,
    ;
}

/// Different numbers have different bytes in the machine's byte order.
pub proof fn lemma_ne_bytes_usize_injective(x: usize, y: usize)
    requires
        ne_bytes_usize(x) == ne_bytes_usize(y),
    ensures
        x == y,
{
    match endianness() {
        Endian::Little => lemma_le_bytes_usize_injective(x, y),
        Endian::Big => {
            assert(le_bytes_usize(x) =~= ne_bytes_usize(x).reverse());
            assert(le_bytes_usize(y) =~= ne_bytes_usize(y).reverse());
            lemma_le_bytes_usize_injective(x, y);
        },
    }
}

/// `usize::to_ne_bytes`: `x` in the machine's byte order, vstd's
/// `endianness()`.
#[verifier::external_body]
fn usize_to_ne_bytes(x: usize) -> (b: Vec<u8>)
    ensures
        native_bytes_of_usize(b@, x),
        b@ == ne_bytes_usize(x),
{
    x.to_ne_bytes().to_vec()
}

/// The key of item `i`: zero bytes, then `i` in the machine's byte order,
/// `key_len` bytes in all.
pub fn footprint_key(i: usize, key_len: usize) -> (key: Vec<u8>)
    requires
        key_len >= usize_bytes(),
    ensures
        key@.len() == key_len,
        key@.subrange(0, key_len - usize_bytes()) == Seq::new(
            (key_len - usize_bytes()) as nat,
            |k: int| 0u8,
        ),
        native_bytes_of_usize(key@.subrange(key_len - usize_bytes(), key_len as int), i),
        key@.subrange(key_len - usize_bytes(), key_len as int) == ne_bytes_usize(i),
{
    let tail = usize_to_ne_bytes(i);
    let zeros = key_len - tail.len();
    let mut key: Vec<u8> = Vec::with_capacity(key_len);
    let mut j: usize = 0;
    while j < zeros
        invariant
            j <= zeros,
            key@ == Seq::new(j as nat, |k: int| 0u8),
        decreases zeros - j,
    {
        key.push(0u8);
        j = j + 1;
        proof {
            assert(key@ =~= Seq::new(j as nat, |k: int| 0u8));
        }
    }
    let mut t: usize = 0;
    while t < tail.len()
        invariant
            t <= tail@.len(),
            key@ == Seq::new(zeros as nat, |k: int| 0u8) + tail@.subrange(0, t as int),
        decreases tail@.len() - t,
    {
        key.push(tail[t]);
        t = t + 1;
    }
    assert(key@.subrange(0, zeros as int) =~= Seq::new(zeros as nat, |k: int| 0u8));
    assert(key@.subrange(zeros as int, key_len as int) =~= tail@);
    key
}

/// The value of item `i`: `val_len` bytes, each `i % 10`.
pub fn footprint_value(i: usize, val_len: usize) -> (value: Vec<u8>)
    ensures
        value@ == Seq::new(val_len as nat, |k: int| (i % 10) as u8),
{
    let v = (i % 10) as u8;
    let mut value: Vec<u8> = Vec::with_capacity(val_len);
    let mut j: usize = 0;
    while j < val_len
        invariant
            j <= val_len,
            v == (i % 10) as u8,
            value@ == Seq::new(j as nat, |k: int| (i % 10) as u8),
        decreases val_len - j,
    {
        value.push(v);
        j = j + 1;
        proof {
            assert(value@ =~= Seq::new(j as nat, |k: int| (i % 10) as u8));
        }
    }
    value
}

/// The clock ticks per second from what `sysconf(_SC_CLK_TCK)` returned:
/// its error value -1 counts as 0.
pub fn clock_ticks(raw: i64) -> (ticks: i64)
    ensures
        ticks == (if raw == -1 {
            0
        } else {
            raw
        }),
{
    if raw == -1 {
        0
    } else {
        raw
    }
}

/// `x` is item `i` of the benchmark: its key is `footprint_key(i, key_len)`,
/// its value `footprint_value(i, val_len)`, and its flags, expiry time and
/// cas are 0.
pub open spec fn is_footprint_item(x: Arc<Item>, i: int, key_len: usize, val_len: usize) -> bool {
    &&& x.wf()
    &&& x.key().len() == key_len
    &&& x.key().subrange(0, key_len - usize_bytes()) == Seq::new(
        (key_len - usize_bytes()) as nat,
        |k: int| 0u8,
    )
    &&& native_bytes_of_usize(x.key().subrange(key_len - usize_bytes(), key_len as int), i as usize)
    &&& x.key().subrange(key_len - usize_bytes(), key_len as int) == ne_bytes_usize(i as usize)
    &&& x.value() == Seq::new(val_len as nat, |k: int| (i % 10) as u8)
    &&& x.flags == 0
    &&& x.rel_exptime == 0
    &&& x.cas == 0
}

/// The benchmark's items have pairwise distinct keys: the keys of items `i`
/// and `j` differ whenever `i` and `j` do.
pub proof fn lemma_footprint_keys_distinct(
    a: Arc<Item>,
    i: int,
    b: Arc<Item>,
    j: int,
    key_len: usize,
    val_len: usize,
)
    requires
        0 <= i <= usize::MAX,
        0 <= j <= usize::MAX,
        i != j,
        key_len >= usize_bytes(),
        is_footprint_item(a, i, key_len, val_len),
        is_footprint_item(b, j, key_len, val_len),
    ensures
        a.key() != b.key(),
{
    if a.key() == b.key() {
        lemma_ne_bytes_usize_injective(i as usize, j as usize);
    }
}

/// Whether the `i`-th set of a run of sets into a store holding `start`
/// found its key already there.
pub open spec fn found_at(start: Map<Seq<u8>, Arc<Item>>, run: Seq<Arc<Item>>, i: int) -> bool {
    contents_after_sets_from(start, run.subrange(0, i)).contains_key(run[i].key())
}

/// `run` is what `fill_store` set into a store that held `start`, leaving
/// `end` and returning `stopped`: the benchmark items 0, 1, ... in order,
/// all `items` of them unless a set found its key already there, in which
/// case that set was the last.
pub open spec fn is_fill_run(
    start: Map<Seq<u8>, Arc<Item>>,
    run: Seq<Arc<Item>>,
    end: Map<Seq<u8>, Arc<Item>>,
    stopped: bool,
    items: usize,
    key_len: usize,
    val_len: usize,
) -> bool {
    &&& run.len() <= items
    &&& forall|i: int| 0 <= i < run.len() ==> is_footprint_item(#[trigger] run[i], i, key_len, val_len)
    &&& end == contents_after_sets_from(start, run)
    &&& forall|i: int| 0 <= i < run.len() && !(stopped && i == run.len() - 1) ==> !#[trigger] found_at(start, run, i)
    &&& stopped ==> run.len() > 0 && found_at(start, run, run.len() - 1)
    &&& !stopped ==> run.len() == items
}

/// Fills the store with the benchmark items 0, 1, ... `items - 1`, one set
/// each, and stops at the first set that finds its key already stored.
/// Returns whether a set did.
pub fn fill_store(db: &mut Db, items: usize, key_len: usize, val_len: usize) -> (stopped: bool)
    requires
        old(db).wf(),
        old(db).bucket_count() > 0,
        key_len >= usize_bytes(),
        key_len + val_len <= usize::MAX,
    ensures
        final(db).wf(),
        final(db).bucket_count() == old(db).bucket_count(),
        (exists|run: Seq<Arc<Item>>|
            #[trigger] is_fill_run(old(db)@, run, final(db)@, stopped, items, key_len, val_len)),
        old(db)@ == Map::<Seq<u8>, Arc<Item>>::empty() ==> !stopped,
{
    let ghost start = db@;
    let ghost mut run: Seq<Arc<Item>> = Seq::empty();
    let mut i: usize = 0;
    assert(db@ == contents_after_sets_from(start, run));
    while i < items
        invariant
            db.wf(),
            db.bucket_count() == old(db).bucket_count(),
            db.bucket_count() > 0,
            start == old(db)@,
            key_len >= usize_bytes(),
            key_len + val_len <= usize::MAX,
            i <= items,
            run.len() == i,
            forall|j: int| 0 <= j < run.len() ==> is_footprint_item(#[trigger] run[j], j, key_len, val_len),
            db@ == contents_after_sets_from(start, run),
            forall|j: int| 0 <= j < run.len() ==> !#[trigger] found_at(start, run, j),
        decreases items - i,
    {
        let key = footprint_key(i, key_len);
        let value = footprint_value(i, val_len);
        let item = Arc::new(Item::new(key.as_slice(), 0, 0, 0, value.as_slice()));
        let ghost before = db@;
        let ghost old_run = run;
        let existed = db.set(&item);
        proof {
            run = run.push(item);
            assert(run.drop_last() =~= old_run);
            assert(run.subrange(0, i as int) =~= old_run);
            assert(is_footprint_item(run[i as int], i as int, key_len, val_len));
            assert forall|j: int| 0 <= j < old_run.len() implies found_at(start, run, j) == found_at(start, old_run, j) by {
                assert(run.subrange(0, j) =~= old_run.subrange(0, j));
                assert(run[j] == old_run[j]);
            }
            assert(found_at(start, run, i as int) == existed);
            if start == Map::<Seq<u8>, Arc<Item>>::empty() && existed {
                lemma_keys_of_sets(old_run, item.key());
                let j = choose|j: int| 0 <= j < old_run.len() && (#[trigger] old_run[j]).key() == item.key();
                lemma_footprint_keys_distinct(old_run[j], j, item, i as int, key_len, val_len);
            }
        }
        if existed {
            assert(is_fill_run(start, run, db@, true, items, key_len, val_len));
            return true;
        }
        i = i + 1;
    }
    assert(is_fill_run(start, run, db@, false, items, key_len, val_len));
    false
}

} // verus!
