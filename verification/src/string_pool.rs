use vstd::prelude::*;
use vstd::utf8::encode_utf8;
use vstd::utf8::encode_utf8_decode_utf8;

use crate::hash::fnv1a_hash;
use crate::hash::spec_fnv1a;

verus! {

/// Identifies a string owned by a `StringPool`.
#[derive(Debug, PartialEq, Eq, Clone, Copy, Structural)]
pub struct PooledString {
    /// The bucket where this pooled string is
    pub bucket: u16,
    /// The offset inside the bucket.
    pub offset: u16,
}

struct StringPoolItem {
    value: String,
    /// Unique among all StringPoolItem in the pool.
    id: PooledString,
}

/// A bucket holds the items whose hash selects it, in the order they were added.
struct StringPoolBucket {
    data: Vec<StringPoolItem>,
}

// For now we hardcode the capacity to have 1024 buckets each with
// room for 64 items, this allows us to store 64*1024=65536
// different strings.
//
// BUCKETS_COUNT must be a power of 2.
//
// Also, both, BUCKETS_COUNT and BUCKET_SIZE fit into 16 bits,
// as PooledString indexes have that size in order to save memory.
/// The number of buckets of a pool.
pub const BUCKETS_COUNT: usize = 1024;

/// The amount elements that can fill into a bucket.
pub const BUCKET_SIZE: usize = 64;

/// Why a string could not be added to the pool.
#[derive(Debug, PartialEq, Eq, Clone, Copy, Structural)]
pub enum PoolError {
    /// The bucket that the string's hash selects already holds `BUCKET_SIZE` strings.
    BucketFull { bucket: usize },
}

/// A pool of distinct strings, each identified by a `PooledString`.
pub struct StringPool {
    buckets: Vec<StringPoolBucket>,
}

/// The bucket that the hash of a string selects.
pub open spec fn bucket_of(text: Seq<char>) -> int {
    (spec_fnv1a(encode_utf8(text)) % (BUCKETS_COUNT as u64)) as int
}

/// The pool as a sequence of buckets, each the sequence of its strings.
pub type PoolView = Seq<Seq<Seq<char>>>;

/// The empty pool.
pub open spec fn empty_pool() -> PoolView {
    Seq::new(BUCKETS_COUNT as nat, |i: int| Seq::<Seq<char>>::empty())
}

/// Well-formedness of a pool: every string sits in the bucket its hash
/// selects, no bucket holds a string twice or more than `BUCKET_SIZE` strings.
pub open spec fn pool_wf(pool: PoolView) -> bool {
    &&& pool.len() == BUCKETS_COUNT
    &&& forall|b: int| 0 <= b < pool.len() ==> #[trigger] pool[b].len() <= BUCKET_SIZE
    &&& forall|b: int, k: int|
        0 <= b < pool.len() && 0 <= k < pool[b].len() ==> bucket_of(#[trigger] pool[b][k]) == b
    &&& forall|b: int, k1: int, k2: int|
        0 <= b < pool.len() && 0 <= k1 < pool[b].len() && 0 <= k2 < pool[b].len() && k1 != k2
            ==> #[trigger] pool[b][k1] != #[trigger] pool[b][k2]
}

/// Whether the pool holds `text`.
pub open spec fn pool_contains(pool: PoolView, text: Seq<char>) -> bool {
    exists|k: int| 0 <= k < pool[bucket_of(text)].len() && #[trigger] pool[bucket_of(text)][k] == text
}

/// The identifier of `text` in the pool, if the pool holds it: its bucket
/// and its position there.
pub open spec fn lookup(pool: PoolView, text: Seq<char>) -> Option<PooledString> {
    if pool_contains(pool, text) {
        let b = bucket_of(text);
        let k = choose|k: int| 0 <= k < pool[b].len() && #[trigger] pool[b][k] == text;
        Some(PooledString { bucket: b as u16, offset: k as u16 })
    } else {
        None
    }
}

/// Adding `text` to the pool: the new pool and the result. A string already
/// pooled keeps its identifier; a new one goes at the end of its bucket,
/// unless that bucket is full.
pub open spec fn add_spec(pool: PoolView, text: Seq<char>) -> (PoolView, Result<PooledString, PoolError>) {
    match lookup(pool, text) {
        Some(id) => (pool, Ok(id)),
        None => {
            let b = bucket_of(text);
            if pool[b].len() + 1 > BUCKET_SIZE {
                (pool, Err(PoolError::BucketFull { bucket: b as usize }))
            } else {
                (
                    pool.update(b, pool[b].push(text)),
                    Ok(PooledString { bucket: b as u16, offset: pool[b].len() as u16 }),
                )
            }
        },
    }
}

/// In a well-formed pool, a string found in its bucket at position `k` is
/// identified by that bucket and `k`.
pub proof fn lemma_lookup_found(pool: PoolView, text: Seq<char>, k: int)
    requires
        pool_wf(pool),
        0 <= k < pool[bucket_of(text)].len(),
        pool[bucket_of(text)][k] == text,
    ensures
        lookup(pool, text) == Some(PooledString { bucket: bucket_of(text) as u16, offset: k as u16 }),
{
    let b = bucket_of(text);
    assert(pool_contains(pool, text));
    let c = choose|c: int| 0 <= c < pool[b].len() && #[trigger] pool[b][c] == text;
    if c != k {
        assert(pool[b][c] != pool[b][k]);
    }
}

/// What `lookup` finds in a well-formed pool is really there: the
/// identifier's bucket is the one the string's hash selects, and the string
/// sits at the identifier's offset.
pub proof fn lemma_lookup_sound(pool: PoolView, text: Seq<char>)
    requires
        pool_wf(pool),
        lookup(pool, text) is Some,
    ensures
        ({
            let id = lookup(pool, text).unwrap();
            &&& id.bucket as int == bucket_of(text)
            &&& (id.offset as int) < pool[bucket_of(text)].len()
            &&& pool[id.bucket as int][id.offset as int] == text
        }),
{
    let b = bucket_of(text);
    let k = choose|k: int| 0 <= k < pool[b].len() && #[trigger] pool[b][k] == text;
    assert(pool[b].len() <= BUCKET_SIZE);
}

/// Nothing is found in an empty pool.
pub proof fn law_empty_pool_finds_nothing(text: Seq<char>)
    ensures
        pool_wf(empty_pool()),
        lookup(empty_pool(), text) is None,
{
}

/// Adding keeps a pool well-formed.
pub proof fn law_add_keeps_pool_wf(pool: PoolView, text: Seq<char>)
    requires
        pool_wf(pool),
    ensures
        pool_wf(add_spec(pool, text).0),
{
    if lookup(pool, text) is None && pool[bucket_of(text)].len() + 1 <= BUCKET_SIZE {
        lemma_insert_wf(pool, text);
    }
}

/// A string that was added is found afterwards, under the identifier that
/// adding it returned.
pub proof fn law_find_after_add(pool: PoolView, text: Seq<char>)
    requires
        pool_wf(pool),
        add_spec(pool, text).1 is Ok,
    ensures
        lookup(add_spec(pool, text).0, text) == Some(add_spec(pool, text).1->Ok_0),
{
    if lookup(pool, text) is None {
        let b = bucket_of(text);
        lemma_insert_wf(pool, text);
        lemma_lookup_found(add_spec(pool, text).0, text, pool[b].len() as int);
    }
}

/// Pooled strings are stable: adding a string a second time returns the
/// identifier it got the first time and leaves the pool as it was.
pub proof fn law_add_is_idempotent(pool: PoolView, text: Seq<char>)
    requires
        pool_wf(pool),
        add_spec(pool, text).1 is Ok,
    ensures
        add_spec(add_spec(pool, text).0, text) == add_spec(pool, text),
{
    law_find_after_add(pool, text);
}

/// Adding a string does not change what is found for any other string.
pub proof fn law_add_keeps_other_strings(pool: PoolView, text: Seq<char>, other: Seq<char>)
    requires
        pool_wf(pool),
        other != text,
    ensures
        lookup(add_spec(pool, text).0, other) == lookup(pool, other),
{
    let b = bucket_of(text);
    if lookup(pool, text) is None && pool[b].len() + 1 <= BUCKET_SIZE {
        let new_pool = add_spec(pool, text).0;
        lemma_insert_wf(pool, text);
        let c = bucket_of(other);
        if pool_contains(pool, other) {
            let k = choose|k: int| 0 <= k < pool[c].len() && #[trigger] pool[c][k] == other;
            assert(new_pool[c][k] == other);
            lemma_lookup_found(pool, other, k);
            lemma_lookup_found(new_pool, other, k);
        } else {
            if pool_contains(new_pool, other) {
                let k = choose|k: int| 0 <= k < new_pool[c].len() && #[trigger] new_pool[c][k] == other;
                if c == b && k == pool[b].len() {
                    assert(new_pool[c][k] == text);
                } else {
                    assert(pool[c][k] == other);
                }
            }
        }
    }
}

/// Identifiers are unique: two strings with the same identifier are the
/// same string.
pub proof fn law_ids_are_unique(pool: PoolView, a: Seq<char>, b: Seq<char>)
    requires
        pool_wf(pool),
        lookup(pool, a) is Some,
        lookup(pool, a) == lookup(pool, b),
    ensures
        a == b,
{
    lemma_lookup_sound(pool, a);
    lemma_lookup_sound(pool, b);
}

/// A bucket that holds fewer than `BUCKET_SIZE` strings takes a new string
/// whose hash selects it; adding fails only when that bucket is full.
pub proof fn law_add_fails_only_when_bucket_full(pool: PoolView, text: Seq<char>)
    requires
        pool_wf(pool),
    ensures
        add_spec(pool, text).1 is Err <==> (!pool_contains(pool, text) && pool[bucket_of(text)].len() == BUCKET_SIZE),
        add_spec(pool, text).1 is Err ==> add_spec(pool, text).0 == pool,
{
}

/// Where a pooled string lives: the bucket of its identifier is its UTF-8
/// bytes' FNV-1a hash modulo 1024 (the hash's low ten bits), and the string
/// sits in that bucket at the identifier's offset, below 64.
pub proof fn law_pooled_string_location(pool: PoolView, text: Seq<char>)
    requires
        pool_wf(pool),
        lookup(pool, text) is Some,
    ensures
        ({
            let id = lookup(pool, text).unwrap();
            &&& id.bucket as int == (spec_fnv1a(encode_utf8(text)) as int) % 1024
            &&& (id.offset as int) < 64
            &&& pool[id.bucket as int][id.offset as int] == text
        }),
{
    lemma_lookup_sound(pool, text);
}

impl View for StringPool {
    type V = PoolView;

    closed spec fn view(&self) -> PoolView {
        buckets_view(self.buckets@)
    }
}

spec fn bucket_view(bucket: StringPoolBucket) -> Seq<Seq<char>> {
    bucket.data@.map_values(|item: StringPoolItem| item.value@)
}

spec fn buckets_view(buckets: Seq<StringPoolBucket>) -> PoolView {
    buckets.map_values(|bucket: StringPoolBucket| bucket_view(bucket))
}

/// Every item's identifier is its bucket and its position there.
spec fn ids_wf(buckets: Seq<StringPoolBucket>) -> bool {
    forall|b: int, k: int|
        0 <= b < buckets.len() && 0 <= k < buckets[b].data@.len()
            ==> (#[trigger] buckets[b].data@[k]).id == PooledString { bucket: b as u16, offset: k as u16 }
}

/// A new string pushed onto its bucket keeps the pool well-formed.
proof fn lemma_insert_wf(pool: PoolView, text: Seq<char>)
    requires
        pool_wf(pool),
        !pool_contains(pool, text),
        pool[bucket_of(text)].len() + 1 <= BUCKET_SIZE,
    ensures
        pool_wf(pool.update(bucket_of(text), pool[bucket_of(text)].push(text))),
{
    let b = bucket_of(text);
    let new_pool = pool.update(b, pool[b].push(text));
    let len = pool[b].len() as int;
    assert forall|c: int, k1: int, k2: int|
        0 <= c < new_pool.len() && 0 <= k1 < new_pool[c].len() && 0 <= k2 < new_pool[c].len()
            && k1 != k2 implies #[trigger] new_pool[c][k1] != #[trigger] new_pool[c][k2] by {
        if c == b {
            if k1 == len {
                assert(pool[b][k2] == new_pool[c][k2]);
            } else if k2 == len {
                assert(pool[b][k1] == new_pool[c][k1]);
            } else {
                assert(pool[b][k1] == new_pool[c][k1]);
                assert(pool[b][k2] == new_pool[c][k2]);
            }
        }
    }
    assert forall|c: int, k: int|
        0 <= c < new_pool.len() && 0 <= k < new_pool[c].len() implies bucket_of(#[trigger] new_pool[c][k]) == c by {
        if c == b && k < len {
            assert(pool[b][k] == new_pool[c][k]);
        }
    }
}

/// Pushing an item onto one bucket pushes its string onto that bucket of
/// the view, and keeps identifiers in place when the item's is its slot.
proof fn lemma_push_item(old_buckets: Seq<StringPoolBucket>, new_buckets: Seq<StringPoolBucket>, b: int, item: StringPoolItem)
    requires
        0 <= b < old_buckets.len(),
        new_buckets.len() == old_buckets.len(),
        forall|c: int| 0 <= c < old_buckets.len() && c != b ==> new_buckets[c] == old_buckets[c],
        new_buckets[b].data@ == old_buckets[b].data@.push(item),
        ids_wf(old_buckets),
        item.id == (PooledString { bucket: b as u16, offset: old_buckets[b].data@.len() as u16 }),
    ensures
        buckets_view(new_buckets) == buckets_view(old_buckets).update(b, buckets_view(old_buckets)[b].push(item.value@)),
        ids_wf(new_buckets),
{
    let v = buckets_view(old_buckets);
    assert forall|c: int| 0 <= c < old_buckets.len() implies #[trigger] buckets_view(new_buckets)[c] =~= v.update(b, v[b].push(item.value@))[c] by {
        if c == b {
            assert(bucket_view(new_buckets[c]) =~= bucket_view(old_buckets[b]).push(item.value@));
        }
    }
    assert(buckets_view(new_buckets) =~= v.update(b, v[b].push(item.value@)));
    assert forall|c: int, k: int|
        0 <= c < new_buckets.len() && 0 <= k < new_buckets[c].data@.len()
            implies (#[trigger] new_buckets[c].data@[k]).id == (PooledString { bucket: c as u16, offset: k as u16 }) by {
        if c == b && k < old_buckets[b].data@.len() {
            assert(new_buckets[c].data@[k] == old_buckets[b].data@[k]);
        }
    }
}

/// Whether two strings are equal, by their UTF-8 bytes.
fn same_text(a: &str, b: &str) -> (equal: bool)
    ensures
        equal == (a@ == b@),
{
    let x = a.as_bytes();
    let y = b.as_bytes();
    proof {
        encode_utf8_decode_utf8(a@);
        encode_utf8_decode_utf8(b@);
    }
    if x.len() != y.len() {
        return false;
    }
    let mut i: usize = 0;
    while i < x.len()
        invariant
            x@ == encode_utf8(a@),
            y@ == encode_utf8(b@),
            x@.len() == y@.len(),
            i <= x@.len(),
            forall|j: int| 0 <= j < i ==> x@[j] == y@[j],
        decreases x@.len() - i,
    {
        if x[i] != y[i] {
            return false;
        }
        i = i + 1;
    }
    proof {
        assert(x@ =~= y@);
    }
    true
}

impl StringPool {
    /// Well-formedness: the view is a well-formed pool, and every item's
    /// identifier is its bucket and its position there.
    pub closed spec fn wf(&self) -> bool {
        &&& pool_wf(self@)
        &&& self.buckets@.len() == BUCKETS_COUNT
        &&& ids_wf(self.buckets@)
    }

    /// An empty pool.
    pub fn new() -> (pool: StringPool)
        ensures
            pool.wf(),
            pool@ == empty_pool(),
    {
        let mut buckets: Vec<StringPoolBucket> = Vec::with_capacity(BUCKETS_COUNT);
        let mut n: usize = 0;
        while n < BUCKETS_COUNT
            invariant
                n <= BUCKETS_COUNT,
                buckets@.len() == n,
                forall|b: int| 0 <= b < n ==> (#[trigger] buckets@[b]).data@.len() == 0,
            decreases BUCKETS_COUNT - n,
        {
            let bucket = StringPoolBucket { data: Vec::new() };
            buckets.push(bucket);
            n = n + 1;
        }
        let pool = StringPool { buckets };
        proof {
            assert(pool@ =~= empty_pool()) by {
                assert forall|b: int| 0 <= b < BUCKETS_COUNT implies pool@[b] =~= empty_pool()[b] by {
                    assert(pool.buckets@[b].data@.len() == 0);
                }
            }
        }
        pool
    }

    /// The bucket selected by the hash of `text`.
    fn bucket_index(text: &str) -> (index: usize)
        ensures
            index == bucket_of(text@),
            index < BUCKETS_COUNT,
    {
        let text_hash = fnv1a_hash(text.as_bytes());
        let index = (text_hash as usize) & (BUCKETS_COUNT - 1);
        assert((text_hash as usize) & 1023usize == (text_hash % 1024) as usize) by (bit_vector);
        index
    }

    /// Searches bucket `index` for `text`.
    fn search_bucket(&self, index: usize, text: &str) -> (found: Option<PooledString>)
        requires
            self.wf(),
            index == bucket_of(text@),
        ensures
            found == lookup(self@, text@),
    {
        let bucket_items: &Vec<StringPoolItem> = &self.buckets[index].data;
        let ghost bucket = self@[index as int];
        proof {
            assert(bucket.len() == bucket_items@.len());
        }
        // Worst case when collisions happens this is O(n) search in the bucket items.
        let mut k: usize = 0;
        while k < bucket_items.len()
            invariant
                self.wf(),
                index == bucket_of(text@),
                bucket_items@ == self.buckets@[index as int].data@,
                bucket == self@[index as int],
                k <= bucket_items@.len(),
                forall|j: int| 0 <= j < k ==> bucket[j] != text@,
            decreases bucket_items@.len() - k,
        {
            let candidate_item = &bucket_items[k];
            if same_text(candidate_item.value.as_str(), text) {
                proof {
                    assert(bucket[k as int] == text@);
                    assert(pool_contains(self@, text@));
                    let c = choose|c: int| 0 <= c < bucket.len() && #[trigger] bucket[c] == text@;
                    assert(c == k);
                }
                return Some(candidate_item.id);
            }
            k = k + 1;
        }
        None
    }

    /// Receives a string slice, and returns their corresponding PooledString
    /// if found in the pool.
    ///
    /// If not found, return Option::None.
    pub fn find_pooled_string(&self, text: &str) -> (found: Option<PooledString>)
        requires
            self.wf(),
        ensures
            found == lookup(self@, text@),
    {
        let bucket_index = Self::bucket_index(text);
        self.search_bucket(bucket_index, text)
    }

    /// Takes ownership of `text` and returns the PooledString which
    /// identifies it: the one it already has if it was pooled before.
    pub fn add_string_to_pool(&mut self, text: String) -> (result: Result<PooledString, PoolError>)
        requires
            old(self).wf(),
        ensures
            final(self).wf(),
            (final(self)@, result) == add_spec(old(self)@, text@),
    {
        let bucket_index = Self::bucket_index(text.as_str());
        if let Some(id) = self.search_bucket(bucket_index, text.as_str()) {
            return Ok(id);
        }
        // Did not found an existing PooledString for received string, adding it.
        let len = self.buckets[bucket_index].data.len();
        // Checks if bucket has room for the new item.
        if len >= BUCKET_SIZE {
            return Err(PoolError::BucketFull { bucket: bucket_index });
        }
        let pooled_string = PooledString { bucket: bucket_index as u16, offset: len as u16 };
        let item = StringPoolItem { value: text, id: pooled_string };
        let ghost old_buckets = self.buckets@;
        let ghost pushed = item;
        proof {
            lemma_insert_wf(self@, pushed.value@);
        }
        self.buckets[bucket_index].data.push(item);
        proof {
            lemma_push_item(old_buckets, self.buckets@, bucket_index as int, pushed);
        }
        Ok(pooled_string)
    }
}

} // verus!
