//! A hash map with a fixed number of buckets, each a singly-linked chain of
//! entries.
//!
//! The table never grows: the number of buckets is chosen when the map is
//! made. An entry is never altered once it is linked: a new value for a key
//! unlinks the old entry and links a fresh one at the head of its chain.
//!
//! What stands here is what each operation does to the map at the one moment
//! it takes effect, stated exactly. A caller reaches the map through
//! `&mut`, so the borrow checker is what keeps two writers apart; to share a
//! map among threads, put it behind a lock.

use crate::hash_key::HashKey;
use crate::key_order::clone_exact;
use vstd::prelude::*;

verus! {

/// The number of buckets of a map made by [`LockFreeHashMap::new`].
pub const BUCKETS: usize = 64;

/// One link of a chain: the rest of the chain, if any.
type Link<K, V> = Option<Box<Entry<K, V>>>;

/// A key, its value, and the entries linked before it.
struct Entry<K, V> {
    key: K,
    value: V,
    next: Link<K, V>,
}

/// The bucket that `key` belongs to in a table of `buckets` buckets.
spec fn bucket_of<K: HashKey>(key: K, buckets: nat) -> int {
    (key.digest() as int) % (buckets as int)
}

/// The map that a chain stands for: an entry nearer the head hides a later
/// one of the same key.
spec fn chain<K, V>(link: Link<K, V>) -> Map<K, V>
    decreases link,
{
    match link {
        None => Map::empty(),
        Some(entry) => chain(entry.next).insert(entry.key, entry.value),
    }
}

/// No key is linked twice.
spec fn distinct<K, V>(link: Link<K, V>) -> bool
    decreases link,
{
    match link {
        None => true,
        Some(entry) => !chain(entry.next).contains_key(entry.key) && distinct(entry.next),
    }
}

/// The chain of bucket `bucket`: no key twice, and none that belongs to
/// another bucket.
spec fn chain_ok<K: HashKey, V>(link: Link<K, V>, bucket: int, buckets: nat) -> bool {
    &&& distinct(link)
    &&& forall|k: K| #[trigger] chain(link).contains_key(k) ==> bucket_of(k, buckets) == bucket
}

/// Looks `key` up in a chain.
fn chain_find<'a, K: HashKey, V>(link: &'a Link<K, V>, key: &K) -> (found: Option<&'a V>)
    ensures
        match found {
            Some(v) => chain(*link).contains_key(*key) && chain(*link)[*key] == *v,
            None => !chain(*link).contains_key(*key),
        },
    decreases link,
{
    match link {
        None => None,
        Some(entry) => {
            if entry.key.same_key(key) {
                Some(&entry.value)
            } else {
                chain_find(&entry.next, key)
            }
        },
    }
}

/// Unlinks the entry of `key` from a chain and hands out its value.
fn chain_unlink<K: HashKey, V>(link: &mut Link<K, V>, key: &K) -> (removed: Option<V>)
    requires
        distinct(*old(link)),
    ensures
        distinct(*final(link)),
        chain(*final(link)) == chain(*old(link)).remove(*key),
        removed == (if chain(*old(link)).contains_key(*key) {
            Some(chain(*old(link))[*key])
        } else {
            None
        }),
    decreases *old(link),
{
    match link.take() {
        None => {
            assert(chain(*link) =~= chain(*old(link)).remove(*key));
            None
        },
        Some(mut entry) => {
            if entry.key.same_key(key) {
                let Entry { value, next, .. } = *entry;
                *link = next;
                assert(chain(*link) =~= chain(*old(link)).remove(*key));
                Some(value)
            } else {
                let removed = chain_unlink(&mut entry.next, key);
                *link = Some(entry);
                assert(chain(*link) =~= chain(*old(link)).remove(*key));
                removed
            }
        },
    }
}

/// The map that `start` has become once the entries of `entries` have been
/// inserted one after another, the first of them first.
pub open spec fn after_inserts<K, V>(start: Map<K, V>, entries: Seq<(K, V)>) -> Map<K, V>
    decreases entries.len(),
{
    if entries.len() == 0 {
        start
    } else {
        after_inserts(start, entries.drop_last()).insert(entries.last().0, entries.last().1)
    }
}

/// No update is lost. Where no two of the entries have the same key, every
/// one of them is found with its own value once all are inserted, in
/// whatever order the insertions took effect.
pub proof fn lemma_no_lost_update<K, V>(start: Map<K, V>, entries: Seq<(K, V)>, i: int)
    requires
        0 <= i < entries.len(),
        forall|a: int, b: int| 0 <= a < b < entries.len() ==> entries[a].0 != entries[b].0,
    ensures
        after_inserts(start, entries).contains_key(entries[i].0),
        after_inserts(start, entries)[entries[i].0] == entries[i].1,
    decreases entries.len(),
{
    if i < entries.len() - 1 {
        let earlier = entries.drop_last();
        assert(earlier[i] == entries[i]);
        lemma_no_lost_update(start, earlier, i);
    }
}

/// The later of two insertions under one key wins: a map in which `key` got
/// `first` and then `second` holds `second` under `key`, and is the map that
/// a single insertion of `second` would have made.
pub proof fn lemma_later_insert_wins<K, V>(start: Map<K, V>, key: K, first: V, second: V)
    ensures
        start.insert(key, first).insert(key, second)[key] == second,
        start.insert(key, first).insert(key, second) == start.insert(key, second),
{
    assert(start.insert(key, first).insert(key, second) =~= start.insert(key, second));
}

/// A hash map over a fixed table of chained buckets.
///
/// It is named for the discipline its chains keep, which is the one a
/// lock-free table asks of its chains: an entry is immutable once linked, and
/// every change to a chain is the relinking of a single pointer.
pub struct LockFreeHashMap<K, V> {
    buckets: Vec<Link<K, V>>,
    count: usize,
}

impl<K: HashKey, V> View for LockFreeHashMap<K, V> {
    type V = Map<K, V>;

    /// The map from every key that is linked to its value.
    closed spec fn view(&self) -> Map<K, V> {
        Map::new(
            |k: K| chain(self.buckets@[bucket_of(k, self.buckets@.len())]).contains_key(k),
            |k: K| chain(self.buckets@[bucket_of(k, self.buckets@.len())])[k],
        )
    }
}

impl<K: HashKey, V> LockFreeHashMap<K, V> {
    /// The number of buckets, fixed when the map is made.
    pub closed spec fn spec_bucket_count(&self) -> nat {
        self.buckets@.len()
    }

    /// The table has a bucket, every chain holds the keys of its bucket and
    /// none twice, and the count of entries is kept.
    pub closed spec fn wf(&self) -> bool {
        &&& self.buckets@.len() > 0
        &&& forall|i: int|
            0 <= i < self.buckets@.len() ==> chain_ok(
                #[trigger] self.buckets@[i],
                i,
                self.buckets@.len(),
            )
        &&& self@.dom().finite()
        &&& self.count == self@.dom().len()
    }

    /// A well-formed map has a bucket and finitely many entries, no more
    /// than fit a `usize`.
    pub proof fn lemma_wf(&self)
        requires
            self.wf(),
        ensures
            self.spec_bucket_count() > 0,
            self@.dom().finite(),
            self@.len() <= usize::MAX,
    {
    }

    /// An empty map with `bucket_count` buckets.
    pub fn with_buckets(bucket_count: usize) -> (map: Self)
        requires
            bucket_count > 0,
        ensures
            map.wf(),
            map@ == Map::<K, V>::empty(),
            map.spec_bucket_count() == bucket_count,
    {
        let mut buckets: Vec<Link<K, V>> = Vec::new();
        let mut made: usize = 0;
        while made < bucket_count
            invariant
                made <= bucket_count,
                buckets@.len() == made,
                forall|i: int| 0 <= i < made ==> #[trigger] buckets@[i] == None::<Box<Entry<K, V>>>,
            decreases bucket_count - made,
        {
            buckets.push(None);
            made = made + 1;
        }
        let map = LockFreeHashMap { buckets, count: 0 };
        assert(map@ =~= Map::<K, V>::empty());
        map
    }

    /// An empty map with [`BUCKETS`] buckets.
    pub fn new() -> (map: Self)
        ensures
            map.wf(),
            map@ == Map::<K, V>::empty(),
            map.spec_bucket_count() == BUCKETS,
    {
        Self::with_buckets(BUCKETS)
    }

    /// The number of buckets.
    pub fn bucket_count(&self) -> (n: usize)
        ensures
            n == self.spec_bucket_count(),
    {
        self.buckets.len()
    }

    /// The index of the bucket that `key` belongs to.
    fn slot_of(&self, key: &K) -> (slot: usize)
        requires
            self.buckets@.len() > 0,
        ensures
            slot == bucket_of(*key, self.buckets@.len()),
            slot < self.buckets@.len(),
    {
        let digest: u64 = key.hash();
        let buckets: u64 = self.buckets.len() as u64;
        (digest % buckets) as usize
    }

    /// Looks `key` up and lends its value.
    fn find(&self, key: &K) -> (found: Option<&V>)
        requires
            self.wf(),
        ensures
            match found {
                Some(v) => self@.contains_key(*key) && self@[*key] == *v,
                None => !self@.contains_key(*key),
            },
    {
        let slot = self.slot_of(key);
        chain_find(&self.buckets[slot], key)
    }

    /// A copy of the value that `key` has, or `None` where it has none.
    pub fn get(&self, key: &K) -> (found: Option<V>) where V: Clone
        requires
            self.wf(),
        ensures
            match found {
                Some(v) => self@.contains_key(*key) && cloned(self@[*key], v),
                None => !self@.contains_key(*key),
            },
            clone_exact::<V>() ==> found == (if self@.contains_key(*key) {
                Some(self@[*key])
            } else {
                None
            }),
    {
        match self.find(key) {
            Some(value) => {
                let copy = value.clone();
                assert(cloned(*value, copy));
                Some(copy)
            },
            None => None,
        }
    }

    /// Tells whether `key` has a value.
    pub fn contains_key(&self, key: &K) -> (present: bool)
        requires
            self.wf(),
        ensures
            present == self@.contains_key(*key),
    {
        self.find(key).is_some()
    }

    /// The number of entries.
    pub fn len(&self) -> (n: usize)
        requires
            self.wf(),
        ensures
            n == self@.len(),
    {
        self.count
    }

    /// Gives `key` the value `value` and returns the value it had before, if
    /// it had one. The entry that held the old value is unlinked, and a fresh
    /// entry is linked at the head of the chain.
    pub fn insert(&mut self, key: K, value: V) -> (previous: Option<V>)
        requires
            old(self).wf(),
            old(self)@.contains_key(key) || old(self)@.len() < usize::MAX,
        ensures
            final(self).wf(),
            final(self)@ == old(self)@.insert(key, value),
            previous == (if old(self)@.contains_key(key) {
                Some(old(self)@[key])
            } else {
                None
            }),
            final(self).spec_bucket_count() == old(self).spec_bucket_count(),
    {
        let slot = self.slot_of(&key);
        let ghost before = self.buckets@;
        let previous = chain_unlink(&mut self.buckets[slot], &key);
        let rest = self.buckets[slot].take();
        self.buckets[slot] = Some(Box::new(Entry { key, value, next: rest }));
        proof {
            let after = self.buckets@;
            assert(after.len() == before.len());
            assert forall|i: int| 0 <= i < after.len() && i != slot implies after[i] == before[i] by {}
            assert(chain(after[slot as int]) =~= chain(before[slot as int]).insert(key, value));
            assert(self@ =~= old(self)@.insert(key, value));
            assert(self@.dom() =~= old(self)@.dom().insert(key));
            assert forall|i: int| 0 <= i < after.len() implies chain_ok(
                #[trigger] after[i],
                i,
                after.len(),
            ) by {
                assert(chain_ok(before[i], i, before.len()));
            }
        }
        if previous.is_none() {
            self.count = self.count + 1;
        }
        previous
    }

    /// Unlinks the entry of `key` and returns its value, if it had one.
    pub fn remove(&mut self, key: &K) -> (removed: Option<V>)
        requires
            old(self).wf(),
        ensures
            final(self).wf(),
            final(self)@ == old(self)@.remove(*key),
            removed == (if old(self)@.contains_key(*key) {
                Some(old(self)@[*key])
            } else {
                None
            }),
            final(self).spec_bucket_count() == old(self).spec_bucket_count(),
    {
        let slot = self.slot_of(key);
        let ghost before = self.buckets@;
        let removed = chain_unlink(&mut self.buckets[slot], key);
        proof {
            let after = self.buckets@;
            assert(after.len() == before.len());
            assert forall|i: int| 0 <= i < after.len() && i != slot implies after[i] == before[i] by {}
            assert(self@ =~= old(self)@.remove(*key));
            assert(self@.dom() =~= old(self)@.dom().remove(*key));
            assert forall|i: int| 0 <= i < after.len() implies chain_ok(
                #[trigger] after[i],
                i,
                after.len(),
            ) by {
                assert(chain_ok(before[i], i, before.len()));
            }
        }
        if removed.is_some() {
            self.count = self.count - 1;
        }
        removed
    }

    /// Unlinks every entry. The table keeps its buckets.
    pub fn clear(&mut self)
        requires
            old(self).wf(),
        ensures
            final(self).wf(),
            final(self)@ == Map::<K, V>::empty(),
            final(self).spec_bucket_count() == old(self).spec_bucket_count(),
    {
        let buckets = self.buckets.len();
        let mut slot: usize = 0;
        while slot < buckets
            invariant
                slot <= buckets,
                self.buckets@.len() == buckets,
                forall|i: int| 0 <= i < slot ==> #[trigger] self.buckets@[i] == None::<Box<Entry<K, V>>>,
            decreases buckets - slot,
        {
            self.buckets[slot] = None;
            slot = slot + 1;
        }
        self.count = 0;
        assert(self@ =~= Map::<K, V>::empty());
    }

    /// Tells whether the map has no entry.
    pub fn is_empty(&self) -> (empty: bool)
        requires
            self.wf(),
        ensures
            empty == (self@ == Map::<K, V>::empty()),
    {
        proof {
            if self.count == 0 {
                assert(self@.dom() =~= Set::empty());
                assert(self@ =~= Map::<K, V>::empty());
            }
        }
        self.count == 0
    }
}

} // verus!
