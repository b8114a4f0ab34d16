use vstd::prelude::*;
use cache_2q::{Cache, Entry};
use std::hash::{BuildHasher, Hash};

verus! {

/// The page cache of the pager: page index to page bytes.
#[verifier::external_type_specification]
#[verifier::external_body]
#[verifier::reject_recursive_types(K)]
#[verifier::reject_recursive_types(V)]
#[verifier::reject_recursive_types(S)]
pub struct ExCache<K: Eq + Hash, V, S: BuildHasher>(Cache<K, V, S>);

/// The greatest size of a cache: its tables, of which one keeps four
/// remembered keys for every page of room, stay far from the limits of the
/// address space.
pub const MAX_CACHE_SIZE: usize = 0x40_0000;

/// The entries of the recent queue, oldest first.
pub uninterp spec fn cache_recent(c: Cache<usize, Vec<u8>>) -> Seq<(usize, Seq<u8>)>;

/// The entries of the frequent queue, least recently used first.
pub uninterp spec fn cache_frequent(c: Cache<usize, Vec<u8>>) -> Seq<(usize, Seq<u8>)>;

/// The keys remembered after they left the recent queue, oldest first.
pub uninterp spec fn cache_remembered(c: Cache<usize, Vec<u8>>) -> Seq<usize>;

/// The size the cache was made with: the most entries either queue holds.
pub uninterp spec fn cache_limit(c: Cache<usize, Vec<u8>>) -> nat;

/// What a two-queue cache holds.
pub struct CacheView {
    pub recent: Seq<(usize, Seq<u8>)>,
    pub frequent: Seq<(usize, Seq<u8>)>,
    pub remembered: Seq<usize>,
    pub limit: nat,
}

/// The first position of `key` in a queue, or the queue's length.
pub open spec fn key_position(queue: Seq<(usize, Seq<u8>)>, key: usize) -> int
    decreases queue.len(),
{
    if queue.len() == 0 {
        0
    } else if queue[0].0 == key {
        0
    } else {
        1 + key_position(queue.drop_first(), key)
    }
}

/// The queue with the entry of `key` moved to the newest end.
pub open spec fn refreshed(queue: Seq<(usize, Seq<u8>)>, key: usize) -> Seq<(usize, Seq<u8>)> {
    let i = key_position(queue, key);
    queue.remove(i).push(queue[i])
}

/// The queue after one more entry, which pushes the oldest out when `limit` are there.
pub open spec fn enqueued(queue: Seq<(usize, Seq<u8>)>, limit: nat, key: usize, value: Seq<u8>) -> Seq<
    (usize, Seq<u8>),
> {
    if queue.len() + 1 > limit {
        queue.drop_first().push((key, value))
    } else {
        queue.push((key, value))
    }
}

impl CacheView {
    /// Whether the recent queue has the key.
    pub open spec fn in_recent(self, key: usize) -> bool {
        key_position(self.recent, key) < self.recent.len()
    }

    /// Whether the frequent queue has the key.
    pub open spec fn in_frequent(self, key: usize) -> bool {
        key_position(self.frequent, key) < self.frequent.len()
    }

    /// Whether a value is cached for `key`.
    pub open spec fn holds(self, key: usize) -> bool {
        self.in_recent(key) || self.in_frequent(key)
    }

    /// The value cached for `key`.
    pub open spec fn value_of(self, key: usize) -> Seq<u8> {
        if self.in_recent(key) {
            self.recent[key_position(self.recent, key)].1
        } else {
            self.frequent[key_position(self.frequent, key)].1
        }
    }

    /// The cache after a lookup of `key`: a hit becomes the newest of its queue.
    pub open spec fn after_get(self, key: usize) -> CacheView {
        if self.in_recent(key) {
            CacheView { recent: refreshed(self.recent, key), ..self }
        } else if self.in_frequent(key) {
            CacheView { frequent: refreshed(self.frequent, key), ..self }
        } else {
            self
        }
    }

    /// The cache after `key`, which it does not hold, is inserted. A remembered
    /// key enters the frequent queue. Any other enters the recent queue, whose
    /// oldest entry, when the queue is full, leaves and is remembered; at four
    /// times `limit` remembered keys the newest of them gives way.
    pub open spec fn after_insert(self, key: usize, value: Seq<u8>) -> CacheView {
        if self.remembered.contains(key) {
            CacheView {
                remembered: self.remembered.remove(self.remembered.index_of(key)),
                frequent: enqueued(self.frequent, self.limit, key, value),
                ..self
            }
        } else if self.recent.len() + 1 > self.limit {
            CacheView {
                recent: enqueued(self.recent, self.limit, key, value),
                remembered: if self.remembered.len() + 1 > 4 * self.limit {
                    self.remembered.drop_last().push(self.recent[0].0)
                } else {
                    self.remembered.push(self.recent[0].0)
                },
                ..self
            }
        } else {
            CacheView { recent: enqueued(self.recent, self.limit, key, value), ..self }
        }
    }

    /// The number of values that are cached.
    pub open spec fn total(self) -> nat {
        self.recent.len() + self.frequent.len()
    }

    /// The key of the oldest entry: of the recent queue, or of the frequent
    /// queue where the recent queue is empty.
    pub open spec fn oldest(self) -> Option<usize> {
        if self.recent.len() > 0 {
            Some(self.recent[0].0)
        } else if self.frequent.len() > 0 {
            Some(self.frequent[0].0)
        } else {
            None
        }
    }

    /// The cache after the value of `key` is removed from the queue that has it.
    pub open spec fn after_remove(self, key: usize) -> CacheView {
        if self.in_recent(key) {
            CacheView { recent: self.recent.remove(key_position(self.recent, key)), ..self }
        } else if self.in_frequent(key) {
            CacheView { frequent: self.frequent.remove(key_position(self.frequent, key)), ..self }
        } else {
            self
        }
    }

    /// A cache of size `limit` with nothing in it.
    pub open spec fn empty(limit: nat) -> CacheView {
        CacheView { recent: Seq::empty(), frequent: Seq::empty(), remembered: Seq::empty(), limit }
    }
}

/// What `c` holds.
pub open spec fn view_of(c: Cache<usize, Vec<u8>>) -> CacheView {
    CacheView {
        recent: cache_recent(c),
        frequent: cache_frequent(c),
        remembered: cache_remembered(c),
        limit: cache_limit(c),
    }
}

/// `cache_2q::Cache::new`: an empty cache with room for `size` recent and
/// `size` frequent entries. The outside function panics on size zero, and
/// makes room for four times `size` remembered keys at once.
#[verifier::external_body]
pub(crate) fn cache_new(size: usize) -> (c: Cache<usize, Vec<u8>>)
    requires
        0 < size,
        size <= MAX_CACHE_SIZE,
    ensures
        cache_recent(c) == Seq::<(usize, Seq<u8>)>::empty(),
        cache_frequent(c) == Seq::<(usize, Seq<u8>)>::empty(),
        cache_remembered(c) == Seq::<usize>::empty(),
        cache_limit(c) == size,
{
    Cache::new(size)
}

/// `cache_2q::Cache::contains_key`: whether the recent or the frequent queue
/// has the key. Nothing moves.
#[verifier::external_body]
pub(crate) fn cache_contains_key(c: &Cache<usize, Vec<u8>>, key: usize) -> (r: bool)
    ensures
        r == (key_position(cache_recent(*c), key) < cache_recent(*c).len() || key_position(
            cache_frequent(*c),
            key,
        ) < cache_frequent(*c).len()),
{
    c.contains_key(&key)
}

/// `cache_2q::Cache::insert`, for a key that the cache does not hold: the
/// entry goes to the newest end of the frequent queue if the key was
/// remembered, else of the recent queue, as `after_insert` says. The outside
/// function returns the value that the key had, here none.
#[verifier::external_body]
pub(crate) fn cache_insert(c: &mut Cache<usize, Vec<u8>>, key: usize, value: Vec<u8>)
    requires
        !view_of(*old(c)).holds(key),
    ensures
        cache_recent(*final(c)) == view_of(*old(c)).after_insert(key, value@).recent,
        cache_frequent(*final(c)) == view_of(*old(c)).after_insert(key, value@).frequent,
        cache_remembered(*final(c)) == view_of(*old(c)).after_insert(key, value@).remembered,
        cache_limit(*final(c)) == cache_limit(*old(c)),
{
    c.insert(key, value);
}

/// `cache_2q::Cache::get`: a copy of the value of `key`, which becomes the
/// newest entry of the queue that has it; `None`, and no change, where neither
/// queue has it.
#[verifier::external_body]
pub(crate) fn cache_get(c: &mut Cache<usize, Vec<u8>>, key: usize) -> (r: Option<Vec<u8>>)
    ensures
        cache_recent(*final(c)) == view_of(*old(c)).after_get(key).recent,
        cache_frequent(*final(c)) == view_of(*old(c)).after_get(key).frequent,
        cache_remembered(*final(c)) == cache_remembered(*old(c)),
        cache_limit(*final(c)) == cache_limit(*old(c)),
        match r {
            Some(v) => view_of(*old(c)).holds(key) && v@ == view_of(*old(c)).value_of(key),
            None => !view_of(*old(c)).holds(key),
        },
{
    c.get(&key).cloned()
}

/// `cache_2q::Cache::clear`: both queues and the remembered keys are emptied;
/// the size stays.
#[verifier::external_body]
pub(crate) fn cache_clear(c: &mut Cache<usize, Vec<u8>>)
    ensures
        cache_recent(*final(c)) == Seq::<(usize, Seq<u8>)>::empty(),
        cache_frequent(*final(c)) == Seq::<(usize, Seq<u8>)>::empty(),
        cache_remembered(*final(c)) == Seq::<usize>::empty(),
        cache_limit(*final(c)) == cache_limit(*old(c)),
{
    c.clear();
}

/// `cache_2q::Cache::peek_entry` and `VacantEntry::is_remembered`, for a key
/// that the cache does not hold: whether the key is among the remembered
/// keys. Nothing moves.
#[verifier::external_body]
pub(crate) fn cache_is_remembered(c: &mut Cache<usize, Vec<u8>>, key: usize) -> (r: bool)
    requires
        !view_of(*old(c)).holds(key),
    ensures
        r == cache_remembered(*old(c)).contains(key),
        cache_recent(*final(c)) == cache_recent(*old(c)),
        cache_frequent(*final(c)) == cache_frequent(*old(c)),
        cache_remembered(*final(c)) == cache_remembered(*old(c)),
        cache_limit(*final(c)) == cache_limit(*old(c)),
{
    match c.peek_entry(key) {
        Entry::Vacant(entry) => entry.is_remembered(),
        Entry::Occupied(_) => false,
    }
}

/// `cache_2q::Cache::iter`, its first item: the key of the oldest entry of
/// the recent queue, or of the frequent queue where the recent queue is
/// empty; `None` where the cache is empty.
#[verifier::external_body]
pub(crate) fn cache_oldest(c: &Cache<usize, Vec<u8>>) -> (r: Option<usize>)
    ensures
        r == (if cache_recent(*c).len() > 0 {
            Some(cache_recent(*c)[0].0)
        } else if cache_frequent(*c).len() > 0 {
            Some(cache_frequent(*c)[0].0)
        } else {
            None
        }),
{
    c.iter().next().map(|entry| *entry.0)
}

/// `cache_2q::Cache::remove`: the value of `key` leaves the recent queue, or
/// the frequent queue where the recent queue does not have the key; the
/// other entries keep their order, and the key is not remembered.
#[verifier::external_body]
pub(crate) fn cache_remove(c: &mut Cache<usize, Vec<u8>>, key: usize)
    ensures
        cache_recent(*final(c)) == view_of(*old(c)).after_remove(key).recent,
        cache_frequent(*final(c)) == view_of(*old(c)).after_remove(key).frequent,
        cache_remembered(*final(c)) == cache_remembered(*old(c)),
        cache_limit(*final(c)) == cache_limit(*old(c)),
{
    c.remove(&key);
}

} // verus!
