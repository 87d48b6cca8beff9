//! In-memory, byte-budgeted cache with least-recently-used eviction.
//!
//! Access times come from a logical clock that ticks on every read and
//! write, so "least recently used" is exact and independent of wall time.
use vstd::prelude::*;

use crate::codec::CacheValue;
use crate::text::same_text;

verus! {

/// Statistics about cache performance.
#[derive(Debug, Clone, Copy)]
pub struct CacheStats {
    pub size_bytes: usize,
    pub size_limit: usize,
    pub entry_count: usize,
    pub hit_count: u64,
    pub miss_count: u64,
    pub eviction_count: u64,
}

/// What the debug listing shows of one entry.
#[derive(Debug, Clone)]
pub struct CacheEntryInfo {
    pub key: String,
    pub size_bytes: usize,
    pub access_count: u64,
    pub last_access: u64,
    pub created_at: u64,
}

/// One stored entry: the encoded value and its bookkeeping.
#[derive(Debug)]
pub struct CacheEntry {
    pub key: String,
    pub value: Vec<u8>,
    pub size_bytes: usize,
    pub access_time: u64,
    pub access_count: u64,
    pub created_at: u64,
}

/// Byte-budgeted key to encoded-value store.
pub struct LruCache {
    entries: Vec<CacheEntry>,
    size_limit_bytes: usize,
    current_size_bytes: usize,
    hit_count: u64,
    miss_count: u64,
    eviction_count: u64,
    clock: u64,
    logging_enabled: bool,
}

/// `x + 1`, held at `u64::MAX`.
pub open spec fn bump(x: u64) -> u64 {
    if x < u64::MAX {
        (x + 1) as u64
    } else {
        x
    }
}

/// `x + n`, held at `u64::MAX`.
pub open spec fn sat_add(x: u64, n: nat) -> u64 {
    if x + n <= u64::MAX {
        (x + n) as u64
    } else {
        u64::MAX
    }
}

/// Sum of the entries' byte sizes.
pub open spec fn total_size(s: Seq<CacheEntry>) -> nat
    decreases s.len(),
{
    if s.len() == 0 {
        0
    } else {
        total_size(s.drop_last()) + s.last().size_bytes as nat
    }
}

/// Position of the entry with key `k`, or -1.
pub open spec fn key_pos(s: Seq<CacheEntry>, k: Seq<char>) -> int
    decreases s.len(),
{
    if s.len() == 0 {
        -1
    } else if s.last().key@ == k {
        s.len() - 1
    } else {
        key_pos(s.drop_last(), k)
    }
}

/// Position of the least recently accessed entry (the first one among equals).
pub open spec fn lru_pos(s: Seq<CacheEntry>) -> int
    decreases s.len(),
{
    if s.len() <= 1 {
        0
    } else {
        let p = lru_pos(s.drop_last());
        if s.last().access_time < s[p].access_time {
            s.len() - 1
        } else {
            p
        }
    }
}

/// The entries without the one whose key is `k`.
pub open spec fn without_key(s: Seq<CacheEntry>, k: Seq<char>) -> Seq<CacheEntry> {
    if key_pos(s, k) >= 0 {
        s.remove(key_pos(s, k))
    } else {
        s
    }
}

/// The entries left after evicting least recently used ones until `need`
/// more bytes fit under `limit`, or nothing is left.
pub open spec fn make_room(s: Seq<CacheEntry>, need: nat, limit: nat) -> Seq<CacheEntry>
    decreases s.len(),
    via make_room_decreases
{
    if s.len() == 0 || total_size(s) + need <= limit {
        s
    } else {
        make_room(s.remove(lru_pos(s)), need, limit)
    }
}

#[via_fn]
proof fn make_room_decreases(s: Seq<CacheEntry>, need: nat, limit: nat) {
    if s.len() > 0 {
        lemma_lru_pos(s);
    }
}

/// No entry was accessed or created after `clock`.
pub open spec fn times_bounded(s: Seq<CacheEntry>, clock: u64) -> bool {
    forall|i: int| 0 <= i < s.len() ==> (#[trigger] s[i]).access_time <= clock && s[i].created_at <= clock
}

pub open spec fn keys_unique(s: Seq<CacheEntry>) -> bool {
    forall|i: int, j: int|
        0 <= i < s.len() && 0 <= j < s.len() && i != j ==> #[trigger] s[i].key@ != #[trigger] s[j].key@
}

pub open spec fn sizes_match(s: Seq<CacheEntry>) -> bool {
    forall|i: int| 0 <= i < s.len() ==> #[trigger] s[i].size_bytes == s[i].value@.len()
}

/// The clock ticked once.
pub open spec fn ticked(clock: u64) -> u64 {
    bump(clock)
}

proof fn lemma_total_remove(s: Seq<CacheEntry>, i: int)
    requires
        0 <= i < s.len(),
    ensures
        total_size(s.remove(i)) + s[i].size_bytes == total_size(s),
    decreases s.len(),
{
    if i == s.len() - 1 {
        assert(s.remove(i) =~= s.drop_last());
    } else {
        lemma_total_remove(s.drop_last(), i);
        assert(s.remove(i).drop_last() =~= s.drop_last().remove(i));
        assert(s.remove(i).last() == s.last());
    }
}

proof fn lemma_prefix_total(s: Seq<CacheEntry>, i: int)
    requires
        0 <= i <= s.len(),
    ensures
        total_size(s.subrange(0, i)) <= total_size(s),
    decreases s.len() - i,
{
    if i < s.len() {
        lemma_prefix_total(s, i + 1);
        assert(s.subrange(0, i + 1).drop_last() =~= s.subrange(0, i));
    } else {
        assert(s.subrange(0, i) =~= s);
    }
}

proof fn lemma_total_push(s: Seq<CacheEntry>, e: CacheEntry)
    ensures
        total_size(s.push(e)) == total_size(s) + e.size_bytes,
{
    assert(s.push(e).drop_last() =~= s);
}

proof fn lemma_total_update(s: Seq<CacheEntry>, i: int, e: CacheEntry)
    requires
        0 <= i < s.len(),
        e.size_bytes == s[i].size_bytes,
    ensures
        total_size(s.update(i, e)) == total_size(s),
    decreases s.len(),
{
    if i == s.len() - 1 {
        assert(s.update(i, e).drop_last() =~= s.drop_last());
    } else {
        lemma_total_update(s.drop_last(), i, e);
        assert(s.update(i, e).drop_last() =~= s.drop_last().update(i, e));
    }
}

proof fn lemma_key_pos(s: Seq<CacheEntry>, k: Seq<char>)
    ensures
        -1 <= key_pos(s, k) < s.len(),
        key_pos(s, k) >= 0 ==> s[key_pos(s, k)].key@ == k,
        key_pos(s, k) < 0 ==> forall|j: int| 0 <= j < s.len() ==> #[trigger] s[j].key@ != k,
    decreases s.len(),
{
    if s.len() > 0 {
        lemma_key_pos(s.drop_last(), k);
        if s.last().key@ != k {
            let p = key_pos(s.drop_last(), k);
            if p >= 0 {
                assert(s[p] == s.drop_last()[p]);
            } else {
                assert forall|j: int| 0 <= j < s.len() implies #[trigger] s[j].key@ != k by {
                    if j < s.len() - 1 {
                        assert(s[j] == s.drop_last()[j]);
                    }
                }
            }
        }
    }
}

proof fn lemma_key_pos_update(s: Seq<CacheEntry>, i: int, e: CacheEntry, k: Seq<char>)
    requires
        0 <= i < s.len(),
        e.key == s[i].key,
    ensures
        key_pos(s.update(i, e), k) == key_pos(s, k),
    decreases s.len(),
{
    if i == s.len() - 1 {
        assert(s.update(i, e).drop_last() =~= s.drop_last());
    } else {
        lemma_key_pos_update(s.drop_last(), i, e, k);
        assert(s.update(i, e).drop_last() =~= s.drop_last().update(i, e));
    }
}

proof fn lemma_lru_pos(s: Seq<CacheEntry>)
    requires
        s.len() > 0,
    ensures
        0 <= lru_pos(s) < s.len(),
        forall|j: int| 0 <= j < s.len() ==> s[lru_pos(s)].access_time <= #[trigger] s[j].access_time,
    decreases s.len(),
{
    if s.len() > 1 {
        lemma_lru_pos(s.drop_last());
        let p = lru_pos(s.drop_last());
        assert(s[p] == s.drop_last()[p]);
        assert forall|j: int| 0 <= j < s.len() implies s[lru_pos(s)].access_time <= #[trigger] s[j].access_time by {
            if j < s.len() - 1 {
                assert(s[j] == s.drop_last()[j]);
            }
        }
    }
}

proof fn lemma_remove_keeps(s: Seq<CacheEntry>, i: int)
    requires
        0 <= i < s.len(),
        keys_unique(s),
        sizes_match(s),
    ensures
        keys_unique(s.remove(i)),
        sizes_match(s.remove(i)),
        forall|j: int| 0 <= j < s.remove(i).len() ==> s.contains(#[trigger] s.remove(i)[j]),
{
    let r = s.remove(i);
    assert forall|a: int, b: int|
        0 <= a < r.len() && 0 <= b < r.len() && a != b implies #[trigger] r[a].key@
        != #[trigger] r[b].key@ by {
        let a2 = if a < i { a } else { a + 1 };
        let b2 = if b < i { b } else { b + 1 };
        assert(r[a] == s[a2]);
        assert(r[b] == s[b2]);
    }
    assert forall|j: int| 0 <= j < r.len() implies #[trigger] r[j].size_bytes == r[j].value@.len() by {
        let j2 = if j < i { j } else { j + 1 };
        assert(r[j] == s[j2]);
    }
    assert forall|j: int| 0 <= j < r.len() implies s.contains(#[trigger] r[j]) by {
        let j2 = if j < i { j } else { j + 1 };
        assert(r[j] == s[j2]);
    }
}

proof fn lemma_make_room(s: Seq<CacheEntry>, need: nat, limit: nat)
    requires
        keys_unique(s),
        sizes_match(s),
    ensures
        keys_unique(make_room(s, need, limit)),
        sizes_match(make_room(s, need, limit)),
        make_room(s, need, limit).len() <= s.len(),
        make_room(s, need, limit).len() == 0 || total_size(make_room(s, need, limit)) + need
            <= limit,
        forall|e: CacheEntry| make_room(s, need, limit).contains(e) ==> s.contains(e),
        total_size(s) + need <= limit ==> make_room(s, need, limit) == s,
    decreases s.len(),
{
    if s.len() == 0 || total_size(s) + need <= limit {
    } else {
        lemma_lru_pos(s);
        let r = s.remove(lru_pos(s));
        lemma_remove_keeps(s, lru_pos(s));
        lemma_make_room(r, need, limit);
        assert forall|e: CacheEntry| make_room(s, need, limit).contains(e) implies s.contains(e) by {
            assert(r.contains(e));
            let j = choose|j: int| 0 <= j < r.len() && r[j] == e;
            assert(s.contains(r[j]));
        }
    }
}

proof fn lemma_without_key(s: Seq<CacheEntry>, k: Seq<char>)
    requires
        keys_unique(s),
        sizes_match(s),
    ensures
        keys_unique(without_key(s, k)),
        sizes_match(without_key(s, k)),
        forall|j: int| 0 <= j < without_key(s, k).len() ==> #[trigger] without_key(s, k)[j].key@ != k,
        forall|e: CacheEntry| without_key(s, k).contains(e) ==> s.contains(e),
        key_pos(s, k) >= 0 ==> total_size(without_key(s, k)) + s[key_pos(s, k)].size_bytes
            == total_size(s),
        key_pos(s, k) < 0 ==> without_key(s, k) == s,
{
    lemma_key_pos(s, k);
    let p = key_pos(s, k);
    if p >= 0 {
        lemma_remove_keeps(s, p);
        lemma_total_remove(s, p);
        let r = s.remove(p);
        assert forall|j: int| 0 <= j < r.len() implies #[trigger] r[j].key@ != k by {
            let j2 = if j < p { j } else { j + 1 };
            assert(r[j] == s[j2]);
        }
        assert forall|e: CacheEntry| r.contains(e) implies s.contains(e) by {
            let j = choose|j: int| 0 <= j < r.len() && r[j] == e;
            assert(s.contains(r[j]));
        }
    }
}

/// The entries whose key does not start with `p`, in order.
pub open spec fn without_prefix(s: Seq<CacheEntry>, p: Seq<char>) -> Seq<CacheEntry>
    decreases s.len(),
{
    if s.len() == 0 {
        s
    } else if has_prefix(s.last().key@, p) {
        without_prefix(s.drop_last(), p)
    } else {
        without_prefix(s.drop_last(), p).push(s.last())
    }
}

pub open spec fn has_prefix(k: Seq<char>, p: Seq<char>) -> bool {
    p.len() <= k.len() && k.subrange(0, p.len() as int) == p
}

proof fn lemma_without_prefix(s: Seq<CacheEntry>, p: Seq<char>)
    requires
        keys_unique(s),
        sizes_match(s),
    ensures
        keys_unique(without_prefix(s, p)),
        sizes_match(without_prefix(s, p)),
        total_size(without_prefix(s, p)) <= total_size(s),
        forall|e: CacheEntry| without_prefix(s, p).contains(e) ==> s.contains(e),
        forall|j: int|
            0 <= j < without_prefix(s, p).len() ==> !has_prefix(
                #[trigger] without_prefix(s, p)[j].key@,
                p,
            ),
    decreases s.len(),
{
    if s.len() > 0 {
        let d = s.drop_last();
        assert forall|a: int, b: int|
            0 <= a < d.len() && 0 <= b < d.len() && a != b implies #[trigger] d[a].key@
            != #[trigger] d[b].key@ by {
            assert(d[a] == s[a]);
            assert(d[b] == s[b]);
        }
        assert forall|j: int| 0 <= j < d.len() implies #[trigger] d[j].size_bytes == d[j].value@.len() by {
            assert(d[j] == s[j]);
        }
        lemma_without_prefix(d, p);
        let r = without_prefix(d, p);
        assert forall|e: CacheEntry| d.contains(e) implies s.contains(e) by {
            let j = choose|j: int| 0 <= j < d.len() && d[j] == e;
            assert(s[j] == e);
        }
        if !has_prefix(s.last().key@, p) {
            let q = r.push(s.last());
            lemma_total_push(r, s.last());
            assert forall|j: int| 0 <= j < r.len() implies #[trigger] r[j].key@ != s.last().key@ by {
                assert(r.contains(r[j]));
                assert(d.contains(r[j]));
                let i = choose|i: int| 0 <= i < d.len() && d[i] == r[j];
                assert(s[i] == r[j]);
            }
            assert forall|a: int, b: int|
                0 <= a < q.len() && 0 <= b < q.len() && a != b implies #[trigger] q[a].key@
                != #[trigger] q[b].key@ by {
                if a < r.len() && b < r.len() {
                    assert(q[a] == r[a]);
                    assert(q[b] == r[b]);
                } else if a < r.len() {
                    assert(q[a] == r[a]);
                } else {
                    assert(q[b] == r[b]);
                }
            }
            assert forall|j: int| 0 <= j < q.len() implies #[trigger] q[j].size_bytes == q[j].value@.len() by {
                if j < r.len() {
                    assert(q[j] == r[j]);
                }
            }
            assert forall|e: CacheEntry| q.contains(e) implies s.contains(e) by {
                let j = choose|j: int| 0 <= j < q.len() && q[j] == e;
                if j < r.len() {
                    assert(q[j] == r[j]);
                    assert(r.contains(r[j]));
                } else {
                    assert(s[s.len() - 1] == e);
                }
            }
            assert forall|j: int| 0 <= j < q.len() implies !has_prefix(#[trigger] q[j].key@, p) by {
                if j < r.len() {
                    assert(q[j] == r[j]);
                }
            }
        }
    }
}

impl LruCache {
    /// Abstract contents: the stored entries, in insertion order.
    pub closed spec fn entries_view(&self) -> Seq<CacheEntry> {
        self.entries@
    }

    pub closed spec fn limit(&self) -> nat {
        self.size_limit_bytes as nat
    }

    pub closed spec fn size(&self) -> nat {
        self.current_size_bytes as nat
    }

    pub closed spec fn hits(&self) -> u64 {
        self.hit_count
    }

    pub closed spec fn misses(&self) -> u64 {
        self.miss_count
    }

    pub closed spec fn evictions(&self) -> u64 {
        self.eviction_count
    }

    pub closed spec fn now(&self) -> u64 {
        self.clock
    }

    /// Whether cache traffic is to be logged.
    pub closed spec fn logs(&self) -> bool {
        self.logging_enabled
    }

    /// Keys are unique, sizes add up, and the total stays within the budget.
    pub closed spec fn wf(&self) -> bool {
        &&& keys_unique(self.entries@)
        &&& sizes_match(self.entries@)
        &&& self.current_size_bytes as nat == total_size(self.entries@)
        &&& self.current_size_bytes <= self.size_limit_bytes
        &&& times_bounded(self.entries@, self.clock)
    }

    /// Whether the cache holds an entry for `k`.
    pub open spec fn has_key(&self, k: Seq<char>) -> bool {
        key_pos(self.entries_view(), k) >= 0
    }

    /// The stored bytes for `k`, where present.
    pub open spec fn bytes_at(&self, k: Seq<char>) -> Seq<u8> {
        self.entries_view()[key_pos(self.entries_view(), k)].value@
    }

    /// Create a cache with a byte budget.
    pub fn new(size_limit_bytes: usize, logging_enabled: bool) -> (r: Self)
        ensures
            r.wf(),
            r.entries_view().len() == 0,
            r.now() == 0,
            r.logs() == logging_enabled,
            r.limit() == size_limit_bytes,
            r.size() == 0,
            r.hits() == 0,
            r.misses() == 0,
            r.evictions() == 0,
    {
        LruCache {
            entries: Vec::new(),
            size_limit_bytes,
            current_size_bytes: 0,
            hit_count: 0,
            miss_count: 0,
            eviction_count: 0,
            clock: 0,
            logging_enabled,
        }
    }

    fn tick(&mut self) -> (t: u64)
        ensures
            t == ticked(old(self).clock),
            final(self).clock == t,
            final(self).entries == old(self).entries,
            final(self).size_limit_bytes == old(self).size_limit_bytes,
            final(self).current_size_bytes == old(self).current_size_bytes,
            final(self).hit_count == old(self).hit_count,
            final(self).miss_count == old(self).miss_count,
            final(self).eviction_count == old(self).eviction_count,
    {
        if self.clock < u64::MAX {
            self.clock = self.clock + 1;
        }
        self.clock
    }

    fn find(&self, key: &str) -> (r: Option<usize>)
        ensures
            r is Some <==> key_pos(self.entries@, key@) >= 0,
            r matches Some(i) ==> i == key_pos(self.entries@, key@),
    {
        let mut i = self.entries.len();
        assert(self.entries@.subrange(0, i as int) =~= self.entries@);
        while i > 0
            invariant
                i <= self.entries@.len(),
                key_pos(self.entries@, key@) == key_pos(self.entries@.subrange(0, i as int), key@),
            decreases i,
        {
            let ghost pre = self.entries@.subrange(0, i as int);
            assert(pre.drop_last() =~= self.entries@.subrange(0, i - 1));
            if same_text(self.entries[i - 1].key.as_str(), key) {
                return Some(i - 1);
            }
            i = i - 1;
        }
        None
    }

    /// Look up the stored bytes for `key`, counting a hit or a miss. A hit
    /// marks the entry as the most recently used.
    pub fn get_bytes(&mut self, key: &str) -> (r: Option<&Vec<u8>>)
        requires
            old(self).wf(),
        ensures
            forall|j: int|
                0 <= j < final(self).entries_view().len() ==> (#[trigger] final(self).entries_view()[j]).access_time
                    <= final(self).now(),
            final(self).wf(),
            final(self).limit() == old(self).limit(),
            final(self).size() == old(self).size(),
            final(self).evictions() == old(self).evictions(),
            final(self).now() == ticked(old(self).now()),
            old(self).has_key(key@) ==> {
                let p = key_pos(old(self).entries_view(), key@);
                let e = old(self).entries_view()[p];
                &&& r matches Some(b) && b@ == e.value@
                &&& key_pos(final(self).entries_view(), key@) == p
                &&& final(self).hits() == bump(old(self).hits())
                &&& final(self).misses() == old(self).misses()
                &&& final(self).entries_view().len() == old(self).entries_view().len()
                &&& forall|j: int|
                    0 <= j < old(self).entries_view().len() && j != p
                        ==> #[trigger] final(self).entries_view()[j] == old(self).entries_view()[j]
                &&& final(self).entries_view()[p].key == e.key
                &&& final(self).entries_view()[p].value == e.value
                &&& final(self).entries_view()[p].size_bytes == e.size_bytes
                &&& final(self).entries_view()[p].created_at == e.created_at
                &&& final(self).entries_view()[p].access_time == final(self).now()
                &&& final(self).entries_view()[p].access_count == bump(e.access_count)
            },
            !old(self).has_key(key@) ==> {
                &&& r is None
                &&& final(self).hits() == old(self).hits()
                &&& final(self).misses() == bump(old(self).misses())
                &&& final(self).entries_view() == old(self).entries_view()
            },
    {
        let t = self.tick();
        match self.find(key) {
            Some(i) => {
                proof {
                    lemma_key_pos(self.entries@, key@);
                }
                let mut e = self.entries.remove(i);
                e.access_time = t;
                if e.access_count < u64::MAX {
                    e.access_count = e.access_count + 1;
                }
                self.entries.insert(i, e);
                if self.hit_count < u64::MAX {
                    self.hit_count = self.hit_count + 1;
                }
                proof {
                    let s = old(self).entries@;
                    assert(self.entries@ =~= s.update(i as int, self.entries@[i as int]));
                    lemma_total_update(s, i as int, self.entries@[i as int]);
                    lemma_key_pos_update(s, i as int, self.entries@[i as int], key@);
                    assert forall|a: int, b: int|
                        0 <= a < self.entries@.len() && 0 <= b < self.entries@.len() && a != b
                            implies #[trigger] self.entries@[a].key@
                        != #[trigger] self.entries@[b].key@ by {
                        assert(self.entries@[a].key == s[a].key);
                        assert(self.entries@[b].key == s[b].key);
                    }
                    assert forall|j: int| 0 <= j < self.entries@.len() implies #[trigger] self.entries@[j].size_bytes
                        == self.entries@[j].value@.len() by {
                        assert(self.entries@[j].value == s[j].value);
                        assert(self.entries@[j].size_bytes == s[j].size_bytes);
                    }
                }
                Some(&self.entries[i].value)
            },
            None => {
                if self.miss_count < u64::MAX {
                    self.miss_count = self.miss_count + 1;
                }
                None
            },
        }
    }

    /// Get a cached value by key, decoding its bytes; `None` on a miss or
    /// where the bytes do not decode.
    pub fn get<T: CacheValue>(&mut self, key: &str) -> (r: Option<T>)
        requires
            old(self).wf(),
        ensures
            forall|j: int|
                0 <= j < final(self).entries_view().len() ==> (#[trigger] final(self).entries_view()[j]).access_time
                    <= final(self).now(),
            final(self).wf(),
            final(self).limit() == old(self).limit(),
            final(self).size() == old(self).size(),
            final(self).entries_view().len() == old(self).entries_view().len(),
            final(self).evictions() == old(self).evictions(),
            final(self).now() == ticked(old(self).now()),
            old(self).has_key(key@) ==> {
                let p = key_pos(old(self).entries_view(), key@);
                let e = old(self).entries_view()[p];
                &&& final(self).hits() == bump(old(self).hits())
                &&& final(self).misses() == old(self).misses()
                &&& final(self).has_key(key@)
                &&& final(self).bytes_at(key@) == old(self).bytes_at(key@)
                &&& key_pos(final(self).entries_view(), key@) == p
                &&& forall|j: int|
                    0 <= j < old(self).entries_view().len() && j != p
                        ==> #[trigger] final(self).entries_view()[j] == old(self).entries_view()[j]
                &&& final(self).entries_view()[p].key == e.key
                &&& final(self).entries_view()[p].value == e.value
                &&& final(self).entries_view()[p].size_bytes == e.size_bytes
                &&& final(self).entries_view()[p].created_at == e.created_at
                &&& final(self).entries_view()[p].access_time == final(self).now()
                &&& final(self).entries_view()[p].access_count == bump(e.access_count)
                &&& r is Some == T::decodable(old(self).bytes_at(key@))
                &&& r matches Some(v) ==> T::decodes_to(old(self).bytes_at(key@), v)
            },
            !old(self).has_key(key@) ==> {
                &&& r is None
                &&& final(self).hits() == old(self).hits()
                &&& final(self).misses() == bump(old(self).misses())
                &&& final(self).entries_view() == old(self).entries_view()
            },
    {
        proof {
            lemma_key_pos(self.entries@, key@);
        }
        match self.get_bytes(key) {
            Some(b) => T::decode(b),
            None => None,
        }
    }

    /// Store already encoded bytes under `key`. Bytes larger than the whole
    /// budget are refused and nothing changes. Otherwise an old entry for the
    /// key is replaced, and least recently used entries are evicted until the
    /// new one fits.
    pub fn set_bytes(&mut self, key: String, value: Vec<u8>)
        requires
            old(self).wf(),
        ensures
            forall|j: int|
                0 <= j < final(self).entries_view().len() ==> (#[trigger] final(self).entries_view()[j]).access_time
                    <= final(self).now(),
            final(self).wf(),
            final(self).limit() == old(self).limit(),
            final(self).hits() == old(self).hits(),
            final(self).misses() == old(self).misses(),
            final(self).size() <= final(self).limit(),
            value@.len() > old(self).limit() ==> *final(self) == *old(self),
            value@.len() <= old(self).limit() ==> {
                let kept = make_room(
                    without_key(old(self).entries_view(), key@),
                    value@.len(),
                    old(self).limit(),
                );
                &&& final(self).now() == ticked(old(self).now())
                &&& final(self).entries_view() == kept.push(
                    CacheEntry {
                        key: key,
                        value: value,
                        size_bytes: value@.len() as usize,
                        access_time: final(self).now(),
                        access_count: 0,
                        created_at: final(self).now(),
                    },
                )
                &&& final(self).size() == total_size(kept) + value@.len()
                &&& final(self).evictions() == sat_add(
                    old(self).evictions(),
                    (without_key(old(self).entries_view(), key@).len() - kept.len()) as nat,
                )
            },
    {
        let value_size = value.len();
        if value_size > self.size_limit_bytes {
            return;
        }
        let ghost need = value@.len();
        let ghost limit = self.size_limit_bytes as nat;
        proof {
            lemma_without_key(self.entries@, key@);
        }
        match self.find(key.as_str()) {
            Some(i) => {
                proof {
                    lemma_key_pos(self.entries@, key@);
                }
                let old_entry = self.entries.remove(i);
                self.current_size_bytes = self.current_size_bytes - old_entry.size_bytes;
            },
            None => {},
        }
        let ghost start = self.entries@;
        let ghost start_evictions = self.eviction_count;
        assert(start == without_key(old(self).entries@, key@));
        proof {
            lemma_make_room(start, need, limit);
        }
        while value_size > self.size_limit_bytes - self.current_size_bytes && self.entries.len() > 0
            invariant
                keys_unique(self.entries@),
                sizes_match(self.entries@),
                self.current_size_bytes as nat == total_size(self.entries@),
                self.current_size_bytes <= self.size_limit_bytes,
                self.size_limit_bytes as nat == limit,
                value_size as nat == need,
                need <= limit,
                make_room(self.entries@, need, limit) == make_room(start, need, limit),
                self.entries@.len() <= start.len(),
                self.eviction_count == sat_add(start_evictions, (start.len() - self.entries@.len()) as nat),
                self.hit_count == old(self).hit_count,
                self.miss_count == old(self).miss_count,
                self.clock == old(self).clock,
            decreases self.entries@.len(),
        {
            proof {
                lemma_lru_pos(self.entries@);
            }
            self.evict_lru();
        }
        proof {
            lemma_make_room(self.entries@, need, limit);
        }
        assert(self.entries@ == make_room(start, need, limit));
        let t = self.tick();
        let entry = CacheEntry {
            key,
            value,
            size_bytes: value_size,
            access_time: t,
            access_count: 0,
            created_at: t,
        };
        proof {
            lemma_total_push(self.entries@, entry);
            lemma_make_room(start, need, limit);
            let kept = self.entries@;
            let pushed = kept.push(entry);
            assert forall|jj: int| 0 <= jj < pushed.len() implies (#[trigger] pushed[jj]).access_time <= t
                && pushed[jj].created_at <= t by {
                if jj < kept.len() {
                    assert(pushed[jj] == kept[jj]);
                    assert(kept.contains(kept[jj]));
                    assert(start.contains(kept[jj]));
                    assert(old(self).entries@.contains(kept[jj]));
                    let w = choose|w: int| 0 <= w < old(self).entries@.len() && old(self).entries@[w] == kept[jj];
                    assert(old(self).entries@[w].access_time <= old(self).clock);
                }
            }
            assert forall|a: int, b: int|
                0 <= a < pushed.len() && 0 <= b < pushed.len() && a != b implies #[trigger] pushed[a].key@
                != #[trigger] pushed[b].key@ by {
                if a < kept.len() && b < kept.len() {
                    assert(pushed[a] == kept[a]);
                    assert(pushed[b] == kept[b]);
                } else if a < kept.len() {
                    assert(kept.contains(kept[a]));
                    assert(start.contains(kept[a]));
                    let j = choose|j: int| 0 <= j < start.len() && start[j] == kept[a];
                    assert(start[j].key@ != key@);
                } else {
                    assert(kept.contains(kept[b]));
                    assert(start.contains(kept[b]));
                    let j = choose|j: int| 0 <= j < start.len() && start[j] == kept[b];
                    assert(start[j].key@ != key@);
                }
            }
            assert forall|j: int| 0 <= j < pushed.len() implies #[trigger] pushed[j].size_bytes
                == pushed[j].value@.len() by {
                if j < kept.len() {
                    assert(pushed[j] == kept[j]);
                }
            }
        }
        self.entries.push(entry);
        self.current_size_bytes = self.current_size_bytes + value_size;
    }

    /// Store a value under `key`, encoded; a value that does not encode is
    /// not stored. See `set_bytes` for the budget rules.
    pub fn set<T: CacheValue>(&mut self, key: String, value: T)
        requires
            old(self).wf(),
        ensures
            forall|j: int|
                0 <= j < final(self).entries_view().len() ==> (#[trigger] final(self).entries_view()[j]).access_time
                    <= final(self).now(),
            final(self).wf(),
            final(self).limit() == old(self).limit(),
            final(self).hits() == old(self).hits(),
            final(self).misses() == old(self).misses(),
            final(self).size() <= final(self).limit(),
            value.encoded() is None ==> *final(self) == *old(self),
            value.encoded() matches Some(b) ==> {
                &&& b.len() > old(self).limit() ==> *final(self) == *old(self)
                &&& b.len() <= old(self).limit() ==> {
                    let kept = make_room(
                        without_key(old(self).entries_view(), key@),
                        b.len(),
                        old(self).limit(),
                    );
                    &&& final(self).entries_view().len() == kept.len() + 1
                    &&& final(self).entries_view().last().key == key
                    &&& final(self).entries_view().last().value@ == b
                    &&& final(self).entries_view().last().size_bytes == b.len()
                    &&& final(self).entries_view().last().access_count == 0
                    &&& final(self).now() == ticked(old(self).now())
                    &&& final(self).entries_view().last().access_time == final(self).now()
                    &&& final(self).entries_view().last().created_at == final(self).now()
                    &&& forall|j: int| 0 <= j < kept.len()
                        ==> #[trigger] final(self).entries_view()[j] == kept[j]
                    &&& final(self).size() == total_size(kept) + b.len()
                    &&& final(self).evictions() == sat_add(
                        old(self).evictions(),
                        (without_key(old(self).entries_view(), key@).len() - kept.len()) as nat,
                    )
                }
            },
    {
        match value.encode() {
            Some(bytes) => self.set_bytes(key, bytes),
            None => {},
        }
    }

    /// Evict the least recently used entry.
    fn evict_lru(&mut self)
        requires
            old(self).entries@.len() > 0,
            keys_unique(old(self).entries@),
            sizes_match(old(self).entries@),
            old(self).current_size_bytes as nat == total_size(old(self).entries@),
        ensures
            final(self).entries@ == old(self).entries@.remove(lru_pos(old(self).entries@)),
            keys_unique(final(self).entries@),
            sizes_match(final(self).entries@),
            final(self).current_size_bytes as nat == total_size(final(self).entries@),
            final(self).current_size_bytes <= old(self).current_size_bytes,
            final(self).eviction_count == bump(old(self).eviction_count),
            final(self).size_limit_bytes == old(self).size_limit_bytes,
            final(self).hit_count == old(self).hit_count,
            final(self).miss_count == old(self).miss_count,
            final(self).clock == old(self).clock,
    {
        let n = self.entries.len();
        let mut best: usize = 0;
        let mut i: usize = 1;
        while i < n
            invariant
                n == self.entries@.len(),
                n > 0,
                1 <= i <= n,
                best == lru_pos(self.entries@.subrange(0, i as int)),
            decreases n - i,
        {
            proof {
                let s = self.entries@.subrange(0, i as int + 1);
                assert(s.drop_last() =~= self.entries@.subrange(0, i as int));
                lemma_lru_pos(self.entries@.subrange(0, i as int));
            }
            if self.entries[i].access_time < self.entries[best].access_time {
                best = i;
            }
            i = i + 1;
        }
        assert(self.entries@.subrange(0, n as int) =~= self.entries@);
        proof {
            lemma_lru_pos(self.entries@);
            lemma_total_remove(self.entries@, best as int);
            lemma_remove_keeps(self.entries@, best as int);
        }
        let e = self.entries.remove(best);
        self.current_size_bytes = self.current_size_bytes - e.size_bytes;
        if self.eviction_count < u64::MAX {
            self.eviction_count = self.eviction_count + 1;
        }
    }

    /// Remove the entry for `key`, if any.
    pub fn invalidate(&mut self, key: &str)
        requires
            old(self).wf(),
        ensures
            final(self).wf(),
            final(self).entries_view() == without_key(old(self).entries_view(), key@),
            !final(self).has_key(key@),
            !old(self).has_key(key@) ==> final(self).size() == old(self).size(),
            old(self).has_key(key@) ==> final(self).size() + old(self).entries_view()[key_pos(
                old(self).entries_view(),
                key@,
            )].size_bytes == old(self).size(),
            final(self).limit() == old(self).limit(),
            final(self).hits() == old(self).hits(),
            final(self).misses() == old(self).misses(),
            final(self).evictions() == old(self).evictions(),
    {
        proof {
            lemma_without_key(self.entries@, key@);
            lemma_key_pos(self.entries@, key@);
        }
        match self.find(key) {
            Some(i) => {
                let e = self.entries.remove(i);
                self.current_size_bytes = self.current_size_bytes - e.size_bytes;
            },
            None => {},
        }
        proof {
            lemma_key_pos(self.entries@, key@);
        }
    }

    /// Remove every entry whose key starts with `prefix`.
    pub fn invalidate_by_prefix(&mut self, prefix: &str)
        requires
            old(self).wf(),
        ensures
            final(self).wf(),
            final(self).entries_view() == without_prefix(old(self).entries_view(), prefix@),
            final(self).limit() == old(self).limit(),
            final(self).hits() == old(self).hits(),
            final(self).misses() == old(self).misses(),
            final(self).evictions() == old(self).evictions(),
    {
        let ghost orig = self.entries@;
        let n = self.entries.len();
        let mut kept: Vec<CacheEntry> = Vec::new();
        let mut size: usize = 0;
        let mut i: usize = 0;
        proof {
            lemma_without_prefix(orig, prefix@);
        }
        while i < n
            invariant
                n == orig.len(),
                i <= n,
                self.entries@ == orig.subrange(i as int, n as int),
                kept@ == without_prefix(orig.subrange(0, i as int), prefix@),
                size as nat == total_size(kept@),
                keys_unique(orig),
                sizes_match(orig),
                total_size(orig) <= self.size_limit_bytes,
                self.size_limit_bytes == old(self).size_limit_bytes,
                self.hit_count == old(self).hit_count,
                self.miss_count == old(self).miss_count,
                self.eviction_count == old(self).eviction_count,
                self.current_size_bytes == old(self).current_size_bytes,
                self.clock == old(self).clock,
                orig == old(self).entries@,
            decreases n - i,
        {
            let ghost pre = orig.subrange(0, i as int);
            let ghost next = orig.subrange(0, i as int + 1);
            assert(next.drop_last() =~= pre);
            assert(next.last() == orig[i as int]);
            assert(self.entries@[0] == orig[i as int]);
            let e = self.entries.remove(0);
            assert(self.entries@ =~= orig.subrange(i as int + 1, n as int));
            proof {
                assert forall|a: int, b: int|
                    0 <= a < next.len() && 0 <= b < next.len() && a != b implies #[trigger] next[a].key@
                    != #[trigger] next[b].key@ by {
                    assert(next[a] == orig[a]);
                    assert(next[b] == orig[b]);
                }
                assert forall|j: int| 0 <= j < next.len() implies #[trigger] next[j].size_bytes == next[j].value@.len() by {
                    assert(next[j] == orig[j]);
                }
                lemma_without_prefix(next, prefix@);
                lemma_prefix_total(orig, i as int + 1);
            }
            if !crate::text::text_starts_with(e.key.as_str(), prefix) {
                proof {
                    lemma_total_push(kept@, e);
                }
                size = size + e.size_bytes;
                kept.push(e);
            }
            i = i + 1;
        }
        assert(orig.subrange(0, n as int) =~= orig);
        proof {
            assert forall|jj: int| 0 <= jj < kept@.len() implies (#[trigger] kept@[jj]).access_time <= self.clock
                && kept@[jj].created_at <= self.clock by {
                assert(kept@.contains(kept@[jj]));
                assert(orig.contains(kept@[jj]));
                let w = choose|w: int| 0 <= w < orig.len() && orig[w] == kept@[jj];
                assert(orig[w].access_time <= old(self).clock);
            }
        }
        self.entries = kept;
        self.current_size_bytes = size;
    }

    /// Remove every entry; the counters are kept.
    pub fn clear(&mut self)
        requires
            old(self).wf(),
        ensures
            final(self).wf(),
            final(self).entries_view().len() == 0,
            final(self).size() == 0,
            final(self).limit() == old(self).limit(),
            final(self).hits() == old(self).hits(),
            final(self).misses() == old(self).misses(),
            final(self).evictions() == old(self).evictions(),
    {
        self.entries.clear();
        self.current_size_bytes = 0;
    }

    /// Current statistics.
    pub fn stats(&self) -> (r: CacheStats)
        requires
            self.wf(),
        ensures
            r.size_bytes == self.size(),
            r.size_limit == self.limit(),
            r.entry_count == self.entries_view().len(),
            r.hit_count == self.hits(),
            r.miss_count == self.misses(),
            r.eviction_count == self.evictions(),
    {
        CacheStats {
            size_bytes: self.current_size_bytes,
            size_limit: self.size_limit_bytes,
            entry_count: self.entries.len(),
            hit_count: self.hit_count,
            miss_count: self.miss_count,
            eviction_count: self.eviction_count,
        }
    }

    /// Whether debug logging of cache traffic was asked for.
    pub fn logging_enabled(&self) -> (r: bool)
        ensures
            r == self.logs(),
    {
        self.logging_enabled
    }

    /// Every entry, for the debug listing, in storage order.
    pub fn entries(&self) -> (r: Vec<CacheEntryInfo>)
        requires
            self.wf(),
        ensures
            r@.len() == self.entries_view().len(),
            forall|i: int, j: int|
                0 <= i < r@.len() && 0 <= j < r@.len() && i != j ==> #[trigger] r@[i].key@ != #[trigger] r@[j].key@,
            forall|j: int|
                0 <= j < r@.len() ==> {
                    let e = #[trigger] self.entries_view()[j];
                    &&& r@[j].key == e.key
                    &&& r@[j].size_bytes == e.size_bytes
                    &&& r@[j].access_count == e.access_count
                    &&& r@[j].last_access == e.access_time
                    &&& r@[j].created_at == e.created_at
                },
    {
        let mut out: Vec<CacheEntryInfo> = Vec::new();
        let n = self.entries.len();
        let mut i: usize = 0;
        while i < n
            invariant
                n == self.entries@.len(),
                i <= n,
                out@.len() == i,
                forall|j: int|
                    0 <= j < i ==> {
                        let e = #[trigger] self.entries@[j];
                        &&& out@[j].key == e.key
                        &&& out@[j].size_bytes == e.size_bytes
                        &&& out@[j].access_count == e.access_count
                        &&& out@[j].last_access == e.access_time
                        &&& out@[j].created_at == e.created_at
                    },
            decreases n - i,
        {
            let e = &self.entries[i];
            out.push(
                CacheEntryInfo {
                    key: e.key.clone(),
                    size_bytes: e.size_bytes,
                    access_count: e.access_count,
                    last_access: e.access_time,
                    created_at: e.created_at,
                },
            );
            i = i + 1;
        }
        proof {
            assert forall|a: int, b: int|
                0 <= a < out@.len() && 0 <= b < out@.len() && a != b implies #[trigger] out@[a].key@
                != #[trigger] out@[b].key@ by {
                assert(out@[a].key == self.entries@[a].key);
                assert(out@[b].key == self.entries@[b].key);
                assert(self.entries@[a].key@ != self.entries@[b].key@);
            }
        }
        out
    }
}

/// Budget invariant: a well-formed cache (every cache that `new`, `set`,
/// `get`, `invalidate` and `clear` leave behind) holds at most its byte
/// budget, and its size is the sum of its entries' sizes.
pub proof fn lemma_within_budget(c: LruCache)
    requires
        c.wf(),
    ensures
        c.size() <= c.limit(),
        c.size() == total_size(c.entries_view()),
{
}

/// Update accounting: replacing the entry of key `k` by one of `new_len`
/// bytes, where the result fits without eviction, evicts nothing, keeps the
/// entry count, and changes the size by exactly `new_len` minus the old
/// entry's size.
pub proof fn lemma_update_accounting(c: LruCache, k: Seq<char>, new_len: nat)
    requires
        c.wf(),
        c.has_key(k),
        c.size() - c.entries_view()[key_pos(c.entries_view(), k)].size_bytes + new_len <= c.limit(),
    ensures
        make_room(without_key(c.entries_view(), k), new_len, c.limit()) == without_key(
            c.entries_view(),
            k,
        ),
        without_key(c.entries_view(), k).len() + 1 == c.entries_view().len(),
        total_size(without_key(c.entries_view(), k)) + new_len == c.size()
            - c.entries_view()[key_pos(c.entries_view(), k)].size_bytes + new_len,
{
    lemma_without_key(c.entries_view(), k);
    lemma_key_pos(c.entries_view(), k);
    lemma_make_room(without_key(c.entries_view(), k), new_len, c.limit());
}

/// Access times never run ahead of the clock: every entry of a well-formed
/// cache was accessed and created at or before `now()`. As `get` and `set`
/// tick the clock before stamping, the entry they touch is then the most
/// recently used one (until the clock saturates at `u64::MAX`).
pub proof fn lemma_access_times_bounded(c: LruCache)
    requires
        c.wf(),
    ensures
        forall|j: int|
            0 <= j < c.entries_view().len() ==> (#[trigger] c.entries_view()[j]).access_time <= c.now()
                && c.entries_view()[j].created_at <= c.now(),
{
}

} // verus!
