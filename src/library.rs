//! The library orchestrator: the published snapshot, sorted views over it,
//! and the caches in front of them.
use vstd::prelude::*;

use crate::cache::Cache;
use crate::config::Config;
use crate::entry::{lowercase, Entry};
use crate::identity::{EntityKind, IdentityStore};
use crate::key::{
    sorted_entries_key, sorted_entries_key_spec, sorted_titles_key, sorted_titles_key_spec, texts,
};
use crate::scan::{
    apply_scan, entry_ids, keeps_id, relative_of, resolves_to, title_from, title_ids, valid_scans,
    ContainerScan, ScanOutcome,
};
use crate::snapshot_file::CachedLibraryData;
use crate::sorting::{sort_ascending, sort_by_mtime, sort_by_name, sorted_by};
use crate::text::same_text;
use crate::title::{derefs, pages_sum, Title};

verus! {

/// Sorting methods for titles and entries.
#[derive(Debug, Clone, Copy, PartialEq, Eq, Structural)]
pub enum SortMethod {
    /// Natural order of names.
    Name,
    /// Modification time.
    TimeModified,
    /// Reading progress (ordered by the caller, which knows the reader).
    Progress,
    /// Currently the same as `Name`.
    Auto,
}

/// The method that a lower-cased method name selects.
pub open spec fn sort_method_of(lower: Seq<char>) -> SortMethod {
    if lower == "title"@ || lower == "name"@ {
        SortMethod::Name
    } else if lower == "modified"@ || lower == "time"@ {
        SortMethod::TimeModified
    } else if lower == "progress"@ {
        SortMethod::Progress
    } else if lower == "auto"@ {
        SortMethod::Auto
    } else {
        SortMethod::Name
    }
}

/// Value of a run of decimal digits.
pub open spec fn digits_value(s: Seq<char>) -> int
    decreases s.len(),
{
    if s.len() == 0 {
        0
    } else {
        digits_value(s.drop_last()) * 10 + (s.last() as int - '0' as int)
    }
}

pub open spec fn all_digits(s: Seq<char>) -> bool {
    forall|k: int| 0 <= k < s.len() ==> '0' <= #[trigger] s[k] <= '9'
}

/// A decimal `i32` as `str::parse::<i32>` reads it: an optional `+` or `-`,
/// then one or more digits, in range; anything else is `None`.
pub open spec fn i32_of_text(s: Seq<char>) -> Option<i32> {
    let neg = s.len() > 0 && s[0] == '-';
    let body = if s.len() > 0 && (s[0] == '-' || s[0] == '+') {
        s.drop_first()
    } else {
        s
    };
    if body.len() == 0 || !all_digits(body) {
        None
    } else {
        let v = if neg {
            -digits_value(body)
        } else {
            digits_value(body)
        };
        if i32::MIN <= v <= i32::MAX {
            Some(v as i32)
        } else {
            None
        }
    }
}

proof fn lemma_digits_grow(s: Seq<char>, k: int)
    requires
        all_digits(s),
        0 <= k <= s.len(),
    ensures
        0 <= digits_value(s.subrange(0, k)) <= digits_value(s),
    decreases s.len() - k,
{
    if k < s.len() {
        lemma_digits_grow(s, k + 1);
        let t = s.subrange(0, k + 1);
        assert(t.drop_last() =~= s.subrange(0, k));
        assert('0' <= s[k] <= '9');
    } else {
        assert(s.subrange(0, k) =~= s);
        lemma_digits_nonneg(s);
    }
}

proof fn lemma_digits_nonneg(s: Seq<char>)
    requires
        all_digits(s),
    ensures
        digits_value(s) >= 0,
    decreases s.len(),
{
    if s.len() > 0 {
        assert(all_digits(s.drop_last())) by {
            assert forall|k: int| 0 <= k < s.drop_last().len() implies '0' <= #[trigger] s.drop_last()[k] <= '9' by {
                assert(s.drop_last()[k] == s[k]);
            }
        }
        lemma_digits_nonneg(s.drop_last());
        assert('0' <= s[s.len() - 1] <= '9');
    }
}

/// Parse a decimal `i32`.
fn parse_i32(s: &str) -> (r: Option<i32>)
    ensures
        r == i32_of_text(s@),
{
    let n = s.unicode_len();
    let mut start: usize = 0;
    let mut neg = false;
    if n > 0 {
        let c = s.get_char(0);
        if c == '-' {
            neg = true;
            start = 1;
        } else if c == '+' {
            start = 1;
        }
    }
    let ghost body = s@.subrange(start as int, n as int);
    assert(body =~= (if s@.len() > 0 && (s@[0] == '-' || s@[0] == '+') {
        s@.drop_first()
    } else {
        s@
    }));
    if start == n {
        return None;
    }
    let mut acc: i64 = 0;
    let mut i: usize = start;
    while i < n
        invariant
            start <= i <= n,
            n == s@.len(),
            body == s@.subrange(start as int, n as int),
            body == (if s@.len() > 0 && (s@[0] == '-' || s@[0] == '+') {
                s@.drop_first()
            } else {
                s@
            }),
            neg == (s@.len() > 0 && s@[0] == '-'),
            all_digits(s@.subrange(start as int, i as int)),
            acc as int == digits_value(s@.subrange(start as int, i as int)),
            0 <= acc <= 2147483648,
        decreases n - i,
    {
        let c = s.get_char(i);
        let ghost pre = s@.subrange(start as int, i as int);
        let ghost next = s@.subrange(start as int, i as int + 1);
        assert(next.drop_last() =~= pre);
        if !('0' <= c && c <= '9') {
            assert(!all_digits(body)) by {
                assert(body[i - start] == c);
            }
            assert(i32_of_text(s@) is None);
            return None;
        }
        let d = (c as u32 - '0' as u32) as i64;
        let v = acc * 10 + d;
        assert(all_digits(next)) by {
            assert forall|k: int| 0 <= k < next.len() implies '0' <= #[trigger] next[k] <= '9' by {
                if k < pre.len() {
                    assert(next[k] == pre[k]);
                }
            }
        }
        assert(next.last() == c);
        assert(digits_value(next) == v as int);
        if v > 2147483648 {
            proof {
                assert(next =~= body.subrange(0, (i + 1 - start) as int));
                if all_digits(body) {
                    lemma_digits_grow(body, (i + 1 - start) as int);
                    assert(digits_value(body) > 2147483648);
                }
            }
            assert(i32_of_text(s@) is None);
            return None;
        }
        acc = v;
        i = i + 1;
    }
    assert(s@.subrange(start as int, n as int) == body);
    if neg {
        Some((0 - acc) as i32)
    } else if acc <= 2147483647 {
        Some(acc as i32)
    } else {
        None
    }
}

/// Ascending unless the flag parses as the integer zero.
pub open spec fn ascending_of(ascend: Option<Seq<char>>) -> bool {
    match ascend {
        Some(s) => match i32_of_text(s) {
            Some(v) => v != 0,
            None => true,
        },
        None => true,
    }
}

impl SortMethod {
    /// The default method, `Name`.
    pub fn default() -> (r: SortMethod)
        ensures
            r == SortMethod::Name,
    {
        SortMethod::Name
    }

    /// Parse a method name, ignoring case: `title`/`name`, `modified`/`time`,
    /// `progress`, `auto`; anything else is `Name`.
    pub fn parse(s: &str) -> (r: SortMethod)
        ensures
            r == sort_method_of(crate::entry::lower_of(s@)),
    {
        let lower = lowercase(s);
        let l = lower.as_str();
        if same_text(l, "title") || same_text(l, "name") {
            SortMethod::Name
        } else if same_text(l, "modified") || same_text(l, "time") {
            SortMethod::TimeModified
        } else if same_text(l, "progress") {
            SortMethod::Progress
        } else if same_text(l, "auto") {
            SortMethod::Auto
        } else {
            SortMethod::Name
        }
    }

    /// Same as `parse`.
    pub fn from_str(s: &str) -> (r: SortMethod)
        ensures
            r == sort_method_of(crate::entry::lower_of(s@)),
    {
        Self::parse(s)
    }

    /// Method and direction from query parameters: a missing method is
    /// `Name`; the direction is ascending unless `ascend` parses as zero.
    pub fn from_params(sort: Option<&str>, ascend: Option<&str>) -> (r: (SortMethod, bool))
        ensures
            r.0 == match sort {
                Some(s) => sort_method_of(crate::entry::lower_of(s@)),
                None => SortMethod::Name,
            },
            r.1 == ascending_of(
                match ascend {
                    Some(a) => Some(a@),
                    None => None,
                },
            ),
    {
        let method = match sort {
            Some(s) => Self::parse(s),
            None => SortMethod::Name,
        };
        let ascending = match ascend {
            Some(a) => match parse_i32(a) {
                Some(v) => v != 0,
                None => true,
            },
            None => true,
        };
        (method, ascending)
    }

    /// The name used for this method in cache keys.
    pub fn key_name(&self) -> (r: &'static str)
        ensures
            r@ == sort_method_key_name(*self),
    {
        match self {
            SortMethod::Name => "name",
            SortMethod::TimeModified => "modified",
            SortMethod::Progress => "progress",
            SortMethod::Auto => "auto",
        }
    }
}

pub open spec fn sort_method_key_name(m: SortMethod) -> Seq<char> {
    match m {
        SortMethod::Name => "name"@,
        SortMethod::TimeModified => "modified"@,
        SortMethod::Progress => "progress"@,
        SortMethod::Auto => "auto"@,
    }
}

/// Library statistics.
#[derive(Debug, Clone, Copy)]
pub struct LibraryStats {
    pub titles: usize,
    pub entries: usize,
    pub pages: usize,
}

/// Number of entries over titles.
pub open spec fn entry_total(s: Seq<Title>) -> nat
    decreases s.len(),
{
    if s.len() == 0 {
        0
    } else {
        entry_total(s.drop_last()) + s.last().entries@.len()
    }
}

/// Number of pages over titles.
pub open spec fn page_total(s: Seq<Title>) -> nat
    decreases s.len(),
{
    if s.len() == 0 {
        0
    } else {
        page_total(s.drop_last()) + pages_sum(s.last().entries@)
    }
}

/// Position of the first title with id `id`, or -1.
pub open spec fn title_index(s: Seq<Title>, id: Seq<char>) -> int
    decreases s.len(),
{
    if s.len() == 0 {
        -1
    } else if title_index(s.drop_last(), id) >= 0 {
        title_index(s.drop_last(), id)
    } else if s.last().id@ == id {
        s.len() - 1
    } else {
        -1
    }
}

/// Position of the first entry with id `id`, or -1.
pub open spec fn entry_index(s: Seq<Entry>, id: Seq<char>) -> int
    decreases s.len(),
{
    if s.len() == 0 {
        -1
    } else if entry_index(s.drop_last(), id) >= 0 {
        entry_index(s.drop_last(), id)
    } else if s.last().id@ == id {
        s.len() - 1
    } else {
        -1
    }
}

/// The ids of the titles, in order.
pub open spec fn title_id_list(s: Seq<Title>) -> Seq<String> {
    s.map_values(|t: Title| t.id)
}

/// The ids of the titles, as texts, in order.
pub open spec fn title_ref_ids(s: Seq<&Title>) -> Seq<Seq<char>> {
    s.map_values(|t: &Title| t.id@)
}

/// The ids of the entries, in order.
pub open spec fn entry_id_list(s: Seq<Entry>) -> Seq<String> {
    s.map_values(|e: Entry| e.id)
}

/// The ids of the entries, as texts, in order.
pub open spec fn entry_ref_ids(s: Seq<&Entry>) -> Seq<Seq<char>> {
    s.map_values(|e: &Entry| e.id@)
}

/// A read through the listing cache under `key` that missed stores `ids`:
/// where the cache is enabled, the key was absent and the encoded ids fit
/// the budget, the cache afterwards maps the key to the encoded ids.
pub open spec fn stores_on_miss(before: Cache, after: Cache, key: Seq<char>, ids: Seq<Seq<char>>) -> bool {
    before.is_enabled() && !before.lru().has_key(key) ==> match crate::codec::msgpack_of_texts(ids) {
        Some(b) => b.len() <= before.lru().limit() ==> after.lru().has_key(key) && after.lru().bytes_at(key)
            == b,
        None => true,
    }
}

pub open spec fn title_refs_of(s: Seq<&Title>) -> Seq<Title> {
    s.map_values(|t: &Title| *t)
}

/// The library orchestrator. It owns the published snapshot (the titles
/// and the root they were scanned from), the identity store and the caches.
/// A rescan builds a whole new title list before it replaces the published
/// one in a single assignment; a reader holding the library behind a shared
/// reference sees one snapshot or the other, never a mix.
pub struct Library {
    path: String,
    titles: Vec<Title>,
    identities: IdentityStore,
    cache: Cache,
}

impl Library {
    pub closed spec fn root(&self) -> Seq<char> {
        self.path@
    }

    pub closed spec fn snapshot(&self) -> Seq<Title> {
        self.titles@
    }

    pub closed spec fn store(&self) -> IdentityStore {
        self.identities
    }

    pub closed spec fn caches(&self) -> Cache {
        self.cache
    }

    pub closed spec fn wf(&self) -> bool {
        self.identities.wf() && self.cache.wf()
    }

    /// A library at `path` with no titles published yet.
    pub fn new(path: String, identities: IdentityStore, config: &Config) -> (r: Self)
        requires
            identities.wf(),
        ensures
            r.wf(),
            r.root() == path@,
            r.snapshot().len() == 0,
            r.store() == identities,
    {
        Library { path, titles: Vec::new(), identities, cache: Cache::new(config) }
    }

    /// Publish a snapshot loaded from the snapshot file, where the cache is
    /// enabled, its root is this library's and its title count matches the
    /// identity store's available containers. Returns whether it was
    /// published; otherwise nothing changes and the file is to be deleted.
    pub fn try_load_from_cache(&mut self, data: CachedLibraryData) -> (r: bool)
        requires
            old(self).wf(),
        ensures
            final(self).wf(),
            r == (old(self).caches().is_enabled() && data.path@ == old(self).root()
                && data.titles@.len() == crate::identity::available_count(
                old(self).store()@,
                EntityKind::Container,
            )),
            r ==> final(self).snapshot() == data.titles@,
            !r ==> final(self).snapshot() == old(self).snapshot(),
            final(self).root() == old(self).root(),
            final(self).store() == old(self).store(),
    {
        let count = self.identities.count_available(EntityKind::Container);
        if same_text(data.path.as_str(), self.path.as_str()) && self.cache.accepts_loaded(&data, count) {
            self.titles = data.titles;
            true
        } else {
            false
        }
    }

    /// Rescan: reconcile what a scan found with the identity store and
    /// publish the new titles wholesale.
    pub fn scan(&mut self, found: Vec<ContainerScan>) -> (r: ScanOutcomeCounts)
        requires
            old(self).wf(),
        ensures
            final(self).wf(),
            final(self).root() == old(self).root(),
            r.titles == final(self).snapshot().len(),
            final(self).store().wf(),
            final(self).caches() == old(self).caches(),
            final(self).snapshot().len() == valid_scans(found@, old(self).root()).len(),
            forall|j: int|
                0 <= j < final(self).snapshot().len() ==> title_from(
                    #[trigger] final(self).snapshot()[j],
                    valid_scans(found@, old(self).root())[j],
                ),
            forall|j: int|
                0 <= j < final(self).snapshot().len() ==> keeps_id(
                    old(self).store()@,
                    EntityKind::Container,
                    relative_of((#[trigger] final(self).snapshot()[j]).path@, old(self).root()),
                    final(self).snapshot()[j].id@,
                ),
            forall|j: int, k: int|
                0 <= j < final(self).snapshot().len() && 0 <= k < final(self).snapshot()[j].entries@.len()
                    ==> keeps_id(
                    old(self).store()@,
                    EntityKind::Item,
                    relative_of((#[trigger] final(self).snapshot()[j].entries@[k]).path@, old(self).root()),
                    final(self).snapshot()[j].entries@[k].id@,
                ),
            forall|j: int|
                0 <= j < final(self).snapshot().len() ==> resolves_to(
                    final(self).store()@,
                    EntityKind::Container,
                    (#[trigger] final(self).snapshot()[j]).path@,
                    old(self).root(),
                    final(self).snapshot()[j].id@,
                ),
            forall|j: int, k: int|
                0 <= j < final(self).snapshot().len() && 0 <= k < final(self).snapshot()[j].entries@.len()
                    ==> resolves_to(
                    final(self).store()@,
                    EntityKind::Item,
                    (#[trigger] final(self).snapshot()[j].entries@[k]).path@,
                    old(self).root(),
                    final(self).snapshot()[j].entries@[k].id@,
                ),
            final(self).store()@.len() >= old(self).store()@.len(),
            forall|i: int|
                0 <= i < old(self).store()@.len() && (#[trigger] final(self).store()@[i]).kind
                    == EntityKind::Container && !title_ids(final(self).snapshot()).contains(
                    old(self).store()@[i].id@,
                ) ==> final(self).store()@[i].signature == old(self).store()@[i].signature,
            forall|i: int|
                0 <= i < old(self).store()@.len() && (#[trigger] final(self).store()@[i]).kind
                    == EntityKind::Item && !entry_ids(final(self).snapshot()).contains(
                    old(self).store()@[i].id@,
                ) ==> final(self).store()@[i].signature == old(self).store()@[i].signature,
            forall|i: int|
                0 <= i < old(self).store()@.len() ==> (#[trigger] final(self).store()@[i]).id
                    == old(self).store()@[i].id && final(self).store()@[i].kind == old(self).store()@[i].kind
                    && final(self).store()@[i].path == old(self).store()@[i].path,
            forall|i: int|
                0 <= i < final(self).store()@.len() && (#[trigger] final(self).store()@[i]).kind
                    == EntityKind::Container ==> (final(self).store()@[i].available <==> title_ids(
                    final(self).snapshot(),
                ).contains(final(self).store()@[i].id@)),
            forall|i: int|
                0 <= i < final(self).store()@.len() && (#[trigger] final(self).store()@[i]).kind
                    == EntityKind::Item ==> (final(self).store()@[i].available <==> entry_ids(
                    final(self).snapshot(),
                ).contains(final(self).store()@[i].id@)),
    {
        let outcome = apply_scan(&mut self.identities, self.path.as_str(), found);
        let ScanOutcome {
            titles,
            new_titles,
            new_entries,
            missing_titles,
            restored_titles,
            missing_entries,
            restored_entries,
        } = outcome;
        let counts = ScanOutcomeCounts {
            titles: titles.len(),
            new_titles,
            new_entries,
            missing_titles,
            restored_titles,
            missing_entries,
            restored_entries,
        };
        self.titles = titles;
        counts
    }

    /// Publish a scan made outside the library: the identity store and the
    /// titles it produced replace the current ones together, in one step.
    pub fn publish(&mut self, identities: IdentityStore, titles: Vec<Title>)
        requires
            old(self).wf(),
            identities.wf(),
        ensures
            final(self).wf(),
            final(self).snapshot() == titles@,
            final(self).store() == identities,
            final(self).root() == old(self).root(),
            final(self).caches() == old(self).caches(),
    {
        self.identities = identities;
        self.titles = titles;
    }

    /// Titles sorted by name, ascending.
    pub fn get_titles(&self) -> (r: Vec<&Title>)
        ensures
            r@.len() == self.snapshot().len(),
            sorted_by(r@, true, true),
            forall|t: Title| title_refs_of(r@).contains(t) <==> self.snapshot().contains(t),
    {
        self.get_titles_sorted(SortMethod::Name, true)
    }

    /// Titles sorted by the method: name, progress and auto by name (the
    /// reader's progress is applied by the caller), modification time by
    /// time.
    pub fn get_titles_sorted(&self, method: SortMethod, ascending: bool) -> (r: Vec<&Title>)
        ensures
            r@.len() == self.snapshot().len(),
            sorted_by(r@, !(method is TimeModified), ascending),
            forall|t: Title| title_refs_of(r@).contains(t) <==> self.snapshot().contains(t),
            exists|idx: Seq<int>|
                crate::sorting::arranged(title_refs_of(r@), self.snapshot(), idx) && crate::sorting::stable_by(
                    r@,
                    idx,
                    !(method is TimeModified),
                    ascending,
                ),
    {
        sorted_titles_of(&self.titles, method, ascending)
    }

    /// The title with this id.
    pub fn get_title(&self, id: &str) -> (r: Option<&Title>)
        ensures
            title_index(self.snapshot(), id@) < 0 ==> r is None,
            title_index(self.snapshot(), id@) >= 0 ==> r == Some(
                &self.snapshot()[title_index(self.snapshot(), id@)],
            ),
    {
        let n = self.titles.len();
        let mut i: usize = 0;
        while i < n
            invariant
                n == self.titles@.len(),
                i <= n,
                title_index(self.titles@.subrange(0, i as int), id@) < 0,
            decreases n - i,
        {
            let ghost t = self.titles@.subrange(0, i as int + 1);
            assert(t.drop_last() =~= self.titles@.subrange(0, i as int));
            if same_text(self.titles[i].id.as_str(), id) {
                proof {
                    lemma_title_index_prefix(self.titles@, i as int + 1, id@, i as int);
                }
                return Some(&self.titles[i]);
            }
            i = i + 1;
        }
        assert(self.titles@.subrange(0, n as int) =~= self.titles@);
        None
    }

    /// The entry with this id in the title with this id.
    pub fn get_entry(&self, title_id: &str, entry_id: &str) -> (r: Option<&Entry>)
        ensures
            title_index(self.snapshot(), title_id@) < 0 ==> r is None,
            title_index(self.snapshot(), title_id@) >= 0 ==> {
                let es = self.snapshot()[title_index(self.snapshot(), title_id@)].entries@;
                &&& entry_index(es, entry_id@) < 0 ==> r is None
                &&& entry_index(es, entry_id@) >= 0 ==> r == Some(&es[entry_index(es, entry_id@)])
            },
    {
        match self.get_title(title_id) {
            Some(t) => find_entry(&t.entries, entry_id),
            None => None,
        }
    }

    /// Titles sorted by the method, read through the listing cache. The key
    /// covers the reader, the current title ids, the method and the
    /// direction. A cached id list is used only where it names every current
    /// title, as many as there are, in sorted order; otherwise the list is
    /// sorted afresh and its ids are stored.
    pub fn get_titles_sorted_cached(&mut self, username: &str, method: SortMethod, ascending: bool) -> (r:
        Vec<&Title>)
        requires
            old(self).wf(),
        ensures
            final(self).wf(),
            final(self).snapshot() == old(self).snapshot(),
            final(self).root() == old(self).root(),
            final(self).store() == old(self).store(),
            final(self).caches().is_enabled() == old(self).caches().is_enabled(),
            r@.len() == old(self).snapshot().len(),
            sorted_by(r@, !(method is TimeModified), ascending),
            forall|t: Title| title_refs_of(r@).contains(t) <==> old(self).snapshot().contains(t),
            exists|idx: Seq<int>|
                crate::sorting::arranged(title_refs_of(r@), old(self).snapshot(), idx)
                    && crate::sorting::stable_by(r@, idx, !(method is TimeModified), ascending),
            exists|ids: Seq<String>|
                #[trigger] crate::sorting::ascending(ids) && ids.to_multiset() == title_id_list(
                    old(self).snapshot(),
                ).to_multiset() && stores_on_miss(
                    old(self).caches(),
                    final(self).caches(),
                    sorted_titles_key_spec(
                        username@,
                        texts(ids),
                        sort_method_key_name(method),
                        ascending,
                    ),
                    title_ref_ids(r@),
                ),
    {
        let by_name = match method {
            SortMethod::TimeModified => false,
            _ => true,
        };
        let mut ids: Vec<String> = Vec::new();
        let n = self.titles.len();
        let mut i: usize = 0;
        while i < n
            invariant
                n == self.titles@.len(),
                i <= n,
                ids@ == title_id_list(self.titles@.subrange(0, i as int)),
            decreases n - i,
        {
            ids.push(self.titles[i].id.clone());
            assert(ids@ =~= title_id_list(self.titles@.subrange(0, i as int + 1)));
            i = i + 1;
        }
        assert(self.titles@.subrange(0, n as int) =~= self.titles@);
        let ghost unsorted = ids@;
        sort_ascending(&mut ids);
        let key = sorted_titles_key(username, ids.as_slice(), method.key_name(), ascending);
        let ghost k = key@;
        let ghost c0 = self.cache;
        let cached = self.cache.get_sorted_titles(key.as_str());
        let hit = match cached {
            Some(c) => titles_from_cache(&self.titles, &c, by_name, ascending),
            None => None,
        };
        if let Some(v) = hit {
            proof {
                let ix = choose|ix: Seq<int>|
                    crate::sorting::arranged(title_refs_of(v@), self.titles@, ix) && crate::sorting::stable_by(
                        v@,
                        ix,
                        by_name,
                        ascending,
                    );
                assert(self.titles@ == old(self).titles@);
                assert(crate::sorting::arranged(title_refs_of(v@), old(self).snapshot(), ix));
                assert(stores_on_miss(c0, self.cache, k, title_ref_ids(v@)));
                assert(crate::sorting::ascending(ids@));
            }
            return v;
        }
        let sorted = sorted_titles_of(&self.titles, method, ascending);
        let mut sorted_ids: Vec<String> = Vec::new();
        let m = sorted.len();
        let mut j: usize = 0;
        while j < m
            invariant
                m == sorted@.len(),
                j <= m,
                texts(sorted_ids@) == title_ref_ids(sorted@).subrange(0, j as int),
            decreases m - j,
        {
            let ghost pre = sorted_ids@;
            let id = sorted[j].id.clone();
            assert(id@ == sorted@[j as int].id@);
            sorted_ids.push(id);
            assert(texts(sorted_ids@) =~= texts(pre).push(id@));
            assert(texts(sorted_ids@) =~= title_ref_ids(sorted@).subrange(0, j as int + 1));
            j = j + 1;
        }
        assert(title_ref_ids(sorted@).subrange(0, m as int) =~= title_ref_ids(sorted@));
        self.cache.set_sorted_titles(key, sorted_ids);
        proof {
            assert(self.titles@ == old(self).titles@);
            assert(stores_on_miss(c0, self.cache, k, title_ref_ids(sorted@)));
            assert(crate::sorting::ascending(ids@));
            let ix = choose|ix: Seq<int>|
                crate::sorting::arranged(title_refs_of(sorted@), self.titles@, ix) && crate::sorting::stable_by(
                    sorted@,
                    ix,
                    !(method is TimeModified),
                    ascending,
                );
            assert(crate::sorting::arranged(title_refs_of(sorted@), old(self).snapshot(), ix));
        }
        sorted
    }

    /// A title's entries sorted by the method, read through the listing
    /// cache; `None` where no title has this id. A cached id list is used
    /// only where it names every entry of the title, as many as there are,
    /// in sorted order; otherwise the entries are sorted afresh and their ids
    /// are stored.
    pub fn get_entries_sorted_cached(
        &mut self,
        title_id: &str,
        username: &str,
        method: SortMethod,
        ascending: bool,
    ) -> (r: Option<Vec<&Entry>>)
        requires
            old(self).wf(),
        ensures
            final(self).wf(),
            final(self).snapshot() == old(self).snapshot(),
            final(self).store() == old(self).store(),
            final(self).caches().is_enabled() == old(self).caches().is_enabled(),
            (r is None) == (title_index(old(self).snapshot(), title_id@) < 0),
            r is None ==> final(self).caches() == old(self).caches(),
            r matches Some(v) ==> {
                let t = old(self).snapshot()[title_index(old(self).snapshot(), title_id@)];
                &&& v@.len() == t.entries@.len()
                &&& sorted_by(v@, !(method is TimeModified), ascending)
                &&& forall|e: Entry| derefs(v@).contains(e) <==> t.entries@.contains(e)
                &&& exists|idx: Seq<int>|
                    crate::sorting::arranged(derefs(v@), t.entries@, idx) && crate::sorting::stable_by(
                        v@,
                        idx,
                        !(method is TimeModified),
                        ascending,
                    )
                &&& exists|ids: Seq<String>|
                    #[trigger] crate::sorting::ascending(ids) && ids.to_multiset() == entry_id_list(
                        t.entries@,
                    ).to_multiset() && stores_on_miss(
                        old(self).caches(),
                        final(self).caches(),
                        sorted_entries_key_spec(
                            title_id@,
                            username@,
                            texts(ids),
                            sort_method_key_name(method),
                            ascending,
                        ),
                        entry_ref_ids(v@),
                    )
            },
    {
        let by_name = match method {
            SortMethod::TimeModified => false,
            _ => true,
        };
        let pos = match title_position(&self.titles, title_id) {
            Some(i) => i,
            None => return None,
        };
        let ghost t = self.titles@[pos as int];
        let mut ids: Vec<String> = Vec::new();
        let n = self.titles[pos].entries.len();
        let mut i: usize = 0;
        while i < n
            invariant
                pos < self.titles@.len(),
                t == self.titles@[pos as int],
                n == t.entries@.len(),
                i <= n,
                ids@ == entry_id_list(t.entries@.subrange(0, i as int)),
            decreases n - i,
        {
            ids.push(self.titles[pos].entries[i].id.clone());
            assert(ids@ =~= entry_id_list(t.entries@.subrange(0, i as int + 1)));
            i = i + 1;
        }
        assert(t.entries@.subrange(0, n as int) =~= t.entries@);
        sort_ascending(&mut ids);
        let key = sorted_entries_key(title_id, username, ids.as_slice(), method.key_name(), ascending);
        let ghost k = key@;
        let ghost c0 = self.cache;
        let cached = self.cache.get_sorted_entries(key.as_str());
        let hit = match cached {
            Some(c) => entries_from_cache(&self.titles[pos].entries, &c, by_name, ascending),
            None => None,
        };
        if let Some(v) = hit {
            proof {
                let ix = choose|ix: Seq<int>|
                    crate::sorting::arranged(derefs(v@), t.entries@, ix) && crate::sorting::stable_by(
                        v@,
                        ix,
                        by_name,
                        ascending,
                    );
                assert(self.titles@ == old(self).titles@);
                assert(pos == title_index(old(self).snapshot(), title_id@));
                assert(stores_on_miss(c0, self.cache, k, entry_ref_ids(v@)));
                assert(crate::sorting::ascending(ids@));
                assert(crate::sorting::arranged(derefs(v@), old(self).snapshot()[pos as int].entries@, ix));
            }
            let res = Some(v);
            assert(res matches Some(w) ==> {
                let tt = old(self).snapshot()[title_index(old(self).snapshot(), title_id@)];
                &&& w@.len() == tt.entries@.len()
                &&& sorted_by(w@, !(method is TimeModified), ascending)
                &&& forall|e: Entry| derefs(w@).contains(e) <==> tt.entries@.contains(e)
                &&& exists|idx2: Seq<int>|
                    crate::sorting::arranged(derefs(w@), tt.entries@, idx2) && crate::sorting::stable_by(
                        w@,
                        idx2,
                        !(method is TimeModified),
                        ascending,
                    )
            });
            return res;
        }
        let sorted = self.titles[pos].get_entries_sorted(method, ascending);
        let mut sorted_ids: Vec<String> = Vec::new();
        let m = sorted.len();
        let mut j: usize = 0;
        while j < m
            invariant
                m == sorted@.len(),
                j <= m,
                texts(sorted_ids@) == entry_ref_ids(sorted@).subrange(0, j as int),
            decreases m - j,
        {
            let ghost pre = sorted_ids@;
            let id = sorted[j].id.clone();
            assert(id@ == sorted@[j as int].id@);
            sorted_ids.push(id);
            assert(texts(sorted_ids@) =~= texts(pre).push(id@));
            assert(texts(sorted_ids@) =~= entry_ref_ids(sorted@).subrange(0, j as int + 1));
            j = j + 1;
        }
        assert(entry_ref_ids(sorted@).subrange(0, m as int) =~= entry_ref_ids(sorted@));
        self.cache.set_sorted_entries(key, sorted_ids);
        proof {
            assert(self.titles@ == old(self).titles@);
            assert(pos == title_index(old(self).snapshot(), title_id@));
            assert(stores_on_miss(c0, self.cache, k, entry_ref_ids(sorted@)));
            assert(crate::sorting::ascending(ids@));
            let ix = choose|ix: Seq<int>|
                crate::sorting::arranged(derefs(sorted@), t.entries@, ix) && crate::sorting::stable_by(
                    sorted@,
                    ix,
                    !(method is TimeModified),
                    ascending,
                );
            assert(crate::sorting::arranged(derefs(sorted@), old(self).snapshot()[pos as int].entries@, ix));
        }
        let res = Some(sorted);
        assert(res matches Some(w) ==> {
            let tt = old(self).snapshot()[title_index(old(self).snapshot(), title_id@)];
            &&& w@.len() == tt.entries@.len()
            &&& sorted_by(w@, !(method is TimeModified), ascending)
            &&& forall|e: Entry| derefs(w@).contains(e) <==> tt.entries@.contains(e)
            &&& exists|idx2: Seq<int>|
                crate::sorting::arranged(derefs(w@), tt.entries@, idx2) && crate::sorting::stable_by(
                    w@,
                    idx2,
                    !(method is TimeModified),
                    ascending,
                )
        });
        res
    }

    /// The library root.
    pub fn path(&self) -> (r: &str)
        ensures
            r@ == self.root(),
    {
        self.path.as_str()
    }

    /// Drop cached listings that depend on a reader's progress in a title.
    pub fn invalidate_cache_for_progress(&mut self, title_id: &str, username: &str)
        requires
            old(self).wf(),
        ensures
            final(self).wf(),
            final(self).snapshot() == old(self).snapshot(),
    {
        self.cache.invalidate_progress(title_id, username);
    }

    /// The caches.
    pub fn cache(&self) -> (r: &Cache)
        ensures
            *r == self.caches(),
    {
        &self.cache
    }

    /// The identity store.
    pub fn identities(&self) -> (r: &IdentityStore)
        ensures
            *r == self.store(),
    {
        &self.identities
    }

    /// The published titles.
    pub fn titles(&self) -> (r: &Vec<Title>)
        ensures
            r@ == self.snapshot(),
    {
        &self.titles
    }

    /// Counts of titles, entries and pages (the sums held at `usize::MAX`).
    pub fn stats(&self) -> (r: LibraryStats)
        ensures
            r.titles == self.snapshot().len(),
            entry_total(self.snapshot()) <= usize::MAX ==> r.entries == entry_total(self.snapshot()),
            page_total(self.snapshot()) <= usize::MAX ==> r.pages == page_total(self.snapshot()),
    {
        let n = self.titles.len();
        let mut entries: usize = 0;
        let mut pages: usize = 0;
        let mut i: usize = 0;
        while i < n
            invariant
                n == self.titles@.len(),
                i <= n,
                entry_total(self.titles@.subrange(0, i as int)) <= usize::MAX ==> entries
                    == entry_total(self.titles@.subrange(0, i as int)),
                page_total(self.titles@.subrange(0, i as int)) <= usize::MAX ==> pages
                    == page_total(self.titles@.subrange(0, i as int)),
            decreases n - i,
        {
            let ghost t = self.titles@.subrange(0, i as int + 1);
            assert(t.drop_last() =~= self.titles@.subrange(0, i as int));
            let e = self.titles[i].entries.len();
            entries = if e <= usize::MAX - entries {
                entries + e
            } else {
                usize::MAX
            };
            let p = saturating_pages(&self.titles[i]);
            pages = if p <= usize::MAX - pages {
                pages + p
            } else {
                usize::MAX
            };
            proof {
                lemma_totals_grow(self.titles@, i as int);
            }
            i = i + 1;
        }
        assert(self.titles@.subrange(0, n as int) =~= self.titles@);
        LibraryStats { titles: n, entries, pages }
    }
}

/// What a rescan changed.
#[derive(Debug)]
pub struct ScanOutcomeCounts {
    pub titles: usize,
    pub new_titles: usize,
    pub new_entries: usize,
    pub missing_titles: Vec<String>,
    pub restored_titles: Vec<String>,
    pub missing_entries: Vec<String>,
    pub restored_entries: Vec<String>,
}

proof fn lemma_totals_grow(s: Seq<Title>, i: int)
    requires
        0 <= i < s.len(),
    ensures
        entry_total(s.subrange(0, i)) <= entry_total(s.subrange(0, i + 1)),
        page_total(s.subrange(0, i)) <= page_total(s.subrange(0, i + 1)),
{
    assert(s.subrange(0, i + 1).drop_last() =~= s.subrange(0, i));
}

fn saturating_pages(t: &Title) -> (r: usize)
    ensures
        pages_sum(t.entries@) <= usize::MAX ==> r == pages_sum(t.entries@),
{
    let n = t.entries.len();
    let mut total: usize = 0;
    let mut i: usize = 0;
    while i < n
        invariant
            n == t.entries@.len(),
            i <= n,
            pages_sum(t.entries@.subrange(0, i as int)) <= usize::MAX ==> total == pages_sum(
                t.entries@.subrange(0, i as int),
            ),
        decreases n - i,
    {
        let ghost s = t.entries@.subrange(0, i as int + 1);
        assert(s.drop_last() =~= t.entries@.subrange(0, i as int));
        let p = t.entries[i].pages;
        total = if p <= usize::MAX - total {
            total + p
        } else {
            usize::MAX
        };
        i = i + 1;
    }
    assert(t.entries@.subrange(0, n as int) =~= t.entries@);
    total
}

proof fn lemma_title_index_bounds(s: Seq<Title>, id: Seq<char>)
    ensures
        -1 <= title_index(s, id) < s.len(),
        title_index(s, id) >= 0 ==> s[title_index(s, id)].id@ == id,
    decreases s.len(),
{
    if s.len() > 0 {
        lemma_title_index_bounds(s.drop_last(), id);
        let p = title_index(s.drop_last(), id);
        if p >= 0 {
            assert(s[p] == s.drop_last()[p]);
        }
    }
}

proof fn lemma_title_index_prefix(s: Seq<Title>, i: int, id: Seq<char>, p: int)
    requires
        0 <= p < i <= s.len(),
        title_index(s.subrange(0, i), id) == p,
    ensures
        title_index(s, id) == p,
    decreases s.len() - i,
{
    if i < s.len() {
        let t = s.subrange(0, i + 1);
        assert(t.drop_last() =~= s.subrange(0, i));
        lemma_title_index_prefix(s, i + 1, id, p);
    } else {
        assert(s.subrange(0, i) =~= s);
    }
}

proof fn lemma_refs_same_members(a: Seq<&Title>, b: Seq<&Title>)
    requires
        a.to_multiset() == b.to_multiset(),
    ensures
        forall|t: Title| title_refs_of(a).contains(t) <==> title_refs_of(b).contains(t),
{
    broadcast use vstd::seq_lib::group_to_multiset_ensures;

    assert forall|t: Title| title_refs_of(a).contains(t) implies title_refs_of(b).contains(t) by {
        let i = choose|i: int| 0 <= i < title_refs_of(a).len() && title_refs_of(a)[i] == t;
        assert(a.contains(a[i]));
        assert(a.to_multiset().count(a[i]) > 0);
        assert(b.contains(a[i]));
        let j = choose|j: int| 0 <= j < b.len() && b[j] == a[i];
        assert(title_refs_of(b)[j] == t);
    }
    assert forall|t: Title| title_refs_of(b).contains(t) implies title_refs_of(a).contains(t) by {
        let i = choose|i: int| 0 <= i < title_refs_of(b).len() && title_refs_of(b)[i] == t;
        assert(b.contains(b[i]));
        assert(b.to_multiset().count(b[i]) > 0);
        assert(a.contains(b[i]));
        let j = choose|j: int| 0 <= j < a.len() && a[j] == b[i];
        assert(title_refs_of(a)[j] == t);
    }
}

/// The titles sorted by the method (see `Library::get_titles_sorted`).
fn sorted_titles_of<'a>(all: &'a Vec<Title>, method: SortMethod, ascending: bool) -> (r: Vec<&'a Title>)
    ensures
        r@.len() == all@.len(),
        sorted_by(r@, !(method is TimeModified), ascending),
        forall|t: Title| title_refs_of(r@).contains(t) <==> all@.contains(t),
        exists|idx: Seq<int>|
            crate::sorting::arranged(title_refs_of(r@), all@, idx) && crate::sorting::stable_by(
                r@,
                idx,
                !(method is TimeModified),
                ascending,
            ),
{
    let mut titles: Vec<&Title> = Vec::new();
    let n = all.len();
    let mut i: usize = 0;
    while i < n
        invariant
            n == all@.len(),
            i <= n,
            title_refs_of(titles@) == all@.subrange(0, i as int),
        decreases n - i,
    {
        let ghost pre = titles@;
        titles.push(&all[i]);
        assert(title_refs_of(titles@) =~= title_refs_of(pre).push(all@[i as int]));
        assert(title_refs_of(titles@) =~= all@.subrange(0, i as int + 1));
        i = i + 1;
    }
    assert(all@.subrange(0, n as int) =~= all@);
    let ghost before = titles@;
    match method {
        SortMethod::TimeModified => sort_by_mtime(&mut titles, ascending),
        _ => sort_by_name(&mut titles, ascending),
    }
    proof {
        lemma_refs_same_members(before, titles@);
        let by_name = !(method is TimeModified);
        let idx = choose|idx: Seq<int>|
            crate::sorting::arranged(titles@, before, idx) && crate::sorting::stable_by(
                titles@,
                idx,
                by_name,
                ascending,
            );
        assert forall|j: int| 0 <= j < titles@.len() implies title_refs_of(titles@)[j] == all@[idx[j]] by {
            assert(titles@[j] == before[idx[j]]);
            assert(title_refs_of(before)[idx[j]] == *before[idx[j]]);
        }
        assert(title_refs_of(before) == all@);
        assert(crate::sorting::arranged(title_refs_of(titles@), all@, idx));
        assert(crate::sorting::stable_by(titles@, idx, !(method is TimeModified), ascending));
        assert(all@ == all@);
        assert(crate::sorting::arranged(title_refs_of(titles@), all@, idx));
    }
    titles
}

fn title_position(titles: &Vec<Title>, id: &str) -> (r: Option<usize>)
    ensures
        (r is None) == (title_index(titles@, id@) < 0),
        r matches Some(i) ==> i == title_index(titles@, id@) && i < titles@.len(),
{
    proof {
        lemma_title_index_bounds(titles@, id@);
    }
    let n = titles.len();
    let mut i: usize = 0;
    while i < n
        invariant
            n == titles@.len(),
            i <= n,
            title_index(titles@.subrange(0, i as int), id@) < 0,
        decreases n - i,
    {
        let ghost t = titles@.subrange(0, i as int + 1);
        assert(t.drop_last() =~= titles@.subrange(0, i as int));
        if same_text(titles[i].id.as_str(), id) {
            proof {
                lemma_title_index_prefix(titles@, i as int + 1, id@, i as int);
            }
            return Some(i);
        }
        i = i + 1;
    }
    assert(titles@.subrange(0, n as int) =~= titles@);
    None
}

proof fn lemma_entry_index_bounds(s: Seq<Entry>, id: Seq<char>)
    ensures
        -1 <= entry_index(s, id) < s.len(),
        entry_index(s, id) >= 0 ==> s[entry_index(s, id)].id@ == id,
    decreases s.len(),
{
    if s.len() > 0 {
        lemma_entry_index_bounds(s.drop_last(), id);
        let p = entry_index(s.drop_last(), id);
        if p >= 0 {
            assert(s[p] == s.drop_last()[p]);
        }
    }
}

proof fn lemma_entry_index_prefix(s: Seq<Entry>, i: int, id: Seq<char>, p: int)
    requires
        0 <= p < i <= s.len(),
        entry_index(s.subrange(0, i), id) == p,
    ensures
        entry_index(s, id) == p,
    decreases s.len() - i,
{
    if i < s.len() {
        let t = s.subrange(0, i + 1);
        assert(t.drop_last() =~= s.subrange(0, i));
        lemma_entry_index_prefix(s, i + 1, id, p);
    } else {
        assert(s.subrange(0, i) =~= s);
    }
}

/// The first entry with this id.
fn find_entry<'a>(entries: &'a Vec<Entry>, id: &str) -> (r: Option<&'a Entry>)
    ensures
        entry_index(entries@, id@) < 0 ==> r is None,
        entry_index(entries@, id@) >= 0 ==> r == Some(&entries@[entry_index(entries@, id@)]),
{
    proof {
        lemma_entry_index_bounds(entries@, id@);
    }
    let n = entries.len();
    let mut i: usize = 0;
    while i < n
        invariant
            n == entries@.len(),
            i <= n,
            entry_index(entries@.subrange(0, i as int), id@) < 0,
        decreases n - i,
    {
        let ghost t = entries@.subrange(0, i as int + 1);
        assert(t.drop_last() =~= entries@.subrange(0, i as int));
        if same_text(entries[i].id.as_str(), id) {
            proof {
                lemma_entry_index_prefix(entries@, i as int + 1, id@, i as int);
            }
            return Some(&entries[i]);
        }
        i = i + 1;
    }
    assert(entries@.subrange(0, n as int) =~= entries@);
    None
}

/// The items at the given positions, where the positions name every item
/// exactly once and the result is sorted and stable in the chosen order.
fn arrange_checked<'a, T>(
    items: &'a Vec<T>,
    positions: &Vec<usize>,
    by_name: bool,
    ascending: bool,
) -> (r: Option<Vec<&'a T>>)
    where
        &'a T: crate::sorting::Sortable,
    ensures
        r matches Some(v) ==> {
            &&& v@.len() == items@.len()
            &&& sorted_by(v@, by_name, ascending)
            &&& forall|t: T| derefs_of(v@).contains(t) <==> items@.contains(t)
            &&& exists|idx: Seq<int>|
                crate::sorting::arranged(derefs_of(v@), items@, idx) && crate::sorting::stable_by(
                    v@,
                    idx,
                    by_name,
                    ascending,
                )
        },
{
    let n = items.len();
    if positions.len() != n {
        return None;
    }
    let mut seen: Vec<bool> = Vec::new();
    let mut i: usize = 0;
    while i < n
        invariant
            i <= n,
            seen@.len() == i,
            forall|x: int| 0 <= x < i ==> !(#[trigger] seen@[x]),
        decreases n - i,
    {
        seen.push(false);
        i = i + 1;
    }
    let mut out: Vec<&T> = Vec::new();
    let mut k: usize = 0;
    while k < n
        invariant
            n == items@.len(),
            n == positions@.len(),
            k <= n,
            out@.len() == k,
            seen@.len() == n,
            forall|j: int| 0 <= j < k ==> (#[trigger] positions@[j]) < n && *out@[j] == items@[positions@[j] as int],
            forall|a: int, b: int| 0 <= a < b < k ==> #[trigger] positions@[a] != #[trigger] positions@[b],
            forall|x: int|
                0 <= x < n ==> (#[trigger] seen@[x] <==> exists|j: int| 0 <= j < k && positions@[j] == x),
        decreases n - k,
    {
        let p = positions[k];
        if p >= n || seen[p] {
            return None;
        }
        let ghost old_seen = seen@;
        out.push(&items[p]);
        seen.remove(p);
        seen.insert(p, true);
        proof {
            assert forall|x: int|
                0 <= x < n implies (#[trigger] seen@[x] <==> exists|j: int| 0 <= j < k + 1 && positions@[j] == x) by {
                if x != p {
                    assert(seen@[x] == old_seen[x]);
                } else {
                    assert(positions@[k as int] == x);
                }
            }
            assert forall|a: int, b: int| 0 <= a < b < k + 1 implies #[trigger] positions@[a] != #[trigger] positions@[b] by {
                if b == k && positions@[a] == positions@[b] {
                    assert(old_seen[p as int]);
                }
            }
        }
        k = k + 1;
    }
    let mut x: usize = 0;
    while x < n
        invariant
            n == items@.len(),
            x <= n,
            seen@.len() == n,
            n == positions@.len(),
            forall|y: int|
                0 <= y < n ==> (#[trigger] seen@[y] <==> exists|j: int| 0 <= j < n && positions@[j] == y),
            forall|y: int| 0 <= y < x ==> #[trigger] seen@[y],
        decreases n - x,
    {
        if !seen[x] {
            return None;
        }
        x = x + 1;
    }
    let mut j: usize = 0;
    while j < n && j + 1 < n
        invariant
            out@.len() == n,
            j <= n,
            forall|q: int| 0 <= q < j ==> crate::sorting::may_precede(#[trigger] out@[q], out@[q + 1], by_name, ascending),
        decreases n - j,
    {
        if !crate::sorting::precedes(&out[j], &out[j + 1], by_name, ascending) {
            return None;
        }
        j = j + 1;
    }
    let ghost idx = positions@.map_values(|p: usize| p as int);
    let mut b: usize = 0;
    while b < n
        invariant
            out@.len() == n,
            n == positions@.len(),
            b <= n,
            idx == positions@.map_values(|p: usize| p as int),
            forall|a: int, c: int| 0 <= a < c < n ==> #[trigger] positions@[a] != #[trigger] positions@[c],
            forall|a: int, c: int|
                0 <= a < c < b && crate::sorting::may_precede(#[trigger] out@[c], #[trigger] out@[a], by_name, ascending)
                    ==> idx[a] < idx[c],
        decreases n - b,
    {
        let mut a: usize = 0;
        while a < b
            invariant
                out@.len() == n,
                n == positions@.len(),
                a <= b < n,
                idx == positions@.map_values(|p: usize| p as int),
                forall|a3: int, c: int| 0 <= a3 < c < n ==> #[trigger] positions@[a3] != #[trigger] positions@[c],
                forall|a2: int, c: int|
                    0 <= a2 < c < b && crate::sorting::may_precede(#[trigger] out@[c], #[trigger] out@[a2], by_name, ascending)
                        ==> idx[a2] < idx[c],
                forall|a2: int|
                    0 <= a2 < a && crate::sorting::may_precede(out@[b as int], #[trigger] out@[a2], by_name, ascending)
                        ==> idx[a2] < idx[b as int],
            decreases b - a,
        {
            if crate::sorting::precedes(&out[b], &out[a], by_name, ascending) && positions[a] > positions[b] {
                return None;
            }
            a = a + 1;
        }
        b = b + 1;
    }
    proof {
        assert forall|y: int| 0 <= y < out@.len() implies 0 <= #[trigger] idx[y] < out@.len() && derefs_of(out@)[y]
            == items@[idx[y]] by {}
        assert forall|a2: int, c: int| 0 <= a2 < c < out@.len() implies #[trigger] idx[a2] != #[trigger] idx[c] by {
            assert(positions@[a2] != positions@[c]);
        }
        assert(crate::sorting::arranged(derefs_of(out@), items@, idx));
        assert(crate::sorting::stable_by(out@, idx, by_name, ascending));
        assert forall|t: T| derefs_of(out@).contains(t) <==> items@.contains(t) by {
            if derefs_of(out@).contains(t) {
                let y = choose|y: int| 0 <= y < derefs_of(out@).len() && derefs_of(out@)[y] == t;
                assert(items@[idx[y]] == t);
            }
            if items@.contains(t) {
                let y = choose|y: int| 0 <= y < items@.len() && items@[y] == t;
                assert(seen@[y]);
                let w = choose|w: int| 0 <= w < n && positions@[w] == y;
                assert(derefs_of(out@)[w] == t);
            }
        }
    }
    Some(out)
}

pub open spec fn derefs_of<T>(s: Seq<&T>) -> Seq<T> {
    s.map_values(|t: &T| *t)
}

/// The titles that a cached id list names, in its order, where it names
/// every title exactly once, sorted and stable in the chosen order.
fn titles_from_cache<'a>(titles: &'a Vec<Title>, cached: &Vec<String>, by_name: bool, ascending: bool) -> (r:
    Option<Vec<&'a Title>>)
    ensures
        r matches Some(v) ==> {
            &&& v@.len() == titles@.len()
            &&& sorted_by(v@, by_name, ascending)
            &&& forall|t: Title| title_refs_of(v@).contains(t) <==> titles@.contains(t)
            &&& exists|idx: Seq<int>|
                crate::sorting::arranged(title_refs_of(v@), titles@, idx) && crate::sorting::stable_by(
                    v@,
                    idx,
                    by_name,
                    ascending,
                )
        },
{
    let mut positions: Vec<usize> = Vec::new();
    let m = cached.len();
    let mut k: usize = 0;
    while k < m
        invariant
            m == cached@.len(),
            k <= m,
        decreases m - k,
    {
        match title_position(titles, cached[k].as_str()) {
            Some(p) => positions.push(p),
            None => return None,
        }
        k = k + 1;
    }
    let r = arrange_checked(titles, &positions, by_name, ascending);
    proof {
        if r is Some {
            assert(derefs_of(r.unwrap()@) =~= title_refs_of(r.unwrap()@));
        }
    }
    r
}

/// The entries that a cached id list names, in its order, where it names
/// every entry exactly once, sorted and stable in the chosen order.
fn entries_from_cache<'a>(entries: &'a Vec<Entry>, cached: &Vec<String>, by_name: bool, ascending: bool) -> (r:
    Option<Vec<&'a Entry>>)
    ensures
        r matches Some(v) ==> {
            &&& v@.len() == entries@.len()
            &&& sorted_by(v@, by_name, ascending)
            &&& forall|e: Entry| derefs(v@).contains(e) <==> entries@.contains(e)
            &&& exists|idx: Seq<int>|
                crate::sorting::arranged(derefs(v@), entries@, idx) && crate::sorting::stable_by(
                    v@,
                    idx,
                    by_name,
                    ascending,
                )
        },
{
    let mut positions: Vec<usize> = Vec::new();
    let m = cached.len();
    let mut k: usize = 0;
    while k < m
        invariant
            m == cached@.len(),
            k <= m,
        decreases m - k,
    {
        match entry_position(entries, cached[k].as_str()) {
            Some(p) => positions.push(p),
            None => return None,
        }
        k = k + 1;
    }
    let r = arrange_checked(entries, &positions, by_name, ascending);
    proof {
        if r is Some {
            assert(derefs_of(r.unwrap()@) =~= derefs(r.unwrap()@));
        }
    }
    r
}

fn entry_position(entries: &Vec<Entry>, id: &str) -> (r: Option<usize>)
    ensures
        r matches Some(i) ==> i < entries@.len(),
{
    let n = entries.len();
    let mut i: usize = 0;
    while i < n
        invariant
            n == entries@.len(),
            i <= n,
        decreases n - i,
    {
        if same_text(entries[i].id.as_str(), id) {
            return Some(i);
        }
        i = i + 1;
    }
    None
}

} // verus!
