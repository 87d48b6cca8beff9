//! A title (series): a directory of entries, possibly with nested titles.
use vstd::prelude::*;

use crate::entry::Entry;
use crate::library::SortMethod;
use crate::entry::{ends_with, lower_of, lowercase};
use crate::progress::TitleInfo;
use crate::sorting::{sort_by_mtime, sort_by_name, Sortable};
use crate::text::text_ends_with;

verus! {

/// A series: a directory holding entries.
#[derive(Debug)]
pub struct Title {
    /// Stable identifier, persisted by the identity store.
    pub id: String,
    /// Path of the directory.
    pub path: String,
    /// Display name (the directory name).
    pub title: String,
    /// Order-independent signature of the entries' content signatures.
    pub signature: u64,
    /// Signature of the entries' file names, for cheap change detection.
    pub contents_signature: String,
    /// Latest modification time among the entries.
    pub mtime: i64,
    /// Entries, in natural order of their names.
    pub entries: Vec<Entry>,
    /// Parent title, for nested titles.
    pub parent_id: Option<String>,
    /// Nested titles.
    pub nested_titles: Vec<Title>,
}

/// Sum of the entries' page counts.
pub open spec fn pages_sum(s: Seq<Entry>) -> nat
    decreases s.len(),
{
    if s.len() == 0 {
        0
    } else {
        pages_sum(s.drop_last()) + s.last().pages as nat
    }
}

/// The title's own entries, then those of its nested titles, depth first.
pub open spec fn deep_entries_of(t: Title) -> Seq<Entry>
    decreases t, 1nat,
{
    t.entries@ + nested_entries_of(t, t.nested_titles@.len() as int)
}

/// Entries of the first `k` nested titles of `t`, depth first.
pub open spec fn nested_entries_of(t: Title, k: int) -> Seq<Entry>
    decreases t, 0nat, k,
{
    if k <= 0 || k > t.nested_titles@.len() {
        Seq::empty()
    } else {
        nested_entries_of(t, k - 1) + deep_entries_of(t.nested_titles@[k - 1])
    }
}

pub open spec fn derefs(s: Seq<&Entry>) -> Seq<Entry> {
    s.map_values(|e: &Entry| *e)
}

impl Title {
    /// Total number of pages across the title's entries.
    pub fn total_pages(&self) -> (r: usize)
        requires
            pages_sum(self.entries@) <= usize::MAX,
        ensures
            r == pages_sum(self.entries@),
    {
        let n = self.entries.len();
        let mut total: usize = 0;
        let mut i: usize = 0;
        while i < n
            invariant
                n == self.entries@.len(),
                i <= n,
                total == pages_sum(self.entries@.subrange(0, i as int)),
                pages_sum(self.entries@) <= usize::MAX,
            decreases n - i,
        {
            proof {
                let s = self.entries@.subrange(0, i as int + 1);
                assert(s.drop_last() =~= self.entries@.subrange(0, i as int));
                lemma_pages_prefix(self.entries@, i as int + 1);
            }
            total = total + self.entries[i].pages;
            i = i + 1;
        }
        assert(self.entries@.subrange(0, n as int) =~= self.entries@);
        total
    }

    /// The title's entries, sorted by the method; progress and auto sort by
    /// name here, as progress depends on the reader.
    pub fn get_entries_sorted(&self, method: SortMethod, ascending: bool) -> (r: Vec<&Entry>)
        ensures
            r@.len() == self.entries@.len(),
            forall|e: Entry| derefs(r@).contains(e) <==> self.entries@.contains(e),
            crate::sorting::sorted_by(r@, !(method is TimeModified), ascending),
            exists|idx: Seq<int>|
                crate::sorting::arranged(derefs(r@), self.entries@, idx) && crate::sorting::stable_by(
                    r@,
                    idx,
                    !(method is TimeModified),
                    ascending,
                ),
    {
        let mut entries: Vec<&Entry> = Vec::new();
        let n = self.entries.len();
        let mut i: usize = 0;
        while i < n
            invariant
                n == self.entries@.len(),
                i <= n,
                derefs(entries@) == self.entries@.subrange(0, i as int),
            decreases n - i,
        {
            let ghost pre = entries@;
            entries.push(&self.entries[i]);
            proof {
                lemma_derefs_push(pre, &self.entries[i as int]);
            }
            assert(derefs(entries@) =~= self.entries@.subrange(0, i as int + 1));
            i = i + 1;
        }
        assert(self.entries@.subrange(0, n as int) =~= self.entries@);
        let ghost before = entries@;
        match method {
            SortMethod::TimeModified => sort_by_mtime(&mut entries, ascending),
            _ => sort_by_name(&mut entries, ascending),
        }
        proof {
            lemma_derefs_multiset(before, entries@);
            let by_name = !(method is TimeModified);
            let idx = choose|idx: Seq<int>|
                crate::sorting::arranged(entries@, before, idx) && crate::sorting::stable_by(
                    entries@,
                    idx,
                    by_name,
                    ascending,
                );
            assert forall|j: int| 0 <= j < entries@.len() implies derefs(entries@)[j] == self.entries@[idx[j]] by {
                assert(entries@[j] == before[idx[j]]);
                assert(derefs(before)[idx[j]] == *before[idx[j]]);
            }
            assert(crate::sorting::arranged(derefs(entries@), self.entries@, idx));
        }
        entries
    }

    /// Every entry of the title and of its nested titles, depth first.
    pub fn deep_entries(&self) -> (r: Vec<&Entry>)
        ensures
            derefs(r@) == deep_entries_of(*self),
        decreases *self,
    {
        let mut all: Vec<&Entry> = Vec::new();
        let n = self.entries.len();
        let mut i: usize = 0;
        while i < n
            invariant
                n == self.entries@.len(),
                i <= n,
                derefs(all@) == self.entries@.subrange(0, i as int),
            decreases n - i,
        {
            let ghost pre = all@;
            all.push(&self.entries[i]);
            proof {
                lemma_derefs_push(pre, &self.entries[i as int]);
            }
            assert(derefs(all@) =~= self.entries@.subrange(0, i as int + 1));
            i = i + 1;
        }
        assert(self.entries@.subrange(0, n as int) =~= self.entries@);
        let m = self.nested_titles.len();
        let mut k: usize = 0;
        while k < m
            invariant
                m == self.nested_titles@.len(),
                n == self.entries@.len(),
                k <= m,
                derefs(all@) == self.entries@ + nested_entries_of(*self, k as int),
            decreases m - k,
        {
            proof {
                assert(decreases_to!(self.nested_titles => self.nested_titles@[k as int]));
            }
            let sub = self.nested_titles[k].deep_entries();
            let ghost pre = all@;
            let mut j: usize = 0;
            while j < sub.len()
                invariant
                    j <= sub@.len(),
                    derefs(all@) == derefs(pre) + derefs(sub@).subrange(0, j as int),
                decreases sub@.len() - j,
            {
                let ghost cur = all@;
                all.push(sub[j]);
                proof {
                    lemma_derefs_push(cur, sub@[j as int]);
                }
                assert(derefs(all@) =~= derefs(pre) + derefs(sub@).subrange(0, j as int + 1));
                j = j + 1;
            }
            assert(derefs(sub@).subrange(0, sub@.len() as int) =~= derefs(sub@));
            assert(derefs(all@) =~= self.entries@ + nested_entries_of(*self, k as int + 1));
            k = k + 1;
        }
        all
    }
}

/// Whether a lower-cased path names a supported archive: a non-empty file
/// name with extension `zip` or `cbz`.
pub open spec fn archive_name(lower: Seq<char>) -> bool {
    (ends_with(lower, ".zip"@) || ends_with(lower, ".cbz"@)) && lower.len() > 4 && lower[lower.len()
        - 5] != '/'
}

/// Whether a path names a supported archive, ignoring case.
pub fn is_archive(path: &str) -> (r: bool)
    ensures
        r == archive_name(lower_of(path@)),
{
    let lower = lowercase(path);
    let l = lower.as_str();
    let n = l.unicode_len();
    (text_ends_with(l, ".zip") || text_ends_with(l, ".cbz")) && n > 4 && l.get_char(n - 5) != '/'
}

impl Title {
    /// Mark every entry as read to its last page at the given time.
    pub fn read_all(&self, info: &mut TitleInfo, username: &str, timestamp: i64)
        ensures
            forall|k: int|
                0 <= k < self.entries@.len() && self.entries@[k].pages != 0
                    && entry_ids_unique_after(self.entries@, k) ==> final(info).progress.lookup(
                    username@,
                    (#[trigger] self.entries@[k]).id@,
                ) == Some(self.entries@[k].pages),
    {
        let n = self.entries.len();
        let mut i: usize = 0;
        while i < n
            invariant
                n == self.entries@.len(),
                i <= n,
                forall|k: int|
                    0 <= k < i && self.entries@[k].pages != 0 && entry_ids_unique_after(
                        self.entries@,
                        k,
                    ) ==> info.progress.lookup(username@, (#[trigger] self.entries@[k]).id@)
                        == Some(self.entries@[k].pages),
            decreases n - i,
        {
            let e = &self.entries[i];
            info.record_page(username, e.id.as_str(), e.pages, timestamp);
            i = i + 1;
        }
    }

    /// Mark every entry as unread.
    pub fn unread_all(&self, info: &mut TitleInfo, username: &str)
        ensures
            forall|k: int|
                0 <= k < self.entries@.len() ==> final(info).progress.lookup(
                    username@,
                    (#[trigger] self.entries@[k]).id@,
                ) is None,
    {
        let n = self.entries.len();
        let mut i: usize = 0;
        while i < n
            invariant
                n == self.entries@.len(),
                i <= n,
                forall|k: int|
                    0 <= k < i ==> info.progress.lookup(username@, (#[trigger] self.entries@[k]).id@)
                        is None,
            decreases n - i,
        {
            info.remove_progress(username, self.entries[i].id.as_str());
            i = i + 1;
        }
    }

    /// Record when each entry was first seen, keeping dates already known.
    pub fn populate_date_added(&self, info: &mut TitleInfo, now: i64)
        ensures
            forall|k: int|
                0 <= k < self.entries@.len() ==> final(info).date_added.lookup(
                    (#[trigger] self.entries@[k]).id@,
                ) is Some,
            forall|x: Seq<char>| old(info).date_added.lookup(x) is Some ==> #[trigger] final(info).date_added.lookup(x)
                == old(info).date_added.lookup(x),
            forall|k: int|
                0 <= k < self.entries@.len() && old(info).date_added.lookup(
                    (#[trigger] self.entries@[k]).id@,
                ) is None ==> final(info).date_added.lookup(self.entries@[k].id@) == Some(now),
    {
        let n = self.entries.len();
        let mut i: usize = 0;
        while i < n
            invariant
                n == self.entries@.len(),
                i <= n,
                forall|k: int|
                    0 <= k < i ==> info.date_added.lookup((#[trigger] self.entries@[k]).id@) is Some,
                forall|x: Seq<char>| old(info).date_added.lookup(x) is Some ==> #[trigger] info.date_added.lookup(x)
                    == old(info).date_added.lookup(x),
                forall|x: Seq<char>| old(info).date_added.lookup(x) is None ==> (#[trigger] info.date_added.lookup(x)
                    is None || info.date_added.lookup(x) == Some(now)),
            decreases n - i,
        {
            info.set_date_added_if_new(self.entries[i].id.as_str(), now);
            i = i + 1;
        }
    }
}

/// No later entry shares the id of entry `k`.
pub open spec fn entry_ids_unique_after(s: Seq<Entry>, k: int) -> bool {
    forall|j: int| k < j < s.len() ==> #[trigger] s[j].id@ != s[k].id@
}

proof fn lemma_pages_prefix(s: Seq<Entry>, i: int)
    requires
        0 <= i <= s.len(),
    ensures
        pages_sum(s.subrange(0, i)) <= pages_sum(s),
    decreases s.len() - i,
{
    if i < s.len() {
        lemma_pages_prefix(s, i + 1);
        assert(s.subrange(0, i + 1).drop_last() =~= s.subrange(0, i));
    } else {
        assert(s.subrange(0, i) =~= s);
    }
}

proof fn lemma_derefs_push<'a>(s: Seq<&'a Entry>, e: &'a Entry)
    ensures
        derefs(s.push(e)) == derefs(s).push(*e),
{
    assert(derefs(s.push(e)) =~= derefs(s).push(*e));
}

proof fn lemma_derefs_multiset(a: Seq<&Entry>, b: Seq<&Entry>)
    requires
        a.to_multiset() == b.to_multiset(),
    ensures
        forall|e: Entry| derefs(a).contains(e) <==> derefs(b).contains(e),
{
    broadcast use vstd::seq_lib::group_to_multiset_ensures;

    assert forall|e: Entry| derefs(a).contains(e) implies derefs(b).contains(e) by {
        let i = choose|i: int| 0 <= i < derefs(a).len() && derefs(a)[i] == e;
        assert(a.contains(a[i]));
        assert(a.to_multiset().count(a[i]) > 0);
        assert(b.contains(a[i]));
        let j = choose|j: int| 0 <= j < b.len() && b[j] == a[i];
        assert(derefs(b)[j] == e);
    }
    assert forall|e: Entry| derefs(b).contains(e) implies derefs(a).contains(e) by {
        let i = choose|i: int| 0 <= i < derefs(b).len() && derefs(b)[i] == e;
        assert(b.contains(b[i]));
        assert(b.to_multiset().count(b[i]) > 0);
        assert(a.contains(b[i]));
        let j = choose|j: int| 0 <= j < a.len() && a[j] == b[i];
        assert(derefs(a)[j] == e);
    }
}

impl Sortable for Title {
    open spec fn name_view(&self) -> Seq<char> {
        self.title@
    }

    open spec fn mtime_view(&self) -> i64 {
        self.mtime
    }

    fn sort_name(&self) -> (r: &str) {
        self.title.as_str()
    }

    fn sort_mtime(&self) -> (r: i64) {
        self.mtime
    }
}

impl<'a> Sortable for &'a Title {
    open spec fn name_view(&self) -> Seq<char> {
        self.title@
    }

    open spec fn mtime_view(&self) -> i64 {
        self.mtime
    }

    fn sort_name(&self) -> (r: &str) {
        self.title.as_str()
    }

    fn sort_mtime(&self) -> (r: i64) {
        self.mtime
    }
}

} // verus!
