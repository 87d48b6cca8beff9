//! Reading progress of one title: pages read and last-read times per
//! (user, entry), and the date each entry was first seen.
use vstd::prelude::*;

use crate::assoc::{PairMap, TextMap};
use crate::text::text_of;

verus! {

/// Progress record of one title, persisted as the title's side file.
pub struct TitleInfo {
    /// user, entry id -> page number
    pub progress: PairMap<usize>,
    /// user, entry id -> last-read time, seconds since the epoch
    pub last_read: PairMap<i64>,
    /// entry id -> time first seen, seconds since the epoch
    pub date_added: TextMap<i64>,
    /// Display name override; empty for none.
    pub display_name: String,
}

/// Relies on `chrono::Utc::now`: the current time in seconds since the
/// epoch. Nothing is promised of its value.
#[verifier::external_body]
pub(crate) fn now_timestamp() -> (r: i64) {
    chrono::Utc::now().timestamp()
}

impl TitleInfo {
    /// An empty record.
    pub fn new() -> (r: Self)
        ensures
            forall|a: Seq<char>, b: Seq<char>| r.progress.lookup(a, b) is None,
            forall|a: Seq<char>, b: Seq<char>| r.last_read.lookup(a, b) is None,
            forall|k: Seq<char>| r.date_added.lookup(k) is None,
            r.display_name@.len() == 0,
    {
        TitleInfo {
            progress: PairMap::new(),
            last_read: PairMap::new(),
            date_added: TextMap::new(),
            display_name: String::new(),
        }
    }

    /// Pages read by a user in an entry.
    pub fn get_progress(&self, username: &str, entry_id: &str) -> (r: Option<usize>)
        ensures
            r == self.progress.lookup(username@, entry_id@),
    {
        self.progress.get(username, entry_id)
    }

    /// Record pages read at a given time; the last-read time becomes
    /// `timestamp`.
    pub fn set_progress_at(&mut self, username: &str, entry_id: &str, page: usize, timestamp: i64)
        ensures
            final(self).progress.lookup(username@, entry_id@) == Some(page),
            final(self).last_read.lookup(username@, entry_id@) == Some(timestamp),
            forall|a: Seq<char>, b: Seq<char>|
                !(a == username@ && b == entry_id@) ==> #[trigger] final(self).progress.lookup(a, b)
                    == old(self).progress.lookup(a, b),
            forall|a: Seq<char>, b: Seq<char>|
                !(a == username@ && b == entry_id@) ==> #[trigger] final(self).last_read.lookup(a, b)
                    == old(self).last_read.lookup(a, b),
            forall|k: Seq<char>| #[trigger] final(self).date_added.lookup(k) == old(self).date_added.lookup(k),
    {
        self.progress.insert(username, entry_id, page);
        self.last_read.insert(username, entry_id, timestamp);
    }

    /// Record pages read now.
    pub fn set_progress(&mut self, username: &str, entry_id: &str, page: usize)
        ensures
            final(self).progress.lookup(username@, entry_id@) == Some(page),
            final(self).last_read.lookup(username@, entry_id@) is Some,
            forall|a: Seq<char>, b: Seq<char>|
                !(a == username@ && b == entry_id@) ==> #[trigger] final(self).progress.lookup(a, b)
                    == old(self).progress.lookup(a, b),
    {
        let now = now_timestamp();
        self.set_progress_at(username, entry_id, page, now);
    }

    /// Forget a user's progress in an entry.
    pub fn remove_progress(&mut self, username: &str, entry_id: &str)
        ensures
            final(self).progress.lookup(username@, entry_id@) is None,
            forall|a: Seq<char>, b: Seq<char>|
                !(a == username@ && b == entry_id@) ==> #[trigger] final(self).progress.lookup(a, b)
                    == old(self).progress.lookup(a, b),
            forall|a: Seq<char>, b: Seq<char>| #[trigger] final(self).last_read.lookup(a, b)
                == old(self).last_read.lookup(a, b),
            forall|k: Seq<char>| #[trigger] final(self).date_added.lookup(k) == old(self).date_added.lookup(k),
            final(self).display_name == old(self).display_name,
    {
        self.progress.remove(username, entry_id);
    }

    /// Record a page position as a reader reports it: page zero removes the
    /// progress (unread), any other page is stored with the given time.
    pub fn record_page(&mut self, username: &str, entry_id: &str, page: usize, timestamp: i64)
        ensures
            page == 0 ==> final(self).progress.lookup(username@, entry_id@) is None,
            page != 0 ==> final(self).progress.lookup(username@, entry_id@) == Some(page),
            page != 0 ==> final(self).last_read.lookup(username@, entry_id@) == Some(timestamp),
            forall|a: Seq<char>, b: Seq<char>|
                !(a == username@ && b == entry_id@) ==> #[trigger] final(self).progress.lookup(a, b)
                    == old(self).progress.lookup(a, b),
    {
        if page == 0 {
            self.remove_progress(username, entry_id);
        } else {
            self.set_progress_at(username, entry_id, page, timestamp);
        }
    }

    /// Last-read time of a user in an entry.
    pub fn get_last_read(&self, username: &str, entry_id: &str) -> (r: Option<i64>)
        ensures
            r == self.last_read.lookup(username@, entry_id@),
    {
        self.last_read.get(username, entry_id)
    }

    /// Set the last-read time of a user in an entry.
    pub fn set_last_read(&mut self, username: &str, entry_id: &str, timestamp: i64)
        ensures
            final(self).last_read.lookup(username@, entry_id@) == Some(timestamp),
            forall|a: Seq<char>, b: Seq<char>|
                !(a == username@ && b == entry_id@) ==> #[trigger] final(self).last_read.lookup(a, b)
                    == old(self).last_read.lookup(a, b),
    {
        self.last_read.insert(username, entry_id, timestamp);
    }

    /// When an entry was first seen.
    pub fn get_date_added(&self, entry_id: &str) -> (r: Option<i64>)
        ensures
            r == self.date_added.lookup(entry_id@),
    {
        self.date_added.get(entry_id)
    }

    /// Set when an entry was first seen.
    pub fn set_date_added(&mut self, entry_id: &str, timestamp: i64)
        ensures
            final(self).date_added.lookup(entry_id@) == Some(timestamp),
            forall|k: Seq<char>| k != entry_id@ ==> #[trigger] final(self).date_added.lookup(k)
                == old(self).date_added.lookup(k),
    {
        self.date_added.insert(entry_id, timestamp);
    }

    /// Set when an entry was first seen, unless already known.
    pub fn set_date_added_if_new(&mut self, entry_id: &str, timestamp: i64)
        ensures
            final(self).date_added.lookup(entry_id@) == match old(self).date_added.lookup(entry_id@) {
                Some(t) => Some(t),
                None => Some(timestamp),
            },
            forall|k: Seq<char>| k != entry_id@ ==> #[trigger] final(self).date_added.lookup(k)
                == old(self).date_added.lookup(k),
    {
        if self.date_added.get(entry_id).is_none() {
            self.date_added.insert(entry_id, timestamp);
        }
    }

    /// Whether no progress is recorded; the side file is then deleted
    /// rather than written.
    pub fn has_no_progress(&self) -> (r: bool)
        ensures
            r ==> forall|a: Seq<char>, b: Seq<char>| self.progress.lookup(a, b) is None,
    {
        self.progress.is_empty()
    }

    /// A copy of the record.
    pub fn duplicate(&self) -> (r: Self)
        ensures
            forall|a: Seq<char>, b: Seq<char>| #[trigger] r.progress.lookup(a, b) == self.progress.lookup(a, b),
            forall|a: Seq<char>, b: Seq<char>| #[trigger] r.last_read.lookup(a, b) == self.last_read.lookup(a, b),
            forall|k: Seq<char>| #[trigger] r.date_added.lookup(k) == self.date_added.lookup(k),
            r.display_name@ == self.display_name@,
    {
        TitleInfo {
            progress: PairMap::from_items(clone_pairs(self.progress.items())),
            last_read: PairMap::from_items(clone_pairs(self.last_read.items())),
            date_added: TextMap::from_items(clone_texts(self.date_added.items())),
            display_name: text_of(self.display_name.as_str()),
        }
    }
}

fn clone_pairs<V: Copy>(items: &Vec<(String, String, V)>) -> (r: Vec<(String, String, V)>)
    ensures
        forall|a: Seq<char>, b: Seq<char>| #[trigger] crate::assoc::pair_lookup(r@, a, b)
            == crate::assoc::pair_lookup(items@, a, b),
{
    let mut out: Vec<(String, String, V)> = Vec::new();
    let n = items.len();
    let mut i: usize = 0;
    while i < n
        invariant
            n == items@.len(),
            i <= n,
            out@.len() == i,
            forall|j: int|
                0 <= j < i ==> (#[trigger] out@[j]).0@ == items@[j].0@ && out@[j].1@ == items@[j].1@
                    && out@[j].2 == items@[j].2,
        decreases n - i,
    {
        let item = &items[i];
        out.push((item.0.clone(), item.1.clone(), item.2));
        i = i + 1;
    }
    proof {
        assert forall|a: Seq<char>, b: Seq<char>| #[trigger] crate::assoc::pair_lookup(out@, a, b)
            == crate::assoc::pair_lookup(items@, a, b) by {
            lemma_same_pair_lookup(out@, items@, a, b);
        }
    }
    out
}

proof fn lemma_same_pair_lookup<V>(
    s: Seq<(String, String, V)>,
    t: Seq<(String, String, V)>,
    a: Seq<char>,
    b: Seq<char>,
)
    requires
        s.len() == t.len(),
        forall|j: int|
            0 <= j < s.len() ==> (#[trigger] s[j]).0@ == t[j].0@ && s[j].1@ == t[j].1@ && s[j].2
                == t[j].2,
    ensures
        crate::assoc::pair_lookup(s, a, b) == crate::assoc::pair_lookup(t, a, b),
    decreases s.len(),
{
    if s.len() > 0 {
        assert(s.last() == s[s.len() - 1]);
        assert forall|j: int| 0 <= j < s.len() - 1 implies (#[trigger] s.drop_last()[j]).0@
            == t.drop_last()[j].0@ && s.drop_last()[j].1@ == t.drop_last()[j].1@
            && s.drop_last()[j].2 == t.drop_last()[j].2 by {
            assert(s.drop_last()[j] == s[j]);
            assert(t.drop_last()[j] == t[j]);
        }
        lemma_same_pair_lookup(s.drop_last(), t.drop_last(), a, b);
    }
}

fn clone_texts<V: Copy>(items: &Vec<(String, V)>) -> (r: Vec<(String, V)>)
    ensures
        forall|k: Seq<char>| #[trigger] crate::assoc::text_lookup(r@, k) == crate::assoc::text_lookup(
            items@,
            k,
        ),
{
    let mut out: Vec<(String, V)> = Vec::new();
    let n = items.len();
    let mut i: usize = 0;
    while i < n
        invariant
            n == items@.len(),
            i <= n,
            out@.len() == i,
            forall|j: int| 0 <= j < i ==> (#[trigger] out@[j]).0@ == items@[j].0@ && out@[j].1 == items@[j].1,
        decreases n - i,
    {
        let item = &items[i];
        out.push((item.0.clone(), item.1));
        i = i + 1;
    }
    proof {
        assert forall|k: Seq<char>| #[trigger] crate::assoc::text_lookup(out@, k)
            == crate::assoc::text_lookup(items@, k) by {
            lemma_same_text_lookup(out@, items@, k);
        }
    }
    out
}

proof fn lemma_same_text_lookup<V>(s: Seq<(String, V)>, t: Seq<(String, V)>, k: Seq<char>)
    requires
        s.len() == t.len(),
        forall|j: int| 0 <= j < s.len() ==> (#[trigger] s[j]).0@ == t[j].0@ && s[j].1 == t[j].1,
    ensures
        crate::assoc::text_lookup(s, k) == crate::assoc::text_lookup(t, k),
    decreases s.len(),
{
    if s.len() > 0 {
        assert(s.last() == s[s.len() - 1]);
        assert forall|j: int| 0 <= j < s.len() - 1 implies (#[trigger] s.drop_last()[j]).0@
            == t.drop_last()[j].0@ && s.drop_last()[j].1 == t.drop_last()[j].1 by {
            assert(s.drop_last()[j] == s[j]);
            assert(t.drop_last()[j] == t[j]);
        }
        lemma_same_text_lookup(s.drop_last(), t.drop_last(), k);
    }
}

} // verus!
