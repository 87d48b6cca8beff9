//! Read-through cache of progress records, one per title, loaded lazily
//! and kept resident. Callers hold it behind one lock; `record_progress`
//! updates the record and hands back what is to be written to the side
//! file inside that same critical section.
use vstd::prelude::*;

use crate::progress::TitleInfo;
use crate::text::{same_text, text_of};

verus! {

/// Progress records by title id.
pub struct ProgressCache {
    data: Vec<(String, TitleInfo)>,
}

/// Position of the record of `title_id`, or -1.
pub open spec fn title_pos(s: Seq<(String, TitleInfo)>, title_id: Seq<char>) -> int
    decreases s.len(),
{
    if s.len() == 0 {
        -1
    } else if s.last().0@ == title_id {
        s.len() - 1
    } else {
        title_pos(s.drop_last(), title_id)
    }
}

proof fn lemma_title_pos(s: Seq<(String, TitleInfo)>, title_id: Seq<char>)
    ensures
        -1 <= title_pos(s, title_id) < s.len(),
        title_pos(s, title_id) >= 0 ==> s[title_pos(s, title_id)].0@ == title_id,
    decreases s.len(),
{
    if s.len() > 0 {
        lemma_title_pos(s.drop_last(), title_id);
        let p = title_pos(s.drop_last(), title_id);
        if p >= 0 {
            assert(s[p] == s.drop_last()[p]);
        }
    }
}

proof fn lemma_title_pos_update(s: Seq<(String, TitleInfo)>, p: int, e: (String, TitleInfo), k: Seq<char>)
    requires
        0 <= p < s.len(),
        e.0@ == s[p].0@,
    ensures
        title_pos(s.update(p, e), k) == title_pos(s, k),
    decreases s.len(),
{
    if p == s.len() - 1 {
        assert(s.update(p, e).drop_last() =~= s.drop_last());
    } else {
        lemma_title_pos_update(s.drop_last(), p, e, k);
        assert(s.update(p, e).drop_last() =~= s.drop_last().update(p, e));
    }
}

impl ProgressCache {
    pub closed spec fn records(&self) -> Seq<(String, TitleInfo)> {
        self.data@
    }

    /// Whether a title's record is resident.
    pub open spec fn holds(&self, title_id: Seq<char>) -> bool {
        title_pos(self.records(), title_id) >= 0
    }

    /// The resident record of a title.
    pub open spec fn info(&self, title_id: Seq<char>) -> TitleInfo {
        self.records()[title_pos(self.records(), title_id)].1
    }

    pub fn new() -> (r: Self)
        ensures
            r.records().len() == 0,
    {
        ProgressCache { data: Vec::new() }
    }

    fn find(&self, title_id: &str) -> (r: Option<usize>)
        ensures
            r is Some <==> title_pos(self.data@, title_id@) >= 0,
            r matches Some(i) ==> i == title_pos(self.data@, title_id@),
    {
        let mut i = self.data.len();
        assert(self.data@.subrange(0, i as int) =~= self.data@);
        while i > 0
            invariant
                i <= self.data@.len(),
                title_pos(self.data@, title_id@) == title_pos(self.data@.subrange(0, i as int), title_id@),
            decreases i,
        {
            let ghost pre = self.data@.subrange(0, i as int);
            assert(pre.drop_last() =~= self.data@.subrange(0, i - 1));
            if same_text(self.data[i - 1].0.as_str(), title_id) {
                return Some(i - 1);
            }
            i = i - 1;
        }
        None
    }

    /// Pages read, from the resident record.
    pub fn get_progress(&self, title_id: &str, username: &str, entry_id: &str) -> (r: Option<usize>)
        ensures
            !self.holds(title_id@) ==> r is None,
            self.holds(title_id@) ==> r == self.info(title_id@).progress.lookup(username@, entry_id@),
    {
        proof {
            lemma_title_pos(self.data@, title_id@);
        }
        match self.find(title_id) {
            Some(i) => self.data[i].1.get_progress(username, entry_id),
            None => None,
        }
    }

    /// Last-read time, from the resident record.
    pub fn get_last_read(&self, title_id: &str, username: &str, entry_id: &str) -> (r: Option<i64>)
        ensures
            !self.holds(title_id@) ==> r is None,
            self.holds(title_id@) ==> r == self.info(title_id@).last_read.lookup(username@, entry_id@),
    {
        proof {
            lemma_title_pos(self.data@, title_id@);
        }
        match self.find(title_id) {
            Some(i) => self.data[i].1.get_last_read(username, entry_id),
            None => None,
        }
    }

    /// Date added, from the resident record.
    pub fn get_date_added(&self, title_id: &str, entry_id: &str) -> (r: Option<i64>)
        ensures
            !self.holds(title_id@) ==> r is None,
            self.holds(title_id@) ==> r == self.info(title_id@).date_added.lookup(entry_id@),
    {
        proof {
            lemma_title_pos(self.data@, title_id@);
        }
        match self.find(title_id) {
            Some(i) => self.data[i].1.get_date_added(entry_id),
            None => None,
        }
    }

    /// Display name override, where one is set.
    pub fn get_display_name(&self, title_id: &str) -> (r: Option<String>)
        ensures
            !self.holds(title_id@) ==> r is None,
            self.holds(title_id@) ==> match r {
                Some(n) => n@ == self.info(title_id@).display_name@ && n@.len() > 0,
                None => self.info(title_id@).display_name@.len() == 0,
            },
    {
        proof {
            lemma_title_pos(self.data@, title_id@);
        }
        match self.find(title_id) {
            Some(i) => {
                let name = self.data[i].1.display_name.as_str();
                if name.unicode_len() == 0 {
                    None
                } else {
                    Some(text_of(name))
                }
            },
            None => None,
        }
    }

    /// The resident record of a title.
    pub fn get_title_info(&self, title_id: &str) -> (r: Option<&TitleInfo>)
        ensures
            !self.holds(title_id@) ==> r is None,
            self.holds(title_id@) ==> r == Some(&self.info(title_id@)),
    {
        proof {
            lemma_title_pos(self.data@, title_id@);
        }
        match self.find(title_id) {
            Some(i) => Some(&self.data[i].1),
            None => None,
        }
    }

    /// Make a record, read from the title's side file, resident.
    pub fn load_title(&mut self, title_id: &str, info: TitleInfo)
        ensures
            final(self).holds(title_id@),
            final(self).info(title_id@) == info,
    {
        proof {
            lemma_title_pos(self.data@, title_id@);
        }
        match self.find(title_id) {
            Some(i) => {
                let ghost s = self.data@;
                let (k, _) = self.data.remove(i);
                self.data.insert(i, (k, info));
                proof {
                    assert(self.data@ =~= s.update(i as int, self.data@[i as int]));
                    lemma_title_pos_update(s, i as int, self.data@[i as int], title_id@);
                }
            },
            None => {
                self.data.push((text_of(title_id), info));
            },
        }
    }

    /// Record a page position for a user in an entry of a title, at a given
    /// time, creating the record where none is resident; page zero removes
    /// the progress. Returns the updated record, which the caller writes to
    /// the side file before releasing the lock.
    pub fn record_progress(
        &mut self,
        title_id: &str,
        username: &str,
        entry_id: &str,
        page: usize,
        timestamp: i64,
    ) -> (r: &TitleInfo)
        ensures
            final(self).holds(title_id@),
            *r == final(self).info(title_id@),
            page == 0 ==> r.progress.lookup(username@, entry_id@) is None,
            page != 0 ==> r.progress.lookup(username@, entry_id@) == Some(page),
            old(self).holds(title_id@) ==> forall|a: Seq<char>, b: Seq<char>|
                !(a == username@ && b == entry_id@) ==> #[trigger] r.progress.lookup(a, b)
                    == old(self).info(title_id@).progress.lookup(a, b),
    {
        proof {
            lemma_title_pos(self.data@, title_id@);
        }
        let i = match self.find(title_id) {
            Some(i) => i,
            None => {
                self.data.push((text_of(title_id), TitleInfo::new()));
                proof {
                    assert(self.data@.drop_last() == old(self).data@);
                }
                self.data.len() - 1
            },
        };
        let ghost s = self.data@;
        let (k, mut info) = self.data.remove(i);
        info.record_page(username, entry_id, page, timestamp);
        self.data.insert(i, (k, info));
        proof {
            assert(self.data@ =~= s.update(i as int, self.data@[i as int]));
            lemma_title_pos_update(s, i as int, self.data@[i as int], title_id@);
        }
        &self.data[i].1
    }

    /// Drop every resident record (before a rescan).
    pub fn clear(&mut self)
        ensures
            final(self).records().len() == 0,
    {
        self.data.clear();
    }

    /// Whether a title's record is resident.
    pub fn contains(&self, title_id: &str) -> (r: bool)
        ensures
            r == self.holds(title_id@),
    {
        self.find(title_id).is_some()
    }

    /// Number of resident records.
    pub fn len(&self) -> (r: usize)
        ensures
            r == self.records().len(),
    {
        self.data.len()
    }

    /// Whether no record is resident.
    pub fn is_empty(&self) -> (r: bool)
        ensures
            r == (self.records().len() == 0),
    {
        self.data.len() == 0
    }
}

} // verus!
