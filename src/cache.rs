//! The cache facade: the eviction cache for sorted listings, the snapshot
//! file manager, and the enable switch in front of both.
use vstd::prelude::*;

use crate::config::Config;
use crate::key::texts;
use crate::lru::{without_prefix, CacheEntryInfo, CacheStats, LruCache};
use crate::snapshot_file::{CacheFileManager, CachedLibraryData};
use crate::text::text_of;

verus! {

/// Two-tier cache: in-memory listings and the persisted snapshot.
pub struct Cache {
    lru_cache: LruCache,
    file_manager: CacheFileManager,
    enabled: bool,
}

/// Bytes in a mebibyte.
pub const MIB: usize = 1048576;

/// The byte budget for a size in mebibytes, held at `usize::MAX`.
pub open spec fn budget_of(mbs: usize) -> nat {
    if mbs * MIB <= usize::MAX {
        (mbs * MIB) as nat
    } else {
        usize::MAX as nat
    }
}

impl Cache {
    pub closed spec fn lru(&self) -> LruCache {
        self.lru_cache
    }

    pub closed spec fn is_enabled(&self) -> bool {
        self.enabled
    }

    pub closed spec fn files(&self) -> CacheFileManager {
        self.file_manager
    }

    pub closed spec fn wf(&self) -> bool {
        self.lru_cache.wf()
    }

    /// Create the cache from configuration.
    pub fn new(config: &Config) -> (r: Self)
        ensures
            r.wf(),
            r.lru().limit() == budget_of(config.cache_size_mbs),
            r.lru().entries_view().len() == 0,
            r.lru().hits() == 0 && r.lru().misses() == 0 && r.lru().evictions() == 0,
            r.is_enabled() == config.cache_enabled,
            r.files().path_view() == config.library_cache_path@,
    {
        let size_bytes = if config.cache_size_mbs <= usize::MAX / MIB {
            config.cache_size_mbs * MIB
        } else {
            usize::MAX
        };
        assert(size_bytes == budget_of(config.cache_size_mbs)) by (nonlinear_arith)
            requires
                size_bytes == (if config.cache_size_mbs <= usize::MAX / MIB {
                    config.cache_size_mbs * MIB
                } else {
                    usize::MAX as int
                }),
                MIB == 1048576,
        ;
        Cache {
            lru_cache: LruCache::new(size_bytes, config.cache_log_enabled),
            file_manager: CacheFileManager::new(config.library_cache_path.clone()),
            enabled: config.cache_enabled,
        }
    }

    fn get_ids(&mut self, key: &str) -> (r: Option<Vec<String>>)
        requires
            old(self).wf(),
        ensures
            final(self).wf(),
            final(self).is_enabled() == old(self).is_enabled(),
            final(self).files() == old(self).files(),
            !old(self).is_enabled() ==> r is None && final(self).lru() == old(self).lru(),
            final(self).lru().limit() == old(self).lru().limit(),
            old(self).is_enabled() && !old(self).lru().has_key(key@) ==> r is None
                && final(self).lru().misses() == crate::lru::bump(old(self).lru().misses())
                && final(self).lru().entries_view() == old(self).lru().entries_view(),
            old(self).is_enabled() && old(self).lru().has_key(key@) ==> {
                &&& final(self).lru().hits() == crate::lru::bump(old(self).lru().hits())
                &&& r is Some == crate::codec::texts_of_msgpack(old(self).lru().bytes_at(key@)) is Some
                &&& r matches Some(v) ==> crate::codec::texts_of_msgpack(
                    old(self).lru().bytes_at(key@),
                ) == Some(texts(v@))
            },
    {
        if !self.enabled {
            return None;
        }
        self.lru_cache.get(key)
    }

    fn set_ids(&mut self, key: String, ids: Vec<String>)
        requires
            old(self).wf(),
        ensures
            final(self).wf(),
            final(self).is_enabled() == old(self).is_enabled(),
            final(self).files() == old(self).files(),
            !old(self).is_enabled() ==> final(self).lru() == old(self).lru(),
            old(self).is_enabled() ==> match crate::codec::msgpack_of_texts(texts(ids@)) {
                Some(b) => b.len() <= old(self).lru().limit() ==> {
                    &&& final(self).lru().has_key(key@)
                    &&& final(self).lru().bytes_at(key@) == b
                },
                None => final(self).lru() == old(self).lru(),
            },
    {
        if !self.enabled {
            return;
        }
        self.lru_cache.set(key, ids);
    }

    /// Cached sorted title ids, if present and enabled.
    pub fn get_sorted_titles(&mut self, key: &str) -> (r: Option<Vec<String>>)
        requires
            old(self).wf(),
        ensures
            final(self).wf(),
            final(self).is_enabled() == old(self).is_enabled(),
            final(self).files() == old(self).files(),
            !old(self).is_enabled() ==> r is None && final(self).lru() == old(self).lru(),
            final(self).lru().limit() == old(self).lru().limit(),
            old(self).is_enabled() && !old(self).lru().has_key(key@) ==> r is None
                && final(self).lru().entries_view() == old(self).lru().entries_view(),
            old(self).is_enabled() && old(self).lru().has_key(key@) ==> match r {
                Some(v) => crate::codec::texts_of_msgpack(old(self).lru().bytes_at(key@)) == Some(
                    texts(v@),
                ),
                None => crate::codec::texts_of_msgpack(old(self).lru().bytes_at(key@)) is None,
            },
    {
        self.get_ids(key)
    }

    /// Cache sorted title ids (nothing happens when disabled).
    pub fn set_sorted_titles(&mut self, key: String, title_ids: Vec<String>)
        requires
            old(self).wf(),
        ensures
            final(self).files() == old(self).files(),
            final(self).wf(),
            final(self).is_enabled() == old(self).is_enabled(),
            !old(self).is_enabled() ==> final(self).lru() == old(self).lru(),
            old(self).is_enabled() ==> match crate::codec::msgpack_of_texts(texts(title_ids@)) {
                Some(b) => b.len() <= old(self).lru().limit() ==> {
                    &&& final(self).lru().has_key(key@)
                    &&& final(self).lru().bytes_at(key@) == b
                },
                None => final(self).lru() == old(self).lru(),
            },
    {
        self.set_ids(key, title_ids)
    }

    /// Cached sorted entry ids, if present and enabled.
    pub fn get_sorted_entries(&mut self, key: &str) -> (r: Option<Vec<String>>)
        requires
            old(self).wf(),
        ensures
            final(self).wf(),
            final(self).is_enabled() == old(self).is_enabled(),
            final(self).files() == old(self).files(),
            !old(self).is_enabled() ==> r is None && final(self).lru() == old(self).lru(),
            final(self).lru().limit() == old(self).lru().limit(),
            old(self).is_enabled() && !old(self).lru().has_key(key@) ==> r is None
                && final(self).lru().entries_view() == old(self).lru().entries_view(),
            old(self).is_enabled() && old(self).lru().has_key(key@) ==> match r {
                Some(v) => crate::codec::texts_of_msgpack(old(self).lru().bytes_at(key@)) == Some(
                    texts(v@),
                ),
                None => crate::codec::texts_of_msgpack(old(self).lru().bytes_at(key@)) is None,
            },
    {
        self.get_ids(key)
    }

    /// Cache sorted entry ids (nothing happens when disabled).
    pub fn set_sorted_entries(&mut self, key: String, entry_ids: Vec<String>)
        requires
            old(self).wf(),
        ensures
            final(self).files() == old(self).files(),
            final(self).wf(),
            final(self).is_enabled() == old(self).is_enabled(),
            !old(self).is_enabled() ==> final(self).lru() == old(self).lru(),
            old(self).is_enabled() ==> match crate::codec::msgpack_of_texts(texts(entry_ids@)) {
                Some(b) => b.len() <= old(self).lru().limit() ==> {
                    &&& final(self).lru().has_key(key@)
                    &&& final(self).lru().bytes_at(key@) == b
                },
                None => final(self).lru() == old(self).lru(),
            },
    {
        self.set_ids(key, entry_ids)
    }

    /// Drop the listings that depend on a user's progress in a title: the
    /// user's sorted titles, the user's sorted entries of the title, and the
    /// user's progress sums of the title.
    pub fn invalidate_progress(&mut self, title_id: &str, username: &str)
        requires
            old(self).wf(),
        ensures
            final(self).files() == old(self).files(),
            final(self).lru().hits() == old(self).lru().hits(),
            final(self).lru().misses() == old(self).lru().misses(),
            final(self).lru().evictions() == old(self).lru().evictions(),
            final(self).lru().limit() == old(self).lru().limit(),
            final(self).wf(),
            final(self).is_enabled() == old(self).is_enabled(),
            !old(self).is_enabled() ==> final(self).lru() == old(self).lru(),
            old(self).is_enabled() ==> final(self).lru().entries_view() == without_prefix(
                without_prefix(
                    without_prefix(
                        old(self).lru().entries_view(),
                        "sorted_titles:"@ + username@ + ":"@,
                    ),
                    "sorted_entries:"@ + title_id@ + ":"@ + username@ + ":"@,
                ),
                "progress_sum:"@ + title_id@ + ":"@ + username@ + ":"@,
            ),
    {
        if !self.enabled {
            return;
        }
        let mut prefix = text_of("sorted_titles:");
        prefix.append(username);
        prefix.append(":");
        self.lru_cache.invalidate_by_prefix(prefix.as_str());
        let mut entry_prefix = text_of("sorted_entries:");
        entry_prefix.append(title_id);
        entry_prefix.append(":");
        entry_prefix.append(username);
        entry_prefix.append(":");
        self.lru_cache.invalidate_by_prefix(entry_prefix.as_str());
        let mut progress_prefix = text_of("progress_sum:");
        progress_prefix.append(title_id);
        progress_prefix.append(":");
        progress_prefix.append(username);
        progress_prefix.append(":");
        self.lru_cache.invalidate_by_prefix(progress_prefix.as_str());
    }

    /// Drop every user's sorted entries and progress sums of a title.
    pub fn invalidate_sorted_for_title(&mut self, title_id: &str)
        requires
            old(self).wf(),
        ensures
            final(self).files() == old(self).files(),
            final(self).lru().hits() == old(self).lru().hits(),
            final(self).lru().misses() == old(self).lru().misses(),
            final(self).lru().evictions() == old(self).lru().evictions(),
            final(self).lru().limit() == old(self).lru().limit(),
            final(self).wf(),
            final(self).is_enabled() == old(self).is_enabled(),
            !old(self).is_enabled() ==> final(self).lru() == old(self).lru(),
            old(self).is_enabled() ==> final(self).lru().entries_view() == without_prefix(
                without_prefix(old(self).lru().entries_view(), "sorted_entries:"@ + title_id@ + ":"@),
                "progress_sum:"@ + title_id@ + ":"@,
            ),
    {
        if !self.enabled {
            return;
        }
        let mut prefix = text_of("sorted_entries:");
        prefix.append(title_id);
        prefix.append(":");
        self.lru_cache.invalidate_by_prefix(prefix.as_str());
        let mut progress_prefix = text_of("progress_sum:");
        progress_prefix.append(title_id);
        progress_prefix.append(":");
        self.lru_cache.invalidate_by_prefix(progress_prefix.as_str());
    }

    /// Drop every entry whose key starts with `prefix`.
    pub fn invalidate_by_prefix(&mut self, prefix: &str)
        requires
            old(self).wf(),
        ensures
            final(self).files() == old(self).files(),
            final(self).lru().hits() == old(self).lru().hits(),
            final(self).lru().misses() == old(self).lru().misses(),
            final(self).lru().evictions() == old(self).lru().evictions(),
            final(self).lru().limit() == old(self).lru().limit(),
            final(self).wf(),
            final(self).is_enabled() == old(self).is_enabled(),
            final(self).lru().entries_view() == without_prefix(old(self).lru().entries_view(), prefix@),
    {
        self.lru_cache.invalidate_by_prefix(prefix)
    }

    /// A handle on the snapshot file, for background saves.
    pub fn file_manager(&self) -> (r: CacheFileManager)
        ensures
            r.path_view() == self.files().path_view(),
    {
        CacheFileManager::new(text_of(self.file_manager.path()))
    }

    /// Whether a snapshot loaded from the file may be used: the cache must
    /// be enabled and the snapshot must hold as many titles as the identity
    /// store counts as available. Where this returns `false` for a present
    /// snapshot while enabled, the file is to be deleted.
    pub fn accepts_loaded(&self, loaded: &CachedLibraryData, db_title_count: usize) -> (r: bool)
        ensures
            r == (self.is_enabled() && loaded.titles@.len() == db_title_count),
    {
        self.enabled && loaded.titles.len() == db_title_count
    }

    /// Whether snapshots are read and written at all.
    pub fn enabled(&self) -> (r: bool)
        ensures
            r == self.is_enabled(),
    {
        self.enabled
    }

    /// Statistics of the eviction cache.
    pub fn stats(&self) -> (r: CacheStats)
        requires
            self.wf(),
        ensures
            r.size_bytes == self.lru().size(),
            r.size_limit == self.lru().limit(),
            r.entry_count == self.lru().entries_view().len(),
            r.hit_count == self.lru().hits(),
            r.miss_count == self.lru().misses(),
            r.eviction_count == self.lru().evictions(),
    {
        self.lru_cache.stats()
    }

    /// The eviction cache's entries, for the debug page.
    pub fn entries(&self) -> (r: Vec<CacheEntryInfo>)
        requires
            self.wf(),
        ensures
            r@.len() == self.lru().entries_view().len(),
            forall|j: int|
                0 <= j < r@.len() ==> {
                    let e = #[trigger] self.lru().entries_view()[j];
                    &&& r@[j].key == e.key
                    &&& r@[j].size_bytes == e.size_bytes
                    &&& r@[j].access_count == e.access_count
                    &&& r@[j].last_access == e.access_time
                    &&& r@[j].created_at == e.created_at
                },
    {
        self.lru_cache.entries()
    }

    /// Remove every cached listing (nothing happens when disabled).
    pub fn clear(&mut self)
        requires
            old(self).wf(),
        ensures
            final(self).files() == old(self).files(),
            final(self).lru().hits() == old(self).lru().hits(),
            final(self).lru().misses() == old(self).lru().misses(),
            final(self).lru().evictions() == old(self).lru().evictions(),
            final(self).lru().limit() == old(self).lru().limit(),
            final(self).wf(),
            final(self).is_enabled() == old(self).is_enabled(),
            !old(self).is_enabled() ==> final(self).lru() == old(self).lru(),
            old(self).is_enabled() ==> final(self).lru().entries_view().len() == 0
                && final(self).lru().size() == 0,
    {
        if !self.enabled {
            return;
        }
        self.lru_cache.clear();
    }

    /// Remove one cached listing (nothing happens when disabled).
    pub fn invalidate(&mut self, key: &str)
        requires
            old(self).wf(),
        ensures
            final(self).files() == old(self).files(),
            final(self).lru().hits() == old(self).lru().hits(),
            final(self).lru().misses() == old(self).lru().misses(),
            final(self).lru().evictions() == old(self).lru().evictions(),
            final(self).lru().limit() == old(self).lru().limit(),
            final(self).wf(),
            final(self).is_enabled() == old(self).is_enabled(),
            !old(self).is_enabled() ==> final(self).lru() == old(self).lru(),
            old(self).is_enabled() ==> !final(self).lru().has_key(key@),
            old(self).is_enabled() ==> final(self).lru().entries_view() == crate::lru::without_key(
                old(self).lru().entries_view(),
                key@,
            ),
            old(self).is_enabled() && old(self).lru().has_key(key@) ==> final(self).lru().size()
                + old(self).lru().entries_view()[crate::lru::key_pos(
                old(self).lru().entries_view(),
                key@,
            )].size_bytes == old(self).lru().size(),
            old(self).is_enabled() && !old(self).lru().has_key(key@) ==> final(self).lru().size()
                == old(self).lru().size(),
    {
        if !self.enabled {
            return;
        }
        self.lru_cache.invalidate(key);
    }
}

} // verus!
