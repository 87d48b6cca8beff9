//! The snapshot cache file: compressed framing of a serialized library
//! snapshot, and the decisions taken when one is loaded. Reading, writing
//! and deleting the file, and (de)serializing the snapshot, happen around
//! these functions.
use std::io::Read;
use std::io::Write;
use vstd::prelude::*;

use crate::error::{Error, Result};
use crate::text::{same_text, text_of};
use crate::title::Title;

verus! {

/// Gzip (default level, zero mtime) of some bytes, or `None` on failure.
pub uninterp spec fn gzip_of(data: Seq<u8>) -> Option<Seq<u8>>;

/// Bytes that a gzip stream decompresses to, or `None` where it is not one.
pub uninterp spec fn gunzip_of(data: Seq<u8>) -> Option<Seq<u8>>;

/// Relies on `flate2::write::GzEncoder` (write all, then finish): the
/// compressed stream, or `None` on an encoder error.
#[verifier::external_body]
fn gzip(data: &Vec<u8>) -> (r: Option<Vec<u8>>)
    ensures
        r.is_some() == gzip_of(data@).is_some(),
        r matches Some(b) ==> gzip_of(data@) == Some(b@),
{
    let mut e = flate2::write::GzEncoder::new(Vec::new(), flate2::Compression::default());
    match e.write_all(data) {
        Ok(()) => e.finish().ok(),
        Err(_) => None,
    }
}

/// Relies on `flate2::read::GzDecoder` (read to end): the decompressed
/// bytes, or `None` where reading fails (the input is not gzip data).
#[verifier::external_body]
fn gunzip(data: &Vec<u8>) -> (r: Option<Vec<u8>>)
    ensures
        r.is_some() == gunzip_of(data@).is_some(),
        r matches Some(b) ==> gunzip_of(data@) == Some(b@),
{
    let mut out = Vec::new();
    match flate2::read::GzDecoder::new(&data[..]).read_to_end(&mut out) {
        Ok(_) => Some(out),
        Err(_) => None,
    }
}

/// Where the snapshot file lives.
#[derive(Debug, Clone)]
pub struct CacheFileManager {
    cache_path: String,
}

/// What is known of the snapshot file on disk.
#[derive(Debug, Clone)]
pub struct CacheFileMetadata {
    pub path: String,
    pub size_bytes: u64,
    /// Seconds since the epoch.
    pub modified: i64,
    pub valid: bool,
}

/// A persisted snapshot: the library root and its titles.
#[derive(Debug)]
pub struct CachedLibraryData {
    pub path: String,
    pub titles: Vec<Title>,
}

/// What to do after a load attempt.
#[derive(Debug, Clone, Copy, PartialEq, Eq, Structural)]
pub enum LoadAction {
    /// Use the loaded snapshot.
    Keep,
    /// Return no snapshot and delete the file: it is corrupt or stale.
    Discard,
}

/// The decision for a file that was read: a snapshot that did not decode
/// (decompression or deserialization failed) or whose root path differs
/// from the expected one is discarded; otherwise it is kept.
pub open spec fn load_action(decoded_root: Option<Seq<char>>, expected_root: Seq<char>) -> LoadAction {
    match decoded_root {
        None => LoadAction::Discard,
        Some(root) => if root == expected_root {
            LoadAction::Keep
        } else {
            LoadAction::Discard
        },
    }
}

/// `path` with its file extension replaced by `tmp` (or `.tmp` added).
pub open spec fn temp_path_of(path: Seq<char>) -> Seq<char> {
    let dot = last_dot(path, path.len() as int);
    if dot > 0 && path[dot - 1] != '/' {
        path.subrange(0, dot + 1) + "tmp"@
    } else {
        path + ".tmp"@
    }
}

/// Position of the last `.` before `end` in the last path component, or -1.
pub open spec fn last_dot(path: Seq<char>, end: int) -> int
    decreases end,
{
    if end <= 0 || end > path.len() {
        -1
    } else if path[end - 1] == '/' {
        -1
    } else if path[end - 1] == '.' {
        end - 1
    } else {
        last_dot(path, end - 1)
    }
}

impl CacheFileManager {
    pub closed spec fn path_view(&self) -> Seq<char> {
        self.cache_path@
    }

    pub fn new(cache_path: String) -> (r: Self)
        ensures
            r.path_view() == cache_path@,
    {
        CacheFileManager { cache_path }
    }

    /// The snapshot file's path.
    pub fn path(&self) -> (r: &str)
        ensures
            r@ == self.path_view(),
    {
        self.cache_path.as_str()
    }

    /// The temporary file written first and then renamed over the target,
    /// so that the target never holds a partial write.
    pub fn temp_path(&self) -> (r: String)
        ensures
            r@ == temp_path_of(self.path_view()),
    {
        proof {
            reveal_strlit("tmp");
            reveal_strlit(".tmp");
        }
        let p = self.cache_path.as_str();
        let n = p.unicode_len();
        let mut end: usize = n;
        while end > 0 && p.get_char(end - 1) != '/' && p.get_char(end - 1) != '.'
            invariant
                end <= n,
                n == p@.len(),
                last_dot(p@, n as int) == last_dot(p@, end as int),
            decreases end,
        {
            end = end - 1;
        }
        if end > 0 && p.get_char(end - 1) == '.' && end - 1 > 0 && p.get_char(end - 2) != '/' {
            let mut out = text_of(p.substring_char(0, end));
            out.append("tmp");
            out
        } else {
            let mut out = text_of(p);
            out.append(".tmp");
            out
        }
    }

    /// Frame serialized snapshot bytes for the file: gzip-compressed.
    pub fn pack(&self, serialized: &Vec<u8>) -> (r: Result<Vec<u8>>)
        ensures
            r is Ok <==> gzip_of(serialized@) is Some,
            r matches Ok(b) ==> gzip_of(serialized@) == Some(b@),
            r matches Err(e) ==> e is CacheSerialization,
    {
        match gzip(serialized) {
            Some(b) => Ok(b),
            None => Err(Error::CacheSerialization(text_of("gzip compression failed"))),
        }
    }

    /// Unframe the file's bytes; `None` where they are not a gzip stream.
    pub fn unpack(&self, compressed: &Vec<u8>) -> (r: Option<Vec<u8>>)
        ensures
            r.is_some() == gunzip_of(compressed@).is_some(),
            r matches Some(b) ==> gunzip_of(compressed@) == Some(b@),
    {
        gunzip(compressed)
    }

    /// Decide what a load returns: `decoded` is the snapshot that
    /// decompression and deserialization gave, if any.
    pub fn load_decision(&self, decoded: Option<&CachedLibraryData>, expected_dir: &str) -> (r:
        LoadAction)
        ensures
            r == load_action(
                match decoded {
                    Some(d) => Some(d.path@),
                    None => None,
                },
                expected_dir@,
            ),
    {
        match decoded {
            None => LoadAction::Discard,
            Some(d) => if same_text(d.path.as_str(), expected_dir) {
                LoadAction::Keep
            } else {
                LoadAction::Discard
            },
        }
    }

    /// Check a loaded snapshot against the live title count.
    pub fn validate(&self, cached: Option<&CachedLibraryData>, db_title_count: usize) -> (r: Result<()>)
        ensures
            r is Ok <==> (cached matches Some(d) && d.titles@.len() == db_title_count),
            r matches Err(e) ==> e is CacheCorrupted,
    {
        match cached {
            None => Err(Error::CacheCorrupted(text_of("Cache file does not exist or is invalid"))),
            Some(d) => if d.titles.len() != db_title_count {
                Err(Error::CacheCorrupted(text_of("Title count mismatch")))
            } else {
                Ok(())
            },
        }
    }

    /// Metadata of a missing file.
    pub fn missing_metadata(&self, now: i64) -> (r: CacheFileMetadata)
        ensures
            r.path@ == self.path_view(),
            r.size_bytes == 0,
            r.modified == now,
            !r.valid,
    {
        CacheFileMetadata { path: self.cache_path.clone(), size_bytes: 0, modified: now, valid: false }
    }

    /// Metadata of an existing file.
    pub fn present_metadata(&self, size_bytes: u64, modified: i64) -> (r: CacheFileMetadata)
        ensures
            r.path@ == self.path_view(),
            r.size_bytes == size_bytes,
            r.modified == modified,
            r.valid,
    {
        CacheFileMetadata { path: self.cache_path.clone(), size_bytes, modified, valid: true }
    }
}

/// Snapshot round trip: a snapshot saved for a root and loaded back for the
/// same root is kept.
pub proof fn lemma_load_same_root_keeps(root: Seq<char>)
    ensures
        load_action(Some(root), root) == LoadAction::Keep,
{
}

/// Directory-mismatch invalidation: a snapshot saved for one root and
/// loaded for another is not returned, and the file is deleted.
pub proof fn lemma_load_other_root_discards(saved_root: Seq<char>, other_root: Seq<char>)
    requires
        saved_root != other_root,
    ensures
        load_action(Some(saved_root), other_root) == LoadAction::Discard,
{
}

/// Corrupt-file self-heal: bytes that do not decompress, or decompress to
/// something that does not deserialize, give no snapshot, and the file is
/// deleted, whatever root was expected.
pub proof fn lemma_corrupt_file_discards(garbage: Seq<u8>, expected_root: Seq<char>)
    ensures
        gunzip_of(garbage) is None ==> load_action(None, expected_root) == LoadAction::Discard,
        load_action(None, expected_root) == LoadAction::Discard,
{
}

} // verus!
