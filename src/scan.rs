//! One scan pass, past the filesystem: what was found under the library
//! root comes in as plain values; titles and entries come out with their
//! stable ids resolved, new identities persisted in one pass per kind, and
//! availability reconciled.
use sha1::Digest;
use vstd::prelude::*;

use crate::entry::{image_list, Entry};
use crate::identity::{after_resolve, path_pos, resolved_id, EntityKind, IdentityStore, NewIdentity};
use crate::sorting::{ascending, sort_ascending, sort_by_name};
use crate::text::{push_hex, text_of, text_starts_with};
use crate::title::Title;

verus! {

/// CRC-32 (IEEE) of some bytes.
pub uninterp spec fn crc32_of(data: Seq<u8>) -> u32;

/// SHA-1 of the UTF-8 encoding of a text.
pub uninterp spec fn sha1_of_text(text: Seq<char>) -> Seq<u8>;

/// Relies on `crc32fast::hash`: the CRC-32 of the bytes.
#[verifier::external_body]
fn crc32(data: &Vec<u8>) -> (r: u32)
    ensures
        r == crc32_of(data@),
{
    crc32fast::hash(data)
}

/// Relies on `sha1::Sha1::digest`: 20 bytes, a function of the text.
#[verifier::external_body]
fn sha1_text(text: &str) -> (r: Vec<u8>)
    ensures
        r@ == sha1_of_text(text@),
        r@.len() == 20,
{
    sha1::Sha1::digest(text.as_bytes()).to_vec()
}

/// Relies on `uuid::Uuid::new_v4`: a random id in hyphenated form. Nothing
/// is promised of its value.
#[verifier::external_body]
fn new_id() -> (r: String) {
    uuid::Uuid::new_v4().to_string()
}

/// The `n` low bytes of `x`, least significant first.
pub open spec fn le_bytes(x: nat, n: nat) -> Seq<u8>
    decreases n,
{
    if n == 0 {
        Seq::empty()
    } else {
        seq![(x % 256) as u8] + le_bytes(x / 256, (n - 1) as nat)
    }
}

/// The little-endian bytes of each value, one after the other.
pub open spec fn concat_le(s: Seq<u64>) -> Seq<u8>
    decreases s.len(),
{
    if s.len() == 0 {
        Seq::empty()
    } else {
        concat_le(s.drop_last()) + le_bytes(s.last() as nat, 8)
    }
}

/// The texts one after the other.
pub open spec fn concat_texts(s: Seq<String>) -> Seq<char>
    decreases s.len(),
{
    if s.len() == 0 {
        Seq::empty()
    } else {
        concat_texts(s.drop_last()) + s.last()@
    }
}

/// A directory signature: CRC-32 of the sorted content signatures.
pub open spec fn dir_signature_of(sorted: Seq<u64>) -> u64 {
    crc32_of(concat_le(sorted)) as u64
}

/// A contents signature: hex SHA-1 of the sorted file names, concatenated.
pub open spec fn contents_signature_of(sorted: Seq<String>) -> Seq<char> {
    crate::text::hex_of(sha1_of_text(concat_texts(sorted)))
}

fn push_le(out: &mut Vec<u8>, x: u64)
    ensures
        final(out)@ == old(out)@ + le_bytes(x as nat, 8),
{
    let mut v = x;
    let mut k: usize = 0;
    while k < 8
        invariant
            k <= 8,
            old(out)@ + le_bytes(x as nat, 8) == out@ + le_bytes(v as nat, (8 - k) as nat),
        decreases 8 - k,
    {
        let ghost before = out@;
        out.push((v % 256) as u8);
        proof {
            assert(le_bytes(v as nat, (8 - k) as nat) == seq![(v % 256) as u8] + le_bytes(
                (v / 256) as nat,
                (8 - k - 1) as nat,
            ));
            assert(out@ + le_bytes((v / 256) as nat, (8 - k - 1) as nat) =~= before + le_bytes(
                v as nat,
                (8 - k) as nat,
            ));
        }
        v = v / 256;
        k = k + 1;
    }
    assert(le_bytes(v as nat, 0) =~= Seq::<u8>::empty());
    assert(out@ =~= out@ + le_bytes(v as nat, 0));
}

/// Signature of a directory from its entries' content signatures, in any
/// order: CRC-32 of the signatures sorted, each as 8 little-endian bytes.
pub fn dir_signature(signatures: Vec<u64>) -> (r: u64)
    ensures
        exists|sorted: Seq<u64>|
            sorted.to_multiset() == signatures@.to_multiset() && ascending(sorted) && r
                == dir_signature_of(sorted),
{
    let mut sigs = signatures;
    sort_ascending(&mut sigs);
    let mut bytes: Vec<u8> = Vec::new();
    let n = sigs.len();
    let mut i: usize = 0;
    while i < n
        invariant
            n == sigs@.len(),
            i <= n,
            bytes@ == concat_le(sigs@.subrange(0, i as int)),
        decreases n - i,
    {
        push_le(&mut bytes, sigs[i]);
        assert(sigs@.subrange(0, i as int + 1).drop_last() =~= sigs@.subrange(0, i as int));
        i = i + 1;
    }
    assert(sigs@.subrange(0, n as int) =~= sigs@);
    crc32(&bytes) as u64
}

/// Signature of a directory's contents from its archive file names, in any
/// order: hex SHA-1 of the names sorted and concatenated.
pub fn contents_signature(names: Vec<String>) -> (r: String)
    ensures
        exists|sorted: Seq<String>|
            sorted.to_multiset() == names@.to_multiset() && ascending(sorted) && r@
                == contents_signature_of(sorted),
{
    let mut sorted = names;
    sort_ascending(&mut sorted);
    let mut text = String::new();
    let n = sorted.len();
    let mut i: usize = 0;
    while i < n
        invariant
            n == sorted@.len(),
            i <= n,
            text@ == concat_texts(sorted@.subrange(0, i as int)),
        decreases n - i,
    {
        text.append(sorted[i].as_str());
        assert(sorted@.subrange(0, i as int + 1).drop_last() =~= sorted@.subrange(0, i as int));
        i = i + 1;
    }
    assert(sorted@.subrange(0, n as int) =~= sorted@);
    let digest = sha1_text(text.as_str());
    let mut out = String::new();
    push_hex(&mut out, &digest);
    assert(out@ =~= Seq::<char>::empty() + crate::text::hex_of(digest@));
    out
}

/// The signature of a file from its path and size: CRC-32 of the path's
/// UTF-8 bytes followed by the size as 8 little-endian bytes. It stands in
/// for an inode where the platform has none.
pub open spec fn path_size_signature_of(path: Seq<char>, size: u64) -> u64 {
    crc32_of(vstd::utf8::encode_utf8(path) + le_bytes(size as nat, 8)) as u64
}

/// Signature of a file from its path and size.
pub fn path_size_signature(path: &str, size: u64) -> (r: u64)
    ensures
        r == path_size_signature_of(path@, size),
{
    let mut bytes = path.as_bytes_vec();
    push_le(&mut bytes, size);
    crc32(&bytes) as u64
}

/// `path` relative to `root`, where `root` is a whole-component prefix.
pub open spec fn relative_of(path: Seq<char>, root: Seq<char>) -> Option<Seq<char>> {
    if root.len() <= path.len() && path.subrange(0, root.len() as int) == root {
        let rest = path.subrange(root.len() as int, path.len() as int);
        if rest.len() == 0 {
            Some(rest)
        } else if root.len() > 0 && root.last() == '/' {
            Some(rest)
        } else if rest[0] == '/' {
            Some(rest.drop_first())
        } else {
            None
        }
    } else {
        None
    }
}

/// `path` relative to the library root; `None` where it lies outside.
pub fn relative_path(path: &str, root: &str) -> (r: Option<String>)
    ensures
        match r {
            Some(s) => relative_of(path@, root@) == Some(s@),
            None => relative_of(path@, root@) is None,
        },
{
    if !text_starts_with(path, root) {
        return None;
    }
    let n = path.unicode_len();
    let m = root.unicode_len();
    let rest = path.substring_char(m, n);
    if rest.unicode_len() == 0 {
        Some(text_of(rest))
    } else if m > 0 && root.get_char(m - 1) == '/' {
        Some(text_of(rest))
    } else if rest.get_char(0) == '/' {
        let k = rest.unicode_len();
        let tail = rest.substring_char(1, k);
        assert(tail@ =~= rest@.drop_first());
        Some(text_of(tail))
    } else {
        None
    }
}

/// An archive found in a title directory.
#[derive(Debug, Clone)]
pub struct ItemScan {
    /// Path of the archive.
    pub path: String,
    /// File name of the archive.
    pub file_name: String,
    /// Display name (file name without extension).
    pub name: String,
    /// Content signature.
    pub signature: u64,
    /// Modification time, seconds since the epoch.
    pub mtime: i64,
    /// Names of the files inside the archive.
    pub archive_names: Vec<String>,
}

/// A title directory found under the root, with its archives.
#[derive(Debug, Clone)]
pub struct ContainerScan {
    pub path: String,
    pub name: String,
    pub items: Vec<ItemScan>,
}

/// What a scan pass produced.
#[derive(Debug)]
pub struct ScanOutcome {
    pub titles: Vec<Title>,
    pub new_titles: usize,
    pub new_entries: usize,
    pub missing_titles: Vec<String>,
    pub restored_titles: Vec<String>,
    pub missing_entries: Vec<String>,
    pub restored_entries: Vec<String>,
}

/// The id a scan gives to something at `path` of `kind`: its resolved id
/// where one was resolved, anything else otherwise.
pub open spec fn keeps_id(s: Seq<crate::identity::IdentityRecord>, kind: EntityKind, rel: Option<Seq<char>>, id: Seq<char>) -> bool {
    match rel {
        Some(p) => match resolved_id(s, kind, p) {
            Some(x) => id == x,
            None => true,
        },
        None => false,
    }
}

proof fn lemma_path_pos_update(
    s: Seq<crate::identity::IdentityRecord>,
    p: int,
    e: crate::identity::IdentityRecord,
    kind: EntityKind,
    path: Seq<char>,
)
    requires
        0 <= p < s.len(),
        e.kind == s[p].kind,
        e.path == s[p].path,
    ensures
        path_pos(s.update(p, e), kind, path) == path_pos(s, kind, path),
    decreases s.len(),
{
    if p == s.len() - 1 {
        assert(s.update(p, e).drop_last() =~= s.drop_last());
    } else {
        lemma_path_pos_update(s.drop_last(), p, e, kind, path);
        assert(s.update(p, e).drop_last() =~= s.drop_last().update(p, e));
    }
}

/// Resolving never changes which id any (kind, path) resolves to.
proof fn lemma_resolve_keeps_ids(
    s: Seq<crate::identity::IdentityRecord>,
    kind: EntityKind,
    path: Seq<char>,
    sig: u64,
    other_kind: EntityKind,
    other_path: Seq<char>,
)
    ensures
        resolved_id(after_resolve(s, kind, path, sig), other_kind, other_path) == resolved_id(s, other_kind, other_path),
{
    let p = path_pos(s, kind, path);
    if p >= 0 {
        crate::identity::lemma_path_pos(s, kind, path);
        let r = s[p];
        let e = crate::identity::IdentityRecord { signature: sig, ..r };
        lemma_path_pos_update(s, p, e, other_kind, other_path);
        crate::identity::lemma_path_pos(s, other_kind, other_path);
    }
}

/// Build the entry of an archive with its id.
fn build_entry(item: ItemScan, id: String) -> (r: Entry)
    ensures
        crate::entry::images_from(r.image_files@, item.archive_names@),
        r.id == id,
        r.path == item.path,
        r.title == item.name,
        r.signature == item.signature,
        r.mtime == item.mtime,
        r.pages == r.image_files@.len(),
{
    let images = image_list(item.archive_names);
    let pages = images.len();
    Entry {
        id,
        path: item.path,
        title: item.name,
        signature: item.signature,
        mtime: item.mtime,
        pages,
        image_files: images,
    }
}

/// Relative paths of all items; `None` where one lies outside the root.
fn item_paths(items: &Vec<ItemScan>, root: &str) -> (r: Option<Vec<String>>)
    ensures
        r matches Some(v) ==> v@.len() == items@.len() && forall|j: int|
            0 <= j < v@.len() ==> relative_of(items@[j].path@, root@) == Some(#[trigger] v@[j]@),
        r is None ==> exists|j: int| 0 <= j < items@.len() && relative_of((#[trigger] items@[j]).path@, root@) is None,
{
    let mut out: Vec<String> = Vec::new();
    let n = items.len();
    let mut i: usize = 0;
    while i < n
        invariant
            n == items@.len(),
            i <= n,
            out@.len() == i,
            forall|j: int| 0 <= j < i ==> relative_of(items@[j].path@, root@) == Some(#[trigger] out@[j]@),
        decreases n - i,
    {
        match relative_path(items[i].path.as_str(), root) {
            Some(p) => out.push(p),
            None => {
                assert(relative_of(items@[i as int].path@, root@) is None);
                return None;
            },
        }
        i = i + 1;
    }
    Some(out)
}

/// Whether a scanned directory, and every archive in it, lies under the root.
pub open spec fn scan_valid(sc: ContainerScan, root: Seq<char>) -> bool {
    &&& relative_of(sc.path@, root) is Some
    &&& forall|k: int| 0 <= k < sc.items@.len() ==> relative_of((#[trigger] sc.items@[k]).path@, root) is Some
}

/// The scanned directories that become titles, in order.
pub open spec fn valid_scans(s: Seq<ContainerScan>, root: Seq<char>) -> Seq<ContainerScan>
    decreases s.len(),
{
    if s.len() == 0 {
        s
    } else if scan_valid(s.last(), root) {
        valid_scans(s.drop_last(), root).push(s.last())
    } else {
        valid_scans(s.drop_last(), root)
    }
}

/// The latest modification time among the items, 0 for none.
pub open spec fn max_mtime(items: Seq<ItemScan>) -> i64
    decreases items.len(),
{
    if items.len() == 0 {
        0
    } else if items.len() == 1 {
        items[0].mtime
    } else if items.last().mtime > max_mtime(items.drop_last()) {
        items.last().mtime
    } else {
        max_mtime(items.drop_last())
    }
}

/// An entry built from an archive.
pub open spec fn entry_from(e: Entry, it: ItemScan) -> bool {
    &&& e.path == it.path
    &&& e.title == it.name
    &&& e.signature == it.signature
    &&& e.mtime == it.mtime
    &&& crate::entry::images_from(e.image_files@, it.archive_names@)
    &&& e.pages == e.image_files@.len()
}

/// The archives' content signatures, in order.
pub open spec fn item_signatures(items: Seq<ItemScan>) -> Seq<u64> {
    items.map_values(|it: ItemScan| it.signature)
}

/// The archives' file names, in order.
pub open spec fn item_file_names(items: Seq<ItemScan>) -> Seq<String> {
    items.map_values(|it: ItemScan| it.file_name)
}

/// Entries built from the archives, one for one, in order.
pub open spec fn entries_from(u: Seq<Entry>, items: Seq<ItemScan>) -> bool {
    u.len() == items.len() && forall|k: int| 0 <= k < u.len() ==> entry_from(#[trigger] u[k], items[k])
}

/// A title built from a scanned directory: its path and name, the latest
/// modification time of its archives, and one entry per archive, sorted by
/// name.
pub open spec fn title_from(t: Title, sc: ContainerScan) -> bool {
    &&& t.path == sc.path
    &&& t.title == sc.name
    &&& t.mtime == max_mtime(sc.items@)
    &&& t.parent_id is None
    &&& t.nested_titles@.len() == 0
    &&& crate::sorting::sorted_by(t.entries@, true, true)
    &&& exists|u: Seq<Entry>|
        #[trigger] entries_from(u, sc.items@) && u.to_multiset() == t.entries@.to_multiset()
    &&& exists|sorted: Seq<u64>|
        #[trigger] ascending(sorted) && sorted.to_multiset() == item_signatures(sc.items@).to_multiset()
            && t.signature == dir_signature_of(sorted)
    &&& exists|names: Seq<String>|
        #[trigger] ascending(names) && names.to_multiset() == item_file_names(sc.items@).to_multiset()
            && t.contents_signature@ == contents_signature_of(names)
}

/// `path` lies under `root` and resolves there to `id`.
pub open spec fn resolves_to(
    s: Seq<crate::identity::IdentityRecord>,
    kind: EntityKind,
    path: Seq<char>,
    root: Seq<char>,
    id: Seq<char>,
) -> bool {
    match relative_of(path, root) {
        Some(p) => resolved_id(s, kind, p) == Some(id),
        None => false,
    }
}

/// Ids of the titles.
pub open spec fn title_ids(t: Seq<Title>) -> Set<Seq<char>> {
    Set::new(|x: Seq<char>| exists|j: int| 0 <= j < t.len() && (#[trigger] t[j]).id@ == x)
}

/// Ids of the titles' entries.
pub open spec fn entry_ids(t: Seq<Title>) -> Set<Seq<char>> {
    Set::new(
        |x: Seq<char>|
            exists|j: int, k: int|
                0 <= j < t.len() && 0 <= k < t[j].entries@.len() && (#[trigger] t[j].entries@[k]).id@ == x,
    )
}

proof fn lemma_push_resolved(
    s: Seq<crate::identity::IdentityRecord>,
    r: crate::identity::IdentityRecord,
    k: EntityKind,
    p: Seq<char>,
)
    ensures
        resolved_id(s.push(r), k, p) == if r.kind == k && r.path@ == p {
            Some(r.id@)
        } else {
            resolved_id(s, k, p)
        },
{
    let t = s.push(r);
    assert(t.drop_last() =~= s);
    crate::identity::lemma_path_pos(s, k, p);
    if !(r.kind == k && r.path@ == p) && path_pos(s, k, p) >= 0 {
        assert(t[path_pos(s, k, p)] == s[path_pos(s, k, p)]);
    }
}

proof fn lemma_reconciled_resolved(
    s: Seq<crate::identity::IdentityRecord>,
    kind: EntityKind,
    found: Set<Seq<char>>,
    k: EntityKind,
    p: Seq<char>,
)
    ensures
        path_pos(crate::identity::reconciled(s, kind, found), k, p) == path_pos(s, k, p),
        resolved_id(crate::identity::reconciled(s, kind, found), k, p) == resolved_id(s, k, p),
    decreases s.len(),
{
    let t = crate::identity::reconciled(s, kind, found);
    if s.len() > 0 {
        assert(t.drop_last() =~= crate::identity::reconciled(s.drop_last(), kind, found));
        lemma_reconciled_resolved(s.drop_last(), kind, found, k, p);
    }
    crate::identity::lemma_path_pos(s, k, p);
}

/// A fresh id: a random one, or, should that be taken, one longer than
/// every id in the store.
fn mint_id(store: &IdentityStore) -> (r: String)
    ensures
        crate::identity::id_pos(store@, r@) < 0,
{
    proof {
        reveal_strlit("0");
    }
    let id = new_id();
    if !store.contains_id(id.as_str()) {
        return id;
    }
    let longest = store.longest_id_len();
    let mut out = String::new();
    let mut i: usize = 0;
    assert("0"@ =~= seq!['0']);
    while i < longest
        invariant
            out@.len() == i,
            i <= longest,
            "0"@ == seq!['0'],
        decreases longest - i,
    {
        out.append("0");
        i = i + 1;
    }
    out.append("0");
    proof {
        crate::identity::lemma_id_pos(store@, out@);
        if crate::identity::id_pos(store@, out@) >= 0 {
            assert(store@[crate::identity::id_pos(store@, out@)].id@.len() <= longest);
        }
    }
    out
}

/// The ids of the titles and of their entries.
fn collect_ids(titles: &Vec<Title>) -> (r: (Vec<String>, Vec<String>))
    ensures
        crate::identity::id_set(r.0@) == title_ids(titles@),
        crate::identity::id_set(r.1@) == entry_ids(titles@),
{
    let mut tids: Vec<String> = Vec::new();
    let mut eids: Vec<String> = Vec::new();
    let n = titles.len();
    let mut j: usize = 0;
    while j < n
        invariant
            n == titles@.len(),
            j <= n,
            tids@.len() == j,
            forall|a: int| 0 <= a < j ==> (#[trigger] tids@[a])@ == titles@[a].id@,
            forall|x: Seq<char>|
                crate::identity::id_set(eids@).contains(x) <==> exists|a: int, k: int|
                    0 <= a < j && 0 <= k < titles@[a].entries@.len() && (#[trigger] titles@[a].entries@[k]).id@ == x,
        decreases n - j,
    {
        tids.push(titles[j].id.clone());
        let m = titles[j].entries.len();
        let ghost base = eids@;
        let mut k: usize = 0;
        while k < m
            invariant
                n == titles@.len(),
                j < n,
                m == titles@[j as int].entries@.len(),
                k <= m,
                eids@.len() == base.len() + k,
                forall|a: int| 0 <= a < base.len() ==> eids@[a] == base[a],
                forall|a: int| 0 <= a < k ==> (#[trigger] eids@[base.len() + a])@ == titles@[j as int].entries@[a].id@,
            decreases m - k,
        {
            eids.push(titles[j].entries[k].id.clone());
            k = k + 1;
        }
        proof {
            assert forall|x: Seq<char>|
                crate::identity::id_set(eids@).contains(x) <==> exists|a: int, k: int|
                    0 <= a < j + 1 && 0 <= k < titles@[a].entries@.len() && (#[trigger] titles@[a].entries@[k]).id@ == x by {
                if crate::identity::id_set(eids@).contains(x) {
                    let i = choose|i: int| 0 <= i < eids@.len() && #[trigger] eids@[i]@ == x;
                    if i < base.len() {
                        assert(eids@[i] == base[i]);
                        assert(crate::identity::id_set(base).contains(x));
                    } else {
                        let kk = i - base.len();
                        assert(eids@[base.len() + kk]@ == titles@[j as int].entries@[kk].id@);
                    }
                }
                if exists|a: int, k: int|
                    0 <= a < j + 1 && 0 <= k < titles@[a].entries@.len() && (#[trigger] titles@[a].entries@[k]).id@ == x {
                    let (a, kk) = choose|a: int, k: int|
                        0 <= a < j + 1 && 0 <= k < titles@[a].entries@.len() && (#[trigger] titles@[a].entries@[k]).id@ == x;
                    if a < j {
                        assert(crate::identity::id_set(base).contains(x));
                        let i = choose|i: int| 0 <= i < base.len() && #[trigger] base[i]@ == x;
                        assert(eids@[i] == base[i]);
                    } else {
                        assert(eids@[base.len() + kk]@ == x);
                    }
                }
            }
        }
        j = j + 1;
    }
    proof {
        assert forall|x: Seq<char>| crate::identity::id_set(tids@).contains(x) == title_ids(titles@).contains(x) by {
            if crate::identity::id_set(tids@).contains(x) {
                let i = choose|i: int| 0 <= i < tids@.len() && #[trigger] tids@[i]@ == x;
                assert(titles@[i].id@ == x);
            }
            if title_ids(titles@).contains(x) {
                let i = choose|i: int| 0 <= i < titles@.len() && (#[trigger] titles@[i]).id@ == x;
                assert(tids@[i]@ == x);
            }
        }
        assert forall|x: Seq<char>| crate::identity::id_set(eids@).contains(x) == entry_ids(titles@).contains(x) by {}
        assert(crate::identity::id_set(tids@) =~= title_ids(titles@));
        assert(crate::identity::id_set(eids@) =~= entry_ids(titles@));
    }
    (tids, eids)
}

/// Every old record whose signature changed was found: its id is that of
/// a title (or entry) built so far, or of the title or entries in progress.
pub open spec fn sig_changes_found(
    s0: Seq<crate::identity::IdentityRecord>,
    st: Seq<crate::identity::IdentityRecord>,
    titles: Seq<Title>,
    cur_title: Option<Seq<char>>,
    cur_entries: Seq<Entry>,
) -> bool {
    forall|a: int|
        0 <= a < s0.len() && (#[trigger] st[a]).signature != s0[a].signature ==> {
            ||| st[a].kind == EntityKind::Container && (title_ids(titles).contains(st[a].id@) || cur_title
                == Some(st[a].id@))
            ||| st[a].kind == EntityKind::Item && (entry_ids(titles).contains(st[a].id@) || exists|j: int|
                0 <= j < cur_entries.len() && (#[trigger] cur_entries[j]).id@ == st[a].id@)
        }
}

proof fn lemma_resolve_changes(
    before: Seq<crate::identity::IdentityRecord>,
    kind: EntityKind,
    path: Seq<char>,
    sig: u64,
    a: int,
)
    requires
        0 <= a < before.len(),
    ensures
        after_resolve(before, kind, path, sig).len() == before.len(),
        after_resolve(before, kind, path, sig)[a].id == before[a].id,
        after_resolve(before, kind, path, sig)[a].kind == before[a].kind,
        after_resolve(before, kind, path, sig)[a].signature != before[a].signature ==> before[a].kind == kind
            && resolved_id(before, kind, path) == Some(before[a].id@),
{
    crate::identity::lemma_path_pos(before, kind, path);
}

/// Reconcile one scan pass with the identity store. Each scanned directory
/// that lies under the root, with all its archives, becomes a title; the
/// others are omitted. Known paths keep their ids (a touched file keeps its
/// id and gets its new signature); unknown ones get fresh ids, registered at
/// once. Availability is then reconciled with the ids found.
#[verifier::spinoff_prover]
#[verifier::rlimit(100)]
pub fn apply_scan(store: &mut IdentityStore, root: &str, scans: Vec<ContainerScan>) -> (r: ScanOutcome)
    requires
        old(store).wf(),
    ensures
        final(store).wf(),
        r.titles@.len() == valid_scans(scans@, root@).len(),
        forall|j: int|
            0 <= j < r.titles@.len() ==> title_from(#[trigger] r.titles@[j], valid_scans(scans@, root@)[j]),
        forall|j: int|
            0 <= j < r.titles@.len() ==> keeps_id(
                old(store)@,
                EntityKind::Container,
                relative_of((#[trigger] r.titles@[j]).path@, root@),
                r.titles@[j].id@,
            ),
        forall|j: int, k: int|
            0 <= j < r.titles@.len() && 0 <= k < r.titles@[j].entries@.len() ==> keeps_id(
                old(store)@,
                EntityKind::Item,
                relative_of((#[trigger] r.titles@[j].entries@[k]).path@, root@),
                r.titles@[j].entries@[k].id@,
            ),
        forall|j: int|
            0 <= j < r.titles@.len() ==> resolves_to(
                final(store)@,
                EntityKind::Container,
                (#[trigger] r.titles@[j]).path@,
                root@,
                r.titles@[j].id@,
            ),
        forall|j: int, k: int|
            0 <= j < r.titles@.len() && 0 <= k < r.titles@[j].entries@.len() ==> resolves_to(
                final(store)@,
                EntityKind::Item,
                (#[trigger] r.titles@[j].entries@[k]).path@,
                root@,
                r.titles@[j].entries@[k].id@,
            ),
        forall|k: EntityKind, p: Seq<char>|
            resolved_id(old(store)@, k, p) is Some ==> #[trigger] resolved_id(final(store)@, k, p)
                == resolved_id(old(store)@, k, p),
        final(store)@.len() >= old(store)@.len(),
        forall|i: int|
            0 <= i < old(store)@.len() && (#[trigger] final(store)@[i]).kind == EntityKind::Container
                && !title_ids(r.titles@).contains(old(store)@[i].id@) ==> final(store)@[i].signature
                == old(store)@[i].signature,
        forall|i: int|
            0 <= i < old(store)@.len() && (#[trigger] final(store)@[i]).kind == EntityKind::Item
                && !entry_ids(r.titles@).contains(old(store)@[i].id@) ==> final(store)@[i].signature
                == old(store)@[i].signature,
        forall|i: int|
            0 <= i < old(store)@.len() ==> (#[trigger] final(store)@[i]).id == old(store)@[i].id
                && final(store)@[i].kind == old(store)@[i].kind && final(store)@[i].path
                == old(store)@[i].path,
        forall|i: int|
            0 <= i < final(store)@.len() && (#[trigger] final(store)@[i]).kind == EntityKind::Container
                ==> (final(store)@[i].available <==> title_ids(r.titles@).contains(final(store)@[i].id@)),
        forall|i: int|
            0 <= i < final(store)@.len() && (#[trigger] final(store)@[i]).kind == EntityKind::Item
                ==> (final(store)@[i].available <==> entry_ids(r.titles@).contains(final(store)@[i].id@)),
{
    let ghost s0 = store@;
    let ghost all_scans = scans@;
    let mut titles: Vec<Title> = Vec::new();
    let mut new_titles: usize = 0;
    let mut new_entries: usize = 0;
    let mut scans = scans;
    let n = scans.len();
    let mut i: usize = 0;
    while i < n
        invariant
            n == all_scans.len(),
            i <= n,
            scans@ == all_scans.subrange(i as int, n as int),
            store.wf(),
            store@.len() >= s0.len(),
            forall|a: int|
                0 <= a < s0.len() ==> (#[trigger] store@[a]).id == s0[a].id && store@[a].kind == s0[a].kind
                    && store@[a].path == s0[a].path,
            forall|k: EntityKind, p: Seq<char>|
                resolved_id(s0, k, p) is Some ==> #[trigger] resolved_id(store@, k, p) == resolved_id(s0, k, p),
            sig_changes_found(s0, store@, titles@, None, Seq::empty()),
            titles@.len() == valid_scans(all_scans.subrange(0, i as int), root@).len(),
            forall|j: int|
                0 <= j < titles@.len() ==> title_from(
                    #[trigger] titles@[j],
                    valid_scans(all_scans.subrange(0, i as int), root@)[j],
                ),
            forall|j: int|
                0 <= j < titles@.len() ==> resolves_to(
                    store@,
                    EntityKind::Container,
                    (#[trigger] titles@[j]).path@,
                    root@,
                    titles@[j].id@,
                ),
            forall|j: int, k: int|
                0 <= j < titles@.len() && 0 <= k < titles@[j].entries@.len() ==> resolves_to(
                    store@,
                    EntityKind::Item,
                    (#[trigger] titles@[j].entries@[k]).path@,
                    root@,
                    titles@[j].entries@[k].id@,
                ),
        decreases n - i,
    {
        assert(scans@[0] == all_scans[i as int]);
        let scan = scans.remove(0);
        let ghost scan_g = scan;
        assert(scans@ =~= all_scans.subrange(i as int + 1, n as int));
        let ghost prefix = all_scans.subrange(0, i as int);
        let ghost next = all_scans.subrange(0, i as int + 1);
        assert(next.drop_last() =~= prefix);
        assert(next.last() == scan);
        let title_rel = relative_path(scan.path.as_str(), root);
        let rels = item_paths(&scan.items, root);
        if title_rel.is_none() || rels.is_none() {
            assert(!scan_valid(scan, root@));
            assert(valid_scans(next, root@) == valid_scans(prefix, root@));
        } else {
            let title_rel = title_rel.unwrap();
            let rels = rels.unwrap();
            assert forall|kk: int| 0 <= kk < scan.items@.len() implies relative_of(
                (#[trigger] scan.items@[kk]).path@,
                root@,
            ) is Some by {
                assert(relative_of(scan.items@[kk].path@, root@) == Some(rels@[kk]@));
            }
            assert(scan_valid(scan, root@));
            assert(valid_scans(next, root@) == valid_scans(prefix, root@).push(scan));
            let ghost titles_before = titles@;
            let mut sigs: Vec<u64> = Vec::new();
            let mut names: Vec<String> = Vec::new();
            let m = scan.items.len();
            let mut k: usize = 0;
            while k < m
                invariant
                    m == scan.items@.len(),
                    k <= m,
                    sigs@ == item_signatures(scan.items@.subrange(0, k as int)),
                    names@ == item_file_names(scan.items@.subrange(0, k as int)),
                decreases m - k,
            {
                sigs.push(scan.items[k].signature);
                names.push(scan.items[k].file_name.clone());
                assert(sigs@ =~= item_signatures(scan.items@.subrange(0, k as int + 1)));
                assert(names@ =~= item_file_names(scan.items@.subrange(0, k as int + 1)));
                k = k + 1;
            }
            assert(scan.items@.subrange(0, m as int) =~= scan.items@);
            let signature = dir_signature(sigs);
            let contents = contents_signature(names);
            let ghost before = store@;
            let title_id = match store.resolve(EntityKind::Container, title_rel.as_str(), signature) {
                Some(id) => {
                    proof {
                        assert forall|kk: EntityKind, pp: Seq<char>|
                            #[trigger] resolved_id(store@, kk, pp) == resolved_id(before, kk, pp) by {
                            lemma_resolve_keeps_ids(before, EntityKind::Container, title_rel@, signature, kk, pp);
                        }
                        assert forall|a: int| 0 <= a < before.len() implies (#[trigger] store@[a]).id == before[a].id
                            && store@[a].kind == before[a].kind && store@[a].path == before[a].path by {
                            crate::identity::lemma_path_pos(before, EntityKind::Container, title_rel@);
                        }
                        crate::identity::lemma_path_pos(before, EntityKind::Container, title_rel@);
                        assert(store@.len() == before.len());
                        assert forall|a: int|
                            0 <= a < s0.len() && (#[trigger] store@[a]).signature != s0[a].signature implies {
                            ||| store@[a].kind == EntityKind::Container && (title_ids(titles@).contains(store@[a].id@)
                                || Some(id@) == Some(store@[a].id@))
                            ||| store@[a].kind == EntityKind::Item && (entry_ids(titles@).contains(store@[a].id@)
                                || exists|j: int| 0 <= j < Seq::<Entry>::empty().len() && (#[trigger] Seq::<Entry>::empty()[j]).id@ == store@[a].id@)
                        } by {
                            lemma_resolve_changes(before, EntityKind::Container, title_rel@, signature, a);
                        }
                    }
                    id
                },
                None => {
                    proof {
                        crate::identity::lemma_path_pos(before, EntityKind::Container, title_rel@);
                    }
                    let id = mint_id(store);
                    let ok = store.persist_new(EntityKind::Container, id.clone(), title_rel.clone(), signature);
                    assert(ok);
                    proof {
                        assert forall|kk: EntityKind, pp: Seq<char>|
                            #[trigger] resolved_id(store@, kk, pp) == (if EntityKind::Container == kk && title_rel@ == pp {
                                Some(id@)
                            } else {
                                resolved_id(before, kk, pp)
                            }) by {
                            lemma_push_resolved(before, store@.last(), kk, pp);
                            assert(store@ == before.push(store@.last()));
                        }
                        assert forall|a: int| 0 <= a < before.len() implies #[trigger] store@[a] == before[a] by {}
                    }
                    if new_titles < usize::MAX {
                        new_titles = new_titles + 1;
                    }
                    id
                },
            };
            assert(resolved_id(store@, EntityKind::Container, title_rel@) == Some(title_id@));
            proof {
                assert forall|a: int|
                    0 <= a < s0.len() && (#[trigger] store@[a]).signature != s0[a].signature implies {
                    ||| store@[a].kind == EntityKind::Container && (title_ids(titles@).contains(store@[a].id@)
                        || Some(title_id@) == Some(store@[a].id@))
                    ||| store@[a].kind == EntityKind::Item && (entry_ids(titles@).contains(store@[a].id@)
                        || exists|j: int| 0 <= j < Seq::<Entry>::empty().len() && (#[trigger] Seq::<Entry>::empty()[j]).id@ == store@[a].id@)
                } by {
                    if store@.len() != before.len() {
                        assert(store@[a] == before[a]);
                    } else {
                        lemma_resolve_changes(before, EntityKind::Container, title_rel@, signature, a);
                    }
                }
            }
            let ghost all_items = scan.items@;
            let mut items = scan.items;
            let mut entries: Vec<Entry> = Vec::new();
            let mut mtime: i64 = 0;
            let mut k: usize = 0;
            while k < m
                invariant
                    m == all_items.len(),
                    k <= m,
                    items@ == all_items.subrange(k as int, m as int),
                    rels@.len() == m,
                    forall|j: int| 0 <= j < m ==> relative_of(all_items[j].path@, root@) == Some(#[trigger] rels@[j]@),
                    entries@.len() == k,
                    forall|j: int| 0 <= j < k ==> entry_from(#[trigger] entries@[j], all_items[j]),
                    mtime == max_mtime(all_items.subrange(0, k as int)),
                    store.wf(),
                    store@.len() >= s0.len(),
                    forall|a: int|
                        0 <= a < s0.len() ==> (#[trigger] store@[a]).id == s0[a].id && store@[a].kind == s0[a].kind
                            && store@[a].path == s0[a].path,
                    forall|kk: EntityKind, p: Seq<char>|
                        resolved_id(s0, kk, p) is Some ==> #[trigger] resolved_id(store@, kk, p) == resolved_id(s0, kk, p),
                    titles@ == titles_before,
                    sig_changes_found(s0, store@, titles@, Some(title_id@), entries@),
                    resolved_id(store@, EntityKind::Container, title_rel@) == Some(title_id@),
                    forall|j: int|
                        0 <= j < titles@.len() ==> resolves_to(
                            store@,
                            EntityKind::Container,
                            (#[trigger] titles@[j]).path@,
                            root@,
                            titles@[j].id@,
                        ),
                    forall|j: int, kk: int|
                        0 <= j < titles@.len() && 0 <= kk < titles@[j].entries@.len() ==> resolves_to(
                            store@,
                            EntityKind::Item,
                            (#[trigger] titles@[j].entries@[kk]).path@,
                            root@,
                            titles@[j].entries@[kk].id@,
                        ),
                    forall|j: int|
                        0 <= j < k ==> resolves_to(
                            store@,
                            EntityKind::Item,
                            (#[trigger] entries@[j]).path@,
                            root@,
                            entries@[j].id@,
                        ),
                decreases m - k,
            {
                assert(items@[0] == all_items[k as int]);
                let item = items.remove(0);
                assert(items@ =~= all_items.subrange(k as int + 1, m as int));
                let rel = &rels[k];
                let ghost before_item = store@;
                let id = match store.resolve(EntityKind::Item, rel.as_str(), item.signature) {
                    Some(id) => {
                        proof {
                            assert forall|kk: EntityKind, pp: Seq<char>|
                                #[trigger] resolved_id(store@, kk, pp) == resolved_id(before_item, kk, pp) by {
                                lemma_resolve_keeps_ids(before_item, EntityKind::Item, rel@, item.signature, kk, pp);
                            }
                            assert forall|a: int| 0 <= a < before_item.len() implies (#[trigger] store@[a]).id == before_item[a].id
                                && store@[a].kind == before_item[a].kind && store@[a].path == before_item[a].path by {
                                crate::identity::lemma_path_pos(before_item, EntityKind::Item, rel@);
                            }
                            crate::identity::lemma_path_pos(before_item, EntityKind::Item, rel@);
                            assert(store@.len() == before_item.len());
                        }
                        id
                    },
                    None => {
                        proof {
                            crate::identity::lemma_path_pos(before_item, EntityKind::Item, rel@);
                        }
                        let id = mint_id(store);
                        let ok = store.persist_new(EntityKind::Item, id.clone(), rel.clone(), item.signature);
                        assert(ok);
                        proof {
                            assert forall|kk: EntityKind, pp: Seq<char>|
                                #[trigger] resolved_id(store@, kk, pp) == (if EntityKind::Item == kk && rel@ == pp {
                                    Some(id@)
                                } else {
                                    resolved_id(before_item, kk, pp)
                                }) by {
                                lemma_push_resolved(before_item, store@.last(), kk, pp);
                                assert(store@ == before_item.push(store@.last()));
                            }
                            assert forall|a: int| 0 <= a < before_item.len() implies #[trigger] store@[a] == before_item[a] by {}
                        }
                        if new_entries < usize::MAX {
                            new_entries = new_entries + 1;
                        }
                        id
                    },
                };
                proof {
                    let t = all_items.subrange(0, k as int + 1);
                    assert(t.drop_last() =~= all_items.subrange(0, k as int));
                    assert(t.last() == item);
                    if k == 0 {
                        assert(t.len() == 1);
                        assert(t[0] == item);
                    }
                }
                if k == 0 || item.mtime > mtime {
                    mtime = item.mtime;
                }
                let ghost entries_before = entries@;
                let ghost store_before_push = store@;
                let e = build_entry(item, id);
                entries.push(e);
                proof {
                    assert forall|a: int|
                        0 <= a < s0.len() && (#[trigger] store@[a]).signature != s0[a].signature implies {
                        ||| store@[a].kind == EntityKind::Container && (title_ids(titles@).contains(store@[a].id@)
                            || Some(title_id@) == Some(store@[a].id@))
                        ||| store@[a].kind == EntityKind::Item && (entry_ids(titles@).contains(store@[a].id@)
                            || exists|j: int| 0 <= j < entries@.len() && (#[trigger] entries@[j]).id@ == store@[a].id@)
                    } by {
                        if store@[a].signature != before_item[a].signature {
                            if store@.len() == before_item.len() {
                                lemma_resolve_changes(before_item, EntityKind::Item, rel@, item.signature, a);
                                assert(entries@[k as int].id@ == store@[a].id@);
                            } else {
                                assert(store@[a] == before_item[a]);
                            }
                        } else {
                            if before_item[a].kind == EntityKind::Item && !entry_ids(titles@).contains(before_item[a].id@) {
                                let j = choose|j: int| 0 <= j < entries_before.len() && (#[trigger] entries_before[j]).id@ == before_item[a].id@;
                                assert(entries@[j] == entries_before[j]);
                            }
                        }
                    }
                    assert(sig_changes_found(s0, store@, titles@, Some(title_id@), entries@));
                }
                proof {
                    assert forall|j: int| 0 <= j < k + 1 implies entry_from(#[trigger] entries@[j], all_items[j]) by {
                        if j < k {
                            assert(entries@[j] == entries_before[j]);
                        }
                    }
                    assert forall|j: int|
                        0 <= j < k + 1 implies resolves_to(
                        store@,
                        EntityKind::Item,
                        (#[trigger] entries@[j]).path@,
                        root@,
                        entries@[j].id@,
                    ) by {
                        if j < k {
                            assert(entries@[j] == entries_before[j]);
                        } else {
                            assert(relative_of(all_items[j].path@, root@) == Some(rels@[j]@));
                        }
                    }
                }
                k = k + 1;
            }
            assert(all_items.subrange(0, m as int) =~= all_items);
            let ghost unsorted = entries@;
            let ghost store_mid = store@;
            assert(sig_changes_found(s0, store@, titles@, Some(title_id@), unsorted));
            sort_by_name(&mut entries, true);
            proof {
                broadcast use vstd::seq_lib::group_to_multiset_ensures;

                assert forall|j: int|
                    0 <= j < entries@.len() implies resolves_to(
                    store@,
                    EntityKind::Item,
                    (#[trigger] entries@[j]).path@,
                    root@,
                    entries@[j].id@,
                ) by {
                    assert(entries@.contains(entries@[j]));
                    assert(entries@.to_multiset().count(entries@[j]) > 0);
                    assert(unsorted.contains(entries@[j]));
                    let w = choose|w: int| 0 <= w < unsorted.len() && unsorted[w] == entries@[j];
                }
                assert(entries_from(unsorted, all_items));
            }
            let title = Title {
                id: title_id,
                path: scan.path,
                title: scan.name,
                signature,
                contents_signature: contents,
                mtime,
                entries,
                parent_id: None,
                nested_titles: Vec::new(),
            };
            proof {
                assert(title_from(title, scan_g)) by {
                    assert(entries_from(unsorted, scan_g.items@));
                    assert(unsorted.to_multiset() == title.entries@.to_multiset());
                }
            }
            titles.push(title);
            proof {
                broadcast use vstd::seq_lib::group_to_multiset_ensures;

                assert forall|a: int|
                    0 <= a < s0.len() && (#[trigger] store@[a]).signature != s0[a].signature implies {
                    ||| store@[a].kind == EntityKind::Container && (title_ids(titles@).contains(store@[a].id@)
                        || None::<Seq<char>> == Some(store@[a].id@))
                    ||| store@[a].kind == EntityKind::Item && (entry_ids(titles@).contains(store@[a].id@)
                        || exists|j: int| 0 <= j < Seq::<Entry>::empty().len() && (#[trigger] Seq::<Entry>::empty()[j]).id@ == store@[a].id@)
                } by {
                    let x = store@[a].id@;
                    let last = titles@.len() - 1;
                    if title_ids(titles_before).contains(x) {
                        let j = choose|j: int| 0 <= j < titles_before.len() && (#[trigger] titles_before[j]).id@ == x;
                        assert(titles@[j] == titles_before[j]);
                    }
                    if entry_ids(titles_before).contains(x) {
                        let (j, kk) = choose|j: int, kk: int|
                            0 <= j < titles_before.len() && 0 <= kk < titles_before[j].entries@.len() && (#[trigger] titles_before[j].entries@[kk]).id@ == x;
                        assert(titles@[j] == titles_before[j]);
                        assert(titles@[j].entries@[kk].id@ == x);
                    }
                    if store@[a].kind == EntityKind::Container && title_id@ == x {
                        assert(titles@[last].id@ == x);
                    }
                    if store@[a].kind == EntityKind::Item && (exists|j: int| 0 <= j < unsorted.len() && (#[trigger] unsorted[j]).id@ == x) {
                        let j = choose|j: int| 0 <= j < unsorted.len() && (#[trigger] unsorted[j]).id@ == x;
                        assert(unsorted.contains(unsorted[j]));
                        assert(unsorted.to_multiset().count(unsorted[j]) > 0);
                        assert(titles@[last].entries@.contains(unsorted[j]));
                        let kk = choose|kk: int| 0 <= kk < titles@[last].entries@.len() && titles@[last].entries@[kk] == unsorted[j];
                        assert(titles@[last].entries@[kk].id@ == x);
                    }
                }
                assert(sig_changes_found(s0, store@, titles@, None, Seq::empty()));
            }
            proof {
                let vs = valid_scans(next, root@);
                assert forall|j: int| 0 <= j < titles@.len() implies title_from(#[trigger] titles@[j], vs[j]) by {
                    if j < titles_before.len() {
                        assert(titles@[j] == titles_before[j]);
                    }
                }
                assert forall|j: int|
                    0 <= j < titles@.len() implies resolves_to(
                    store@,
                    EntityKind::Container,
                    (#[trigger] titles@[j]).path@,
                    root@,
                    titles@[j].id@,
                ) by {
                    if j < titles_before.len() {
                        assert(titles@[j] == titles_before[j]);
                    }
                }
                assert forall|j: int, kk: int|
                    0 <= j < titles@.len() && 0 <= kk < titles@[j].entries@.len() implies resolves_to(
                    store@,
                    EntityKind::Item,
                    (#[trigger] titles@[j].entries@[kk]).path@,
                    root@,
                    titles@[j].entries@[kk].id@,
                ) by {
                    if j < titles_before.len() {
                        assert(titles@[j] == titles_before[j]);
                    }
                }
            }
        }
        i = i + 1;
    }
    assert(all_scans.subrange(0, n as int) =~= all_scans);
    let ghost mid = store@;
    let (found_titles, found_entries) = collect_ids(&titles);
    let (missing_titles, restored_titles) = store.reconcile(EntityKind::Container, &found_titles);
    let ghost mid2 = store@;
    let (missing_entries, restored_entries) = store.reconcile(EntityKind::Item, &found_entries);
    proof {
        assert forall|k: EntityKind, p: Seq<char>| #[trigger] resolved_id(store@, k, p) == resolved_id(mid, k, p) by {
            lemma_reconciled_resolved(mid, EntityKind::Container, title_ids(titles@), k, p);
            lemma_reconciled_resolved(mid2, EntityKind::Item, entry_ids(titles@), k, p);
        }
        assert forall|j: int|
            0 <= j < titles@.len() implies keeps_id(
            s0,
            EntityKind::Container,
            relative_of((#[trigger] titles@[j]).path@, root@),
            titles@[j].id@,
        ) by {
            assert(resolves_to(mid, EntityKind::Container, titles@[j].path@, root@, titles@[j].id@));
        }
        assert forall|j: int, k: int|
            0 <= j < titles@.len() && 0 <= k < titles@[j].entries@.len() implies keeps_id(
            s0,
            EntityKind::Item,
            relative_of((#[trigger] titles@[j].entries@[k]).path@, root@),
            titles@[j].entries@[k].id@,
        ) by {
            assert(resolves_to(mid, EntityKind::Item, titles@[j].entries@[k].path@, root@, titles@[j].entries@[k].id@));
        }
        assert forall|i: int|
            0 <= i < store@.len() && (#[trigger] store@[i]).kind == EntityKind::Container implies (store@[i].available
            <==> title_ids(titles@).contains(store@[i].id@)) by {
            assert(store@[i] == crate::identity::reconciled(mid2, EntityKind::Item, entry_ids(titles@))[i]);
            assert(mid2[i] == crate::identity::reconciled(mid, EntityKind::Container, title_ids(titles@))[i]);
        }
        assert forall|i: int|
            0 <= i < store@.len() && (#[trigger] store@[i]).kind == EntityKind::Item implies (store@[i].available
            <==> entry_ids(titles@).contains(store@[i].id@)) by {
            assert(store@[i] == crate::identity::reconciled(mid2, EntityKind::Item, entry_ids(titles@))[i]);
            assert(mid2[i] == crate::identity::reconciled(mid, EntityKind::Container, title_ids(titles@))[i]);
        }
        assert forall|a: int|
            0 <= a < s0.len() implies (#[trigger] store@[a]).id == s0[a].id && store@[a].kind == s0[a].kind
                && store@[a].path == s0[a].path by {
            assert(store@[a] == crate::identity::reconciled(mid2, EntityKind::Item, entry_ids(titles@))[a]);
            assert(mid2[a] == crate::identity::reconciled(mid, EntityKind::Container, title_ids(titles@))[a]);
        }
    }
    ScanOutcome {
        titles,
        new_titles,
        new_entries,
        missing_titles,
        restored_titles,
        missing_entries,
        restored_entries,
    }
}

} // verus!
