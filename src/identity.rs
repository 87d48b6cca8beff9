//! Persisted identities of containers (titles) and items (entries): tiered
//! resolution of a (path, signature) pair to a stable id, registration of
//! new ids, and availability reconciliation after a scan.
use vstd::prelude::*;

use crate::text::same_text;

verus! {

/// Which kind of entity an identity belongs to.
#[derive(Debug, Clone, Copy, PartialEq, Eq, Structural)]
pub enum EntityKind {
    /// A title (series directory).
    Container,
    /// An entry (archive).
    Item,
}

/// One persisted identity.
#[derive(Debug, Clone)]
pub struct IdentityRecord {
    pub id: String,
    /// Path relative to the library root.
    pub path: String,
    pub signature: u64,
    pub kind: EntityKind,
    pub available: bool,
}

/// A new identity waiting to be persisted.
#[derive(Debug, Clone)]
pub struct NewIdentity {
    pub id: String,
    pub path: String,
    pub signature: u64,
}

/// The identity table.
pub struct IdentityStore {
    records: Vec<IdentityRecord>,
}

/// Position of the record of `kind` at `path`, or -1.
pub open spec fn path_pos(s: Seq<IdentityRecord>, kind: EntityKind, path: Seq<char>) -> int
    decreases s.len(),
{
    if s.len() == 0 {
        -1
    } else if s.last().kind == kind && s.last().path@ == path {
        s.len() - 1
    } else {
        path_pos(s.drop_last(), kind, path)
    }
}

/// Position of the record with id `id`, or -1.
pub open spec fn id_pos(s: Seq<IdentityRecord>, id: Seq<char>) -> int
    decreases s.len(),
{
    if s.len() == 0 {
        -1
    } else if s.last().id@ == id {
        s.len() - 1
    } else {
        id_pos(s.drop_last(), id)
    }
}

/// The table after persisting pending identities in order: each one whose
/// id is new and whose kind and path are new is appended as available; the
/// others are skipped.
pub open spec fn persisted(s: Seq<IdentityRecord>, kind: EntityKind, pending: Seq<NewIdentity>) -> Seq<
    IdentityRecord,
>
    decreases pending.len(),
{
    if pending.len() == 0 {
        s
    } else {
        let acc = persisted(s, kind, pending.drop_last());
        let n = pending.last();
        if id_pos(acc, n.id@) < 0 && path_pos(acc, kind, n.path@) < 0 {
            acc.push(
                IdentityRecord {
                    id: n.id,
                    path: n.path,
                    signature: n.signature,
                    kind,
                    available: true,
                },
            )
        } else {
            acc
        }
    }
}

/// Ids are unique, and (kind, path) pairs are unique.
pub open spec fn table_wf(s: Seq<IdentityRecord>) -> bool {
    forall|i: int, j: int|
        #![trigger s[i], s[j]]
        0 <= i < s.len() && 0 <= j < s.len() && i != j ==> {
            &&& s[i].id@ != s[j].id@
            &&& !(s[i].kind == s[j].kind && s[i].path@ == s[j].path@)
        }
}

/// The stable id that resolution gives: the id of the record of this kind at
/// this path, whatever its signature (exact and path-only matches alike).
pub open spec fn resolved_id(s: Seq<IdentityRecord>, kind: EntityKind, path: Seq<char>) -> Option<
    Seq<char>,
> {
    if path_pos(s, kind, path) >= 0 {
        Some(s[path_pos(s, kind, path)].id@)
    } else {
        None
    }
}

/// The signature stored for this kind and path, if any.
pub open spec fn stored_signature(s: Seq<IdentityRecord>, kind: EntityKind, path: Seq<char>) -> Option<u64> {
    if path_pos(s, kind, path) >= 0 {
        Some(s[path_pos(s, kind, path)].signature)
    } else {
        None
    }
}

/// The table after resolving: a path-only match has its signature updated.
pub open spec fn after_resolve(
    s: Seq<IdentityRecord>,
    kind: EntityKind,
    path: Seq<char>,
    signature: u64,
) -> Seq<IdentityRecord> {
    if path_pos(s, kind, path) >= 0 {
        let r = s[path_pos(s, kind, path)];
        s.update(path_pos(s, kind, path), IdentityRecord { signature, ..r })
    } else {
        s
    }
}

/// The table after reconciling `kind` against the ids found by a scan:
/// exactly the found ones are available.
pub open spec fn reconciled(s: Seq<IdentityRecord>, kind: EntityKind, found: Set<Seq<char>>) -> Seq<
    IdentityRecord,
> {
    s.map_values(
        |r: IdentityRecord|
            if r.kind == kind {
                IdentityRecord { available: found.contains(r.id@), ..r }
            } else {
                r
            },
    )
}

pub open spec fn id_set(ids: Seq<String>) -> Set<Seq<char>> {
    Set::new(|x: Seq<char>| exists|i: int| 0 <= i < ids.len() && #[trigger] ids[i]@ == x)
}

pub(crate) proof fn lemma_path_pos(s: Seq<IdentityRecord>, kind: EntityKind, path: Seq<char>)
    ensures
        -1 <= path_pos(s, kind, path) < s.len(),
        path_pos(s, kind, path) >= 0 ==> s[path_pos(s, kind, path)].kind == kind && s[path_pos(
            s,
            kind,
            path,
        )].path@ == path,
        path_pos(s, kind, path) < 0 ==> forall|j: int|
            0 <= j < s.len() ==> !(#[trigger] s[j].kind == kind && s[j].path@ == path),
    decreases s.len(),
{
    if s.len() > 0 {
        lemma_path_pos(s.drop_last(), kind, path);
        let p = path_pos(s.drop_last(), kind, path);
        if p >= 0 {
            assert(s[p] == s.drop_last()[p]);
        }
        if path_pos(s, kind, path) < 0 {
            assert forall|j: int| 0 <= j < s.len() implies !(#[trigger] s[j].kind == kind && s[j].path@
                == path) by {
                if j < s.len() - 1 {
                    assert(s[j] == s.drop_last()[j]);
                }
            }
        }
    }
}

pub(crate) proof fn lemma_id_pos(s: Seq<IdentityRecord>, id: Seq<char>)
    ensures
        -1 <= id_pos(s, id) < s.len(),
        id_pos(s, id) >= 0 ==> s[id_pos(s, id)].id@ == id,
        id_pos(s, id) < 0 ==> forall|j: int| 0 <= j < s.len() ==> #[trigger] s[j].id@ != id,
    decreases s.len(),
{
    if s.len() > 0 {
        lemma_id_pos(s.drop_last(), id);
        let p = id_pos(s.drop_last(), id);
        if p >= 0 {
            assert(s[p] == s.drop_last()[p]);
        }
        if id_pos(s, id) < 0 {
            assert forall|j: int| 0 <= j < s.len() implies #[trigger] s[j].id@ != id by {
                if j < s.len() - 1 {
                    assert(s[j] == s.drop_last()[j]);
                }
            }
        }
    }
}

/// In a well-formed table the position of (kind, path) is the only index
/// that matches it.
proof fn lemma_path_pos_unique(s: Seq<IdentityRecord>, kind: EntityKind, path: Seq<char>, j: int)
    requires
        table_wf(s),
        0 <= j < s.len(),
        s[j].kind == kind,
        s[j].path@ == path,
    ensures
        path_pos(s, kind, path) == j,
{
    lemma_path_pos(s, kind, path);
    let p = path_pos(s, kind, path);
    if p < 0 {
        assert(!(s[j].kind == kind && s[j].path@ == path));
    } else if p != j {
        assert(s[p].kind == s[j].kind && s[p].path@ == s[j].path@);
    }
}

proof fn lemma_update_keeps_wf(s: Seq<IdentityRecord>, p: int, r: IdentityRecord)
    requires
        table_wf(s),
        0 <= p < s.len(),
        r.id == s[p].id,
        r.kind == s[p].kind,
        r.path == s[p].path,
    ensures
        table_wf(s.update(p, r)),
{
    let t = s.update(p, r);
    assert forall|i: int, j: int|
        #![trigger t[i], t[j]]
        0 <= i < t.len() && 0 <= j < t.len() && i != j implies {
        &&& t[i].id@ != t[j].id@
        &&& !(t[i].kind == t[j].kind && t[i].path@ == t[j].path@)
    } by {
        assert(t[i].id == s[i].id && t[i].kind == s[i].kind && t[i].path == s[i].path);
        assert(t[j].id == s[j].id && t[j].kind == s[j].kind && t[j].path == s[j].path);
    }
}

impl IdentityStore {
    pub closed spec fn view(&self) -> Seq<IdentityRecord> {
        self.records@
    }

    pub closed spec fn wf(&self) -> bool {
        table_wf(self.records@)
    }

    /// An empty table.
    pub fn new() -> (r: Self)
        ensures
            r.wf(),
            r@.len() == 0,
    {
        IdentityStore { records: Vec::new() }
    }

    /// A table of loaded records; `None` where two share an id, or a kind
    /// and a path.
    pub fn from_records(records: Vec<IdentityRecord>) -> (r: Option<Self>)
        ensures
            r is Some <==> table_wf(records@),
            r matches Some(t) ==> t.wf() && t@ == records@,
    {
        let n = records.len();
        let mut i: usize = 0;
        while i < n
            invariant
                n == records@.len(),
                i <= n,
                table_wf(records@.subrange(0, i as int)),
            decreases n - i,
        {
            let mut j: usize = 0;
            while j < i
                invariant
                    n == records@.len(),
                    j <= i < n,
                    table_wf(records@.subrange(0, i as int)),
                    forall|k: int|
                        0 <= k < j ==> {
                            &&& (#[trigger] records@[k]).id@ != records@[i as int].id@
                            &&& !(records@[k].kind == records@[i as int].kind && records@[k].path@
                                == records@[i as int].path@)
                        },
                decreases i - j,
            {
                if same_text(records[j].id.as_str(), records[i].id.as_str()) {
                    assert(!table_wf(records@)) by {
                        assert(records@[j as int].id@ == records@[i as int].id@);
                    }
                    return None;
                }
                if records[j].kind == records[i].kind && same_text(
                    records[j].path.as_str(),
                    records[i].path.as_str(),
                ) {
                    assert(!table_wf(records@)) by {
                        assert(records@[j as int].kind == records@[i as int].kind);
                    }
                    return None;
                }
                j = j + 1;
            }
            proof {
                let t = records@.subrange(0, i as int + 1);
                let u = records@.subrange(0, i as int);
                assert forall|a: int, b: int|
                    0 <= a < t.len() && 0 <= b < t.len() && a != b implies {
                    &&& #[trigger] t[a].id@ != #[trigger] t[b].id@
                    &&& !(t[a].kind == t[b].kind && t[a].path@ == t[b].path@)
                } by {
                    if a < i && b < i {
                        assert(t[a] == u[a] && t[b] == u[b]);
                    } else if a == i {
                        assert(t[b] == records@[b]);
                    } else {
                        assert(t[a] == records@[a]);
                    }
                }
            }
            i = i + 1;
        }
        assert(records@.subrange(0, n as int) =~= records@);
        Some(IdentityStore { records })
    }

    /// Every record.
    pub fn records(&self) -> (r: &Vec<IdentityRecord>)
        ensures
            r@ == self@,
    {
        &self.records
    }

    fn find_path(&self, kind: EntityKind, path: &str) -> (r: Option<usize>)
        ensures
            r is Some <==> path_pos(self@, kind, path@) >= 0,
            r matches Some(i) ==> i == path_pos(self@, kind, path@),
    {
        let mut i = self.records.len();
        assert(self.records@.subrange(0, i as int) =~= self.records@);
        while i > 0
            invariant
                i <= self.records@.len(),
                path_pos(self.records@, kind, path@) == path_pos(
                    self.records@.subrange(0, i as int),
                    kind,
                    path@,
                ),
            decreases i,
        {
            let ghost pre = self.records@.subrange(0, i as int);
            assert(pre.drop_last() =~= self.records@.subrange(0, i - 1));
            if self.records[i - 1].kind == kind && same_text(self.records[i - 1].path.as_str(), path) {
                return Some(i - 1);
            }
            i = i - 1;
        }
        None
    }

    fn find_id(&self, id: &str) -> (r: Option<usize>)
        ensures
            r is Some <==> id_pos(self@, id@) >= 0,
            r matches Some(i) ==> i == id_pos(self@, id@),
    {
        let mut i = self.records.len();
        assert(self.records@.subrange(0, i as int) =~= self.records@);
        while i > 0
            invariant
                i <= self.records@.len(),
                id_pos(self.records@, id@) == id_pos(self.records@.subrange(0, i as int), id@),
            decreases i,
        {
            let ghost pre = self.records@.subrange(0, i as int);
            assert(pre.drop_last() =~= self.records@.subrange(0, i - 1));
            if same_text(self.records[i - 1].id.as_str(), id) {
                return Some(i - 1);
            }
            i = i - 1;
        }
        None
    }

    /// Whether a record has this id.
    pub fn contains_id(&self, id: &str) -> (r: bool)
        ensures
            r == (id_pos(self@, id@) >= 0),
    {
        self.find_id(id).is_some()
    }

    /// The length of the longest id.
    pub fn longest_id_len(&self) -> (r: usize)
        ensures
            forall|i: int| 0 <= i < self@.len() ==> (#[trigger] self@[i]).id@.len() <= r,
    {
        let n = self.records.len();
        let mut best: usize = 0;
        let mut i: usize = 0;
        while i < n
            invariant
                n == self@.len(),
                i <= n,
                forall|j: int| 0 <= j < i ==> (#[trigger] self@[j]).id@.len() <= best,
            decreases n - i,
        {
            let l = self.records[i].id.unicode_len();
            if l > best {
                best = l;
            }
            i = i + 1;
        }
        best
    }

    /// Resolve a (path, signature) pair to a stable id. An exact match is
    /// reused as it is; a match on the path alone (the file was touched, not
    /// moved) is reused and its stored signature updated. With no match the
    /// caller mints a new id. A match on the signature alone is not sought.
    pub fn resolve(&mut self, kind: EntityKind, path: &str, signature: u64) -> (r: Option<String>)
        requires
            old(self).wf(),
        ensures
            final(self).wf(),
            final(self)@ == after_resolve(old(self)@, kind, path@, signature),
            match r {
                Some(id) => resolved_id(old(self)@, kind, path@) == Some(id@),
                None => resolved_id(old(self)@, kind, path@) is None,
            },
    {
        match self.find_path(kind, path) {
            Some(i) => {
                proof {
                    lemma_path_pos(self.records@, kind, path@);
                }
                let id = self.records[i].id.clone();
                if self.records[i].signature != signature {
                    let mut rec = self.records.remove(i);
                    rec.signature = signature;
                    self.records.insert(i, rec);
                    proof {
                        assert(self.records@ =~= after_resolve(old(self)@, kind, path@, signature));
                        lemma_update_keeps_wf(old(self)@, i as int, self.records@[i as int]);
                    }
                } else {
                    proof {
                        let r = old(self)@[i as int];
                        assert(IdentityRecord { signature, ..r } == r);
                        assert(old(self)@.update(i as int, r) =~= old(self)@);
                    }
                }
                Some(id)
            },
            None => None,
        }
    }

    /// Register a new identity as available. Refused, with nothing changed,
    /// where the id, or the kind and path, is already known.
    pub fn persist_new(&mut self, kind: EntityKind, id: String, path: String, signature: u64) -> (r: bool)
        requires
            old(self).wf(),
        ensures
            final(self).wf(),
            r == (id_pos(old(self)@, id@) < 0 && path_pos(old(self)@, kind, path@) < 0),
            r ==> final(self)@ == old(self)@.push(
                IdentityRecord { id, path, signature, kind, available: true },
            ),
            !r ==> final(self)@ == old(self)@,
    {
        if self.find_id(id.as_str()).is_some() {
            return false;
        }
        if self.find_path(kind, path.as_str()).is_some() {
            return false;
        }
        proof {
            lemma_id_pos(self.records@, id@);
            lemma_path_pos(self.records@, kind, path@);
        }
        let rec = IdentityRecord { id, path, signature, kind, available: true };
        let ghost s = self.records@;
        self.records.push(rec);
        proof {
            let t = self.records@;
            assert forall|i: int, j: int|
                0 <= i < t.len() && 0 <= j < t.len() && i != j implies {
                &&& #[trigger] t[i].id@ != #[trigger] t[j].id@
                &&& !(t[i].kind == t[j].kind && t[i].path@ == t[j].path@)
            } by {
                if i < s.len() && j < s.len() {
                    assert(t[i] == s[i] && t[j] == s[j]);
                } else if i < s.len() {
                    assert(t[i] == s[i]);
                } else {
                    assert(t[j] == s[j]);
                }
            }
        }
        true
    }

    /// Persist a scan's new identities of one kind in one pass; returns how
    /// many were accepted.
    pub fn persist_all(&mut self, kind: EntityKind, pending: Vec<NewIdentity>) -> (r: usize)
        requires
            old(self).wf(),
        ensures
            final(self).wf(),
            final(self)@ == persisted(old(self)@, kind, pending@),
            final(self)@.len() == old(self)@.len() + r,
    {
        let n = pending.len();
        let mut accepted: usize = 0;
        let mut i: usize = 0;
        while i < n
            invariant
                n == pending@.len(),
                i <= n,
                accepted <= i,
                self.wf(),
                self@ == persisted(old(self)@, kind, pending@.subrange(0, i as int)),
                self@.len() == old(self)@.len() + accepted,
            decreases n - i,
        {
            let p = &pending[i];
            proof {
                let t = pending@.subrange(0, i as int + 1);
                assert(t.drop_last() =~= pending@.subrange(0, i as int));
                assert(t.last() == pending@[i as int]);
            }
            if self.persist_new(kind, p.id.clone(), p.path.clone(), p.signature) {
                accepted = accepted + 1;
            }
            i = i + 1;
        }
        assert(pending@.subrange(0, n as int) =~= pending@);
        accepted
    }

    /// Reconcile availability of one kind with the ids a scan found: found
    /// ids become available, the others unavailable. Returns the ids newly
    /// missing and the ids newly restored.
    pub fn reconcile(&mut self, kind: EntityKind, found: &Vec<String>) -> (r: (Vec<String>, Vec<String>))
        requires
            old(self).wf(),
        ensures
            final(self).wf(),
            final(self)@ == reconciled(old(self)@, kind, id_set(found@)),
            forall|j: int|
                0 <= j < r.0@.len() ==> {
                    let k = id_pos(old(self)@, #[trigger] r.0@[j]@);
                    &&& k >= 0
                    &&& old(self)@[k].kind == kind
                    &&& old(self)@[k].available
                    &&& !id_set(found@).contains(old(self)@[k].id@)
                },
            forall|j: int|
                0 <= j < r.1@.len() ==> {
                    let k = id_pos(old(self)@, #[trigger] r.1@[j]@);
                    &&& k >= 0
                    &&& old(self)@[k].kind == kind
                    &&& !old(self)@[k].available
                    &&& id_set(found@).contains(old(self)@[k].id@)
                },
            forall|i: int|
                0 <= i < old(self)@.len() && (#[trigger] old(self)@[i]).kind == kind && old(self)@[i].available
                    && !id_set(found@).contains(old(self)@[i].id@) ==> id_set(r.0@).contains(
                    old(self)@[i].id@,
                ),
            forall|i: int|
                0 <= i < old(self)@.len() && (#[trigger] old(self)@[i]).kind == kind && !old(self)@[i].available
                    && id_set(found@).contains(old(self)@[i].id@) ==> id_set(r.1@).contains(
                    old(self)@[i].id@,
                ),
    {
        let ghost s = self.records@;
        let ghost fs = id_set(found@);
        let n = self.records.len();
        let mut missing: Vec<String> = Vec::new();
        let mut restored: Vec<String> = Vec::new();
        let mut i: usize = 0;
        while i < n
            invariant
                n == s.len(),
                i <= n,
                self.records@.len() == n,
                table_wf(s),
                s == old(self)@,
                fs == id_set(found@),
                forall|j: int| 0 <= j < i ==> #[trigger] self.records@[j] == reconciled(s, kind, fs)[j],
                forall|j: int| i <= j < n ==> #[trigger] self.records@[j] == s[j],
                forall|j: int|
                    0 <= j < missing@.len() ==> {
                        let k = id_pos(s, #[trigger] missing@[j]@);
                        &&& k >= 0
                        &&& s[k].kind == kind
                        &&& s[k].available
                        &&& !fs.contains(s[k].id@)
                    },
                forall|j: int|
                    0 <= j < restored@.len() ==> {
                        let k = id_pos(s, #[trigger] restored@[j]@);
                        &&& k >= 0
                        &&& s[k].kind == kind
                        &&& !s[k].available
                        &&& fs.contains(s[k].id@)
                    },
                forall|q: int|
                    0 <= q < i && (#[trigger] s[q]).kind == kind && s[q].available && !fs.contains(s[q].id@)
                        ==> id_set(missing@).contains(s[q].id@),
                forall|q: int|
                    0 <= q < i && (#[trigger] s[q]).kind == kind && !s[q].available && fs.contains(s[q].id@)
                        ==> id_set(restored@).contains(s[q].id@),
            decreases n - i,
        {
            let ghost old_missing = missing@;
            let ghost old_restored = restored@;
            if self.records[i].kind == kind {
                let is_found = contains_text(found, self.records[i].id.as_str());
                let mut rec = self.records.remove(i);
                proof {
                    lemma_id_pos(s, rec.id@);
                    if id_pos(s, rec.id@) != i {
                        assert(s[id_pos(s, rec.id@)].id@ == s[i as int].id@);
                    }
                }
                if rec.available && !is_found {
                    missing.push(rec.id.clone());
                } else if !rec.available && is_found {
                    restored.push(rec.id.clone());
                }
                rec.available = is_found;
                self.records.insert(i, rec);
            }
            proof {
                assert forall|q: int|
                    0 <= q < i + 1 && (#[trigger] s[q]).kind == kind && s[q].available && !fs.contains(s[q].id@)
                        implies id_set(missing@).contains(s[q].id@) by {
                    if q < i {
                        let w = choose|w: int| 0 <= w < old_missing.len() && #[trigger] old_missing[w]@ == s[q].id@;
                        assert(missing@[w] == old_missing[w]);
                    } else {
                        assert(missing@[missing@.len() - 1]@ == s[q].id@);
                    }
                }
                assert forall|q: int|
                    0 <= q < i + 1 && (#[trigger] s[q]).kind == kind && !s[q].available && fs.contains(s[q].id@)
                        implies id_set(restored@).contains(s[q].id@) by {
                    if q < i {
                        let w = choose|w: int| 0 <= w < old_restored.len() && #[trigger] old_restored[w]@ == s[q].id@;
                        assert(restored@[w] == old_restored[w]);
                    } else {
                        assert(restored@[restored@.len() - 1]@ == s[q].id@);
                    }
                }
                assert(reconciled(s, kind, fs)[i as int] == self.records@[i as int]);
            }
            i = i + 1;
        }
        assert(self.records@ =~= reconciled(s, kind, fs));
        proof {
            let t = self.records@;
            assert forall|a: int, b: int|
                0 <= a < t.len() && 0 <= b < t.len() && a != b implies {
                &&& #[trigger] t[a].id@ != #[trigger] t[b].id@
                &&& !(t[a].kind == t[b].kind && t[a].path@ == t[b].path@)
            } by {
                assert(t[a].id == s[a].id && t[a].kind == s[a].kind && t[a].path == s[a].path);
                assert(t[b].id == s[b].id && t[b].kind == s[b].kind && t[b].path == s[b].path);
            }
        }
        (missing, restored)
    }

    /// Number of available identities of a kind.
    pub fn count_available(&self, kind: EntityKind) -> (r: usize)
        ensures
            r == available_count(self@, kind),
    {
        let n = self.records.len();
        let mut count: usize = 0;
        let mut i: usize = 0;
        while i < n
            invariant
                n == self.records@.len(),
                i <= n,
                count == available_count(self.records@.subrange(0, i as int), kind),
                count <= i,
            decreases n - i,
        {
            let ghost t = self.records@.subrange(0, i as int + 1);
            assert(t.drop_last() =~= self.records@.subrange(0, i as int));
            if self.records[i].kind == kind && self.records[i].available {
                count = count + 1;
            }
            i = i + 1;
        }
        assert(self.records@.subrange(0, n as int) =~= self.records@);
        count
    }
}

/// Number of available records of a kind.
pub open spec fn available_count(s: Seq<IdentityRecord>, kind: EntityKind) -> nat
    decreases s.len(),
{
    if s.len() == 0 {
        0
    } else {
        available_count(s.drop_last(), kind) + if s.last().kind == kind && s.last().available {
            1nat
        } else {
            0nat
        }
    }
}

/// Whether `ids` holds `id`.
pub fn contains_text(ids: &Vec<String>, id: &str) -> (r: bool)
    ensures
        r == id_set(ids@).contains(id@),
{
    let n = ids.len();
    let mut i: usize = 0;
    while i < n
        invariant
            n == ids@.len(),
            i <= n,
            forall|j: int| 0 <= j < i ==> (#[trigger] ids@[j])@ != id@,
        decreases n - i,
    {
        if same_text(ids[i].as_str(), id) {
            assert(ids@[i as int]@ == id@);
            return true;
        }
        i = i + 1;
    }
    assert(!id_set(ids@).contains(id@)) by {
        if id_set(ids@).contains(id@) {
            let j = choose|j: int| 0 <= j < ids@.len() && #[trigger] ids@[j]@ == id@;
            assert(ids@[j]@ != id@);
        }
    }
    false
}

/// Split ids into batches of at most `size`, in order, none empty.
pub fn chunk_ids(ids: &Vec<String>, size: usize) -> (r: Vec<Vec<String>>)
    requires
        size > 0,
    ensures
        forall|k: int| 0 <= k < r@.len() ==> 0 < (#[trigger] r@[k])@.len() <= size,
        flatten(r@) == ids@,
{
    let n = ids.len();
    let mut out: Vec<Vec<String>> = Vec::new();
    let mut cur: Vec<String> = Vec::new();
    let mut i: usize = 0;
    while i < n
        invariant
            n == ids@.len(),
            i <= n,
            size > 0,
            cur@.len() < size,
            forall|k: int| 0 <= k < out@.len() ==> 0 < (#[trigger] out@[k])@.len() <= size,
            flatten(out@) + cur@ == ids@.subrange(0, i as int),
        decreases n - i,
    {
        let ghost old_cur = cur@;
        let item = ids[i].clone();
        assert(item == ids@[i as int]);
        cur.push(item);
        assert(cur@ == old_cur.push(ids@[i as int]));
        assert(ids@.subrange(0, i as int + 1) =~= ids@.subrange(0, i as int).push(ids@[i as int]));
        assert(flatten(out@) + cur@ =~= ids@.subrange(0, i as int + 1));
        if cur.len() == size {
            let ghost before = out@;
            out.push(cur);
            proof {
                lemma_flatten_push(before, out@.last());
            }
            cur = Vec::new();
            assert(flatten(out@) + cur@ =~= ids@.subrange(0, i as int + 1));
        }
        i = i + 1;
    }
    if cur.len() > 0 {
        let ghost before = out@;
        out.push(cur);
        proof {
            lemma_flatten_push(before, out@.last());
        }
    } else {
        assert(flatten(out@) =~= flatten(out@) + cur@);
    }
    assert(ids@.subrange(0, n as int) =~= ids@);
    out
}

/// The batches joined back together.
pub open spec fn flatten(s: Seq<Vec<String>>) -> Seq<String>
    decreases s.len(),
{
    if s.len() == 0 {
        Seq::empty()
    } else {
        flatten(s.drop_last()) + s.last()@
    }
}

proof fn lemma_flatten_push(s: Seq<Vec<String>>, v: Vec<String>)
    ensures
        flatten(s.push(v)) == flatten(s) + v@,
{
    assert(s.push(v).drop_last() =~= s);
}

proof fn lemma_same_keys_wf(s: Seq<IdentityRecord>, t: Seq<IdentityRecord>)
    requires
        table_wf(s),
        s.len() == t.len(),
        forall|j: int|
            0 <= j < s.len() ==> (#[trigger] t[j]).id == s[j].id && t[j].kind == s[j].kind
                && t[j].path == s[j].path,
    ensures
        table_wf(t),
{
    assert forall|a: int, b: int|
        #![trigger t[a], t[b]]
        0 <= a < t.len() && 0 <= b < t.len() && a != b implies {
        &&& t[a].id@ != t[b].id@
        &&& !(t[a].kind == t[b].kind && t[a].path@ == t[b].path@)
    } by {
        assert(t[a].id == s[a].id && t[a].kind == s[a].kind && t[a].path == s[a].path);
        assert(t[b].id == s[b].id && t[b].kind == s[b].kind && t[b].path == s[b].path);
    }
}

proof fn lemma_after_resolve(s: Seq<IdentityRecord>, kind: EntityKind, path: Seq<char>, sig: u64)
    requires
        table_wf(s),
    ensures
        table_wf(after_resolve(s, kind, path, sig)),
        resolved_id(after_resolve(s, kind, path, sig), kind, path) == resolved_id(s, kind, path),
        resolved_id(s, kind, path) is Some ==> stored_signature(
            after_resolve(s, kind, path, sig),
            kind,
            path,
        ) == Some(sig),
{
    lemma_path_pos(s, kind, path);
    let p = path_pos(s, kind, path);
    if p >= 0 {
        let t = after_resolve(s, kind, path, sig);
        lemma_update_keeps_wf(s, p, t[p]);
        lemma_path_pos_unique(t, kind, path, p);
    }
}

/// Idempotent resolution: resolving the same (kind, path, signature) twice
/// gives the same id both times and changes nothing the second time; then
/// resolving the same path with a changed signature still gives that id,
/// and the stored signature becomes the new one.
pub proof fn lemma_resolution_idempotent(
    s: Seq<IdentityRecord>,
    kind: EntityKind,
    path: Seq<char>,
    sig: u64,
    sig2: u64,
)
    requires
        table_wf(s),
    ensures
        ({
            let s1 = after_resolve(s, kind, path, sig);
            let s2 = after_resolve(s1, kind, path, sig2);
            &&& resolved_id(s1, kind, path) == resolved_id(s, kind, path)
            &&& after_resolve(s1, kind, path, sig) == s1
            &&& resolved_id(s2, kind, path) == resolved_id(s, kind, path)
            &&& resolved_id(s, kind, path) is Some ==> stored_signature(s2, kind, path) == Some(sig2)
        }),
{
    let s1 = after_resolve(s, kind, path, sig);
    lemma_after_resolve(s, kind, path, sig);
    lemma_after_resolve(s1, kind, path, sig2);
    lemma_path_pos(s1, kind, path);
    let p = path_pos(s1, kind, path);
    if p >= 0 {
        let r = s1[p];
        assert(r.signature == sig) by {
            lemma_path_pos(s, kind, path);
        }
        assert(IdentityRecord { signature: sig, ..r } == r);
        assert(s1.update(p, r) =~= s1);
    }
}

/// Missing/restored cycle: an identity of a kind found by a first scan is
/// available; missing from a second, unavailable; found again by a third,
/// available once more. Its id, path and signature never change, so the
/// path still resolves to the same id.
pub proof fn lemma_missing_restored_cycle(
    s: Seq<IdentityRecord>,
    kind: EntityKind,
    i: int,
    pass1: Set<Seq<char>>,
    pass2: Set<Seq<char>>,
    pass3: Set<Seq<char>>,
)
    requires
        table_wf(s),
        0 <= i < s.len(),
        s[i].kind == kind,
        pass1.contains(s[i].id@),
        !pass2.contains(s[i].id@),
        pass3.contains(s[i].id@),
    ensures
        ({
            let s1 = reconciled(s, kind, pass1);
            let s2 = reconciled(s1, kind, pass2);
            let s3 = reconciled(s2, kind, pass3);
            &&& s1[i].available
            &&& !s2[i].available
            &&& s3[i].available
            &&& s1[i].id == s[i].id && s2[i].id == s[i].id && s3[i].id == s[i].id
            &&& s3[i].path == s[i].path && s3[i].signature == s[i].signature
            &&& resolved_id(s3, kind, s[i].path@) == Some(s[i].id@)
        }),
{
    let s1 = reconciled(s, kind, pass1);
    let s2 = reconciled(s1, kind, pass2);
    let s3 = reconciled(s2, kind, pass3);
    lemma_same_keys_wf(s, s1);
    lemma_same_keys_wf(s1, s2);
    lemma_same_keys_wf(s2, s3);
    lemma_path_pos_unique(s3, kind, s[i].path@, i);
}

} // verus!
