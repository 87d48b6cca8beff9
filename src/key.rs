//! Deterministic, namespaced cache keys: the namespace prefix stays visible
//! in front of a SHA-256 digest of the prefix and the key's parameters.
use sha2::Digest;
use vstd::prelude::*;

use crate::text::{hex_of, push_hex, text_of};

verus! {

/// The SHA-256 digest of the UTF-8 encoding of a text.
pub uninterp spec fn sha256_of_text(text: Seq<char>) -> Seq<u8>;

/// Relies on `sha2::Sha256::digest`: 32 bytes, a function of the input text.
#[verifier::external_body]
fn sha256_text(text: &str) -> (r: Vec<u8>)
    ensures
        r@ == sha256_of_text(text@),
        r@.len() == 32,
{
    sha2::Sha256::digest(text.as_bytes()).to_vec()
}

pub open spec fn sorted_titles_prefix() -> Seq<char> {
    "sorted_titles:"@
}

pub open spec fn sorted_entries_prefix() -> Seq<char> {
    "sorted_entries:"@
}

pub open spec fn progress_sum_prefix() -> Seq<char> {
    "progress_sum:"@
}

pub open spec fn info_json_prefix() -> Seq<char> {
    "info_json:"@
}

pub open spec fn colon() -> Seq<char> {
    seq![':']
}

/// `true` / `false` as text.
pub open spec fn bool_text(b: bool) -> Seq<char> {
    if b {
        seq!['t', 'r', 'u', 'e']
    } else {
        seq!['f', 'a', 'l', 's', 'e']
    }
}

/// The identifiers joined by commas, in the order given.
pub open spec fn join_ids(ids: Seq<Seq<char>>) -> Seq<char>
    decreases ids.len(),
{
    if ids.len() == 0 {
        Seq::empty()
    } else if ids.len() == 1 {
        ids[0]
    } else {
        join_ids(ids.drop_last()) + seq![','] + ids.last()
    }
}

/// Views of a list of strings.
pub open spec fn texts(ids: Seq<String>) -> Seq<Seq<char>> {
    ids.map_values(|s: String| s@)
}

/// A key: the prefix, then the hex digest of the prefix followed by the data.
pub open spec fn hashed_key(prefix: Seq<char>, data: Seq<char>) -> Seq<char> {
    prefix + hex_of(sha256_of_text(prefix + data))
}

pub open spec fn titles_key_data(
    username: Seq<char>,
    ids: Seq<Seq<char>>,
    method: Seq<char>,
    ascending: bool,
) -> Seq<char> {
    username + colon() + join_ids(ids) + colon() + method + colon() + bool_text(ascending)
}

pub open spec fn entries_key_data(
    title_id: Seq<char>,
    username: Seq<char>,
    ids: Seq<Seq<char>>,
    method: Seq<char>,
    ascending: bool,
) -> Seq<char> {
    title_id + colon() + titles_key_data(username, ids, method, ascending)
}

pub open spec fn progress_key_data(
    title_id: Seq<char>,
    username: Seq<char>,
    signature: Seq<char>,
) -> Seq<char> {
    title_id + colon() + username + colon() + signature
}

pub open spec fn sorted_titles_key_spec(
    username: Seq<char>,
    ids: Seq<Seq<char>>,
    method: Seq<char>,
    ascending: bool,
) -> Seq<char> {
    hashed_key(sorted_titles_prefix(), titles_key_data(username, ids, method, ascending))
}

pub open spec fn sorted_entries_key_spec(
    title_id: Seq<char>,
    username: Seq<char>,
    ids: Seq<Seq<char>>,
    method: Seq<char>,
    ascending: bool,
) -> Seq<char> {
    hashed_key(
        sorted_entries_prefix(),
        entries_key_data(title_id, username, ids, method, ascending),
    )
}

pub open spec fn progress_sum_key_spec(
    title_id: Seq<char>,
    username: Seq<char>,
    signature: Seq<char>,
) -> Seq<char> {
    hashed_key(progress_sum_prefix(), progress_key_data(title_id, username, signature))
}

/// SHA-256 of `prefix` followed by `data`, rendered after the prefix.
fn hash_key(prefix: &str, data: &str) -> (r: String)
    ensures
        r@ == hashed_key(prefix@, data@),
        r@.len() == prefix@.len() + 64,
{
    let mut input = text_of(prefix);
    input.append(data);
    let digest = sha256_text(input.as_str());
    let mut out = text_of(prefix);
    push_hex(&mut out, &digest);
    proof {
        crate::text::lemma_hex_len(digest@);
    }
    out
}

fn bool_str(b: bool) -> (r: &'static str)
    ensures
        r@ == bool_text(b),
{
    proof {
        reveal_strlit("true");
        reveal_strlit("false");
    }
    let r = if b {
        "true"
    } else {
        "false"
    };
    assert(r@ =~= bool_text(b));
    r
}

/// Appends the identifiers, separated by commas, to `out`.
fn push_joined(out: &mut String, ids: &[String])
    ensures
        final(out)@ == old(out)@ + join_ids(texts(ids@)),
{
    let n = ids.len();
    let mut i: usize = 0;
    while i < n
        invariant
            n == ids@.len(),
            i <= n,
            out@ == old(out)@ + join_ids(texts(ids@.subrange(0, i as int))),
        decreases n - i,
    {
        let ghost pre = texts(ids@.subrange(0, i as int));
        let ghost next = texts(ids@.subrange(0, i as int + 1));
        assert(next.drop_last() =~= pre);
        assert(next.last() == ids@[i as int]@);
        if i > 0 {
            out.append(",");
            proof {
                reveal_strlit(",");
            }
        }
        out.append(ids[i].as_str());
        proof {
            if i == 0 {
                assert(pre.len() == 0);
                assert(next.len() == 1);
            }
            assert(out@ =~= old(out)@ + join_ids(next));
        }
        i = i + 1;
    }
    assert(ids@.subrange(0, n as int) =~= ids@);
}

/// Key of a cached sorted title list, isolated per user, id set, sort method
/// and direction.
pub fn sorted_titles_key(
    username: &str,
    title_ids: &[String],
    sort_method: &str,
    ascending: bool,
) -> (r: String)
    ensures
        r@.len() == "sorted_titles:"@.len() + 64,
        r@ == sorted_titles_key_spec(username@, texts(title_ids@), sort_method@, ascending),
{
    proof {
        reveal_strlit(":");
    }
    let mut data = text_of(username);
    data.append(":");
    push_joined(&mut data, title_ids);
    data.append(":");
    data.append(sort_method);
    data.append(":");
    data.append(bool_str(ascending));
    assert(data@ =~= titles_key_data(username@, texts(title_ids@), sort_method@, ascending));
    hash_key("sorted_titles:", data.as_str())
}

/// Key of a cached sorted entry list of one title.
pub fn sorted_entries_key(
    title_id: &str,
    username: &str,
    entry_ids: &[String],
    sort_method: &str,
    ascending: bool,
) -> (r: String)
    ensures
        r@.len() == "sorted_entries:"@.len() + 64,
        r@ == sorted_entries_key_spec(
            title_id@,
            username@,
            texts(entry_ids@),
            sort_method@,
            ascending,
        ),
{
    proof {
        reveal_strlit(":");
    }
    let mut data = text_of(title_id);
    data.append(":");
    data.append(username);
    data.append(":");
    push_joined(&mut data, entry_ids);
    data.append(":");
    data.append(sort_method);
    data.append(":");
    data.append(bool_str(ascending));
    assert(data@ =~= entries_key_data(
        title_id@,
        username@,
        texts(entry_ids@),
        sort_method@,
        ascending,
    ));
    hash_key("sorted_entries:", data.as_str())
}

/// Key of a cached progress sum; the entry signature makes it change when the
/// title's entries change.
pub fn progress_sum_key(title_id: &str, username: &str, entry_signature: &str) -> (r: String)
    ensures
        r@.len() == "progress_sum:"@.len() + 64,
        r@ == progress_sum_key_spec(title_id@, username@, entry_signature@),
{
    proof {
        reveal_strlit(":");
    }
    let mut data = text_of(title_id);
    data.append(":");
    data.append(username);
    data.append(":");
    data.append(entry_signature);
    assert(data@ =~= progress_key_data(title_id@, username@, entry_signature@));
    hash_key("progress_sum:", data.as_str())
}

/// Key of cached directory metadata, keyed by the directory path.
pub fn info_json_key(dir_path: &str) -> (r: String)
    ensures
        r@.len() == "info_json:"@.len() + 64,
        r@ == hashed_key(info_json_prefix(), dir_path@),
{
    hash_key("info_json:", dir_path)
}

proof fn lemma_cancel_suffix(a: Seq<char>, b: Seq<char>, s: Seq<char>)
    requires
        a + s == b + s,
    ensures
        a == b,
{
    assert(a =~= (a + s).subrange(0, a.len() as int));
    assert(b =~= (b + s).subrange(0, b.len() as int));
}

proof fn lemma_cancel_prefix(p: Seq<char>, a: Seq<char>, b: Seq<char>)
    requires
        p + a == p + b,
    ensures
        a == b,
{
    assert(a =~= (p + a).subrange(p.len() as int, (p + a).len() as int));
    assert(b =~= (p + b).subrange(p.len() as int, (p + b).len() as int));
}

/// What the digest of a sorted-titles key is taken over.
pub open spec fn titles_digest_input(
    username: Seq<char>,
    ids: Seq<Seq<char>>,
    method: Seq<char>,
    ascending: bool,
) -> Seq<char> {
    sorted_titles_prefix() + titles_key_data(username, ids, method, ascending)
}

/// Key isolation of sorted-title keys: the key is the prefix followed by the
/// digest of `titles_digest_input`, so equal parameters give equal keys; and
/// two calls that differ only in the user, only in the sort method, or only
/// in the direction hash different inputs.
pub proof fn lemma_sorted_titles_key_isolation(
    u1: Seq<char>,
    u2: Seq<char>,
    ids: Seq<Seq<char>>,
    m1: Seq<char>,
    m2: Seq<char>,
    a1: bool,
    a2: bool,
)
    ensures
        sorted_titles_key_spec(u1, ids, m1, a1) == hashed_key(
            sorted_titles_prefix(),
            titles_key_data(u1, ids, m1, a1),
        ),
        u1 != u2 ==> titles_digest_input(u1, ids, m1, a1) != titles_digest_input(u2, ids, m1, a1),
        m1 != m2 ==> titles_digest_input(u1, ids, m1, a1) != titles_digest_input(u1, ids, m2, a1),
        a1 != a2 ==> titles_digest_input(u1, ids, m1, a1) != titles_digest_input(u1, ids, m1, a2),
{
    let p = sorted_titles_prefix();
    let rest = colon() + join_ids(ids) + colon() + m1 + colon() + bool_text(a1);
    if u1 != u2 && titles_digest_input(u1, ids, m1, a1) == titles_digest_input(u2, ids, m1, a1) {
        assert(titles_digest_input(u1, ids, m1, a1) =~= p + (u1 + rest));
        assert(titles_digest_input(u2, ids, m1, a1) =~= p + (u2 + rest));
        lemma_cancel_prefix(p, u1 + rest, u2 + rest);
        lemma_cancel_suffix(u1, u2, rest);
    }
    let head = p + u1 + colon() + join_ids(ids) + colon();
    let tail = colon() + bool_text(a1);
    if m1 != m2 && titles_digest_input(u1, ids, m1, a1) == titles_digest_input(u1, ids, m2, a1) {
        assert(titles_digest_input(u1, ids, m1, a1) =~= head + (m1 + tail));
        assert(titles_digest_input(u1, ids, m2, a1) =~= head + (m2 + tail));
        lemma_cancel_prefix(head, m1 + tail, m2 + tail);
        lemma_cancel_suffix(m1, m2, tail);
    }
    if a1 != a2 {
        assert(titles_digest_input(u1, ids, m1, a1).len() != titles_digest_input(
            u1,
            ids,
            m1,
            a2,
        ).len());
    }
}

/// Key isolation of sorted-entry keys: two calls that differ only in the
/// title or only in the user hash different inputs.
pub proof fn lemma_sorted_entries_key_isolation(
    t1: Seq<char>,
    t2: Seq<char>,
    u1: Seq<char>,
    u2: Seq<char>,
    ids: Seq<Seq<char>>,
    m: Seq<char>,
    a: bool,
)
    ensures
        t1 != t2 ==> entries_key_data(t1, u1, ids, m, a) != entries_key_data(t2, u1, ids, m, a),
        u1 != u2 ==> entries_key_data(t1, u1, ids, m, a) != entries_key_data(t1, u2, ids, m, a),
{
    let rest = colon() + titles_key_data(u1, ids, m, a);
    if t1 != t2 && entries_key_data(t1, u1, ids, m, a) == entries_key_data(t2, u1, ids, m, a) {
        assert(entries_key_data(t1, u1, ids, m, a) =~= t1 + rest);
        assert(entries_key_data(t2, u1, ids, m, a) =~= t2 + rest);
        lemma_cancel_suffix(t1, t2, rest);
    }
    let tail = colon() + join_ids(ids) + colon() + m + colon() + bool_text(a);
    let head = t1 + colon();
    if u1 != u2 && entries_key_data(t1, u1, ids, m, a) == entries_key_data(t1, u2, ids, m, a) {
        assert(entries_key_data(t1, u1, ids, m, a) =~= head + (u1 + tail));
        assert(entries_key_data(t1, u2, ids, m, a) =~= head + (u2 + tail));
        lemma_cancel_prefix(head, u1 + tail, u2 + tail);
        lemma_cancel_suffix(u1, u2, tail);
    }
}

} // verus!
