//! Small association lists keyed by text, with a map view.
use vstd::prelude::*;

use crate::text::same_text;

verus! {

/// The last value stored for `(a, b)` in `s`.
pub open spec fn pair_lookup<V>(s: Seq<(String, String, V)>, a: Seq<char>, b: Seq<char>) -> Option<V>
    decreases s.len(),
{
    if s.len() == 0 {
        None
    } else if s.last().0@ == a && s.last().1@ == b {
        Some(s.last().2)
    } else {
        pair_lookup(s.drop_last(), a, b)
    }
}

/// The last value stored for `k` in `s`.
pub open spec fn text_lookup<V>(s: Seq<(String, V)>, k: Seq<char>) -> Option<V>
    decreases s.len(),
{
    if s.len() == 0 {
        None
    } else if s.last().0@ == k {
        Some(s.last().1)
    } else {
        text_lookup(s.drop_last(), k)
    }
}

/// Position of the last `(a, b)` in `s`, or -1.
pub open spec fn pair_pos<V>(s: Seq<(String, String, V)>, a: Seq<char>, b: Seq<char>) -> int
    decreases s.len(),
{
    if s.len() == 0 {
        -1
    } else if s.last().0@ == a && s.last().1@ == b {
        s.len() - 1
    } else {
        pair_pos(s.drop_last(), a, b)
    }
}

/// Position of the last `k` in `s`, or -1.
pub open spec fn text_pos<V>(s: Seq<(String, V)>, k: Seq<char>) -> int
    decreases s.len(),
{
    if s.len() == 0 {
        -1
    } else if s.last().0@ == k {
        s.len() - 1
    } else {
        text_pos(s.drop_last(), k)
    }
}

proof fn lemma_pair_pos<V>(s: Seq<(String, String, V)>, a: Seq<char>, b: Seq<char>)
    ensures
        -1 <= pair_pos(s, a, b) < s.len(),
        pair_pos(s, a, b) >= 0 ==> pair_lookup(s, a, b) == Some(s[pair_pos(s, a, b)].2),
        pair_pos(s, a, b) >= 0 ==> s[pair_pos(s, a, b)].0@ == a && s[pair_pos(s, a, b)].1@ == b,
        pair_pos(s, a, b) < 0 ==> pair_lookup(s, a, b) is None,
    decreases s.len(),
{
    if s.len() > 0 {
        lemma_pair_pos(s.drop_last(), a, b);
        let p = pair_pos(s.drop_last(), a, b);
        if p >= 0 {
            assert(s[p] == s.drop_last()[p]);
        }
    }
}

proof fn lemma_text_pos<V>(s: Seq<(String, V)>, k: Seq<char>)
    ensures
        -1 <= text_pos(s, k) < s.len(),
        text_pos(s, k) >= 0 ==> text_lookup(s, k) == Some(s[text_pos(s, k)].1),
        text_pos(s, k) >= 0 ==> s[text_pos(s, k)].0@ == k,
        text_pos(s, k) < 0 ==> text_lookup(s, k) is None,
    decreases s.len(),
{
    if s.len() > 0 {
        lemma_text_pos(s.drop_last(), k);
        let p = text_pos(s.drop_last(), k);
        if p >= 0 {
            assert(s[p] == s.drop_last()[p]);
        }
    }
}

proof fn lemma_pair_update<V>(s: Seq<(String, String, V)>, p: int, e: (String, String, V), a: Seq<char>, b: Seq<char>)
    requires
        0 <= p < s.len(),
        p == pair_pos(s, s[p].0@, s[p].1@),
        e.0@ == s[p].0@,
        e.1@ == s[p].1@,
    ensures
        (a == s[p].0@ && b == s[p].1@) ==> pair_lookup(s.update(p, e), a, b) == Some(e.2),
        !(a == s[p].0@ && b == s[p].1@) ==> pair_lookup(s.update(p, e), a, b) == pair_lookup(s, a, b),
    decreases s.len(),
{
    let t = s.update(p, e);
    if p == s.len() - 1 {
        assert(t.drop_last() =~= s.drop_last());
    } else {
        assert(t.drop_last() =~= s.drop_last().update(p, e));
        assert(s.drop_last()[p] == s[p]);
        assert(!(s.last().0@ == s[p].0@ && s.last().1@ == s[p].1@));
        lemma_pair_update(s.drop_last(), p, e, a, b);
    }
}

proof fn lemma_text_update<V>(s: Seq<(String, V)>, p: int, e: (String, V), k: Seq<char>)
    requires
        0 <= p < s.len(),
        p == text_pos(s, s[p].0@),
        e.0@ == s[p].0@,
    ensures
        k == s[p].0@ ==> text_lookup(s.update(p, e), k) == Some(e.1),
        k != s[p].0@ ==> text_lookup(s.update(p, e), k) == text_lookup(s, k),
    decreases s.len(),
{
    let t = s.update(p, e);
    if p == s.len() - 1 {
        assert(t.drop_last() =~= s.drop_last());
    } else {
        assert(t.drop_last() =~= s.drop_last().update(p, e));
        assert(s.drop_last()[p] == s[p]);
        lemma_text_update(s.drop_last(), p, e, k);
    }
}

/// Keep the items whose key pair differs from `(a, b)`.
pub open spec fn pair_without<V>(s: Seq<(String, String, V)>, a: Seq<char>, b: Seq<char>) -> Seq<
    (String, String, V),
>
    decreases s.len(),
{
    if s.len() == 0 {
        s
    } else if s.last().0@ == a && s.last().1@ == b {
        pair_without(s.drop_last(), a, b)
    } else {
        pair_without(s.drop_last(), a, b).push(s.last())
    }
}

proof fn lemma_pair_without<V>(s: Seq<(String, String, V)>, a: Seq<char>, b: Seq<char>, x: Seq<char>, y: Seq<char>)
    ensures
        (x == a && y == b) ==> pair_lookup(pair_without(s, a, b), x, y) is None,
        !(x == a && y == b) ==> pair_lookup(pair_without(s, a, b), x, y) == pair_lookup(s, x, y),
    decreases s.len(),
{
    if s.len() > 0 {
        lemma_pair_without(s.drop_last(), a, b, x, y);
        let r = pair_without(s.drop_last(), a, b);
        if !(s.last().0@ == a && s.last().1@ == b) {
            assert(r.push(s.last()).drop_last() =~= r);
        }
    }
}

/// Values keyed by a pair of texts.
pub struct PairMap<V> {
    items: Vec<(String, String, V)>,
}

/// Values keyed by a text.
pub struct TextMap<V> {
    items: Vec<(String, V)>,
}

impl<V: Copy> PairMap<V> {
    pub closed spec fn lookup(&self, a: Seq<char>, b: Seq<char>) -> Option<V> {
        pair_lookup(self.items@, a, b)
    }

    pub closed spec fn len_view(&self) -> nat {
        self.items@.len()
    }

    pub fn new() -> (r: Self)
        ensures
            forall|a: Seq<char>, b: Seq<char>| r.lookup(a, b) is None,
            r.len_view() == 0,
    {
        PairMap { items: Vec::new() }
    }

    /// Whether nothing is stored.
    pub fn is_empty(&self) -> (r: bool)
        ensures
            r == (self.len_view() == 0),
            r ==> forall|a: Seq<char>, b: Seq<char>| self.lookup(a, b) is None,
    {
        self.items.len() == 0
    }

    fn find(&self, a: &str, b: &str) -> (r: Option<usize>)
        ensures
            r is Some <==> pair_pos(self.items@, a@, b@) >= 0,
            r matches Some(i) ==> i == pair_pos(self.items@, a@, b@),
    {
        let mut i = self.items.len();
        assert(self.items@.subrange(0, i as int) =~= self.items@);
        while i > 0
            invariant
                i <= self.items@.len(),
                pair_pos(self.items@, a@, b@) == pair_pos(self.items@.subrange(0, i as int), a@, b@),
            decreases i,
        {
            let ghost pre = self.items@.subrange(0, i as int);
            assert(pre.drop_last() =~= self.items@.subrange(0, i - 1));
            if same_text(self.items[i - 1].0.as_str(), a) && same_text(self.items[i - 1].1.as_str(), b) {
                return Some(i - 1);
            }
            i = i - 1;
        }
        None
    }

    /// A map holding the given items; where a key pair repeats, the last
    /// item wins.
    pub fn from_items(items: Vec<(String, String, V)>) -> (r: Self)
        ensures
            forall|a: Seq<char>, b: Seq<char>| #[trigger] r.lookup(a, b) == pair_lookup(items@, a, b),
    {
        PairMap { items }
    }

    /// The stored items.
    pub fn items(&self) -> (r: &Vec<(String, String, V)>)
        ensures
            forall|a: Seq<char>, b: Seq<char>| #[trigger] self.lookup(a, b) == pair_lookup(r@, a, b),
    {
        &self.items
    }

    /// The value stored for `(a, b)`.
    pub fn get(&self, a: &str, b: &str) -> (r: Option<V>)
        ensures
            r == self.lookup(a@, b@),
    {
        proof {
            lemma_pair_pos(self.items@, a@, b@);
        }
        match self.find(a, b) {
            Some(i) => Some(self.items[i].2),
            None => None,
        }
    }

    /// Store `v` for `(a, b)`.
    pub fn insert(&mut self, a: &str, b: &str, v: V)
        ensures
            final(self).lookup(a@, b@) == Some(v),
            forall|x: Seq<char>, y: Seq<char>|
                !(x == a@ && y == b@) ==> #[trigger] final(self).lookup(x, y) == old(self).lookup(x, y),
    {
        proof {
            lemma_pair_pos(self.items@, a@, b@);
        }
        match self.find(a, b) {
            Some(i) => {
                let ghost s = self.items@;
                let (ka, kb, _) = self.items.remove(i);
                self.items.insert(i, (ka, kb, v));
                proof {
                    assert(self.items@ =~= s.update(i as int, self.items@[i as int]));
                    assert forall|x: Seq<char>, y: Seq<char>|
                        !(x == a@ && y == b@) implies #[trigger] pair_lookup(self.items@, x, y)
                        == pair_lookup(s, x, y) by {
                        lemma_pair_update(s, i as int, self.items@[i as int], x, y);
                    }
                    lemma_pair_update(s, i as int, self.items@[i as int], a@, b@);
                }
            },
            None => {
                let ghost s = self.items@;
                self.items.push((crate::text::text_of(a), crate::text::text_of(b), v));
                assert(self.items@.drop_last() =~= s);
            },
        }
    }

    /// Remove what is stored for `(a, b)`.
    pub fn remove(&mut self, a: &str, b: &str)
        ensures
            final(self).lookup(a@, b@) is None,
            forall|x: Seq<char>, y: Seq<char>|
                !(x == a@ && y == b@) ==> #[trigger] final(self).lookup(x, y) == old(self).lookup(x, y),
    {
        let ghost s = self.items@;
        let mut kept: Vec<(String, String, V)> = Vec::new();
        let n = self.items.len();
        let mut i: usize = 0;
        while i < n
            invariant
                n == s.len(),
                i <= n,
                self.items@ == s.subrange(i as int, n as int),
                kept@ == pair_without(s.subrange(0, i as int), a@, b@),
                s == old(self).items@,
            decreases n - i,
        {
            let ghost next = s.subrange(0, i as int + 1);
            assert(next.drop_last() =~= s.subrange(0, i as int));
            assert(self.items@[0] == s[i as int]);
            let item = self.items.remove(0);
            assert(self.items@ =~= s.subrange(i as int + 1, n as int));
            if !(same_text(item.0.as_str(), a) && same_text(item.1.as_str(), b)) {
                kept.push(item);
            }
            i = i + 1;
        }
        assert(s.subrange(0, n as int) =~= s);
        self.items = kept;
        proof {
            lemma_pair_without(s, a@, b@, a@, b@);
            assert forall|x: Seq<char>, y: Seq<char>|
                !(x == a@ && y == b@) implies #[trigger] pair_lookup(self.items@, x, y) == pair_lookup(s, x, y) by {
                lemma_pair_without(s, a@, b@, x, y);
            }
        }
    }
}

impl<V: Copy> TextMap<V> {
    pub closed spec fn lookup(&self, k: Seq<char>) -> Option<V> {
        text_lookup(self.items@, k)
    }

    pub fn new() -> (r: Self)
        ensures
            forall|k: Seq<char>| r.lookup(k) is None,
    {
        TextMap { items: Vec::new() }
    }

    fn find(&self, k: &str) -> (r: Option<usize>)
        ensures
            r is Some <==> text_pos(self.items@, k@) >= 0,
            r matches Some(i) ==> i == text_pos(self.items@, k@),
    {
        let mut i = self.items.len();
        assert(self.items@.subrange(0, i as int) =~= self.items@);
        while i > 0
            invariant
                i <= self.items@.len(),
                text_pos(self.items@, k@) == text_pos(self.items@.subrange(0, i as int), k@),
            decreases i,
        {
            let ghost pre = self.items@.subrange(0, i as int);
            assert(pre.drop_last() =~= self.items@.subrange(0, i - 1));
            if same_text(self.items[i - 1].0.as_str(), k) {
                return Some(i - 1);
            }
            i = i - 1;
        }
        None
    }

    /// A map holding the given items; where a key repeats, the last item
    /// wins.
    pub fn from_items(items: Vec<(String, V)>) -> (r: Self)
        ensures
            forall|k: Seq<char>| #[trigger] r.lookup(k) == text_lookup(items@, k),
    {
        TextMap { items }
    }

    /// The stored items.
    pub fn items(&self) -> (r: &Vec<(String, V)>)
        ensures
            forall|k: Seq<char>| #[trigger] self.lookup(k) == text_lookup(r@, k),
    {
        &self.items
    }

    /// The value stored for `k`.
    pub fn get(&self, k: &str) -> (r: Option<V>)
        ensures
            r == self.lookup(k@),
    {
        proof {
            lemma_text_pos(self.items@, k@);
        }
        match self.find(k) {
            Some(i) => Some(self.items[i].1),
            None => None,
        }
    }

    /// Store `v` for `k`.
    pub fn insert(&mut self, k: &str, v: V)
        ensures
            final(self).lookup(k@) == Some(v),
            forall|x: Seq<char>| x != k@ ==> #[trigger] final(self).lookup(x) == old(self).lookup(x),
    {
        proof {
            lemma_text_pos(self.items@, k@);
        }
        match self.find(k) {
            Some(i) => {
                let ghost s = self.items@;
                let (kk, _) = self.items.remove(i);
                self.items.insert(i, (kk, v));
                proof {
                    assert(self.items@ =~= s.update(i as int, self.items@[i as int]));
                    assert forall|x: Seq<char>| x != k@ implies #[trigger] text_lookup(self.items@, x)
                        == text_lookup(s, x) by {
                        lemma_text_update(s, i as int, self.items@[i as int], x);
                    }
                    lemma_text_update(s, i as int, self.items@[i as int], k@);
                }
            },
            None => {
                let ghost s = self.items@;
                self.items.push((crate::text::text_of(k), v));
                assert(self.items@.drop_last() =~= s);
            },
        }
    }
}

} // verus!
