//! Stable sorting of titles and entries by name (natural order) or by
//! modification time.
use std::cmp::Ordering;
use vstd::prelude::*;

verus! {

/// `natord::compare` on two texts.
pub uninterp spec fn natural_order(a: Seq<char>, b: Seq<char>) -> Ordering;

pub open spec fn flip(o: Ordering) -> Ordering {
    match o {
        Ordering::Less => Ordering::Greater,
        Ordering::Equal => Ordering::Equal,
        Ordering::Greater => Ordering::Less,
    }
}

/// Relies on `natord::compare`: digit runs compare by value and whitespace is
/// skipped; every branch of its loop is symmetric, so swapping the arguments
/// reverses the result.
#[verifier::external_body]
fn natural_cmp(a: &str, b: &str) -> (r: Ordering)
    ensures
        r == natural_order(a@, b@),
        natural_order(b@, a@) == flip(r),
{
    natord::compare(a, b)
}

/// Character-by-character order of two texts (the order of `str`).
pub open spec fn lexical_order(a: Seq<char>, b: Seq<char>) -> Ordering
    decreases a.len(),
{
    if a.len() == 0 && b.len() == 0 {
        Ordering::Equal
    } else if a.len() == 0 {
        Ordering::Less
    } else if b.len() == 0 {
        Ordering::Greater
    } else if (a[0] as u32) < (b[0] as u32) {
        Ordering::Less
    } else if (a[0] as u32) > (b[0] as u32) {
        Ordering::Greater
    } else {
        lexical_order(a.drop_first(), b.drop_first())
    }
}

proof fn lemma_lexical_flip(a: Seq<char>, b: Seq<char>)
    ensures
        lexical_order(b, a) == flip(lexical_order(a, b)),
    decreases a.len(),
{
    if a.len() > 0 && b.len() > 0 && a[0] as u32 == b[0] as u32 {
        lemma_lexical_flip(a.drop_first(), b.drop_first());
    }
}

/// Name order: natural order, ties broken by character order.
pub open spec fn name_order(a: Seq<char>, b: Seq<char>) -> Ordering {
    if natural_order(a, b) == Ordering::Equal {
        lexical_order(a, b)
    } else {
        natural_order(a, b)
    }
}

fn lexical_cmp(a: &str, b: &str) -> (r: Ordering)
    ensures
        r == lexical_order(a@, b@),
{
    let n = a.unicode_len();
    let m = b.unicode_len();
    let mut i: usize = 0;
    assert(a@.subrange(0, n as int) =~= a@);
    assert(b@.subrange(0, m as int) =~= b@);
    while i < n && i < m
        invariant
            n == a@.len(),
            m == b@.len(),
            i <= n,
            i <= m,
            lexical_order(a@, b@) == lexical_order(
                a@.subrange(i as int, n as int),
                b@.subrange(i as int, m as int),
            ),
        decreases n - i,
    {
        let x = a.get_char(i);
        let y = b.get_char(i);
        let ghost sa = a@.subrange(i as int, n as int);
        let ghost sb = b@.subrange(i as int, m as int);
        assert(sa[0] == x);
        assert(sb[0] == y);
        if (x as u32) < (y as u32) {
            return Ordering::Less;
        }
        if (x as u32) > (y as u32) {
            return Ordering::Greater;
        }
        assert(sa.drop_first() =~= a@.subrange(i + 1, n as int));
        assert(sb.drop_first() =~= b@.subrange(i + 1, m as int));
        i = i + 1;
    }
    if i == n && i == m {
        Ordering::Equal
    } else if i == n {
        Ordering::Less
    } else {
        Ordering::Greater
    }
}

/// Compare two names: natural order, then character order on ties.
pub fn compare_names(a: &str, b: &str) -> (r: Ordering)
    ensures
        r == name_order(a@, b@),
        name_order(b@, a@) == flip(r),
{
    let c = natural_cmp(a, b);
    proof {
        lemma_lexical_flip(a@, b@);
    }
    match c {
        Ordering::Equal => lexical_cmp(a, b),
        _ => c,
    }
}

/// Something that has a display name and a modification time.
pub trait Sortable {
    spec fn name_view(&self) -> Seq<char>;

    spec fn mtime_view(&self) -> i64;

    fn sort_name(&self) -> (r: &str)
        ensures
            r@ == self.name_view(),
    ;

    fn sort_mtime(&self) -> (r: i64)
        ensures
            r == self.mtime_view(),
    ;
}

/// Whether `a` may stand before `b` in the chosen order.
pub open spec fn may_precede<T: Sortable>(a: T, b: T, by_name: bool, ascending: bool) -> bool {
    if by_name {
        if ascending {
            name_order(a.name_view(), b.name_view()) != Ordering::Greater
        } else {
            name_order(b.name_view(), a.name_view()) != Ordering::Greater
        }
    } else {
        if ascending {
            a.mtime_view() <= b.mtime_view()
        } else {
            a.mtime_view() >= b.mtime_view()
        }
    }
}

/// Every neighbouring pair is in order.
pub open spec fn sorted_by<T: Sortable>(s: Seq<T>, by_name: bool, ascending: bool) -> bool {
    forall|k: int| 0 <= k < s.len() - 1 ==> may_precede(#[trigger] s[k], s[k + 1], by_name, ascending)
}

pub(crate) fn precedes<T: Sortable>(a: &T, b: &T, by_name: bool, ascending: bool) -> (r: bool)
    ensures
        r == may_precede(*a, *b, by_name, ascending),
        !r ==> may_precede(*b, *a, by_name, ascending),
{
    if by_name {
        let c = if ascending {
            compare_names(a.sort_name(), b.sort_name())
        } else {
            compare_names(b.sort_name(), a.sort_name())
        };
        match c {
            Ordering::Greater => false,
            _ => true,
        }
    } else {
        let x = a.sort_mtime();
        let y = b.sort_mtime();
        if ascending {
            x <= y
        } else {
            x >= y
        }
    }
}

proof fn lemma_reinsert<T>(s: Seq<T>, i: int, j: int)
    requires
        0 <= i < s.len(),
        0 <= j < s.len(),
    ensures
        s.remove(i).insert(j, s[i]).to_multiset() == s.to_multiset(),
{
    broadcast use vstd::multiset::group_multiset_axioms;

    vstd::seq_lib::to_multiset_remove(s, i);
    vstd::seq_lib::to_multiset_insert(s.remove(i), j, s[i]);
    vstd::seq_lib::to_multiset_contains(s, s[i]);
    assert(s.contains(s[i]));
    assert(s.remove(i).insert(j, s[i]).to_multiset() =~= s.to_multiset());
}

proof fn lemma_insert_keeps_sorted<T: Sortable>(
    mid: Seq<T>,
    j: int,
    i: int,
    x: T,
    by_name: bool,
    ascending: bool,
)
    requires
        0 <= j <= i <= mid.len(),
        forall|k: int| 0 <= k < i - 1 ==> may_precede(#[trigger] mid[k], mid[k + 1], by_name, ascending),
        j > 0 ==> may_precede(mid[j - 1], x, by_name, ascending),
        j < i ==> may_precede(x, mid[j], by_name, ascending),
    ensures
        forall|k: int|
            0 <= k < i ==> may_precede(#[trigger] mid.insert(j, x)[k], mid.insert(j, x)[k + 1], by_name, ascending),
{
    let s = mid.insert(j, x);
    assert forall|k: int| 0 <= k < i implies may_precede(#[trigger] s[k], s[k + 1], by_name, ascending) by {
        if k + 1 < j {
            assert(s[k] == mid[k]);
            assert(s[k + 1] == mid[k + 1]);
        } else if k + 1 == j {
            assert(s[k] == mid[k]);
            assert(s[k + 1] == x);
        } else if k == j {
            assert(s[k] == x);
            assert(s[k + 1] == mid[k]);
        } else {
            assert(s[k] == mid[k - 1]);
            assert(s[k + 1] == mid[k]);
        }
    }
}

/// `s` is `orig` rearranged: position `j` holds `orig[idx[j]]`, and the
/// positions in `idx` are distinct.
pub open spec fn arranged<T>(s: Seq<T>, orig: Seq<T>, idx: Seq<int>) -> bool {
    &&& s.len() == orig.len()
    &&& idx.len() == s.len()
    &&& forall|j: int| 0 <= j < s.len() ==> 0 <= #[trigger] idx[j] < s.len() && s[j] == orig[idx[j]]
    &&& forall|a: int, b: int| 0 <= a < b < s.len() ==> #[trigger] idx[a] != #[trigger] idx[b]
}

/// Elements that could stand in either order keep their original order.
pub open spec fn stable_by<T: Sortable>(s: Seq<T>, idx: Seq<int>, by_name: bool, ascending: bool) -> bool {
    forall|a: int, b: int|
        0 <= a < b < s.len() && may_precede(#[trigger] s[b], #[trigger] s[a], by_name, ascending) ==> idx[a]
            < idx[b]
}

proof fn lemma_insert_stable<T: Sortable>(
    orig: Seq<T>,
    before: Seq<T>,
    idx: Seq<int>,
    i: int,
    j: int,
    by_name: bool,
    ascending: bool,
)
    requires
        0 <= j <= i < before.len(),
        orig.len() == before.len(),
        idx.len() == before.len(),
        forall|p: int| 0 <= p < before.len() ==> 0 <= #[trigger] idx[p] < before.len() && before[p] == orig[idx[p]],
        forall|a: int, b: int| 0 <= a < b < before.len() ==> #[trigger] idx[a] != #[trigger] idx[b],
        forall|p: int| i <= p < before.len() ==> #[trigger] idx[p] == p,
        forall|p: int| 0 <= p < i ==> #[trigger] idx[p] < i,
        forall|a: int, b: int|
            0 <= a < b < i && may_precede(#[trigger] before[b], #[trigger] before[a], by_name, ascending) ==> idx[a]
                < idx[b],
        forall|k: int| j <= k < i ==> !may_precede(#[trigger] before[k], before[i], by_name, ascending),
    ensures
        ({
            let s = before.remove(i).insert(j, before[i]);
            let ix = idx.remove(i).insert(j, i);
            &&& s.len() == before.len()
            &&& ix.len() == before.len()
            &&& forall|p: int| 0 <= p < s.len() ==> 0 <= #[trigger] ix[p] < s.len() && s[p] == orig[ix[p]]
            &&& forall|a: int, b: int| 0 <= a < b < s.len() ==> #[trigger] ix[a] != #[trigger] ix[b]
            &&& forall|p: int| i + 1 <= p < s.len() ==> #[trigger] ix[p] == p
            &&& forall|p: int| 0 <= p < i + 1 ==> #[trigger] ix[p] < i + 1
            &&& forall|a: int, b: int|
                0 <= a < b < i + 1 && may_precede(#[trigger] s[b], #[trigger] s[a], by_name, ascending) ==> ix[a]
                    < ix[b]
        }),
{
    let x = before[i];
    let s = before.remove(i).insert(j, x);
    let ix = idx.remove(i).insert(j, i);
    let src = |p: int| if p < j { p } else if p == j { i } else if p <= i { p - 1 } else { p };
    assert forall|p: int| 0 <= p < s.len() implies s[p] == before[src(p)] && ix[p] == idx[src(p)] by {}
    assert forall|p: int| 0 <= p < s.len() implies 0 <= #[trigger] ix[p] < s.len() && s[p] == orig[ix[p]] by {
        assert(s[p] == before[src(p)] && ix[p] == idx[src(p)]);
    }
    assert forall|a: int, b: int| 0 <= a < b < s.len() implies #[trigger] ix[a] != #[trigger] ix[b] by {
        assert(ix[a] == idx[src(a)] && ix[b] == idx[src(b)]);
        if src(a) < src(b) {
        } else {
            assert(src(a) != src(b));
        }
    }
    assert forall|p: int| i + 1 <= p < s.len() implies #[trigger] ix[p] == p by {
        assert(ix[p] == idx[src(p)]);
    }
    assert forall|p: int| 0 <= p < i + 1 implies #[trigger] ix[p] < i + 1 by {
        assert(ix[p] == idx[src(p)]);
    }
    assert forall|a: int, b: int|
        0 <= a < b < i + 1 && may_precede(#[trigger] s[b], #[trigger] s[a], by_name, ascending) implies ix[a]
        < ix[b] by {
        assert(s[a] == before[src(a)] && ix[a] == idx[src(a)]);
        assert(s[b] == before[src(b)] && ix[b] == idx[src(b)]);
        if a == j {
            assert(j <= src(b) < i);
        } else if b == j {
            assert(src(a) < i);
        } else {
            assert(src(a) < src(b));
        }
    }
}

/// Stable insertion sort in the chosen order.
fn insertion_sort<T: Sortable>(items: &mut Vec<T>, by_name: bool, ascending: bool)
    ensures
        final(items)@.to_multiset() == old(items)@.to_multiset(),
        final(items)@.len() == old(items)@.len(),
        sorted_by(final(items)@, by_name, ascending),
        exists|idx: Seq<int>|
            arranged(final(items)@, old(items)@, idx) && stable_by(final(items)@, idx, by_name, ascending),
{
    let n = items.len();
    let ghost orig = items@;
    let ghost mut idx: Seq<int> = Seq::new(n as nat, |p: int| p);
    if n == 0 {
        assert(arranged(items@, orig, idx));
        assert(stable_by(items@, idx, by_name, ascending));
        return;
    }
    let mut i: usize = 1;
    while i < n
        invariant
            n == items@.len(),
            orig == old(items)@,
            orig.len() == n,
            1 <= i <= n,
            items@.to_multiset() == old(items)@.to_multiset(),
            forall|k: int| 0 <= k < i - 1 ==> may_precede(#[trigger] items@[k], items@[k + 1], by_name, ascending),
            idx.len() == n,
            forall|p: int| 0 <= p < n ==> 0 <= #[trigger] idx[p] < n && items@[p] == orig[idx[p]],
            forall|a: int, b: int| 0 <= a < b < n ==> #[trigger] idx[a] != #[trigger] idx[b],
            forall|p: int| i <= p < n ==> #[trigger] idx[p] == p,
            forall|p: int| 0 <= p < i ==> #[trigger] idx[p] < i,
            forall|a: int, b: int|
                0 <= a < b < i && may_precede(#[trigger] items@[b], #[trigger] items@[a], by_name, ascending)
                    ==> idx[a] < idx[b],
        decreases n - i,
    {
        let ghost before = items@;
        let x = items.remove(i);
        let mut j: usize = i;
        while j > 0 && !precedes(&items[j - 1], &x, by_name, ascending)
            invariant
                items@ == before.remove(i as int),
                before.len() == n,
                x == before[i as int],
                0 <= j <= i,
                i < n,
                n - 1 == items@.len(),
                forall|k: int| 0 <= k < i - 1 ==> may_precede(#[trigger] items@[k], items@[k + 1], by_name, ascending),
                forall|k: int| j <= k < i ==> may_precede(x, #[trigger] items@[k], by_name, ascending),
                forall|k: int| j <= k < i ==> !may_precede(#[trigger] before[k], x, by_name, ascending),
            decreases j,
        {
            proof {
                let jj = (j - 1) as int;
                assert(before.remove(i as int)[jj] == before[jj]);
            }
            j = j - 1;
        }
        let ghost mid = items@;
        items.insert(j, x);
        proof {
            assert(mid =~= before.remove(i as int));
            lemma_reinsert(before, i as int, j as int);
            lemma_insert_keeps_sorted(mid, j as int, i as int, x, by_name, ascending);
            lemma_insert_stable(orig, before, idx, i as int, j as int, by_name, ascending);
            idx = idx.remove(i as int).insert(j as int, i as int);
        }
        i = i + 1;
    }
    assert(arranged(items@, orig, idx));
    assert(stable_by(items@, idx, by_name, ascending));
}

/// Sort by name in natural order (ties by character order), stably.
pub fn sort_by_name<T: Sortable>(items: &mut Vec<T>, ascending: bool)
    ensures
        final(items)@.to_multiset() == old(items)@.to_multiset(),
        final(items)@.len() == old(items)@.len(),
        sorted_by(final(items)@, true, ascending),
        exists|idx: Seq<int>|
            arranged(final(items)@, old(items)@, idx) && stable_by(final(items)@, idx, true, ascending),
{
    insertion_sort(items, true, ascending)
}

/// Sort by modification time, oldest first when ascending, stably.
pub fn sort_by_mtime<T: Sortable>(items: &mut Vec<T>, ascending: bool)
    ensures
        final(items)@.to_multiset() == old(items)@.to_multiset(),
        final(items)@.len() == old(items)@.len(),
        sorted_by(final(items)@, false, ascending),
        exists|idx: Seq<int>|
            arranged(final(items)@, old(items)@, idx) && stable_by(final(items)@, idx, false, ascending),
{
    insertion_sort(items, false, ascending)
}

/// A type with a total order that can be checked.
pub trait TotalOrder: Sized {
    spec fn le_spec(a: Self, b: Self) -> bool;

    fn le(a: &Self, b: &Self) -> (r: bool)
        ensures
            r == Self::le_spec(*a, *b),
            !r ==> Self::le_spec(*b, *a),
    ;
}

impl TotalOrder for u64 {
    open spec fn le_spec(a: u64, b: u64) -> bool {
        a <= b
    }

    fn le(a: &u64, b: &u64) -> (r: bool) {
        *a <= *b
    }
}

impl TotalOrder for String {
    open spec fn le_spec(a: String, b: String) -> bool {
        lexical_order(a@, b@) != Ordering::Greater
    }

    fn le(a: &String, b: &String) -> (r: bool) {
        proof {
            lemma_lexical_flip(a@, b@);
        }
        match lexical_cmp(a.as_str(), b.as_str()) {
            Ordering::Greater => false,
            _ => true,
        }
    }
}

/// Every neighbouring pair is in ascending order.
pub open spec fn ascending<T: TotalOrder>(s: Seq<T>) -> bool {
    forall|k: int| 0 <= k < s.len() - 1 ==> T::le_spec(#[trigger] s[k], s[k + 1])
}

proof fn lemma_insert_keeps_ascending<T: TotalOrder>(mid: Seq<T>, j: int, i: int, x: T)
    requires
        0 <= j <= i <= mid.len(),
        forall|k: int| 0 <= k < i - 1 ==> T::le_spec(#[trigger] mid[k], mid[k + 1]),
        j > 0 ==> T::le_spec(mid[j - 1], x),
        j < i ==> T::le_spec(x, mid[j]),
    ensures
        forall|k: int| 0 <= k < i ==> T::le_spec(#[trigger] mid.insert(j, x)[k], mid.insert(j, x)[k + 1]),
{
    let s = mid.insert(j, x);
    assert forall|k: int| 0 <= k < i implies T::le_spec(#[trigger] s[k], s[k + 1]) by {
        if k + 1 < j {
            assert(s[k] == mid[k]);
            assert(s[k + 1] == mid[k + 1]);
        } else if k + 1 == j {
            assert(s[k] == mid[k]);
            assert(s[k + 1] == x);
        } else if k == j {
            assert(s[k] == x);
            assert(s[k + 1] == mid[k]);
        } else {
            assert(s[k] == mid[k - 1]);
            assert(s[k + 1] == mid[k]);
        }
    }
}

/// Stable ascending insertion sort.
pub fn sort_ascending<T: TotalOrder>(items: &mut Vec<T>)
    ensures
        final(items)@.to_multiset() == old(items)@.to_multiset(),
        final(items)@.len() == old(items)@.len(),
        ascending(final(items)@),
{
    let n = items.len();
    if n == 0 {
        return;
    }
    let mut i: usize = 1;
    while i < n
        invariant
            n == items@.len(),
            1 <= i <= n,
            items@.to_multiset() == old(items)@.to_multiset(),
            forall|k: int| 0 <= k < i - 1 ==> T::le_spec(#[trigger] items@[k], items@[k + 1]),
        decreases n - i,
    {
        let ghost before = items@;
        let x = items.remove(i);
        let mut j: usize = i;
        while j > 0 && !T::le(&items[j - 1], &x)
            invariant
                items@ == before.remove(i as int),
                x == before[i as int],
                0 <= j <= i,
                i < n,
                n - 1 == items@.len(),
                forall|k: int| 0 <= k < i - 1 ==> T::le_spec(#[trigger] items@[k], items@[k + 1]),
                forall|k: int| j <= k < i ==> T::le_spec(x, #[trigger] items@[k]),
            decreases j,
        {
            j = j - 1;
        }
        let ghost mid = items@;
        items.insert(j, x);
        proof {
            assert(mid =~= before.remove(i as int));
            lemma_reinsert(before, i as int, j as int);
            lemma_insert_keeps_ascending(mid, j as int, i as int, x);
        }
        i = i + 1;
    }
}

} // verus!
