//! Closed intervals of coordinate keys and the merging that turns the extents
//! of many boxes into the row (or column) bands of a page.

use vstd::prelude::*;

verus! {

/// A closed interval `[start, end]` of coordinate keys.
pub type Interval = (u32, u32);

pub open spec fn min_u32(a: u32, b: u32) -> u32 {
    if a <= b { a } else { b }
}

pub open spec fn max_u32(a: u32, b: u32) -> u32 {
    if a >= b { a } else { b }
}

/// `b` and `[start, end]` share more than an end point.
pub open spec fn overlaps(b: Interval, start: u32, end: u32) -> bool {
    b.0 < end && start < b.1
}

/// The smallest interval covering `a` and `b`.
pub open spec fn hull(a: Interval, b: Interval) -> Interval {
    (min_u32(a.0, b.0), max_u32(a.1, b.1))
}

/// `i` is the first position of `s` whose interval overlaps `[start, end]`.
pub open spec fn is_first_overlap(s: Seq<Interval>, start: u32, end: u32, i: int) -> bool {
    &&& 0 <= i < s.len()
    &&& overlaps(s[i], start, end)
    &&& forall|j: int| 0 <= j < i ==> !overlaps(#[trigger] s[j], start, end)
}

/// `s` after folding `[start, end]` into it: the first overlapping interval
/// grows to cover it, and without one the interval is appended.
pub open spec fn merged_into(s: Seq<Interval>, start: u32, end: u32) -> Seq<Interval> {
    if exists|i: int| is_first_overlap(s, start, end, i) {
        let i = choose|i: int| is_first_overlap(s, start, end, i);
        s.update(i, hull(s[i], (start, end)))
    } else {
        s.push((start, end))
    }
}

/// The intervals of `s`, folded one after the other into an empty list.
pub open spec fn merge_all(s: Seq<Interval>) -> Seq<Interval>
    decreases s.len(),
{
    if s.len() == 0 {
        Seq::empty()
    } else {
        let prev = merge_all(s.drop_last());
        merged_into(prev, s.last().0, s.last().1)
    }
}

/// Number of leading items of `s` whose key is at most `k`.
pub open spec fn insertion_point<T>(s: Seq<(u32, T)>, k: u32) -> int
    decreases s.len(),
{
    if s.len() == 0 {
        0
    } else if s[0].0 <= k {
        1 + insertion_point(s.drop_first(), k)
    } else {
        0
    }
}

/// `s` sorted by key; items with equal keys keep their order.
pub open spec fn sort_by_key<T>(s: Seq<(u32, T)>) -> Seq<(u32, T)>
    decreases s.len(),
{
    if s.len() == 0 {
        s
    } else {
        let t = sort_by_key(s.drop_last());
        t.insert(insertion_point(t, s.last().0), s.last())
    }
}

/// `s` with each interval that overlaps the interval kept before it merged
/// into that one, scanning from the front.
pub open spec fn coalesce(s: Seq<Interval>) -> Seq<Interval>
    decreases s.len(),
{
    if s.len() == 0 {
        s
    } else {
        let acc = coalesce(s.drop_last());
        let x = s.last();
        if acc.len() > 0 && overlaps(acc.last(), x.0, x.1) {
            acc.update(acc.len() - 1, hull(acc.last(), x))
        } else {
            acc.push(x)
        }
    }
}

/// The bands of a list of extents: all merged, sorted by start, and
/// neighbouring overlaps merged once more.
pub open spec fn bands_of(s: Seq<Interval>) -> Seq<Interval> {
    coalesce(sort_by_key(merge_all(s)))
}

/// `p` lies in `b`, ends included.
pub open spec fn contains_point(b: Interval, p: u32) -> bool {
    b.0 <= p && p <= b.1
}

/// `i` is the first position of `s` whose interval contains `p`.
pub open spec fn is_first_containing(s: Seq<Interval>, p: u32, i: int) -> bool {
    &&& 0 <= i < s.len()
    &&& contains_point(s[i], p)
    &&& forall|j: int| 0 <= j < i ==> !contains_point(#[trigger] s[j], p)
}

/// The first position of `s` whose interval contains `p`, if any.
pub open spec fn first_containing(s: Seq<Interval>, p: u32) -> Option<int> {
    if exists|i: int| is_first_containing(s, p, i) {
        Some(choose|i: int| is_first_containing(s, p, i))
    } else {
        None
    }
}

proof fn lemma_first_overlap_unique(s: Seq<Interval>, start: u32, end: u32, i: int, k: int)
    requires
        is_first_overlap(s, start, end, i),
        is_first_overlap(s, start, end, k),
    ensures
        i == k,
{
    if i < k {
        assert(!overlaps(s[i], start, end));
    } else if k < i {
        assert(!overlaps(s[k], start, end));
    }
}

proof fn lemma_first_containing_unique(s: Seq<Interval>, p: u32, i: int, k: int)
    requires
        is_first_containing(s, p, i),
        is_first_containing(s, p, k),
    ensures
        i == k,
{
    if i < k {
        assert(!contains_point(s[i], p));
    } else if k < i {
        assert(!contains_point(s[k], p));
    }
}

/// Merge `[start, end]` into the band list: the first band it overlaps grows
/// to cover it; if there is none, it is appended.
pub fn merge_interval(bounds: &mut Vec<Interval>, start: u32, end: u32)
    ensures
        final(bounds)@ == merged_into(old(bounds)@, start, end),
{
    let n = bounds.len();
    let mut i: usize = 0;
    while i < n
        invariant
            n == bounds@.len(),
            bounds@ == old(bounds)@,
            i <= n,
            forall|j: int| 0 <= j < i ==> !overlaps(#[trigger] bounds@[j], start, end),
        decreases n - i,
    {
        let b = bounds[i];
        if b.0 < end && start < b.1 {
            let lo = if b.0 <= start { b.0 } else { start };
            let hi = if b.1 >= end { b.1 } else { end };
            proof {
                assert(is_first_overlap(bounds@, start, end, i as int));
                let k = choose|k: int| is_first_overlap(bounds@, start, end, k);
                lemma_first_overlap_unique(bounds@, start, end, i as int, k);
            }
            bounds.set(i, (lo, hi));
            return;
        }
        i = i + 1;
    }
    bounds.push((start, end));
}

/// Sort by key, keeping the order of items with equal keys.
pub fn stable_sort_by_key<T: Copy>(items: &mut Vec<(u32, T)>)
    ensures
        final(items)@ == sort_by_key(old(items)@),
{
    let n = items.len();
    let mut out: Vec<(u32, T)> = Vec::new();
    let mut i: usize = 0;
    while i < n
        invariant
            n == items@.len(),
            items@ == old(items)@,
            i <= n,
            out@ == sort_by_key(items@.take(i as int)),
        decreases n - i,
    {
        let x = items[i];
        let k = x.0;
        let m = out.len();
        let mut p: usize = 0;
        while p < m && out[p].0 <= k
            invariant
                m == out@.len(),
                p <= m,
                forall|j: int| 0 <= j < p ==> (#[trigger] out@[j]).0 <= k,
            decreases m - p,
        {
            p = p + 1;
        }
        proof {
            lemma_insertion_point(out@, k, p as int);
            assert(items@.take(i + 1).drop_last() =~= items@.take(i as int));
        }
        out.insert(p, x);
        i = i + 1;
    }
    proof {
        assert(items@.take(n as int) =~= items@);
    }
    *items = out;
}

/// The insertion point is the first position whose key exceeds `k`.
proof fn lemma_insertion_point<T>(s: Seq<(u32, T)>, k: u32, p: int)
    requires
        0 <= p <= s.len(),
        forall|j: int| 0 <= j < p ==> (#[trigger] s[j]).0 <= k,
        p == s.len() || s[p].0 > k,
    ensures
        insertion_point(s, k) == p,
    decreases p,
{
    if p > 0 {
        let t = s.drop_first();
        assert forall|j: int| 0 <= j < p - 1 implies (#[trigger] t[j]).0 <= k by {
            assert(t[j] == s[j + 1]);
        }
        if p < s.len() {
            assert(t[p - 1] == s[p]);
        }
        lemma_insertion_point(t, k, p - 1);
    }
}

/// After sorting by start, merge every band that overlaps the one kept
/// before it.
pub fn post_merge(bounds: &mut Vec<Interval>)
    ensures
        final(bounds)@ == coalesce(old(bounds)@),
{
    let ghost orig = bounds@;
    if bounds.len() == 0 {
        return;
    }
    let mut i: usize = 0;
    let ghost mut k: int = 1;
    proof {
        assert(orig.take(1).drop_last() =~= orig.take(0));
        assert(coalesce(orig.take(0)) =~= Seq::<Interval>::empty());
        assert(coalesce(orig.take(1)) =~= seq![orig[0]]);
        assert(bounds@ =~= coalesce(orig.take(1)) + orig.skip(1));
    }
    while bounds.len() - i > 1
        invariant
            1 <= k <= orig.len(),
            bounds@ == coalesce(orig.take(k)) + orig.skip(k),
            coalesce(orig.take(k)).len() == i + 1,
            i < bounds@.len(),
        decreases orig.len() - k,
    {
        let ghost acc = coalesce(orig.take(k));
        let cur = bounds[i];
        let next = bounds[i + 1];
        proof {
            assert(orig.take(k + 1).drop_last() =~= orig.take(k));
            assert(orig.take(k + 1).last() == orig[k]);
            assert(next == orig[k]);
            assert(cur == acc.last());
        }
        if cur.0 < next.1 && next.0 < cur.1 {
            let lo = if cur.0 <= next.0 { cur.0 } else { next.0 };
            let hi = if cur.1 >= next.1 { cur.1 } else { next.1 };
            bounds.set(i, (lo, hi));
            bounds.remove(i + 1);
            proof {
                assert(bounds@ =~= coalesce(orig.take(k + 1)) + orig.skip(k + 1));
            }
        } else {
            i = i + 1;
            proof {
                assert(bounds@ =~= coalesce(orig.take(k + 1)) + orig.skip(k + 1));
            }
        }
        proof {
            k = k + 1;
        }
    }
    proof {
        assert(orig.skip(k).len() == 0);
        assert(orig.take(k) =~= orig);
        assert(bounds@ =~= coalesce(orig));
    }
}

/// Position of the first band that contains `point`, ends included.
pub fn find_interval(bounds: &[Interval], point: u32) -> (r: Option<usize>)
    ensures
        match first_containing(bounds@, point) {
            Some(i) => r == Some(i as usize),
            None => r is None,
        },
{
    let n = bounds.len();
    let mut i: usize = 0;
    while i < n
        invariant
            n == bounds@.len(),
            i <= n,
            forall|j: int| 0 <= j < i ==> !contains_point(#[trigger] bounds@[j], point),
        decreases n - i,
    {
        let b = bounds[i];
        if b.0 <= point && point <= b.1 {
            proof {
                assert(is_first_containing(bounds@, point, i as int));
                let k = choose|k: int| is_first_containing(bounds@, point, k);
                lemma_first_containing_unique(bounds@, point, i as int, k);
            }
            return Some(i);
        }
        i = i + 1;
    }
    None
}

/// The bands of a list of extents: every extent merged in order, the result
/// sorted by start and neighbouring overlaps merged.
pub fn bands(extents: &Vec<Interval>) -> (r: Vec<Interval>)
    ensures
        r@ == bands_of(extents@),
{
    let n = extents.len();
    let mut acc: Vec<Interval> = Vec::new();
    let mut i: usize = 0;
    while i < n
        invariant
            n == extents@.len(),
            i <= n,
            acc@ == merge_all(extents@.take(i as int)),
        decreases n - i,
    {
        let e = extents[i];
        proof {
            assert(extents@.take(i + 1).drop_last() =~= extents@.take(i as int));
        }
        merge_interval(&mut acc, e.0, e.1);
        i = i + 1;
    }
    proof {
        assert(extents@.take(n as int) =~= extents@);
    }
    stable_sort_by_key(&mut acc);
    post_merge(&mut acc);
    acc
}

/// The items are in key order.
pub open spec fn sorted_by_key<T>(s: Seq<(u32, T)>) -> bool {
    forall|i: int, j: int| 0 <= i < j < s.len() ==> s[i].0 <= s[j].0
}

proof fn lemma_insertion_point_bounds<T>(s: Seq<(u32, T)>, k: u32)
    ensures
        0 <= insertion_point(s, k) <= s.len(),
        forall|j: int| 0 <= j < insertion_point(s, k) ==> (#[trigger] s[j]).0 <= k,
        insertion_point(s, k) < s.len() ==> s[insertion_point(s, k)].0 > k,
    decreases s.len(),
{
    if s.len() > 0 && s[0].0 <= k {
        let t = s.drop_first();
        lemma_insertion_point_bounds(t, k);
        assert forall|j: int| 0 <= j < insertion_point(s, k) implies (#[trigger] s[j]).0 <= k by {
            if j > 0 {
                assert(s[j] == t[j - 1]);
            }
        }
        if insertion_point(s, k) < s.len() {
            assert(s[insertion_point(s, k)] == t[insertion_point(t, k)]);
        }
    }
}

/// Sorting by key puts the items in key order and keeps exactly the items
/// it was given.
pub proof fn lemma_sort_by_key_sorted_permutation<T>(s: Seq<(u32, T)>)
    ensures
        sorted_by_key(sort_by_key(s)),
        sort_by_key(s).to_multiset() == s.to_multiset(),
        sort_by_key(s).len() == s.len(),
    decreases s.len(),
{
    broadcast use vstd::seq_lib::group_to_multiset_ensures;

    if s.len() > 0 {
        let t = sort_by_key(s.drop_last());
        lemma_sort_by_key_sorted_permutation(s.drop_last());
        let x = s.last();
        let p = insertion_point(t, x.0);
        lemma_insertion_point_bounds(t, x.0);
        let u = t.insert(p, x);
        assert forall|i: int, j: int| 0 <= i < j < u.len() implies u[i].0 <= u[j].0 by {
            if j < p {
                assert(u[i] == t[i] && u[j] == t[j]);
            } else if j == p {
                assert(u[i] == t[i]);
            } else if i == p {
                assert(u[j] == t[j - 1]);
                assert(t[p].0 > x.0);
                if j - 1 > p {
                    assert(t[p].0 <= t[j - 1].0);
                }
            } else if i < p {
                assert(u[i] == t[i] && u[j] == t[j - 1]);
            } else {
                assert(u[i] == t[i - 1] && u[j] == t[j - 1]);
            }
        }
        assert(s =~= s.drop_last().push(x));
        vstd::seq_lib::to_multiset_insert(t, p, x);
    }
}

/// The items of `s` whose key is `k`, in order.
pub open spec fn items_with_key<T>(s: Seq<(u32, T)>, k: u32) -> Seq<(u32, T)>
    decreases s.len(),
{
    if s.len() == 0 {
        s
    } else if s.last().0 == k {
        items_with_key(s.drop_last(), k).push(s.last())
    } else {
        items_with_key(s.drop_last(), k)
    }
}

proof fn lemma_items_with_key_add<T>(a: Seq<(u32, T)>, b: Seq<(u32, T)>, k: u32)
    ensures
        items_with_key(a + b, k) == items_with_key(a, k) + items_with_key(b, k),
    decreases b.len(),
{
    if b.len() == 0 {
        assert(a + b =~= a);
        assert(items_with_key(a, k) + items_with_key(b, k) =~= items_with_key(a, k));
    } else {
        assert((a + b).drop_last() =~= a + b.drop_last());
        lemma_items_with_key_add(a, b.drop_last(), k);
        if b.last().0 == k {
            assert(items_with_key(a + b, k) =~= items_with_key(a, k) + items_with_key(b, k));
        } else {
            assert(items_with_key(a + b, k) =~= items_with_key(a, k) + items_with_key(b, k));
        }
    }
}

proof fn lemma_items_with_key_none<T>(s: Seq<(u32, T)>, k: u32)
    requires
        forall|j: int| 0 <= j < s.len() ==> (#[trigger] s[j]).0 != k,
    ensures
        items_with_key(s, k) == Seq::<(u32, T)>::empty(),
    decreases s.len(),
{
    if s.len() > 0 {
        lemma_items_with_key_none(s.drop_last(), k);
    }
}

/// Sorting by key is stable: for every key, the items carrying it come out
/// in the order they went in.
pub proof fn lemma_sort_by_key_stable<T>(s: Seq<(u32, T)>, k: u32)
    ensures
        items_with_key(sort_by_key(s), k) == items_with_key(s, k),
    decreases s.len(),
{
    if s.len() > 0 {
        let p = s.drop_last();
        let x = s.last();
        let t = sort_by_key(p);
        lemma_sort_by_key_stable(p, k);
        lemma_sort_by_key_sorted_permutation(p);
        let ip = insertion_point(t, x.0);
        lemma_insertion_point_bounds(t, x.0);
        let front = t.subrange(0, ip);
        let back = t.subrange(ip, t.len() as int);
        assert(t =~= front + back);
        assert(t.insert(ip, x) =~= front + (seq![x] + back));
        lemma_items_with_key_add(front, back, k);
        lemma_items_with_key_add(front, seq![x] + back, k);
        lemma_items_with_key_add(seq![x], back, k);
        assert(seq![x].drop_last() =~= Seq::<(u32, T)>::empty());
        assert(items_with_key(Seq::<(u32, T)>::empty(), k) =~= Seq::<(u32, T)>::empty());
        assert(seq![x].last() == x);
        if x.0 == k {
            assert(items_with_key(seq![x], k) =~= seq![x]);
            assert forall|j: int| 0 <= j < back.len() implies (#[trigger] back[j]).0 != k by {
                assert(back[j] == t[ip + j]);
                if j > 0 {
                    assert(t[ip].0 <= t[ip + j].0);
                }
            }
            lemma_items_with_key_none(back, k);
            assert(items_with_key(t.insert(ip, x), k) =~= items_with_key(t, k).push(x));
            assert(s =~= p.push(x));
        } else {
            assert(items_with_key(seq![x], k) =~= Seq::<(u32, T)>::empty());
            assert(items_with_key(t.insert(ip, x), k) =~= items_with_key(t, k));
        }
    }
}

/// `a` lies within `b`.
pub open spec fn within(a: Interval, b: Interval) -> bool {
    b.0 <= a.0 && a.1 <= b.1
}

/// `a` lies within some interval of `s`.
pub open spec fn within_some(a: Interval, s: Seq<Interval>) -> bool {
    exists|j: int| 0 <= j < s.len() && within(a, #[trigger] s[j])
}

/// Merging an interval into a band list loses nothing: the new interval lies
/// within some band afterwards, so does every interval that lay within one
/// before, and at most one band is added.
pub proof fn lemma_merged_into_grows(s: Seq<Interval>, start: u32, end: u32)
    ensures
        within_some((start, end), merged_into(s, start, end)),
        forall|a: Interval| within_some(a, s) ==> within_some(a, merged_into(s, start, end)),
        merged_into(s, start, end).len() <= s.len() + 1,
{
    let m = merged_into(s, start, end);
    if exists|i: int| is_first_overlap(s, start, end, i) {
        let i = choose|i: int| is_first_overlap(s, start, end, i);
        assert(within((start, end), m[i]));
        assert forall|a: Interval| within_some(a, s) implies within_some(a, m) by {
            let j = choose|j: int| 0 <= j < s.len() && within(a, #[trigger] s[j]);
            assert(within(a, m[j]));
        }
    } else {
        assert(within((start, end), m[s.len() as int]));
        assert forall|a: Interval| within_some(a, s) implies within_some(a, m) by {
            let j = choose|j: int| 0 <= j < s.len() && within(a, #[trigger] s[j]);
            assert(m[j] == s[j]);
        }
    }
}

proof fn lemma_merge_all_covers(s: Seq<Interval>)
    ensures
        forall|k: int| 0 <= k < s.len() ==> within_some(#[trigger] s[k], merge_all(s)),
    decreases s.len(),
{
    if s.len() > 0 {
        let prev = s.drop_last();
        lemma_merge_all_covers(prev);
        lemma_merged_into_grows(merge_all(prev), s.last().0, s.last().1);
        assert forall|k: int| 0 <= k < s.len() implies within_some(#[trigger] s[k], merge_all(s)) by {
            if k < s.len() - 1 {
                assert(s[k] == prev[k]);
            }
        }
    }
}

proof fn lemma_coalesce_covers(s: Seq<Interval>)
    ensures
        forall|k: int| 0 <= k < s.len() ==> within_some(#[trigger] s[k], coalesce(s)),
    decreases s.len(),
{
    if s.len() > 0 {
        let prev = s.drop_last();
        lemma_coalesce_covers(prev);
        let acc = coalesce(prev);
        let x = s.last();
        let c = coalesce(s);
        assert forall|k: int| 0 <= k < s.len() implies within_some(#[trigger] s[k], c) by {
            if k < s.len() - 1 {
                assert(s[k] == prev[k]);
                let j = choose|j: int| 0 <= j < acc.len() && within(prev[k], #[trigger] acc[j]);
                assert(within(s[k], c[j]));
            } else {
                if acc.len() > 0 && overlaps(acc.last(), x.0, x.1) {
                    assert(within(x, c[acc.len() - 1]));
                } else {
                    assert(within(x, c[acc.len() as int]));
                }
            }
        }
    }
}

/// Every extent lies within one of the bands made from it.
pub proof fn lemma_bands_cover(s: Seq<Interval>)
    ensures
        forall|k: int| 0 <= k < s.len() ==> within_some(#[trigger] s[k], bands_of(s)),
{
    broadcast use vstd::seq_lib::group_to_multiset_ensures;

    let m = merge_all(s);
    let t = sort_by_key(m);
    lemma_merge_all_covers(s);
    lemma_sort_by_key_sorted_permutation(m);
    lemma_coalesce_covers(t);
    assert forall|k: int| 0 <= k < s.len() implies within_some(#[trigger] s[k], bands_of(s)) by {
        let j = choose|j: int| 0 <= j < m.len() && within(s[k], #[trigger] m[j]);
        assert(m.contains(m[j]));
        assert(m.to_multiset().count(m[j]) > 0);
        assert(t.contains(m[j]));
        let i = choose|i: int| 0 <= i < t.len() && t[i] == m[j];
        let l = choose|l: int| 0 <= l < bands_of(s).len() && within(t[i], #[trigger] bands_of(s)[l]);
        assert(within(s[k], bands_of(s)[l]));
    }
}

/// A point of a list of intervals lets the search find a first interval
/// holding it.
pub proof fn lemma_first_containing_found(s: Seq<Interval>, p: u32, j: int)
    requires
        0 <= j < s.len(),
        contains_point(s[j], p),
    ensures
        first_containing(s, p) is Some,
    decreases j,
{
    if exists|k: int| 0 <= k < j && contains_point(s[k], p) {
        let k = choose|k: int| 0 <= k < j && contains_point(s[k], p);
        lemma_first_containing_found(s, p, k);
    } else {
        assert(is_first_containing(s, p, j));
    }
}

/// A point of any of the extents falls in some band made from them: every
/// line (or word) whose centre lies within its own extent lands in a row.
pub proof fn lemma_point_of_extent_finds_band(s: Seq<Interval>, k: int, p: u32)
    requires
        0 <= k < s.len(),
        contains_point(s[k], p),
    ensures
        first_containing(bands_of(s), p) is Some,
{
    lemma_bands_cover(s);
    let b = bands_of(s);
    let j = choose|j: int| 0 <= j < b.len() && within(s[k], #[trigger] b[j]);
    lemma_first_containing_found(b, p, j);
}

/// Every interval has positive length.
pub open spec fn nondegenerate(s: Seq<Interval>) -> bool {
    forall|k: int| 0 <= k < s.len() ==> (#[trigger] s[k]).0 < s[k].1
}

/// Each interval ends where or before the next one starts.
pub open spec fn ordered_apart(s: Seq<Interval>) -> bool {
    forall|i: int, j: int| 0 <= i < j < s.len() ==> s[i].1 <= s[j].0
}

proof fn lemma_merge_all_nondegenerate(s: Seq<Interval>)
    requires
        nondegenerate(s),
    ensures
        nondegenerate(merge_all(s)),
    decreases s.len(),
{
    if s.len() > 0 {
        let prev = s.drop_last();
        assert forall|k: int| 0 <= k < prev.len() implies (#[trigger] prev[k]).0 < prev[k].1 by {
            assert(prev[k] == s[k]);
        }
        lemma_merge_all_nondegenerate(prev);
        let m = merge_all(prev);
        let x = s.last();
        assert(x.0 < x.1);
        let r = merged_into(m, x.0, x.1);
        assert forall|k: int| 0 <= k < r.len() implies (#[trigger] r[k]).0 < r[k].1 by {
            if exists|i: int| is_first_overlap(m, x.0, x.1, i) {
                let i = choose|i: int| is_first_overlap(m, x.0, x.1, i);
                if k != i {
                    assert(r[k] == m[k]);
                }
            } else if k < m.len() {
                assert(r[k] == m[k]);
            }
        }
    }
}

proof fn lemma_coalesce_ordered(t: Seq<Interval>)
    requires
        sorted_by_key(t),
        nondegenerate(t),
    ensures
        nondegenerate(coalesce(t)),
        ordered_apart(coalesce(t)),
        t.len() > 0 ==> coalesce(t).len() > 0 && coalesce(t).last().0 <= t.last().0,
    decreases t.len(),
{
    if t.len() > 0 {
        let prev = t.drop_last();
        assert forall|k: int| 0 <= k < prev.len() implies (#[trigger] prev[k]).0 < prev[k].1 by {
            assert(prev[k] == t[k]);
        }
        assert forall|i: int, j: int| 0 <= i < j < prev.len() implies prev[i].0 <= prev[j].0 by {
            assert(prev[i] == t[i] && prev[j] == t[j]);
        }
        lemma_coalesce_ordered(prev);
        let acc = coalesce(prev);
        let x = t.last();
        assert(x.0 < x.1);
        let c = coalesce(t);
        if acc.len() > 0 {
            assert(prev.last() == t[t.len() - 2]);
            assert(acc.last().0 <= x.0);
            assert(acc.last().0 < acc.last().1);
        }
        if acc.len() > 0 && overlaps(acc.last(), x.0, x.1) {
            let last = acc.len() - 1;
            assert forall|k: int| 0 <= k < c.len() implies (#[trigger] c[k]).0 < c[k].1 by {
                if k != last {
                    assert(c[k] == acc[k]);
                }
            }
            assert forall|i: int, j: int| 0 <= i < j < c.len() implies c[i].1 <= c[j].0 by {
                assert(c[i] == acc[i]);
                if j != last {
                    assert(c[j] == acc[j]);
                } else {
                    assert(acc[i].1 <= acc[last].0);
                }
            }
        } else {
            assert forall|k: int| 0 <= k < c.len() implies (#[trigger] c[k]).0 < c[k].1 by {
                if k < acc.len() {
                    assert(c[k] == acc[k]);
                }
            }
            assert forall|i: int, j: int| 0 <= i < j < c.len() implies c[i].1 <= c[j].0 by {
                assert(c[i] == acc[i]);
                if j < acc.len() {
                    assert(c[j] == acc[j]);
                } else {
                    let last = acc.len() - 1;
                    assert(acc[last].1 <= x.0);
                    if i < last {
                        assert(acc[i].1 <= acc[last].0);
                    }
                }
            }
        }
    }
}

/// Bands made from extents of positive length come out in order, each ending
/// where or before the next one starts, and each of positive length.
pub proof fn lemma_bands_ordered(s: Seq<Interval>)
    requires
        nondegenerate(s),
    ensures
        nondegenerate(bands_of(s)),
        ordered_apart(bands_of(s)),
{
    broadcast use vstd::seq_lib::group_to_multiset_ensures;

    let m = merge_all(s);
    let t = sort_by_key(m);
    lemma_merge_all_nondegenerate(s);
    lemma_sort_by_key_sorted_permutation(m);
    assert forall|k: int| 0 <= k < t.len() implies (#[trigger] t[k]).0 < t[k].1 by {
        assert(t.contains(t[k]));
        assert(t.to_multiset().count(t[k]) > 0);
        assert(m.contains(t[k]));
        let j = choose|j: int| 0 <= j < m.len() && m[j] == t[k];
    }
    lemma_coalesce_ordered(t);
}

/// Some interval of `s` contains `p`.
pub open spec fn covers(s: Seq<Interval>, p: u32) -> bool {
    exists|k: int| 0 <= k < s.len() && contains_point(#[trigger] s[k], p)
}

proof fn lemma_coalesce_sorted_cover(t: Seq<Interval>)
    requires
        sorted_by_key(t),
    ensures
        sorted_by_key(coalesce(t)),
        t.len() > 0 ==> coalesce(t).len() > 0 && coalesce(t).last().0 <= t.last().0,
        forall|p: u32| covers(coalesce(t), p) ==> covers(t, p),
    decreases t.len(),
{
    if t.len() > 0 {
        let prev = t.drop_last();
        assert forall|i: int, j: int| 0 <= i < j < prev.len() implies prev[i].0 <= prev[j].0 by {
            assert(prev[i] == t[i] && prev[j] == t[j]);
        }
        lemma_coalesce_sorted_cover(prev);
        let acc = coalesce(prev);
        let x = t.last();
        let c = coalesce(t);
        if acc.len() > 0 {
            assert(prev.last() == t[t.len() - 2]);
            assert(acc.last().0 <= x.0);
        }
        assert forall|p: u32| covers(c, p) implies covers(t, p) by {
            let k = choose|k: int| 0 <= k < c.len() && contains_point(#[trigger] c[k], p);
            if contains_point(x, p) {
                assert(contains_point(t[t.len() - 1], p));
            } else if k < acc.len() && c[k] == acc[k] {
                assert(covers(acc, p));
                assert(covers(prev, p));
                let j = choose|j: int| 0 <= j < prev.len() && contains_point(#[trigger] prev[j], p);
                assert(t[j] == prev[j]);
            } else {
                // The merged band: a point of the hull outside `x` lies in the
                // band it grew from.
                let a = acc.last();
                assert(contains_point(a, p));
                assert(contains_point(acc[acc.len() - 1], p));
                assert(covers(acc, p));
                assert(covers(prev, p));
                let j = choose|j: int| 0 <= j < prev.len() && contains_point(#[trigger] prev[j], p);
                assert(t[j] == prev[j]);
            }
        }
        if acc.len() > 0 && overlaps(acc.last(), x.0, x.1) {
            let last = acc.len() - 1;
            assert forall|i: int, j: int| 0 <= i < j < c.len() implies c[i].0 <= c[j].0 by {
                assert(c[i] == acc[i]);
                if j != last {
                    assert(c[j] == acc[j]);
                }
            }
        } else {
            assert forall|i: int, j: int| 0 <= i < j < c.len() implies c[i].0 <= c[j].0 by {
                assert(c[i] == acc[i]);
                if j < acc.len() {
                    assert(c[j] == acc[j]);
                } else if i < acc.len() - 1 {
                    assert(acc[i].0 <= acc[acc.len() - 1].0);
                }
            }
        }
    }
}

/// Merging neighbours of a list sorted by start (as `post_merge` does) keeps
/// it sorted by start and covers exactly the points the list covered; when
/// every interval has positive length, each band also ends where or before
/// the next one starts, so no two bands overlap.
pub proof fn lemma_post_merge_sorted_same_cover(t: Seq<Interval>)
    requires
        sorted_by_key(t),
    ensures
        sorted_by_key(coalesce(t)),
        forall|p: u32| covers(coalesce(t), p) <==> covers(t, p),
        nondegenerate(t) ==> nondegenerate(coalesce(t)) && ordered_apart(coalesce(t)),
{
    lemma_coalesce_sorted_cover(t);
    lemma_coalesce_covers(t);
    assert forall|p: u32| covers(t, p) implies covers(coalesce(t), p) by {
        let k = choose|k: int| 0 <= k < t.len() && contains_point(#[trigger] t[k], p);
        let j = choose|j: int| 0 <= j < coalesce(t).len() && within(t[k], #[trigger] coalesce(t)[j]);
        assert(contains_point(coalesce(t)[j], p));
    }
    if nondegenerate(t) {
        lemma_coalesce_ordered(t);
    }
}

} // verus!
