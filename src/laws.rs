//! Laws that relate the operations on alignments.
use crate::align::{
    canonical, first_at_least, in_domain, key, keys, last_at_most, lower_index, map_range,
    pushed, swapped, target, upper_index, well_formed, Alignment,
};
use crate::bound::{opt_int, Bounds};
use vstd::prelude::*;

verus! {

/// Along an alignment both indices only ever grow.
pub proof fn alignment_monotone(a: &Alignment, i: int, j: int)
    requires
        a.wf(),
        0 <= i <= j < a@.len(),
    ensures
        a@[i].0 <= a@[j].0,
        a@[i].1 <= a@[j].1,
{
    if i < j {
        assert(a@[i].0 <= a@[j].0);
    }
}

/// Pushing a pair equal to the last one leaves the alignment as it was.
pub proof fn push_last_is_no_op(a: &Alignment)
    requires
        a.wf(),
        a@.len() > 0,
    ensures
        pushed(a@, a@.last()) == a@,
{
}

/// Never decreasing.
pub open spec fn nondecreasing(k: Seq<int>) -> bool {
    forall|i: int, j: int| 0 <= i <= j < k.len() ==> k[i] <= k[j]
}

proof fn lemma_keys_sorted(a: &Alignment, by_modified: bool)
    requires
        a.wf(),
    ensures
        nondecreasing(keys(a@, by_modified)),
        keys(a@, by_modified).len() == a@.len(),
{
    assert forall|i: int, j: int| 0 <= i <= j < a@.len() implies keys(a@, by_modified)[i] <= keys(a@, by_modified)[j] by {
        alignment_monotone(a, i, j);
    }
}

proof fn lemma_last_at_most_splits(k: Seq<int>, x: int)
    requires
        nondecreasing(k),
    ensures
        -1 <= last_at_most(k, x) < k.len(),
        forall|i: int| 0 <= i <= last_at_most(k, x) ==> k[i] <= x,
        forall|i: int| last_at_most(k, x) < i < k.len() ==> k[i] > x,
    decreases k.len(),
{
    if k.len() > 0 {
        let d = k.drop_last();
        assert(nondecreasing(d));
        lemma_last_at_most_splits(d, x);
        assert forall|i: int| 0 <= i < k.len() - 1 implies k[i] == d[i] by {}
        if k.last() <= x {
            assert forall|i: int| 0 <= i < k.len() implies k[i] <= x by {
                assert(k[i] <= k[k.len() - 1]);
            }
        }
    }
}

proof fn lemma_first_at_least_splits(k: Seq<int>, y: int)
    requires
        nondecreasing(k),
    ensures
        0 <= first_at_least(k, y) <= k.len(),
        forall|i: int| 0 <= i < first_at_least(k, y) ==> k[i] < y,
        forall|i: int| first_at_least(k, y) <= i < k.len() ==> k[i] >= y,
    decreases k.len(),
{
    if k.len() > 0 {
        let d = k.drop_last();
        assert(nondecreasing(d));
        lemma_first_at_least_splits(d, y);
        assert forall|i: int| 0 <= i < k.len() - 1 implies k[i] == d[i] by {}
        let p = first_at_least(d, y);
        if p < d.len() {
            assert(k[p] >= y);
            assert(k[p] <= k[k.len() - 1]);
        }
    }
}

/// Mapping the whole covered range of one side gives the whole covered range
/// of the other side, where the first and the last pair are each the only one
/// at their index on the side mapped from.
pub proof fn range_coverage(a: &Alignment, by_modified: bool)
    requires
        a.wf(),
        a@.len() > 0,
        a@.len() > 1 ==> key(a@[0], by_modified) < key(a@[1], by_modified),
        a@.len() > 1 ==> key(a@[a@.len() - 2], by_modified) < key(a@.last(), by_modified),
    ensures
        ({
            let r = Bounds {
                start: Some(key(a@[0], by_modified) as usize),
                end: Some(key(a@.last(), by_modified) as usize),
            };
            in_domain(a@, by_modified, r) && map_range(a@, by_modified, r) == (
                target(a@[0], by_modified),
                target(a@.last(), by_modified),
            )
        }),
{
    let s = a@;
    let n = s.len() as int;
    let k = keys(s, by_modified);
    let lo = key(s[0], by_modified);
    let hi = key(s.last(), by_modified);
    lemma_keys_sorted(a, by_modified);
    lemma_last_at_most_splits(k, lo);
    lemma_first_at_least_splits(k, hi);
    assert(k[0] == lo);
    assert(k[n - 1] == hi);
    if n > 1 {
        assert(k[1] > lo);
        assert(k[n - 2] < hi);
    }
}

/// The mapped range never leaves out a pair strictly inside the requested
/// range: its target index lies within the result. The result's ends are the
/// targets of pairs at or before the start and at or after the end.
pub proof fn conservative_widening(a: &Alignment, by_modified: bool, r: Bounds, i: int)
    requires
        a.wf(),
        in_domain(a@, by_modified, r),
        0 <= i < a@.len(),
        r.start matches Some(x) ==> x < key(a@[i], by_modified),
        r.end matches Some(y) ==> key(a@[i], by_modified) < y,
    ensures
        map_range(a@, by_modified, r).0 <= target(a@[i], by_modified) <= map_range(a@, by_modified, r).1,
        0 <= lower_index(a@, by_modified, opt_int(r.start)) < a@.len(),
        0 <= upper_index(a@, by_modified, opt_int(r.end)) < a@.len(),
{
    let s = a@;
    let n = s.len() as int;
    let k = keys(s, by_modified);
    lemma_keys_sorted(a, by_modified);
    assert(k[i] == key(s[i], by_modified));
    assert(k[0] == key(s[0], by_modified));
    assert(k[n - 1] == key(s.last(), by_modified));
    let lb = lower_index(s, by_modified, opt_int(r.start));
    let ub = upper_index(s, by_modified, opt_int(r.end));
    if let Some(x) = r.start {
        lemma_last_at_most_splits(k, x as int);
    }
    if let Some(y) = r.end {
        lemma_first_at_least_splits(k, y as int);
    }
    alignment_monotone(a, lb, i);
    alignment_monotone(a, i, ub);
}

/// Inverting twice gives back the alignment, and mapping through the inverse
/// from one side is mapping through the alignment from the other.
pub proof fn inverse_involution(a: &Alignment, r: Bounds, by_modified: bool)
    requires
        a.wf(),
    ensures
        swapped(swapped(a@)) == a@,
        in_domain(swapped(a@), by_modified, r) == in_domain(a@, !by_modified, r),
        in_domain(a@, !by_modified, r) ==> map_range(swapped(a@), by_modified, r) == map_range(
            a@,
            !by_modified,
            r,
        ),
{
    let s = a@;
    let t = swapped(s);
    assert(swapped(t) =~= s);
    assert(keys(t, by_modified) =~= keys(s, !by_modified));
    if s.len() > 0 {
        assert(t.last() == (s.last().1, s.last().0));
    }
    if in_domain(s, !by_modified, r) {
        let lb = lower_index(s, !by_modified, opt_int(r.start));
        let ub = upper_index(s, !by_modified, opt_int(r.end));
        assert(lower_index(t, by_modified, opt_int(r.start)) == lb);
        assert(upper_index(t, by_modified, opt_int(r.end)) == ub);
        conservative_bounds(a, !by_modified, r);
        assert(t[lb] == (s[lb].1, s[lb].0));
        assert(t[ub] == (s[ub].1, s[ub].0));
    }
}

/// Both indices found for a range in the domain lie inside the alignment.
pub proof fn conservative_bounds(a: &Alignment, by_modified: bool, r: Bounds)
    requires
        a.wf(),
        in_domain(a@, by_modified, r),
    ensures
        0 <= lower_index(a@, by_modified, opt_int(r.start)) < a@.len(),
        0 <= upper_index(a@, by_modified, opt_int(r.end)) < a@.len(),
        r.start matches Some(x) ==> key(a@[lower_index(a@, by_modified, opt_int(r.start))], by_modified) <= x,
        r.end matches Some(y) ==> key(a@[upper_index(a@, by_modified, opt_int(r.end))], by_modified) >= y,
{
    let s = a@;
    let n = s.len() as int;
    let k = keys(s, by_modified);
    lemma_keys_sorted(a, by_modified);
    assert(k[0] == key(s[0], by_modified));
    assert(k[n - 1] == key(s.last(), by_modified));
    if let Some(x) = r.start {
        lemma_last_at_most_splits(k, x as int);
        let lb = lower_index(s, by_modified, opt_int(r.start));
        assert(k[lb] == key(s[lb], by_modified));
    }
    if let Some(y) = r.end {
        lemma_first_at_least_splits(k, y as int);
        let ub = upper_index(s, by_modified, opt_int(r.end));
        assert(k[ub] == key(s[ub], by_modified));
    }
}

/// Dropping repeated pairs keeps the first and the last pair.
pub proof fn canonical_keeps_ends(s: Seq<(usize, usize)>)
    requires
        s.len() > 0,
    ensures
        canonical(s).len() > 0,
        canonical(s)[0] == s[0],
        canonical(s).last() == s.last(),
    decreases s.len(),
{
    if s.len() > 1 {
        canonical_keeps_ends(s.drop_last());
    } else {
        assert(canonical(s.drop_last()) == s.drop_last());
    }
}

} // verus!
