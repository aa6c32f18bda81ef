//! Sequence alignments: ordered lists of corresponding index pairs between an
//! original and a modified sequence.
use crate::bound::{opt_int, Bounds};
use std::ops::Range;
use vstd::prelude::*;

pub mod infer;

pub use infer::{inverse_edit, is_path, is_step, unit_cost, Edit};

verus! {

/// Both coordinates never move backwards.
pub open spec fn monotone(s: Seq<(usize, usize)>) -> bool {
    forall|i: int, j: int|
        0 <= i < j < s.len() ==> #[trigger] s[i].0 <= #[trigger] s[j].0 && s[i].1 <= s[j].1
}

/// No two neighbouring pairs are equal.
pub open spec fn no_repeats(s: Seq<(usize, usize)>) -> bool {
    forall|i: int| 0 <= i < s.len() - 1 ==> #[trigger] s[i] != s[i + 1]
}

/// What every alignment's pair list satisfies.
pub open spec fn well_formed(s: Seq<(usize, usize)>) -> bool {
    monotone(s) && no_repeats(s)
}

/// The coordinate of `p` on the searched axis.
pub open spec fn key(p: (usize, usize), by_modified: bool) -> int {
    if by_modified { p.1 as int } else { p.0 as int }
}

/// The coordinate of `p` on the axis mapped to.
pub open spec fn target(p: (usize, usize), by_modified: bool) -> int {
    if by_modified { p.0 as int } else { p.1 as int }
}

/// The coordinates of `s` on one axis.
pub open spec fn keys(s: Seq<(usize, usize)>, by_modified: bool) -> Seq<int> {
    s.map_values(|p: (usize, usize)| key(p, by_modified))
}

/// The largest index whose value is at most `a`, or -1 where there is none.
pub open spec fn last_at_most(k: Seq<int>, a: int) -> int
    decreases k.len(),
{
    if k.len() == 0 {
        -1
    } else if k.last() <= a {
        k.len() - 1
    } else {
        last_at_most(k.drop_last(), a)
    }
}

/// The smallest index whose value is at least `b`, or the length where there is none.
pub open spec fn first_at_least(k: Seq<int>, b: int) -> int
    decreases k.len(),
{
    if k.len() == 0 {
        0
    } else {
        let p = first_at_least(k.drop_last(), b);
        if p < k.len() - 1 {
            p
        } else if k.last() >= b {
            k.len() - 1
        } else {
            k.len() as int
        }
    }
}

/// The index of the pair that bounds an interval starting at `start` from below.
pub open spec fn lower_index(s: Seq<(usize, usize)>, by_modified: bool, start: Option<int>) -> int {
    match start {
        Some(a) => last_at_most(keys(s, by_modified), a),
        None => 0,
    }
}

/// The index of the pair that bounds an interval ending at `end` from above.
pub open spec fn upper_index(s: Seq<(usize, usize)>, by_modified: bool, end: Option<int>) -> int {
    match end {
        Some(b) => first_at_least(keys(s, by_modified), b),
        None => s.len() - 1,
    }
}

/// The bounds lie inside the range that `s` covers on the searched axis.
pub open spec fn in_domain(s: Seq<(usize, usize)>, by_modified: bool, r: Bounds) -> bool {
    &&& s.len() > 0
    &&& (r.start matches Some(a) ==> key(s[0], by_modified) <= a)
    &&& (r.end matches Some(b) ==> key(s.last(), by_modified) >= b)
}

/// The interval on the other axis that `r` maps to: from the pair at the lower
/// index to the pair at the upper index.
pub open spec fn map_range(s: Seq<(usize, usize)>, by_modified: bool, r: Bounds) -> (int, int) {
    (
        target(s[lower_index(s, by_modified, opt_int(r.start))], by_modified),
        target(s[upper_index(s, by_modified, opt_int(r.end))], by_modified),
    )
}

/// The pairs `(k, k)` for consecutive `k`, as an identity alignment has them.
pub open spec fn unit_diagonal(s: Seq<(usize, usize)>) -> bool {
    forall|k: int| 0 <= k < s.len() ==> (#[trigger] s[k]).0 == s[0].0 + k && s[k].1 == s[0].0 + k
}

/// No three pairs share one original index.
pub open spec fn at_most_two_per_original(s: Seq<(usize, usize)>) -> bool {
    forall|k: int| 0 <= k < s.len() - 2 ==> (#[trigger] s[k]).0 != s[k + 2].0
}

/// Every pair with its coordinates swapped.
pub open spec fn swapped(s: Seq<(usize, usize)>) -> Seq<(usize, usize)> {
    s.map_values(|p: (usize, usize)| (p.1, p.0))
}

/// `s` with every pair moved by `(d_o, d_m)`.
pub open spec fn moved(s: Seq<(usize, usize)>, d_o: int, d_m: int) -> Seq<(int, int)> {
    s.map_values(|p: (usize, usize)| (p.0 + d_o, p.1 + d_m))
}

/// Integer pairs as index pairs.
pub open spec fn index_pairs(s: Seq<(int, int)>) -> Seq<(usize, usize)> {
    s.map_values(|p: (int, int)| (p.0 as usize, p.1 as usize))
}

/// Pairs as integers.
pub open spec fn as_ints(s: Seq<(usize, usize)>) -> Seq<(int, int)> {
    moved(s, 0, 0)
}

/// The result of pushing `p` onto `s`: a repeat of the last pair is dropped.
pub open spec fn pushed(s: Seq<(usize, usize)>, p: (usize, usize)) -> Seq<(usize, usize)> {
    if s.len() > 0 && s.last() == p { s } else { s.push(p) }
}

/// `p` may follow `s` without moving backwards.
pub open spec fn can_push(s: Seq<(usize, usize)>, p: (usize, usize)) -> bool {
    s.len() > 0 ==> s.last().0 <= p.0 && s.last().1 <= p.1
}

/// The canonical form of a list of pairs: repeats of the previous pair dropped.
pub open spec fn canonical(s: Seq<(usize, usize)>) -> Seq<(usize, usize)>
    decreases s.len(),
{
    if s.len() == 0 {
        s
    } else {
        pushed(canonical(s.drop_last()), s.last())
    }
}

/// The pairs `(o + i, m + i)` for `i` from 1 to `n`.
pub open spec fn run(o: usize, m: usize, n: usize) -> Seq<(usize, usize)> {
    Seq::new(n as nat, |i: int| ((o + i + 1) as usize, (m + i + 1) as usize))
}

/// Pairs moved by `(d_o, d_m)`, as indices.
pub open spec fn moved_by(s: Seq<(usize, usize)>, d_o: usize, d_m: usize) -> Seq<(usize, usize)> {
    s.map_values(|p: (usize, usize)| ((p.0 + d_o) as usize, (p.1 + d_m) as usize))
}

/// `t` appended to `s`, where a first pair of `t` equal to the last of `s` is dropped.
pub open spec fn joined(s: Seq<(usize, usize)>, t: Seq<(usize, usize)>) -> Seq<(usize, usize)> {
    if s.len() > 0 && t.len() > 0 && s.last() == t[0] {
        s + t.drop_first()
    } else {
        s + t
    }
}

/// Pairs `(k, k)` for each `k` of `ks`.
pub open spec fn diagonal(ks: Seq<usize>) -> Seq<(usize, usize)> {
    ks.map_values(|k: usize| (k, k))
}

/// Never decreasing.
pub open spec fn sorted(ks: Seq<usize>) -> bool {
    forall|i: int, j: int| 0 <= i < j < ks.len() ==> ks[i] <= ks[j]
}

/// An alignment between two related sequences: the index pairs known to
/// correspond between the original and the modified sequence.
#[derive(Clone, Debug)]
pub struct Alignment {
    indices: Vec<(usize, usize)>,
}

impl View for Alignment {
    type V = Seq<(usize, usize)>;

    closed spec fn view(&self) -> Seq<(usize, usize)> {
        self.indices@
    }
}

impl PartialEq for Alignment {
    fn eq(&self, other: &Alignment) -> (r: bool)
        ensures
            r == (self@ == other@),
    {
        let n = self.indices.len();
        if n != other.indices.len() {
            return false;
        }
        let mut i: usize = 0;
        while i < n
            invariant
                n == self@.len() == other@.len(),
                i <= n,
                self@.subrange(0, i as int) == other@.subrange(0, i as int),
            decreases n - i,
        {
            let (a, b) = self.indices[i];
            let (c, d) = other.indices[i];
            if a != c || b != d {
                assert(self@[i as int] != other@[i as int]);
                return false;
            }
            assert(self@.subrange(0, i + 1) == self@.subrange(0, i as int).push(self@[i as int]));
            assert(other@.subrange(0, i + 1) == other@.subrange(0, i as int).push(other@[i as int]));
            i = i + 1;
        }
        assert(self@ == self@.subrange(0, n as int));
        assert(other@ == other@.subrange(0, n as int));
        true
    }
}

impl vstd::std_specs::cmp::PartialEqSpecImpl for Alignment {
    open spec fn obeys_eq_spec() -> bool {
        true
    }

    open spec fn eq_spec(&self, other: &Alignment) -> bool {
        self@ == other@
    }
}

impl Eq for Alignment {}

proof fn lemma_push_keeps_wf(s: Seq<(usize, usize)>, p: (usize, usize))
    requires
        well_formed(s),
        can_push(s, p),
    ensures
        well_formed(pushed(s, p)),
        pushed(s, p).len() > 0,
        pushed(s, p).last() == p,
        s.len() > 0 ==> pushed(s, p)[0] == s[0],
{
    let t = pushed(s, p);
    if !(s.len() > 0 && s.last() == p) {
        assert forall|i: int, j: int| 0 <= i < j < t.len() implies #[trigger] t[i].0 <= #[trigger] t[j].0 && t[i].1 <= t[j].1 by {
            if j == t.len() - 1 && i < s.len() {
                assert(s[i].0 <= s.last().0);
            }
        }
    }
}

proof fn lemma_canonical_of_wf(s: Seq<(usize, usize)>)
    requires
        well_formed(s),
    ensures
        canonical(s) == s,
    decreases s.len(),
{
    if s.len() > 0 {
        let d = s.drop_last();
        assert(well_formed(d)) by {
            assert forall|i: int, j: int| 0 <= i < j < d.len() implies #[trigger] d[i].0 <= #[trigger] d[j].0 && d[i].1 <= d[j].1 by {
                assert(s[i].0 <= s[j].0);
            }
            assert forall|i: int| 0 <= i < d.len() - 1 implies #[trigger] d[i] != d[i + 1] by {
                assert(s[i] != s[i + 1]);
            }
        }
        lemma_canonical_of_wf(d);
        if d.len() > 0 {
            assert(s[s.len() - 2] != s[s.len() - 1]);
        }
        assert(d.push(s.last()) =~= s);
    }
}

proof fn lemma_mono(s: Seq<(usize, usize)>, i: int, j: int)
    requires
        monotone(s),
        0 <= i <= j < s.len(),
    ensures
        s[i].0 <= s[j].0,
        s[i].1 <= s[j].1,
{
    if i < j {
        assert(s[i].0 <= s[j].0);
    }
}

proof fn lemma_last_at_most(k: Seq<int>, a: int, p: int)
    requires
        0 <= p <= k.len(),
        forall|i: int| 0 <= i < p ==> k[i] <= a,
        forall|i: int| p <= i < k.len() ==> k[i] > a,
    ensures
        last_at_most(k, a) == p - 1,
    decreases k.len(),
{
    if k.len() > 0 && p < k.len() {
        lemma_last_at_most(k.drop_last(), a, p);
    }
}

proof fn lemma_first_at_least(k: Seq<int>, b: int, p: int)
    requires
        0 <= p <= k.len(),
        forall|i: int| 0 <= i < p ==> k[i] < b,
        forall|i: int| p <= i < k.len() ==> k[i] >= b,
    ensures
        first_at_least(k, b) == p,
    decreases k.len(),
{
    if k.len() > 0 {
        if p == k.len() {
            lemma_first_at_least(k.drop_last(), b, p - 1);
        } else {
            lemma_first_at_least(k.drop_last(), b, p);
        }
    }
}

/// The coordinate of `p` on the searched axis.
fn key_of(p: (usize, usize), by_modified: bool) -> (r: usize)
    ensures
        r == key(p, by_modified),
{
    if by_modified { p.1 } else { p.0 }
}

/// The coordinate of `p` on the axis mapped to.
fn target_of(p: (usize, usize), by_modified: bool) -> (r: usize)
    ensures
        r == target(p, by_modified),
{
    if by_modified { p.0 } else { p.1 }
}

impl Alignment {
    /// The alignment is well-formed: monotone, without repeated pairs.
    pub open spec fn wf(&self) -> bool {
        well_formed(self@)
    }

    /// An empty alignment.
    pub fn new() -> (r: Self)
        ensures
            r@ == Seq::<(usize, usize)>::empty(),
            r.wf(),
    {
        Alignment { indices: Vec::new() }
    }

    /// Appends `(o + i, m + i)` for `i` from 1 to `n`, after a last pair `(o, m)`.
    pub(crate) fn push_run(&mut self, o: usize, m: usize, n: usize)
        requires
            old(self).wf(),
            old(self)@.len() > 0,
            old(self)@.last() == (o, m),
            o + n <= usize::MAX,
            m + n <= usize::MAX,
        ensures
            final(self).wf(),
            final(self)@ == old(self)@ + run(o, m, n),
    {
        let ghost a0 = self@;
        let ghost r = run(o, m, n);
        let mut i: usize = 0;
        while i < n
            invariant
                i <= n,
                o + n <= usize::MAX,
                m + n <= usize::MAX,
                self.wf(),
                a0.len() > 0,
                a0.last() == (o, m),
                r == run(o, m, n),
                self@ == a0 + r.subrange(0, i as int),
            decreases n - i,
        {
            proof {
                if i > 0 {
                    assert(self@.last() == r[i - 1]);
                }
            }
            self.push(o + i + 1, m + i + 1);
            assert(self@ =~= a0 + r.subrange(0, i + 1));
            i = i + 1;
        }
        assert(r.subrange(0, n as int) == r);
    }

    /// The alignment made of the pairs a slice view shows.
    pub fn from_slice(slice: &Slice<'_>) -> (r: Self)
        requires
            all_fit(slice@),
            forall|i: int, j: int|
                0 <= i < j < slice@.len() ==> #[trigger] slice@[i].0 <= #[trigger] slice@[j].0
                    && slice@[i].1 <= slice@[j].1,
        ensures
            r.wf(),
            r@ == canonical(index_pairs(slice@)),
    {
        let pairs = slice.iter();
        assert(pairs@ =~= index_pairs(slice@));
        assert(monotone(pairs@)) by {
            assert forall|i: int, j: int| 0 <= i < j < pairs@.len() implies #[trigger] pairs@[i].0 <= #[trigger] pairs@[j].0 && pairs@[i].1 <= pairs@[j].1 by {
                assert(slice@[i].0 <= slice@[j].0);
            }
        }
        Alignment::from_pairs(pairs.as_slice())
    }

    /// Appends the pairs of `other`, each moved by `(d_o, d_m)`.
    pub(crate) fn append_moved(&mut self, other: &Alignment, d_o: usize, d_m: usize)
        requires
            old(self).wf(),
            other.wf(),
            other@.len() > 0 ==> other@.last().0 + d_o <= usize::MAX && other@.last().1 + d_m
                <= usize::MAX,
            other@.len() > 0 ==> can_push(old(self)@, ((other@[0].0 + d_o) as usize, (other@[0].1 + d_m) as usize)),
        ensures
            final(self).wf(),
            final(self)@ == joined(old(self)@, moved_by(other@, d_o, d_m)),
    {
        let ghost u = moved_by(other@, d_o, d_m);
        let ghost s0 = self@;
        let mut k: usize = 0;
        while k < other.indices.len()
            invariant
                self.wf(),
                other.wf(),
                s0 == old(self)@,
                u == moved_by(other@, d_o, d_m),
                k <= other@.len(),
                other@.len() > 0 ==> other@.last().0 + d_o <= usize::MAX && other@.last().1 + d_m
                    <= usize::MAX,
                other@.len() > 0 ==> can_push(s0, u[0]),
                k == 0 ==> self@ == s0,
                k > 0 ==> self@ == joined(s0, u.subrange(0, k as int)),
                k > 0 ==> self@.len() > 0 && self@.last() == u[k - 1],
            decreases other@.len() - k,
        {
            let (o, m) = other.indices[k];
            proof {
                lemma_mono(other@, k as int, other@.len() - 1);
                if k > 0 {
                    lemma_mono(other@, k - 1, k as int);
                    assert(other@[k - 1] != other@[k as int]);
                }
            }
            let ghost before = self@;
            self.push(o + d_o, m + d_m);
            proof {
                let t = u.subrange(0, k + 1);
                assert(t.last() == u[k as int]);
                if k > 0 {
                    assert(u.subrange(0, k as int) == t.drop_last());
                    if s0.len() > 0 && s0.last() == u[0] {
                        assert(t.drop_first() == u.subrange(0, k as int).drop_first().push(u[k as int]));
                    }
                    assert(self@ =~= joined(s0, t));
                } else {
                    assert(self@ =~= joined(s0, t));
                }
            }
            k = k + 1;
        }
        proof {
            if other@.len() > 0 {
                assert(u.subrange(0, u.len() as int) == u);
            } else {
                assert(joined(s0, u) =~= s0);
            }
        }
    }

    /// A copy of this alignment.
    pub fn duplicate(&self) -> (r: Self)
        ensures
            r@ == self@,
    {
        let mut v: Vec<(usize, usize)> = Vec::new();
        let mut i: usize = 0;
        while i < self.indices.len()
            invariant
                i <= self@.len(),
                v@ == self@.subrange(0, i as int),
            decreases self@.len() - i,
        {
            v.push(self.indices[i]);
            i = i + 1;
            assert(v@ =~= self@.subrange(0, i as int));
        }
        assert(self@.subrange(0, i as int) == self@);
        Alignment { indices: v }
    }

    /// The number of index pairs.
    pub fn len(&self) -> (r: usize)
        ensures
            r == self@.len(),
    {
        self.indices.len()
    }

    /// The index pairs in order.
    pub fn iter(&self) -> (r: &[(usize, usize)])
        ensures
            r@ == self@,
    {
        self.indices.as_slice()
    }

    /// Adds the pair `(o, m)`; a repeat of the last pair changes nothing.
    pub fn push(&mut self, o: usize, m: usize)
        requires
            old(self).wf(),
            can_push(old(self)@, (o, m)),
        ensures
            final(self)@ == pushed(old(self)@, (o, m)),
            final(self).wf(),
    {
        proof {
            lemma_push_keeps_wf(self@, (o, m));
        }
        let n = self.indices.len();
        if n > 0 {
            let (ol, ml) = self.indices[n - 1];
            if ol == o && ml == m {
                return;
            }
        }
        self.indices.push((o, m));
    }

    /// Pushes each of `pairs` in turn.
    pub fn extend(&mut self, pairs: &[(usize, usize)])
        requires
            old(self).wf(),
            monotone(pairs@),
            pairs@.len() > 0 ==> can_push(old(self)@, pairs@[0]),
        ensures
            final(self).wf(),
            final(self)@ == canonical(old(self)@ + pairs@),
            pairs@.len() == 0 ==> final(self)@ == old(self)@,
            pairs@.len() > 0 ==> final(self)@.len() > 0 && final(self)@.last() == pairs@.last(),
            pairs@.len() > 0 && old(self)@.len() > 0 ==> final(self)@[0] == old(self)@[0],
            pairs@.len() > 0 && old(self)@.len() == 0 ==> final(self)@[0] == pairs@[0],
    {
        proof {
            lemma_canonical_of_wf(self@);
            assert(old(self)@ + pairs@.subrange(0, 0) =~= old(self)@);
        }
        let mut i: usize = 0;
        while i < pairs.len()
            invariant
                self.wf(),
                i <= pairs@.len(),
                monotone(pairs@),
                i == 0 && pairs@.len() > 0 ==> can_push(self@, pairs@[0]),
                i == 0 ==> self@ == old(self)@,
                i > 0 ==> self@.len() > 0 && self@.last() == pairs@[i - 1],
                i > 0 && old(self)@.len() > 0 ==> self@[0] == old(self)@[0],
                i > 0 && old(self)@.len() == 0 ==> self@[0] == pairs@[0],
                self@ == canonical(old(self)@ + pairs@.subrange(0, i as int)),
            decreases pairs@.len() - i,
        {
            let (o, m) = pairs[i];
            proof {
                if i > 0 {
                    assert(pairs@[i - 1].0 <= pairs@[i as int].0);
                }
                lemma_push_keeps_wf(self@, (o, m));
                let t = old(self)@ + pairs@.subrange(0, i + 1);
                assert(t.drop_last() =~= old(self)@ + pairs@.subrange(0, i as int));
                assert(t.last() == (o, m));
            }
            self.push(o, m);
            i = i + 1;
        }
        assert(pairs@.subrange(0, i as int) == pairs@);
    }

    /// Builds an alignment from a list of pairs, dropping repeats.
    pub fn from_pairs(pairs: &[(usize, usize)]) -> (r: Self)
        requires
            monotone(pairs@),
        ensures
            r.wf(),
            r@ == canonical(pairs@),
    {
        let mut a = Alignment::new();
        let mut i: usize = 0;
        while i < pairs.len()
            invariant
                a.wf(),
                i <= pairs@.len(),
                monotone(pairs@),
                a@ == canonical(pairs@.subrange(0, i as int)),
                i > 0 ==> a@.len() > 0 && a@.last() == pairs@[i - 1],
            decreases pairs@.len() - i,
        {
            let (o, m) = pairs[i];
            proof {
                if i > 0 {
                    assert(pairs@[i - 1].0 <= pairs@[i as int].0);
                }
                let t = pairs@.subrange(0, i + 1);
                assert(t.drop_last() == pairs@.subrange(0, i as int));
                lemma_push_keeps_wf(a@, (o, m));
            }
            a.push(o, m);
            i = i + 1;
        }
        assert(pairs@.subrange(0, i as int) == pairs@);
        a
    }

    /// The identity alignment over `indices`: a pair `(k, k)` for each `k`.
    pub fn identity(indices: &[usize]) -> (r: Self)
        requires
            sorted(indices@),
        ensures
            r.wf(),
            r@ == canonical(diagonal(indices@)),
    {
        let mut pairs: Vec<(usize, usize)> = Vec::new();
        let mut i: usize = 0;
        while i < indices.len()
            invariant
                i <= indices@.len(),
                pairs@ == diagonal(indices@.subrange(0, i as int)),
            decreases indices@.len() - i,
        {
            pairs.push((indices[i], indices[i]));
            i = i + 1;
            assert(pairs@ =~= diagonal(indices@.subrange(0, i as int)));
        }
        assert(indices@.subrange(0, i as int) == indices@);
        Alignment::from_pairs(pairs.as_slice())
    }

    /// The covered range of the original sequence: from the first pair's
    /// original index to the last pair's.
    pub fn original_range(&self) -> (r: Range<usize>)
        requires
            self@.len() > 0,
        ensures
            r.start == self@[0].0,
            r.end == self@.last().0,
    {
        let n = self.indices.len();
        self.indices[0].0..self.indices[n - 1].0
    }

    /// The covered range of the modified sequence.
    pub fn modified_range(&self) -> (r: Range<usize>)
        requires
            self@.len() > 0,
        ensures
            r.start == self@[0].1,
            r.end == self@.last().1,
    {
        let n = self.indices.len();
        self.indices[0].1..self.indices[n - 1].1
    }

    /// The index of the last pair whose coordinate on the searched axis is at
    /// most `start`.
    fn lower_bound(&self, start: Option<usize>, by_modified: bool) -> (r: usize)
        requires
            self.wf(),
            self@.len() > 0,
            start matches Some(a) ==> key(self@[0], by_modified) <= a,
        ensures
            r == lower_index(self@, by_modified, opt_int(start)),
            r < self@.len(),
    {
        let a = match start {
            Some(a) => a,
            None => return 0,
        };
        let ghost k = keys(self@, by_modified);
        let mut lo: usize = 0;
        let mut hi: usize = self.indices.len();
        while lo < hi
            invariant
                self.wf(),
                k == keys(self@, by_modified),
                0 <= lo <= hi <= self@.len(),
                forall|i: int| 0 <= i < lo ==> k[i] <= a,
                forall|i: int| hi <= i < self@.len() ==> k[i] > a,
            decreases hi - lo,
        {
            let mid = lo + (hi - lo) / 2;
            if key_of(self.indices[mid], by_modified) <= a {
                assert forall|i: int| 0 <= i < mid + 1 implies k[i] <= a by {
                    if i < mid {
                        assert(self@[i].0 <= self@[mid as int].0);
                    }
                }
                lo = mid + 1;
            } else {
                assert forall|i: int| mid <= i < self@.len() implies k[i] > a by {
                    if i > mid {
                        assert(self@[mid as int].0 <= self@[i].0);
                    }
                }
                hi = mid;
            }
        }
        proof {
            assert(k[0] <= a);
            lemma_last_at_most(k, a as int, lo as int);
        }
        lo - 1
    }

    /// The index of the first pair whose coordinate on the searched axis is at
    /// least `end`.
    fn upper_bound(&self, end: Option<usize>, by_modified: bool) -> (r: usize)
        requires
            self.wf(),
            self@.len() > 0,
            end matches Some(b) ==> key(self@.last(), by_modified) >= b,
        ensures
            r == upper_index(self@, by_modified, opt_int(end)),
            r < self@.len(),
    {
        let b = match end {
            Some(b) => b,
            None => return self.indices.len() - 1,
        };
        let ghost k = keys(self@, by_modified);
        let mut lo: usize = 0;
        let mut hi: usize = self.indices.len();
        while lo < hi
            invariant
                self.wf(),
                k == keys(self@, by_modified),
                0 <= lo <= hi <= self@.len(),
                forall|i: int| 0 <= i < lo ==> k[i] < b,
                forall|i: int| hi <= i < self@.len() ==> k[i] >= b,
            decreases hi - lo,
        {
            let mid = lo + (hi - lo) / 2;
            if key_of(self.indices[mid], by_modified) < b {
                assert forall|i: int| 0 <= i < mid + 1 implies k[i] < b by {
                    if i < mid {
                        assert(self@[i].0 <= self@[mid as int].0);
                    }
                }
                lo = mid + 1;
            } else {
                assert forall|i: int| mid <= i < self@.len() implies k[i] >= b by {
                    if i > mid {
                        assert(self@[mid as int].0 <= self@[i].0);
                    }
                }
                hi = mid;
            }
        }
        proof {
            assert(k[self@.len() - 1] >= b);
            lemma_first_at_least(k, b as int, lo as int);
        }
        lo
    }

    /// Shared body of the two range mappings.
    fn to_range(&self, range: Bounds, by_modified: bool) -> (r: Range<usize>)
        requires
            self.wf(),
            in_domain(self@, by_modified, range),
        ensures
            (r.start as int, r.end as int) == map_range(self@, by_modified, range),
    {
        let lb = self.lower_bound(range.start, by_modified);
        let ub = self.upper_bound(range.end, by_modified);
        target_of(self.indices[lb], by_modified)..target_of(self.indices[ub], by_modified)
    }

    /// Maps a range of the modified sequence to the smallest range of the
    /// original sequence that is known to contain it.
    pub fn to_original_range(&self, range: Bounds) -> (r: Range<usize>)
        requires
            self.wf(),
            in_domain(self@, true, range),
        ensures
            (r.start as int, r.end as int) == map_range(self@, true, range),
    {
        self.to_range(range, true)
    }

    /// Maps a range of the original sequence to the smallest range of the
    /// modified sequence that is known to contain it.
    pub fn to_modified_range(&self, range: Bounds) -> (r: Range<usize>)
        requires
            self.wf(),
            in_domain(self@, false, range),
        ensures
            (r.start as int, r.end as int) == map_range(self@, false, range),
    {
        self.to_range(range, false)
    }

    /// The same alignment seen from the other side: every pair swapped.
    pub fn inverse(&self) -> (r: Self)
        requires
            self.wf(),
        ensures
            r.wf(),
            r@ == swapped(self@),
    {
        let mut v: Vec<(usize, usize)> = Vec::new();
        let mut i: usize = 0;
        while i < self.indices.len()
            invariant
                i <= self@.len(),
                v@ == swapped(self@.subrange(0, i as int)),
            decreases self@.len() - i,
        {
            let (o, m) = self.indices[i];
            v.push((m, o));
            i = i + 1;
            assert(v@ =~= swapped(self@.subrange(0, i as int)));
        }
        assert(self@.subrange(0, i as int) == self@);
        let r = Alignment { indices: v };
        assert(forall|i: int| 0 <= i < self@.len() ==> #[trigger] r@[i] == (self@[i].1, self@[i].0));
        assert(monotone(r@)) by {
            assert forall|i: int, j: int| 0 <= i < j < r@.len() implies #[trigger] r@[i].0 <= #[trigger] r@[j].0 && r@[i].1 <= r@[j].1 by {
                assert(self@[i].0 <= self@[j].0);
            }
        }
        assert(no_repeats(r@)) by {
            assert forall|i: int| 0 <= i < r@.len() - 1 implies #[trigger] r@[i] != r@[i + 1] by {
                assert(self@[i] != self@[i + 1]);
            }
        }
        r
    }

    /// The alignment equivalent to applying this one, then `other`.
    #[verifier::rlimit(100)]
    #[verifier::spinoff_prover]
    pub fn compose(&self, other: &Alignment) -> (r: Self)
        requires
            self.wf(),
            other.wf(),
            self@.len() > 0,
            other@.len() > 0,
            self@[0].1 == other@[0].0,
            self@.last().1 == other@.last().0,
        ensures
            r.wf(),
            r@.len() > 0,
            r@[0] == (self@[0].0, other@[0].1),
            r@.last() == (self@.last().0, other@.last().1),
            unit_diagonal(self@) && at_most_two_per_original(other@) ==> r@ == other@,
    {
        let ghost a = self@;
        let ghost b = other@;
        let ghost lid = unit_diagonal(a) && at_most_two_per_original(b);
        let mut composed = Alignment::new();
        let i_max = self.indices.len();
        let j_max = other.indices.len();
        let mut i: usize = 0;
        let mut j: usize = 0;
        while i < i_max
            invariant
                a == self@,
                b == other@,
                self.wf(),
                other.wf(),
                composed.wf(),
                i_max == a.len() > 0,
                j_max == b.len() > 0,
                a[0].1 == b[0].0,
                a.last().1 == b.last().0,
                i <= i_max,
                j < j_max,
                i == 0 ==> j == 0 && composed@.len() == 0,
                i > 0 ==> composed@.len() > 0 && composed@.last() == (a[i - 1].0, b[j as int].1),
                i > 0 ==> composed@[0] == (a[0].0, b[0].1),
                i == i_max ==> j == j_max - 1,
                lid == (unit_diagonal(a) && at_most_two_per_original(b)),
                lid && i > 0 ==> composed@ == b.subrange(0, j + 1) && a[i - 1].1 == b[j as int].0
                    && (j + 1 < j_max ==> b[j + 1].0 > b[j as int].0),
            decreases i_max - i,
        {
            let ghost i0 = i;
            let ghost j0 = j;
            while self.indices[i].1 > other.indices[j].0
                invariant
                    a == self@,
                    b == other@,
                    other.wf(),
                    self.wf(),
                    i < i_max == a.len(),
                    j0 <= j < j_max == b.len(),
                    a.last().1 == b.last().0,
                    a[0].1 == b[0].0,
                    i == 0 && j0 == 0 ==> j == 0,
                    i == i0,
                    lid == (unit_diagonal(a) && at_most_two_per_original(b)),
                    lid && i0 > 0 ==> a[i0 - 1].1 == b[j0 as int].0 && (j0 + 1 < j_max ==> b[j0 + 1].0 > b[j0 as int].0),
                    lid && i0 > 0 ==> j <= j0 + 1,
                decreases j_max - j,
            {
                proof { lemma_mono(a, i as int, a.len() - 1); }
                j = j + 1;
            }
            while self.indices[i].1 < other.indices[j].0 && self.indices[i + 1].1 <= other.indices[j].0
                invariant
                    a == self@,
                    b == other@,
                    other.wf(),
                    self.wf(),
                    i0 <= i < i_max == a.len(),
                    j < j_max == b.len(),
                    a.last().1 == b.last().0,
                    a[0].1 == b[0].0,
                    i0 == 0 && j == 0 ==> i == 0,
                    lid == (unit_diagonal(a) && at_most_two_per_original(b)),
                    lid ==> a[i as int].1 <= b[j as int].0,
                    lid && i0 > 0 ==> j == j0 + 1 && composed@ == b.subrange(0, j as int),
                    lid && i0 == 0 ==> j == 0 && composed@.len() == 0,
                decreases i_max - i,
            {
                proof { lemma_mono(b, j as int, b.len() - 1); }
                i = i + 1;
            }
            proof {
                if i0 > 0 {
                    lemma_mono(a, i0 - 1, i as int);
                    lemma_mono(b, j0 as int, j as int);
                }
            }
            proof {
                if lid {
                    assert(a[i as int].1 == b[j as int].0);
                    if j > 0 {
                        assert(b[j - 1] != b[j - 1 + 1]);
                    }
                }
            }
            composed.push(self.indices[i].0, other.indices[j].1);
            proof {
                if lid {
                    assert(composed@ =~= b.subrange(0, j + 1));
                }
            }
            let ghost i2 = i;
            while i + 1 < i_max && self.indices[i].0 == self.indices[i + 1].0
                invariant
                    a == self@,
                    b == other@,
                    i0 <= i < i_max == a.len(),
                    j < b.len(),
                    lid == (unit_diagonal(a) && at_most_two_per_original(b)),
                    lid ==> i == i2 && a[i as int].1 == b[j as int].0 && composed@ == b.subrange(0, j + 1),
                    composed@.len() > 0,
                    composed@.last() == (a[i as int].0, b[j as int].1),
                decreases i_max - i,
            {
                i = i + 1;
            }
            let ghost j1 = j;
            let mut needs_upper = false;
            while j + 1 < j_max && self.indices[i].1 >= other.indices[j + 1].0
                invariant
                    a == self@,
                    b == other@,
                    other.wf(),
                    i < i_max == a.len(),
                    j1 <= j < j_max == b.len(),
                    composed@.len() > 0,
                    composed@.last() == (a[i as int].0, b[j1 as int].1),
                    !needs_upper ==> j == j1,
                    lid == (unit_diagonal(a) && at_most_two_per_original(b)),
                    lid ==> a[i as int].1 == b[j1 as int].0 && composed@ == b.subrange(0, j1 + 1),
                    lid && needs_upper ==> j == j1 + 1 && b[j as int].0 == b[j1 as int].0,
                decreases j_max - j,
            {
                proof {
                    if lid {
                        lemma_mono(b, j1 as int, j + 1);
                        if needs_upper {
                            assert(b[j1 as int].0 != b[j1 + 2].0);
                        }
                    }
                }
                needs_upper = true;
                j = j + 1;
            }
            proof {
                if i + 1 == i_max {
                    if j + 1 < j_max {
                        lemma_mono(b, j + 1, b.len() - 1);
                    }
                }
                lemma_mono(b, j1 as int, j as int);
            }
            proof {
                if lid && needs_upper {
                    assert(b[j - 1] != b[j - 1 + 1]);
                    assert(b[j1 as int] == b[j - 1]);
                }
            }
            if needs_upper {
                composed.push(self.indices[i].0, other.indices[j].1);
            }
            proof {
                if lid {
                    assert(composed@ =~= b.subrange(0, j + 1));
                }
            }
            i = i + 1;
        }
        proof {
            if lid {
                assert(b.subrange(0, j_max as int) == b);
            }
        }
        composed
    }

    /// A view of the pairs at positions `range`.
    pub fn slice(&self, range: Bounds) -> (r: Slice<'_>)
        requires
            range.lo() <= range.hi(self@.len() as int) <= self@.len(),
        ensures
            r.pairs@ == self@.subrange(range.lo(), range.hi(self@.len() as int)),
            r.o_bounds == Bounds::full_spec(),
            r.m_bounds == Bounds::full_spec(),
            r.o_shift == 0,
            r.m_shift == 0,
            r@ == as_ints(r.pairs@),
    {
        let start = match range.start {
            Some(n) => n,
            None => 0,
        };
        let end = match range.end {
            Some(n) => n,
            None => self.indices.len(),
        };
        let r = Slice::new(vstd::slice::slice_subrange(self.indices.as_slice(), start, end));
        proof {
            r.lemma_full_view();
        }
        r
    }

    /// Shared body of the two slices by a sequence range.
    fn slice_by(&self, range: Bounds, by_modified: bool) -> (r: Slice<'_>)
        requires
            self.wf(),
            in_domain(self@, by_modified, range),
            lower_index(self@, by_modified, opt_int(range.start)) <= upper_index(
                self@,
                by_modified,
                opt_int(range.end),
            ) + 1,
        ensures
            r.pairs@ == self@.subrange(
                lower_index(self@, by_modified, opt_int(range.start)),
                upper_index(self@, by_modified, opt_int(range.end)) + 1,
            ),
            by_modified ==> r.o_bounds == Bounds::full_spec() && r.m_bounds == range,
            !by_modified ==> r.o_bounds == range && r.m_bounds == Bounds::full_spec(),
            r.o_shift == 0,
            r.m_shift == 0,
    {
        let lb = self.lower_bound(range.start, by_modified);
        let ub = self.upper_bound(range.end, by_modified);
        let n = self.indices.len();
        assert(ub < n);
        let pairs = vstd::slice::slice_subrange(self.indices.as_slice(), lb, ub + 1);
        if by_modified {
            Slice::clamped(pairs, Bounds::full(), range)
        } else {
            Slice::clamped(pairs, range, Bounds::full())
        }
    }

    /// The smallest run of pairs whose original indices cover `range`, with
    /// each original index clamped into `range`.
    pub fn slice_by_original(&self, range: Bounds) -> (r: Slice<'_>)
        requires
            self.wf(),
            in_domain(self@, false, range),
            lower_index(self@, false, opt_int(range.start)) <= upper_index(
                self@,
                false,
                opt_int(range.end),
            ) + 1,
        ensures
            r.pairs@ == self@.subrange(
                lower_index(self@, false, opt_int(range.start)),
                upper_index(self@, false, opt_int(range.end)) + 1,
            ),
            r.o_bounds == range,
            r.m_bounds == Bounds::full_spec(),
            r.o_shift == 0,
            r.m_shift == 0,
    {
        self.slice_by(range, false)
    }

    /// The smallest run of pairs whose modified indices cover `range`, with
    /// each modified index clamped into `range`.
    pub fn slice_by_modified(&self, range: Bounds) -> (r: Slice<'_>)
        requires
            self.wf(),
            in_domain(self@, true, range),
            lower_index(self@, true, opt_int(range.start)) <= upper_index(
                self@,
                true,
                opt_int(range.end),
            ) + 1,
        ensures
            r.pairs@ == self@.subrange(
                lower_index(self@, true, opt_int(range.start)),
                upper_index(self@, true, opt_int(range.end)) + 1,
            ),
            r.o_bounds == Bounds::full_spec(),
            r.m_bounds == range,
            r.o_shift == 0,
            r.m_shift == 0,
    {
        self.slice_by(range, true)
    }

    /// A view of all pairs moved by `(o, m)`.
    pub fn shifted(&self, o: isize, m: isize) -> (r: Slice<'_>)
        ensures
            r@ == moved(self@, o as int, m as int),
            r.pairs@ == self@,
    {
        let s = self.slice(Bounds::full());
        assert(self@.subrange(0, self@.len() as int) == self@);
        s.shifted(o, m)
    }

    /// A view of all pairs moved so that the first becomes `(0, 0)`.
    pub fn shifted_to_origin(&self) -> (r: Slice<'_>)
        requires
            self@.len() > 0,
            self@[0].0 <= isize::MAX,
            self@[0].1 <= isize::MAX,
        ensures
            r@ == moved(self@, -self@[0].0, -self@[0].1),
            r.pairs@ == self@,
    {
        let s = self.slice(Bounds::full());
        assert(self@.subrange(0, self@.len() as int) == self@);
        s.shifted_to_origin()
    }
}

/// A view of a run of an alignment's pairs: each original index is clamped
/// into `o_bounds` then moved by `o_shift`, and likewise on the modified side.
#[derive(Clone, Copy, Debug)]
pub struct Slice<'a> {
    pub pairs: &'a [(usize, usize)],
    pub o_bounds: Bounds,
    pub m_bounds: Bounds,
    pub o_shift: isize,
    pub m_shift: isize,
}

/// The pairs a slice view shows.
pub open spec fn shown(
    s: Seq<(usize, usize)>,
    ob: Bounds,
    mb: Bounds,
    d_o: int,
    d_m: int,
) -> Seq<(int, int)> {
    s.map_values(|p: (usize, usize)| (ob.clamp_spec(p.0 as int) + d_o, mb.clamp_spec(p.1 as int) + d_m))
}

/// Every shown index is a valid `usize`.
pub open spec fn all_fit(s: Seq<(int, int)>) -> bool {
    forall|i: int|
        0 <= i < s.len() ==> 0 <= (#[trigger] s[i]).0 <= usize::MAX && 0 <= s[i].1 <= usize::MAX
}

/// `n` moved by `d`, where the result is known to be a valid `usize`.
fn offset(n: usize, d: isize) -> (r: usize)
    requires
        0 <= n + d <= usize::MAX,
    ensures
        r == n + d,
{
    if d >= 0 {
        n + d as usize
    } else {
        n - ((-(d + 1)) as usize) - 1
    }
}

impl<'a> View for Slice<'a> {
    type V = Seq<(int, int)>;

    open spec fn view(&self) -> Seq<(int, int)> {
        shown(self.pairs@, self.o_bounds, self.m_bounds, self.o_shift as int, self.m_shift as int)
    }
}

impl<'a> Slice<'a> {
    /// An unclamped, unshifted view of `pairs`.
    pub fn new(pairs: &'a [(usize, usize)]) -> (r: Self)
        ensures
            r.pairs@ == pairs@,
            r.o_bounds == Bounds::full_spec(),
            r.m_bounds == Bounds::full_spec(),
            r.o_shift == 0,
            r.m_shift == 0,
    {
        Slice::clamped(pairs, Bounds::full(), Bounds::full())
    }

    /// An unshifted view of `pairs` clamped into the given bounds.
    pub fn clamped(pairs: &'a [(usize, usize)], o_bounds: Bounds, m_bounds: Bounds) -> (r: Self)
        ensures
            r.pairs@ == pairs@,
            r.o_bounds == o_bounds,
            r.m_bounds == m_bounds,
            r.o_shift == 0,
            r.m_shift == 0,
    {
        Slice { pairs, o_bounds, m_bounds, o_shift: 0, m_shift: 0 }
    }

    proof fn lemma_full_view(&self)
        requires
            self.o_bounds == Bounds::full_spec(),
            self.m_bounds == Bounds::full_spec(),
            self.o_shift == 0,
            self.m_shift == 0,
        ensures
            self@ == as_ints(self.pairs@),
    {
        assert(self@ =~= as_ints(self.pairs@));
    }

    /// The number of pairs in view.
    pub fn len(&self) -> (r: usize)
        ensures
            r == self@.len(),
    {
        self.pairs.len()
    }

    /// The pairs in view, in order.
    pub fn iter(&self) -> (r: Vec<(usize, usize)>)
        requires
            all_fit(self@),
        ensures
            r@.len() == self@.len(),
            forall|k: int| 0 <= k < r@.len() ==> (#[trigger] r@[k]).0 == self@[k].0 && r@[k].1 == self@[k].1,
    {
        let mut v: Vec<(usize, usize)> = Vec::new();
        let mut i: usize = 0;
        while i < self.pairs.len()
            invariant
                i <= self.pairs@.len(),
                all_fit(self@),
                v@.len() == i,
                forall|k: int| 0 <= k < i ==> (#[trigger] v@[k]).0 == self@[k].0 && v@[k].1 == self@[k].1,
            decreases self.pairs@.len() - i,
        {
            let (o, m) = self.pairs[i];
            assert(0 <= self@[i as int].0 <= usize::MAX && 0 <= self@[i as int].1 <= usize::MAX);
            let o2 = offset(self.o_bounds.clamp(o), self.o_shift);
            let m2 = offset(self.m_bounds.clamp(m), self.m_shift);
            v.push((o2, m2));
            i = i + 1;
        }
        v
    }

    /// The original range in view: the clamped first and last original indices.
    pub fn original_range(&self) -> (r: Range<usize>)
        requires
            self.pairs@.len() > 0,
        ensures
            r.start == self.o_bounds.clamp_spec(self.pairs@[0].0 as int),
            r.end == self.o_bounds.clamp_spec(self.pairs@.last().0 as int),
    {
        let n = self.pairs.len();
        self.o_bounds.clamp(self.pairs[0].0)..self.o_bounds.clamp(self.pairs[n - 1].0)
    }

    /// The modified range in view: the clamped first and last modified indices.
    pub fn modified_range(&self) -> (r: Range<usize>)
        requires
            self.pairs@.len() > 0,
        ensures
            r.start == self.m_bounds.clamp_spec(self.pairs@[0].1 as int),
            r.end == self.m_bounds.clamp_spec(self.pairs@.last().1 as int),
    {
        let n = self.pairs.len();
        self.m_bounds.clamp(self.pairs[0].1)..self.m_bounds.clamp(self.pairs[n - 1].1)
    }

    /// This view moved further by `(o, m)`.
    pub fn shifted(&self, o: isize, m: isize) -> (r: Self)
        requires
            isize::MIN <= self.o_shift + o <= isize::MAX,
            isize::MIN <= self.m_shift + m <= isize::MAX,
        ensures
            r.pairs@ == self.pairs@,
            r.o_bounds == self.o_bounds,
            r.m_bounds == self.m_bounds,
            r.o_shift == self.o_shift + o,
            r.m_shift == self.m_shift + m,
            r@ == self@.map_values(|p: (int, int)| (p.0 + o, p.1 + m)),
    {
        let r = Slice {
            pairs: self.pairs,
            o_bounds: self.o_bounds,
            m_bounds: self.m_bounds,
            o_shift: self.o_shift + o,
            m_shift: self.m_shift + m,
        };
        assert(r@ =~= self@.map_values(|p: (int, int)| (p.0 + o, p.1 + m)));
        r
    }

    /// This view moved so that its first pair shows `(0, 0)`, whatever it
    /// was moved by before.
    pub fn shifted_to_origin(&self) -> (r: Self)
        requires
            self.pairs@.len() > 0,
            self.o_bounds.clamp_spec(self.pairs@[0].0 as int) <= isize::MAX,
            self.m_bounds.clamp_spec(self.pairs@[0].1 as int) <= isize::MAX,
        ensures
            r.pairs@ == self.pairs@,
            r.o_bounds == self.o_bounds,
            r.m_bounds == self.m_bounds,
            r.o_shift == -self.o_bounds.clamp_spec(self.pairs@[0].0 as int),
            r.m_shift == -self.m_bounds.clamp_spec(self.pairs@[0].1 as int),
            r@[0] == (0int, 0int),
    {
        let o = self.o_bounds.clamp(self.pairs[0].0);
        let m = self.m_bounds.clamp(self.pairs[0].1);
        Slice {
            pairs: self.pairs,
            o_bounds: self.o_bounds,
            m_bounds: self.m_bounds,
            o_shift: -(o as isize),
            m_shift: -(m as isize),
        }
    }
}


/// The shown index `n` clamped into `b` and moved by `d`, as a wide integer.
fn shown_index(b: &Bounds, n: usize, d: isize) -> (r: i128)
    ensures
        r == b.clamp_spec(n as int) + d,
{
    b.clamp(n) as i128 + d as i128
}

impl<'a> PartialEq for Slice<'a> {
    fn eq(&self, other: &Slice<'a>) -> (r: bool)
        ensures
            r == (self@ == other@),
    {
        let n = self.pairs.len();
        if n != other.pairs.len() {
            return false;
        }
        let mut i: usize = 0;
        while i < n
            invariant
                n == self@.len() == other@.len(),
                i <= n,
                self@.subrange(0, i as int) == other@.subrange(0, i as int),
            decreases n - i,
        {
            let (o1, m1) = self.pairs[i];
            let (o2, m2) = other.pairs[i];
            if shown_index(&self.o_bounds, o1, self.o_shift) != shown_index(&other.o_bounds, o2, other.o_shift)
                || shown_index(&self.m_bounds, m1, self.m_shift) != shown_index(&other.m_bounds, m2, other.m_shift) {
                assert(self@[i as int] != other@[i as int]);
                return false;
            }
            assert(self@.subrange(0, i + 1) == self@.subrange(0, i as int).push(self@[i as int]));
            assert(other@.subrange(0, i + 1) == other@.subrange(0, i as int).push(other@[i as int]));
            i = i + 1;
        }
        assert(self@ == self@.subrange(0, n as int));
        assert(other@ == other@.subrange(0, n as int));
        true
    }
}

impl<'a> vstd::std_specs::cmp::PartialEqSpecImpl for Slice<'a> {
    open spec fn obeys_eq_spec() -> bool {
        true
    }

    open spec fn eq_spec(&self, other: &Slice<'a>) -> bool {
        self@ == other@
    }
}

} // verus!
