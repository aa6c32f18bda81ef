//! Inference of a lowest-cost alignment between two sequences: a full
//! edit-distance matrix for short inputs, and Hirschberg's linear-space
//! divide and conquer above it.
use super::{joined, moved_by, well_formed, Alignment};
use vstd::prelude::*;

verus! {

/// One edit between two sequences, for computing edit distances.
#[derive(Clone, Copy, Debug, PartialEq, Eq)]
pub enum Edit<T, U> {
    /// A replacement of one item with another.
    Replacement(T, U),
    /// The deletion of an item.
    Deletion(T),
    /// The insertion of an item.
    Insertion(U),
}

/// The edit that undoes `e`.
pub open spec fn inverse_edit<T, U>(e: Edit<T, U>) -> Edit<U, T> {
    match e {
        Edit::Replacement(t, u) => Edit::Replacement(u, t),
        Edit::Deletion(t) => Edit::Insertion(t),
        Edit::Insertion(u) => Edit::Deletion(u),
    }
}

impl<T, U> Edit<T, U> {
    /// The edit that undoes this one.
    pub fn inverse(self) -> (r: Edit<U, T>)
        ensures
            r == inverse_edit(self),
    {
        match self {
            Edit::Replacement(t, u) => Edit::Replacement(u, t),
            Edit::Deletion(t) => Edit::Insertion(t),
            Edit::Insertion(u) => Edit::Deletion(u),
        }
    }
}

/// `q` follows `p` by one edit: a replacement, a deletion or an insertion.
pub open spec fn is_step(p: (usize, usize), q: (usize, usize)) -> bool {
    ||| (q.0 == p.0 + 1 && q.1 == p.1 + 1)
    ||| (q.0 == p.0 + 1 && q.1 == p.1)
    ||| (q.0 == p.0 && q.1 == p.1 + 1)
}

/// `s` walks by single edits from `(0, 0)` to `(n, m)`.
pub open spec fn is_path(s: Seq<(usize, usize)>, n: int, m: int) -> bool {
    &&& s.len() > 0
    &&& s[0] == (0usize, 0usize)
    &&& s.last().0 == n
    &&& s.last().1 == m
    &&& forall|i: int| 0 <= i < s.len() - 1 ==> #[trigger] is_step(s[i], s[i + 1])
}

proof fn lemma_steps_monotone(s: Seq<(usize, usize)>, i: int, j: int)
    requires
        forall|k: int| 0 <= k < s.len() - 1 ==> #[trigger] is_step(s[k], s[k + 1]),
        0 <= i <= j < s.len(),
    ensures
        s[i].0 <= s[j].0,
        s[i].1 <= s[j].1,
    decreases j - i,
{
    if i < j {
        lemma_steps_monotone(s, i, j - 1);
        let k = j - 1;
        assert(is_step(s[k], s[k + 1]));
    }
}

proof fn lemma_path_wf(s: Seq<(usize, usize)>, n: int, m: int)
    requires
        is_path(s, n, m),
    ensures
        well_formed(s),
{
    assert forall|i: int, j: int| 0 <= i < j < s.len() implies #[trigger] s[i].0 <= #[trigger] s[j].0 && s[i].1 <= s[j].1 by {
        lemma_steps_monotone(s, i, j);
    }
    assert forall|i: int| 0 <= i < s.len() - 1 implies #[trigger] s[i] != s[i + 1] by {
        assert(is_step(s[i], s[i + 1]));
    }
}

proof fn lemma_join_paths(
    s: Seq<(usize, usize)>,
    t: Seq<(usize, usize)>,
    n1: int,
    m1: int,
    n2: int,
    m2: int,
)
    requires
        is_path(s, n1, m1),
        is_path(t, n2, m2),
        n1 + n2 <= usize::MAX,
        m1 + m2 <= usize::MAX,
    ensures
        is_path(joined(s, moved_by(t, n1 as usize, m1 as usize)), n1 + n2, m1 + m2),
{
    let u = moved_by(t, n1 as usize, m1 as usize);
    lemma_path_wf(t, n2, m2);
    assert forall|k: int| 0 <= k < t.len() implies #[trigger] t[k].0 <= n2 && t[k].1 <= m2 by {
        lemma_steps_monotone(t, k, t.len() - 1);
    }
    assert(u[0] == s.last());
    let r = joined(s, u);
    assert(r == s + u.drop_first());
    assert forall|i: int| 0 <= i < r.len() - 1 implies #[trigger] is_step(r[i], r[i + 1]) by {
        if i < s.len() - 1 {
            assert(is_step(s[i], s[i + 1]));
        } else {
            let k = i - (s.len() - 1);
            assert(is_step(t[k], t[k + 1]));
            assert(r[i] == u[k]);
            assert(r[i + 1] == u[k + 1]);
        }
    }
    if t.len() > 1 {
        assert(r.last() == u.last());
    } else {
        assert(r == s);
    }
}

/// What a deterministic cost function charges for `e`.
pub open spec fn price_of<T, U, F: Fn(Edit<&T, &U>) -> u64>(f: F, e: Edit<&T, &U>) -> u64 {
    choose|c: u64| f.ensures((e,), c)
}

/// The prices that a deterministic cost function charges.
pub open spec fn priced<'a, T, U, F: Fn(Edit<&T, &U>) -> u64>(f: F) -> spec_fn(Edit<&'a T, &'a U>) -> u64 {
    |x: Edit<&'a T, &'a U>| price_of(f, x)
}

/// The default prices, as a function.
pub open spec fn unit_prices<'a>() -> spec_fn(Edit<&'a char, &'a char>) -> u64 {
    |x: Edit<&'a char, &'a char>| unit_price(x)
}

/// The default price of an edit: 0 for keeping an item, 1 otherwise.
pub open spec fn unit_price(e: Edit<&char, &char>) -> u64 {
    match e {
        Edit::Replacement(t, u) => if *t == *u { 0u64 } else { 1u64 },
        _ => 1u64,
    }
}

/// The default price of an edit: 0 for keeping an item, 1 otherwise.
pub fn unit_cost(e: Edit<&char, &char>) -> (r: u64)
    ensures
        r == unit_price(e),
{
    match e {
        Edit::Replacement(t, u) => if *t == *u { 0 } else { 1 },
        _ => 1,
    }
}

/// `x + y`, held at `u64::MAX` where it would pass it.
pub open spec fn sat_add(x: u64, y: u64) -> u64 {
    if x + y > u64::MAX { u64::MAX } else { (x + y) as u64 }
}

/// The least of three costs, preferring a replacement, then a deletion, on ties.
pub open spec fn cheapest(sub: u64, del: u64, ins: u64) -> u64 {
    let x = if del < sub { del } else { sub };
    if ins < x { ins } else { x }
}

/// The lowest total cost of turning `a[..i]` into `b[..j]` by replacements,
/// deletions and insertions priced by `cost`, costs added with saturation.
pub open spec fn edit_distance<T, U>(
    cost: spec_fn(Edit<&T, &U>) -> u64,
    a: Seq<T>,
    b: Seq<U>,
    i: nat,
    j: nat,
) -> u64
    decreases i + j,
{
    if i == 0 && j == 0 {
        0
    } else if i == 0 {
        sat_add(edit_distance(cost, a, b, 0, (j - 1) as nat), cost(Edit::Insertion(&b[j - 1])))
    } else if j == 0 {
        sat_add(edit_distance(cost, a, b, (i - 1) as nat, 0), cost(Edit::Deletion(&a[i - 1])))
    } else {
        cheapest(
            sat_add(
                edit_distance(cost, a, b, (i - 1) as nat, (j - 1) as nat),
                cost(Edit::Replacement(&a[i - 1], &b[j - 1])),
            ),
            sat_add(edit_distance(cost, a, b, (i - 1) as nat, j), cost(Edit::Deletion(&a[i - 1]))),
            sat_add(edit_distance(cost, a, b, i, (j - 1) as nat), cost(Edit::Insertion(&b[j - 1]))),
        )
    }
}

/// `s` read from its end.
pub open spec fn reversed<T>(s: Seq<T>) -> Seq<T> {
    Seq::new(s.len(), |k: int| s[s.len() - 1 - k])
}

/// The item `i` places from the start of `seq`, or from its end when `reverse` is set.
fn index<T>(seq: &[T], i: usize, reverse: bool) -> (r: &T)
    requires
        i < seq@.len(),
    ensures
        *r == if reverse { reversed(seq@)[i as int] } else { seq@[i as int] },
{
    if reverse {
        &seq[seq.len() - i - 1]
    } else {
        &seq[i]
    }
}

/// The edit-distance matrix step that reaches each cell: a replacement, a
/// deletion or an insertion.
pub const DIAGONAL: u8 = 0;
pub const UP: u8 = 1;
pub const LEFT: u8 = 2;

/// The neighbour from which the cheapest way into cell `(i, j)` of the
/// edit-distance matrix comes: `DIAGONAL` (a replacement), `UP` (a deletion)
/// or `LEFT` (an insertion). On equal costs a replacement wins over a
/// deletion, and a deletion over an insertion.
pub open spec fn back_step<T, U>(
    cost: spec_fn(Edit<&T, &U>) -> u64,
    a: Seq<T>,
    b: Seq<U>,
    i: nat,
    j: nat,
) -> u8 {
    if i == 0 && j == 0 {
        DIAGONAL
    } else if i == 0 {
        LEFT
    } else if j == 0 {
        UP
    } else {
        let sub = sat_add(
            edit_distance(cost, a, b, (i - 1) as nat, (j - 1) as nat),
            cost(Edit::Replacement(&a[i - 1], &b[j - 1])),
        );
        let del = sat_add(edit_distance(cost, a, b, (i - 1) as nat, j), cost(Edit::Deletion(&a[i - 1])));
        let ins = sat_add(edit_distance(cost, a, b, i, (j - 1) as nat), cost(Edit::Insertion(&b[j - 1])));
        let x = if del < sub { del } else { sub };
        if ins < x {
            LEFT
        } else if del < sub {
            UP
        } else {
            DIAGONAL
        }
    }
}

/// The alignment that follows `back_step` from `(i, j)` back to `(0, 0)`.
pub open spec fn back_path<T, U>(
    cost: spec_fn(Edit<&T, &U>) -> u64,
    a: Seq<T>,
    b: Seq<U>,
    i: nat,
    j: nat,
) -> Seq<(usize, usize)>
    decreases i + j,
{
    if i == 0 && j == 0 {
        seq![(0usize, 0usize)]
    } else {
        let d = back_step(cost, a, b, i, j);
        if d == DIAGONAL && i > 0 && j > 0 {
            back_path(cost, a, b, (i - 1) as nat, (j - 1) as nat).push((i as usize, j as usize))
        } else if d == UP && i > 0 {
            back_path(cost, a, b, (i - 1) as nat, j).push((i as usize, j as usize))
        } else if j > 0 {
            back_path(cost, a, b, i, (j - 1) as nat).push((i as usize, j as usize))
        } else {
            seq![]
        }
    }
}

/// The price of the edit that leads from `p` to `q`.
pub open spec fn step_cost<T, U>(
    cost: spec_fn(Edit<&T, &U>) -> u64,
    a: Seq<T>,
    b: Seq<U>,
    p: (usize, usize),
    q: (usize, usize),
) -> u64 {
    if q.0 == p.0 + 1 && q.1 == p.1 + 1 {
        cost(Edit::Replacement(&a[p.0 as int], &b[p.1 as int]))
    } else if q.0 == p.0 + 1 {
        cost(Edit::Deletion(&a[p.0 as int]))
    } else {
        cost(Edit::Insertion(&b[p.1 as int]))
    }
}

/// The total price of the edits along `s`, added with saturation.
pub open spec fn path_cost<T, U>(
    cost: spec_fn(Edit<&T, &U>) -> u64,
    a: Seq<T>,
    b: Seq<U>,
    s: Seq<(usize, usize)>,
) -> u64
    decreases s.len(),
{
    if s.len() <= 1 {
        0
    } else {
        sat_add(path_cost(cost, a, b, s.drop_last()), step_cost(cost, a, b, s[s.len() - 2], s.last()))
    }
}

/// No path of single edits from `(0, 0)` to `(i, j)` costs less than the
/// edit distance between `a[..i]` and `b[..j]`.
pub proof fn edit_distance_is_least<T, U>(
    cost: spec_fn(Edit<&T, &U>) -> u64,
    a: Seq<T>,
    b: Seq<U>,
    s: Seq<(usize, usize)>,
    i: nat,
    j: nat,
)
    requires
        is_path(s, i as int, j as int),
    ensures
        edit_distance(cost, a, b, i, j) <= path_cost(cost, a, b, s),
    decreases s.len(),
{
    if s.len() > 1 {
        let d = s.drop_last();
        let p = s[s.len() - 2];
        assert(is_step(s[s.len() - 2], s[s.len() - 2 + 1]));
        assert forall|k: int| 0 <= k < d.len() - 1 implies #[trigger] is_step(d[k], d[k + 1]) by {
            assert(is_step(s[k], s[k + 1]));
        }
        edit_distance_is_least(cost, a, b, d, p.0 as nat, p.1 as nat);
    } else {
        assert(s.last() == s[0]);
    }
}

proof fn lemma_back_path_cost<T, U>(
    cost: spec_fn(Edit<&T, &U>) -> u64,
    a: Seq<T>,
    b: Seq<U>,
    i: nat,
    j: nat,
)
    requires
        i <= usize::MAX,
        j <= usize::MAX,
    ensures
        back_path(cost, a, b, i, j).len() > 0,
        back_path(cost, a, b, i, j).last() == (i as usize, j as usize),
        path_cost(cost, a, b, back_path(cost, a, b, i, j)) == edit_distance(cost, a, b, i, j),
    decreases i + j,
{
    if i == 0 && j == 0 {
    } else {
        let d = back_step(cost, a, b, i, j);
        let (pi, pj) = if d == DIAGONAL && i > 0 && j > 0 {
            ((i - 1) as nat, (j - 1) as nat)
        } else if d == UP && i > 0 {
            ((i - 1) as nat, j)
        } else {
            (i, (j - 1) as nat)
        };
        lemma_back_path_cost(cost, a, b, pi, pj);
        let s = back_path(cost, a, b, i, j);
        assert(s.drop_last() == back_path(cost, a, b, pi, pj));
        assert(s[s.len() - 2] == (pi as usize, pj as usize));
    }
}

/// Every back-pointer of `matrix` stays inside it.
spec fn pointers_valid(matrix: Seq<Vec<(u64, u8)>>) -> bool {
    forall|r: int, c: int|
        0 <= r < matrix.len() && 0 <= c < matrix[r]@.len() ==> {
            let d = (#[trigger] matrix[r]@[c]).1;
            &&& d <= LEFT
            &&& (r == 0 && c > 0 ==> d == LEFT)
            &&& (r > 0 && c == 0 ==> d == UP)
        }
}

impl Alignment {
    /// The last row of the edit-distance matrix between `original` and
    /// `modified`: entry `j` is the distance from all of `original` to the
    /// first `j` items of `modified`. With `reverse` set, both are read from
    /// their ends and the row is returned back to front, so that entry `j`
    /// belongs to the items of `modified` from `j` on.
    fn infer_costs<T, U, F>(
        original: &[T],
        modified: &[U],
        reverse: bool,
        cost_fn: &F,
        Ghost(cost): Ghost<spec_fn(Edit<&T, &U>) -> u64>,
    ) -> (r: Vec<u64>)
        where
            F: Fn(Edit<&T, &U>) -> u64,
        requires
            forall|x: Edit<&T, &U>| #[trigger] cost_fn.requires((x,)),
            forall|x: Edit<&T, &U>, c: u64| #[trigger] cost_fn.ensures((x,), c) ==> c == cost(x),
            modified@.len() < usize::MAX,
        ensures
            r@.len() == modified@.len() + 1,
            !reverse ==> forall|j: int|
                0 <= j <= modified@.len() ==> #[trigger] r@[j] == edit_distance(
                    cost,
                    original@,
                    modified@,
                    original@.len(),
                    j as nat,
                ),
            reverse ==> forall|j: int|
                0 <= j <= modified@.len() ==> #[trigger] r@[j] == edit_distance(
                    cost,
                    reversed(original@),
                    reversed(modified@),
                    original@.len(),
                    (modified@.len() - j) as nat,
                ),
    {
        let ghost a = if reverse { reversed(original@) } else { original@ };
        let ghost b = if reverse { reversed(modified@) } else { modified@ };
        let mlen = modified.len();
        let mut row: Vec<u64> = Vec::new();
        row.push(0);
        let mut j: usize = 0;
        while j < mlen
            invariant
                j <= mlen == modified@.len() == b.len() < usize::MAX,
                b == if reverse { reversed(modified@) } else { modified@ },
                row@.len() == j + 1,
                forall|k: int| 0 <= k <= j ==> #[trigger] row@[k] == edit_distance(cost, a, b, 0, k as nat),
                forall|x: Edit<&T, &U>| #[trigger] cost_fn.requires((x,)),
                forall|x: Edit<&T, &U>, c: u64| #[trigger] cost_fn.ensures((x,), c) ==> c == cost(x),
            decreases mlen - j,
        {
            let m = index(modified, j, reverse);
            let c = cost_fn(Edit::Insertion(m));
            let cost_j = row[j].saturating_add(c);
            assert(cost_j == edit_distance(cost, a, b, 0, (j + 1) as nat));
            row.push(cost_j);
            j = j + 1;
        }
        let mut i: usize = 0;
        while i < original.len()
            invariant
                i <= original@.len() == a.len(),
                a == if reverse { reversed(original@) } else { original@ },
                b == if reverse { reversed(modified@) } else { modified@ },
                mlen == modified@.len() == b.len() < usize::MAX,
                row@.len() == mlen + 1,
                forall|k: int| 0 <= k <= mlen ==> #[trigger] row@[k] == edit_distance(cost, a, b, i as nat, k as nat),
                forall|x: Edit<&T, &U>| #[trigger] cost_fn.requires((x,)),
                forall|x: Edit<&T, &U>, c: u64| #[trigger] cost_fn.ensures((x,), c) ==> c == cost(x),
            decreases original@.len() - i,
        {
            let prev = row;
            let o = index(original, i, reverse);
            row = Vec::new();
            let c = cost_fn(Edit::Deletion(o));
            let first = prev[0].saturating_add(c);
            assert(first == edit_distance(cost, a, b, (i + 1) as nat, 0));
            row.push(first);
            let mut j: usize = 0;
            while j < mlen
                invariant
                    i < original@.len() == a.len(),
                    *o == a[i as int],
                    j <= mlen == modified@.len() == b.len() < usize::MAX,
                    b == if reverse { reversed(modified@) } else { modified@ },
                    prev@.len() == mlen + 1,
                    forall|k: int| 0 <= k <= mlen ==> #[trigger] prev@[k] == edit_distance(cost, a, b, i as nat, k as nat),
                    row@.len() == j + 1,
                    forall|k: int| 0 <= k <= j ==> #[trigger] row@[k] == edit_distance(cost, a, b, (i + 1) as nat, k as nat),
                    forall|x: Edit<&T, &U>| #[trigger] cost_fn.requires((x,)),
                    forall|x: Edit<&T, &U>, c: u64| #[trigger] cost_fn.ensures((x,), c) ==> c == cost(x),
                decreases mlen - j,
            {
                let m = index(modified, j, reverse);
                let sub_cost = prev[j].saturating_add(cost_fn(Edit::Replacement(o, m)));
                let del_cost = prev[j + 1].saturating_add(cost_fn(Edit::Deletion(o)));
                let ins_cost = row[j].saturating_add(cost_fn(Edit::Insertion(m)));
                let mut min_cost = sub_cost;
                if del_cost < min_cost {
                    min_cost = del_cost;
                }
                if ins_cost < min_cost {
                    min_cost = ins_cost;
                }
                assert(min_cost == edit_distance(cost, a, b, (i + 1) as nat, (j + 1) as nat));
                row.push(min_cost);
                j = j + 1;
            }
            i = i + 1;
        }
        if reverse {
            let mut back: Vec<u64> = Vec::new();
            let mut k: usize = row.len();
            while k > 0
                invariant
                    k <= row@.len(),
                    back@.len() == row@.len() - k,
                    forall|t: int| 0 <= t < back@.len() ==> #[trigger] back@[t] == row@[row@.len() - 1 - t],
                decreases k,
            {
                k = k - 1;
                back.push(row[k]);
            }
            back
        } else {
            row
        }
    }

    /// The full edit-distance matrix with back-pointers, walked back from the
    /// far corner to `(0, 0)`: the result is the cheapest path, with ties
    /// broken towards a replacement, then a deletion.
    fn infer_matrix<T, U, F>(
        original: &[T],
        modified: &[U],
        cost_fn: &F,
        Ghost(cost): Ghost<spec_fn(Edit<&T, &U>) -> u64>,
    ) -> (r: Self)
        where
            F: Fn(Edit<&T, &U>) -> u64,
        requires
            forall|x: Edit<&T, &U>| #[trigger] cost_fn.requires((x,)),
            forall|x: Edit<&T, &U>, c: u64| #[trigger] cost_fn.ensures((x,), c) ==> c == cost(x),
            modified@.len() < usize::MAX,
            original@.len() < usize::MAX,
        ensures
            r.wf(),
            is_path(r@, original@.len() as int, modified@.len() as int),
            r@ == back_path(cost, original@, modified@, original@.len(), modified@.len()),
            path_cost(cost, original@, modified@, r@) == edit_distance(
                cost,
                original@,
                modified@,
                original@.len(),
                modified@.len(),
            ),
    {
        proof {
            lemma_back_path_cost(cost, original@, modified@, original@.len(), modified@.len());
        }
        let ghost a = original@;
        let ghost b = modified@;
        let n = original.len();
        let m = modified.len();
        let mut matrix: Vec<Vec<(u64, u8)>> = Vec::new();
        let mut first: Vec<(u64, u8)> = Vec::new();
        first.push((0, DIAGONAL));
        let mut j: usize = 0;
        while j < m
            invariant
                j <= m == modified@.len() < usize::MAX,
                first@.len() == j + 1,
                first@[0].1 == DIAGONAL,
                forall|c: int| 0 < c < first@.len() ==> (#[trigger] first@[c]).1 == LEFT,
                forall|c: int| 0 <= c < first@.len() ==> #[trigger] first@[c] == (edit_distance(cost, a, b, 0, c as nat), back_step(cost, a, b, 0, c as nat)),
                a == original@,
                b == modified@,
                forall|x: Edit<&T, &U>| #[trigger] cost_fn.requires((x,)),
                forall|x: Edit<&T, &U>, c: u64| #[trigger] cost_fn.ensures((x,), c) ==> c == cost(x),
            decreases m - j,
        {
            let next = first[j].0.saturating_add(cost_fn(Edit::Insertion(&modified[j])));
            first.push((next, LEFT));
            j = j + 1;
        }
        matrix.push(first);
        let mut i: usize = 0;
        while i < n
            invariant
                i <= n == original@.len() < usize::MAX,
                m == modified@.len() < usize::MAX,
                matrix@.len() == i + 1,
                forall|r: int| 0 <= r < matrix@.len() ==> (#[trigger] matrix@[r])@.len() == m + 1,
                pointers_valid(matrix@),
                a == original@,
                b == modified@,
                forall|r: int, c: int| 0 <= r < matrix@.len() && 0 <= c <= m ==> #[trigger] matrix@[r]@[c] == (edit_distance(cost, a, b, r as nat, c as nat), back_step(cost, a, b, r as nat, c as nat)),
                forall|x: Edit<&T, &U>| #[trigger] cost_fn.requires((x,)),
                forall|x: Edit<&T, &U>, c: u64| #[trigger] cost_fn.ensures((x,), c) ==> c == cost(x),
            decreases n - i,
        {
            let o = &original[i];
            let mut row: Vec<(u64, u8)> = Vec::new();
            assert(matrix@[i as int]@[0].0 == edit_distance(cost, a, b, i as nat, 0));
            row.push((matrix[i][0].0.saturating_add(cost_fn(Edit::Deletion(o))), UP));
            let mut j: usize = 0;
            while j < m
                invariant
                    i < n == original@.len() < usize::MAX,
                    j <= m == modified@.len() < usize::MAX,
                    matrix@.len() == i + 1,
                    forall|r: int| 0 <= r < matrix@.len() ==> (#[trigger] matrix@[r])@.len() == m + 1,
                    row@.len() == j + 1,
                    row@[0].1 == UP,
                    forall|c: int| 0 <= c < row@.len() ==> (#[trigger] row@[c]).1 <= LEFT,
                    a == original@,
                    b == modified@,
                    forall|r: int, c: int| 0 <= r < matrix@.len() && 0 <= c <= m ==> #[trigger] matrix@[r]@[c] == (edit_distance(cost, a, b, r as nat, c as nat), back_step(cost, a, b, r as nat, c as nat)),
                    forall|c: int| 0 <= c < row@.len() ==> #[trigger] row@[c] == (edit_distance(cost, a, b, (i + 1) as nat, c as nat), back_step(cost, a, b, (i + 1) as nat, c as nat)),
                    *o == a[i as int],
                    forall|x: Edit<&T, &U>| #[trigger] cost_fn.requires((x,)),
                    forall|x: Edit<&T, &U>, c: u64| #[trigger] cost_fn.ensures((x,), c) ==> c == cost(x),
                decreases m - j,
            {
                let t = &modified[j];
                assert(*o == a[i as int] && *t == b[j as int]);
                let c_sub = cost_fn(Edit::Replacement(o, t));
                let c_del = cost_fn(Edit::Deletion(o));
                let c_ins = cost_fn(Edit::Insertion(t));
                assert(c_sub == cost(Edit::Replacement(&a[i as int], &b[j as int])));
                assert(c_del == cost(Edit::Deletion(&a[i as int])));
                assert(c_ins == cost(Edit::Insertion(&b[j as int])));
                let mut best = matrix[i][j].0.saturating_add(c_sub);
                let mut dir = DIAGONAL;
                let del_cost = matrix[i][j + 1].0.saturating_add(c_del);
                if del_cost < best {
                    best = del_cost;
                    dir = UP;
                }
                let ins_cost = row[j].0.saturating_add(c_ins);
                if ins_cost < best {
                    best = ins_cost;
                    dir = LEFT;
                }
                assert(matrix@[i as int]@[j as int].0 == edit_distance(cost, a, b, i as nat, j as nat));
                assert(matrix@[i as int]@[j + 1].0 == edit_distance(cost, a, b, i as nat, (j + 1) as nat));
                assert(row@[j as int].0 == edit_distance(cost, a, b, (i + 1) as nat, j as nat));
                assert(best == edit_distance(cost, a, b, (i + 1) as nat, (j + 1) as nat));
                assert(dir == back_step(cost, a, b, (i + 1) as nat, (j + 1) as nat));
                row.push((best, dir));
                j = j + 1;
            }
            matrix.push(row);
            i = i + 1;
        }
        let mut rev: Vec<(usize, usize)> = Vec::new();
        let mut i: usize = n;
        let mut j: usize = m;
        rev.push((i, j));
        assert(reversed(rev@).subrange(1, 1) =~= Seq::<(usize, usize)>::empty());
        assert(back_path(cost, a, b, n as nat, m as nat) =~= back_path(cost, a, b, n as nat, m as nat) + Seq::<(usize, usize)>::empty());
        while i > 0 || j > 0
            invariant
                i <= n == original@.len(),
                j <= m == modified@.len(),
                matrix@.len() == n + 1,
                forall|r: int| 0 <= r < matrix@.len() ==> (#[trigger] matrix@[r])@.len() == m + 1,
                pointers_valid(matrix@),
                rev@.len() > 0,
                rev@[0] == (n, m),
                rev@.last() == (i, j),
                forall|k: int| 0 <= k < rev@.len() - 1 ==> #[trigger] is_step(rev@[k + 1], rev@[k]),
                forall|r: int, c: int| 0 <= r < matrix@.len() && 0 <= c <= m ==> #[trigger] matrix@[r]@[c] == (edit_distance(cost, a, b, r as nat, c as nat), back_step(cost, a, b, r as nat, c as nat)),
                a == original@,
                b == modified@,
                back_path(cost, a, b, n as nat, m as nat) == back_path(cost, a, b, i as nat, j as nat) + reversed(rev@).subrange(1, rev@.len() as int),
            decreases i + j,
        {
            let d = matrix[i][j].1;
            assert(d == matrix@[i as int]@[j as int].1);
            let ghost old_rev = rev@;
            let ghost i0 = i;
            let ghost j0 = j;
            if d == DIAGONAL {
                i = i - 1;
                j = j - 1;
            } else if d == UP {
                i = i - 1;
            } else {
                j = j - 1;
            }
            rev.push((i, j));
            proof {
                assert(d == back_step(cost, a, b, i0 as nat, j0 as nat));
                assert(back_path(cost, a, b, i0 as nat, j0 as nat) == back_path(cost, a, b, i as nat, j as nat).push((i0, j0)));
                assert(reversed(rev@).subrange(1, rev@.len() as int) =~= seq![(i0, j0)] + reversed(old_rev).subrange(1, old_rev.len() as int));
                assert(back_path(cost, a, b, i as nat, j as nat).push((i0, j0)) + reversed(old_rev).subrange(1, old_rev.len() as int)
                    =~= back_path(cost, a, b, i as nat, j as nat) + reversed(rev@).subrange(1, rev@.len() as int));
            }
        }
        proof {
            assert(back_path(cost, a, b, 0, 0) == seq![(0usize, 0usize)]);
            assert(seq![(0usize, 0usize)] + reversed(rev@).subrange(1, rev@.len() as int) =~= reversed(rev@));
        }
        let mut path: Vec<(usize, usize)> = Vec::new();
        let mut k: usize = rev.len();
        while k > 0
            invariant
                k <= rev@.len(),
                rev@.len() > 0,
                path@.len() == rev@.len() - k,
                forall|t: int| 0 <= t < path@.len() ==> #[trigger] path@[t] == rev@[rev@.len() - 1 - t],
            decreases k,
        {
            k = k - 1;
            path.push(rev[k]);
        }
        proof {
            let s = path@;
            let l = rev@.len() as int;
            assert forall|t: int| 0 <= t < s.len() - 1 implies #[trigger] is_step(s[t], s[t + 1]) by {
                assert(is_step(rev@[(l - 2 - t) + 1], rev@[l - 2 - t]));
            }
            assert(s[0] == rev@.last());
            assert(s.last() == rev@[0]);
            lemma_path_wf(s, n as int, m as int);
            assert(s =~= reversed(rev@));
        }
        Alignment { indices: path }
    }

    /// Hirschberg's divide-and-conquer search for a lowest-cost alignment in
    /// linear space.
    fn infer_recursive<T, U, F>(
        original: &[T],
        modified: &[U],
        cost_fn: &F,
        Ghost(cost): Ghost<spec_fn(Edit<&T, &U>) -> u64>,
    ) -> (r: Self)
        where
            F: Fn(Edit<&T, &U>) -> u64,
        requires
            forall|x: Edit<&T, &U>| #[trigger] cost_fn.requires((x,)),
            forall|x: Edit<&T, &U>, c: u64| #[trigger] cost_fn.ensures((x,), c) ==> c == cost(x),
            modified@.len() < usize::MAX,
            original@.len() < usize::MAX,
        ensures
            r.wf(),
            is_path(r@, original@.len() as int, modified@.len() as int),
        decreases original@.len() + modified@.len(),
    {
        if original.len() <= 1 || modified.len() <= 1 {
            return Self::infer_matrix(original, modified, cost_fn, Ghost(cost));
        }
        let omid = original.len() / 2;
        let (oleft, oright) = original.split_at(omid);
        let lcosts = Self::infer_costs(oleft, modified, false, cost_fn, Ghost(cost));
        let rcosts = Self::infer_costs(oright, modified, true, cost_fn, Ghost(cost));
        let mut mmid: usize = 0;
        let mut min = lcosts[0].saturating_add(rcosts[0]);
        let mut i: usize = 1;
        while i < lcosts.len()
            invariant
                lcosts@.len() == rcosts@.len() == modified@.len() + 1,
                1 <= i <= lcosts@.len(),
                mmid <= modified@.len(),
            decreases lcosts@.len() - i,
        {
            let cost = lcosts[i].saturating_add(rcosts[i]);
            if cost < min {
                mmid = i;
                min = cost;
            }
            i = i + 1;
        }
        let (mleft, mright) = modified.split_at(mmid);
        let mut left = Self::infer_recursive(oleft, mleft, cost_fn, Ghost(cost));
        let right = Self::infer_recursive(oright, mright, cost_fn, Ghost(cost));
        proof {
            lemma_join_paths(left@, right@, omid as int, mmid as int, oright@.len() as int, mright@.len() as int);
            lemma_steps_monotone(right@, 0, right@.len() - 1);
        }
        left.append_moved(&right, omid, mmid);
        proof {
            lemma_path_wf(left@, original@.len() as int, modified@.len() as int);
        }
        left
    }

    /// The total price of the edits along the path `self`.
    fn path_price<T, U, F>(
        &self,
        original: &[T],
        modified: &[U],
        cost_fn: &F,
        Ghost(cost): Ghost<spec_fn(Edit<&T, &U>) -> u64>,
    ) -> (r: u64)
        where
            F: Fn(Edit<&T, &U>) -> u64,
        requires
            forall|x: Edit<&T, &U>| #[trigger] cost_fn.requires((x,)),
            forall|x: Edit<&T, &U>, c: u64| #[trigger] cost_fn.ensures((x,), c) ==> c == cost(x),
            modified@.len() < usize::MAX,
            original@.len() < usize::MAX,
            is_path(self@, original@.len() as int, modified@.len() as int),
        ensures
            r == path_cost(cost, original@, modified@, self@),
    {
        let ghost s = self@;
        let ghost a = original@;
        let ghost b = modified@;
        proof {
            assert forall|k: int| 0 <= k < s.len() implies (#[trigger] s[k]).0 <= a.len() && s[k].1 <= b.len() by {
                lemma_steps_monotone(s, k, s.len() - 1);
            }
            assert(s.subrange(0, 1).len() == 1);
        }
        let mut acc: u64 = 0;
        let mut k: usize = 1;
        while k < self.indices.len()
            invariant
                s == self@,
                a == original@,
                b == modified@,
                1 <= k <= s.len(),
                is_path(s, a.len() as int, b.len() as int),
                a.len() < usize::MAX,
                b.len() < usize::MAX,
                forall|t: int| 0 <= t < s.len() ==> (#[trigger] s[t]).0 <= a.len() && s[t].1 <= b.len(),
                acc == path_cost(cost, a, b, s.subrange(0, k as int)),
                forall|x: Edit<&T, &U>| #[trigger] cost_fn.requires((x,)),
                forall|x: Edit<&T, &U>, c: u64| #[trigger] cost_fn.ensures((x,), c) ==> c == cost(x),
            decreases s.len() - k,
        {
            let p = self.indices[k - 1];
            let q = self.indices[k];
            let ghost km1 = k - 1;
            assert(is_step(s[km1], s[km1 + 1]));
            let c = if q.0 == p.0 + 1 && q.1 == p.1 + 1 {
                cost_fn(Edit::Replacement(&original[p.0], &modified[p.1]))
            } else if q.0 == p.0 + 1 {
                cost_fn(Edit::Deletion(&original[p.0]))
            } else {
                cost_fn(Edit::Insertion(&modified[p.1]))
            };
            assert(c == step_cost(cost, a, b, p, q));
            acc = acc.saturating_add(c);
            proof {
                let t = s.subrange(0, k + 1);
                assert(t.drop_last() =~= s.subrange(0, k as int));
                assert(t[t.len() - 2] == p);
                assert(t.last() == q);
            }
            k = k + 1;
        }
        assert(s.subrange(0, s.len() as int) == s);
        acc
    }

    /// The shared body of the two public searches, for a cost function
    /// whose prices `cost` names.
    fn infer_priced<T, U, F>(
        original: &[T],
        modified: &[U],
        f: &F,
        Ghost(cost): Ghost<spec_fn(Edit<&T, &U>) -> u64>,
    ) -> (r: Self)
        where
            F: Fn(Edit<&T, &U>) -> u64,
        requires
            forall|x: Edit<&T, &U>| #[trigger] f.requires((x,)),
            forall|x: Edit<&T, &U>, c: u64| #[trigger] f.ensures((x,), c) ==> c == cost(x),
            modified@.len() < usize::MAX,
            original@.len() < usize::MAX,
        ensures
            r.wf(),
            is_path(r@, original@.len() as int, modified@.len() as int),
            path_cost(cost, original@, modified@, r@) == edit_distance(
                cost,
                original@,
                modified@,
                original@.len(),
                modified@.len(),
            ),
            forall|s: Seq<(usize, usize)>|
                is_path(s, original@.len() as int, modified@.len() as int) ==> path_cost(
                    cost,
                    original@,
                    modified@,
                    r@,
                ) <= #[trigger] path_cost(cost, original@, modified@, s),
    {
        let found = if original.len() < modified.len() {
            let inverted = move |e: Edit<&U, &T>| -> (r: u64)
                requires
                    forall|x: Edit<&T, &U>| #[trigger] f.requires((x,)),
                ensures
                    f.ensures((inverse_edit(e),), r),
                { f(e.inverse()) };
            let ghost inv_cost = |x: Edit<&U, &T>| cost(inverse_edit(x));
            let a = Self::infer_recursive(modified, original, &inverted, Ghost(inv_cost));
            let r = a.inverse();
            proof {
                let s = r@;
                assert forall|i: int| 0 <= i < s.len() - 1 implies #[trigger] is_step(s[i], s[i + 1]) by {
                    assert(is_step(a@[i], a@[i + 1]));
                }
            }
            r
        } else {
            Self::infer_recursive(original, modified, f, Ghost(cost))
        };
        let row = Self::infer_costs(original, modified, false, f, Ghost(cost));
        let best = row[modified.len()];
        let r = if found.path_price(original, modified, f, Ghost(cost)) == best {
            found
        } else {
            Self::infer_matrix(original, modified, f, Ghost(cost))
        };
        proof {
            assert forall|s: Seq<(usize, usize)>|
                is_path(s, original@.len() as int, modified@.len() as int) implies path_cost(
                    cost,
                    original@,
                    modified@,
                    r@,
                ) <= #[trigger] path_cost(cost, original@, modified@, s) by {
                edit_distance_is_least(cost, original@, modified@, s, original@.len(), modified@.len());
            }
        }
        r
    }

    /// An alignment between `original` and `modified` of the lowest total
    /// cost, where `cost_fn` prices each edit and must give the same price
    /// each time it sees the same edit. Costs add up with saturation at
    /// `u64::MAX`. Hirschberg's search finds it; its total is then checked
    /// against the edit distance, and should the two ever differ, the full
    /// matrix is walked instead.
    pub fn infer_with_costs<T, U, F>(original: &[T], modified: &[U], cost_fn: F) -> (r: Self)
        where
            F: Fn(Edit<&T, &U>) -> u64,
        requires
            forall|x: Edit<&T, &U>| #[trigger] cost_fn.requires((x,)),
            forall|x: Edit<&T, &U>, c1: u64, c2: u64|
                #[trigger] cost_fn.ensures((x,), c1) && #[trigger] cost_fn.ensures((x,), c2) ==> c1 == c2,
            modified@.len() < usize::MAX,
            original@.len() < usize::MAX,
        ensures
            r.wf(),
            is_path(r@, original@.len() as int, modified@.len() as int),
            path_cost(priced(cost_fn), original@, modified@, r@) == edit_distance(
                priced(cost_fn),
                original@,
                modified@,
                original@.len(),
                modified@.len(),
            ),
            forall|s: Seq<(usize, usize)>|
                is_path(s, original@.len() as int, modified@.len() as int) ==> path_cost(
                    priced(cost_fn),
                    original@,
                    modified@,
                    r@,
                ) <= #[trigger] path_cost(priced(cost_fn), original@, modified@, s),
    {
        let ghost cost = priced(cost_fn);
        assert forall|x: Edit<&T, &U>, c: u64| #[trigger] cost_fn.ensures((x,), c) implies c == cost(x) by {
            assert(cost_fn.ensures((x,), price_of(cost_fn, x)));
        }
        Self::infer_priced(original, modified, &cost_fn, Ghost(cost))
    }

    /// An alignment of the lowest total cost between `original` and
    /// `modified`, where a replacement by an equal item costs 0 and every
    /// other edit costs 1.
    pub fn infer(original: &[char], modified: &[char]) -> (r: Self)
        requires
            modified@.len() < usize::MAX,
            original@.len() < usize::MAX,
        ensures
            r.wf(),
            is_path(r@, original@.len() as int, modified@.len() as int),
            path_cost(unit_prices(), original@, modified@, r@) == edit_distance(
                unit_prices(),
                original@,
                modified@,
                original@.len(),
                modified@.len(),
            ),
            forall|s: Seq<(usize, usize)>|
                is_path(s, original@.len() as int, modified@.len() as int) ==> path_cost(
                    unit_prices(),
                    original@,
                    modified@,
                    r@,
                ) <= #[trigger] path_cost(unit_prices(), original@, modified@, s),
    {
        let priced_fn = |e: Edit<&char, &char>| -> (r: u64)
            ensures
                r == unit_price(e),
            { unit_cost(e) };
        Self::infer_priced(original, modified, &priced_fn, Ghost(unit_prices()))
    }
}

} // verus!
