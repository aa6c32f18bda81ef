//! Borrowed views of a bistring over a range of its modified text.
use crate::align::{
    canonical, in_domain, index_pairs, lower_index, map_range, shown, upper_index, Alignment, Slice,
};
use crate::bound::{end_of, opt_int, plus, start_of, Bounds, Endpoint};
use crate::owned::{byte_len, BiString};
use std::ops::Range;
use vstd::prelude::*;
use vstd::string::StringSliceAdditionalSpecFns;
use vstd::utf8::*;

verus! {

proof fn lemma_boundary_in_prefix(bytes: Seq<u8>, start: int, end: int)
    requires
        valid_utf8(bytes),
        is_char_boundary(bytes, start),
        is_char_boundary(bytes, end),
        0 <= start <= end <= bytes.len(),
    ensures
        is_char_boundary(bytes.subrange(0, end), start),
{
    valid_utf8_split(bytes, end);
    let p = bytes.subrange(0, end);
    if start == end {
        is_char_boundary_start_end_of_seq(p);
    } else {
        is_char_boundary_iff_not_is_continuation_byte(bytes, start);
        is_char_boundary_iff_not_is_continuation_byte(p, start);
        assert(p[start] == bytes[start]);
    }
}

/// The bytes `start..end` of `text`, both of which fall on char boundaries.
fn substring(text: &str, start: usize, end: usize) -> (r: &str)
    requires
        start <= end <= byte_len(text@),
        is_char_boundary(encode_utf8(text@), start as int),
        is_char_boundary(encode_utf8(text@), end as int),
    ensures
        encode_utf8(r@) == encode_utf8(text@).subrange(start as int, end as int),
{
    let ghost bytes = encode_utf8(text@);
    proof {
        encode_utf8_valid_utf8(text@);
        lemma_boundary_in_prefix(bytes, start as int, end as int);
    }
    let (head, _tail) = text.split_at(end);
    assert(head.spec_bytes() =~= bytes.subrange(0, end as int));
    let (_front, mid) = head.split_at(start);
    assert(mid.spec_bytes() =~= bytes.subrange(start as int, end as int));
    mid
}

/// A view of a bistring over a range of its modified text.
#[derive(Clone, Copy, Debug)]
pub struct BiStr<'a> {
    target: &'a BiString,
    bounds: Bounds,
}

impl<'a> BiStr<'a> {
    /// The bistring seen through this view.
    pub closed spec fn target(&self) -> &'a BiString {
        self.target
    }

    /// The range of the modified text in view.
    pub closed spec fn bounds(&self) -> Bounds {
        self.bounds
    }

    /// The view covers a range of the target's modified text.
    pub open spec fn in_text(&self) -> bool {
        let t = self.target()@;
        let b = self.bounds();
        &&& self.target().wf()
        &&& 0 <= b.lo() <= b.hi(byte_len(t.1)) <= byte_len(t.1)
        &&& in_domain(t.2, true, b)
    }

    /// The range of the original text that the view maps to.
    pub open spec fn original_span(&self) -> (int, int) {
        map_range(self.target()@.2, true, self.bounds())
    }

    /// The alignment in view: the pairs that cover the range, with modified
    /// indices clamped into it, moved so that the first pair is `(0, 0)`.
    pub open spec fn alignment_view(&self) -> Seq<(int, int)> {
        let s = self.target()@.2;
        let b = self.bounds();
        let sub = s.subrange(
            lower_index(s, true, opt_int(b.start)),
            upper_index(s, true, opt_int(b.end)) + 1,
        );
        shown(sub, Bounds::full_spec(), b, -sub[0].0, -b.clamp_spec(sub[0].1 as int))
    }

    /// A view of `target` over `bounds`, given in modified coordinates.
    pub fn new(target: &'a BiString, bounds: Bounds) -> (r: Self)
        ensures
            r.target() == target,
            r.bounds() == bounds,
    {
        BiStr { target, bounds }
    }

    /// The bounds in view, made concrete over the modified text.
    pub fn range(&self) -> (r: Range<usize>)
        requires
            self.target().wf(),
        ensures
            r.start == self.bounds().lo(),
            r.end == self.bounds().hi(byte_len(self.target()@.1)),
    {
        proof {
            self.target.lemma_wf();
        }
        self.bounds.to_range(self.target.modified().len())
    }

    /// The part of the original text that corresponds to the view.
    pub fn original(&self) -> (r: &'a str)
        requires
            self.in_text(),
            self.original_span().0 <= self.original_span().1,
            is_char_boundary(encode_utf8(self.target()@.0), self.original_span().0),
            is_char_boundary(encode_utf8(self.target()@.0), self.original_span().1),
        ensures
            encode_utf8(r@) == encode_utf8(self.target()@.0).subrange(
                self.original_span().0,
                self.original_span().1,
            ),
    {
        let target = self.target;
        proof {
            target.lemma_wf();
        }
        let al = target.alignment();
        let range = al.to_original_range(self.bounds);
        proof {
            crate::laws::conservative_bounds(al, true, self.bounds);
            let ub = crate::align::upper_index(target@.2, true, opt_int(self.bounds.end));
            crate::laws::alignment_monotone(al, ub, target@.2.len() - 1);
        }
        substring(target.original(), range.start, range.end)
    }

    /// The part of the modified text in view.
    pub fn modified(&self) -> (r: &'a str)
        requires
            self.in_text(),
            is_char_boundary(encode_utf8(self.target()@.1), self.bounds().lo()),
            is_char_boundary(encode_utf8(self.target()@.1), self.bounds().hi(byte_len(self.target()@.1))),
        ensures
            encode_utf8(r@) == encode_utf8(self.target()@.1).subrange(
                self.bounds().lo(),
                self.bounds().hi(byte_len(self.target()@.1)),
            ),
    {
        let range = self.range();
        substring(self.target.modified(), range.start, range.end)
    }

    /// The alignment in view, moved so that it starts at `(0, 0)`.
    pub fn alignment(&self) -> (r: Slice<'a>)
        requires
            self.in_text(),
            byte_len(self.target()@.0) <= isize::MAX,
            byte_len(self.target()@.1) <= isize::MAX,
            lower_index(self.target()@.2, true, opt_int(self.bounds().start)) <= upper_index(
                self.target()@.2,
                true,
                opt_int(self.bounds().end),
            ),
        ensures
            r@ == self.alignment_view(),
            r@.len() > 0,
            r@[0] == (0int, 0int),
    {
        proof {
            self.target.lemma_wf();
        }
        let al = self.target.alignment();
        let s = al.slice_by_modified(self.bounds);
        proof {
            let a = self.target()@.2;
            let lb = lower_index(a, true, opt_int(self.bounds.start));
            crate::laws::conservative_bounds(al, true, self.bounds);
            crate::laws::alignment_monotone(al, lb, a.len() - 1);
            assert(s.pairs@[0] == a[lb]);
            assert(a[lb].1 <= a.last().1);
        }
        let r = s.shifted_to_origin();
        assert(r@ =~= shown(s.pairs@, Bounds::full_spec(), self.bounds, -s.pairs@[0].0, -self.bounds.clamp_spec(s.pairs@[0].1 as int)));
        r
    }

    /// The view's two texts and its alignment can all be read: its ranges
    /// fall on char boundaries and at least one pair covers them.
    pub open spec fn readable(&self) -> bool {
        &&& self.in_text()
        &&& self.original_span().0 <= self.original_span().1
        &&& is_char_boundary(encode_utf8(self.target()@.0), self.original_span().0)
        &&& is_char_boundary(encode_utf8(self.target()@.0), self.original_span().1)
        &&& is_char_boundary(encode_utf8(self.target()@.1), self.bounds().lo())
        &&& is_char_boundary(encode_utf8(self.target()@.1), self.bounds().hi(byte_len(self.target()@.1)))
        &&& byte_len(self.target()@.0) <= isize::MAX
        &&& byte_len(self.target()@.1) <= isize::MAX
        &&& lower_index(self.target()@.2, true, opt_int(self.bounds().start)) <= upper_index(
            self.target()@.2,
            true,
            opt_int(self.bounds().end),
        )
    }

    /// The bytes of the original text in view.
    pub open spec fn original_bytes(&self) -> Seq<u8> {
        encode_utf8(self.target()@.0).subrange(self.original_span().0, self.original_span().1)
    }

    /// The bytes of the modified text in view.
    pub open spec fn modified_bytes(&self) -> Seq<u8> {
        encode_utf8(self.target()@.1).subrange(self.bounds().lo(), self.bounds().hi(byte_len(self.target()@.1)))
    }

    /// Two views are equal when their original texts, their modified texts
    /// and their alignments are.
    pub fn equals(&self, other: &BiStr) -> (r: bool)
        requires
            self.readable(),
            other.readable(),
        ensures
            r == (self.original_bytes() == other.original_bytes() && self.modified_bytes()
                == other.modified_bytes() && self.alignment_view() == other.alignment_view()),
    {
        let o1 = self.original().to_owned();
        let o2 = other.original().to_owned();
        let m1 = self.modified().to_owned();
        let m2 = other.modified().to_owned();
        let same_o = o1 == o2;
        let same_m = m1 == m2;
        let same_a = self.alignment() == other.alignment();
        proof {
            encode_utf8_decode_utf8(o1@);
            encode_utf8_decode_utf8(o2@);
            encode_utf8_decode_utf8(m1@);
            encode_utf8_decode_utf8(m2@);
        }
        same_o && same_m && same_a
    }

    /// A bistring of its own made of the view's two texts and its alignment.
    #[verifier::rlimit(40)]
    pub fn to_owned(&self) -> (r: BiString)
        requires
            self.readable(),
        ensures
            r.wf(),
            encode_utf8(r@.0) == encode_utf8(self.target()@.0).subrange(
                self.original_span().0,
                self.original_span().1,
            ),
            encode_utf8(r@.1) == encode_utf8(self.target()@.1).subrange(
                self.bounds().lo(),
                self.bounds().hi(byte_len(self.target()@.1)),
            ),
            r@.2 == canonical(index_pairs(self.alignment_view())),
    {
        let o = self.original();
        let m = self.modified();
        let sl = self.alignment();
        let ghost t = self.target()@;
        let ghost b = self.bounds;
        let ghost lb = lower_index(t.2, true, opt_int(b.start));
        let ghost ub = upper_index(t.2, true, opt_int(b.end));
        let ghost v = sl@;
        proof {
            self.target.lemma_wf();
            let al = self.target.alignment_spec();
            crate::laws::conservative_bounds(&al, true, b);
            assert(v.len() == ub - lb + 1);
            assert forall|i: int, j: int| 0 <= i <= j < v.len() implies 0 <= (#[trigger] v[i]).0 <= (#[trigger] v[j]).0 <= usize::MAX
                && 0 <= v[i].1 <= v[j].1 <= usize::MAX by {
                crate::laws::alignment_monotone(&al, lb, lb + i);
                crate::laws::alignment_monotone(&al, lb + i, lb + j);
                crate::laws::alignment_monotone(&al, lb + j, t.2.len() - 1);
                assert(v[i] == (t.2[lb + i].0 - t.2[lb].0, b.clamp_spec(t.2[lb + i].1 as int) - b.clamp_spec(t.2[lb].1 as int)));
                assert(v[j] == (t.2[lb + j].0 - t.2[lb].0, b.clamp_spec(t.2[lb + j].1 as int) - b.clamp_spec(t.2[lb].1 as int)));
            }
            assert(v.last() == v[v.len() - 1]);
            crate::laws::alignment_monotone(&al, ub, t.2.len() - 1);
            crate::laws::alignment_monotone(&al, 0, lb);
        }
        let a = Alignment::from_slice(&sl);
        proof {
            crate::laws::canonical_keeps_ends(index_pairs(v));
        }
        BiString::new(o.to_owned(), m.to_owned(), a)
    }

    /// A view of a sub-range of this view, given relative to its start.
    pub fn index(&self, start: Endpoint, end: Endpoint) -> (r: Self)
        requires
            plus(start_of(start), self.bounds().lo()) matches Some(n) ==> n <= usize::MAX,
            plus(end_of(end), self.bounds().lo()) matches Some(n) ==> n <= usize::MAX,
        ensures
            r.target() == self.target(),
            r.bounds() == self.bounds().slice_spec(start, end),
    {
        BiStr { target: self.target, bounds: self.bounds.slice(start, end) }
    }
}

impl BiString {
    /// A view of this bistring over `bounds` of its modified text.
    pub fn slice(&self, bounds: Bounds) -> (r: BiStr<'_>)
        ensures
            r.target() == self,
            r.bounds() == bounds,
    {
        BiStr::new(self, bounds)
    }
}

/// A view's modified text is the target's modified text over the view's
/// range, and its original span holds the original index of every pair
/// whose modified index lies strictly inside that range.
pub proof fn slice_consistency(v: &BiStr, i: int)
    requires
        v.in_text(),
        0 <= i < v.target()@.2.len(),
        v.bounds().lo() < v.target()@.2[i].1 < v.bounds().hi(byte_len(v.target()@.1)),
    ensures
        v.original_span().0 <= v.target()@.2[i].0 <= v.original_span().1,
{
    v.target().lemma_wf();
    let t = v.target()@;
    let b = v.bounds();
    crate::laws::alignment_monotone(&v.target().alignment_spec(), 0, i);
    crate::laws::alignment_monotone(&v.target().alignment_spec(), i, t.2.len() - 1);
    crate::laws::conservative_widening(&v.target().alignment_spec(), true, b, i);
}

} // verus!
