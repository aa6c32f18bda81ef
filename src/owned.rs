//! The owned bidirectionally transformed string.
use crate::align::{canonical, moved_by, pushed, run, Alignment};
use vstd::prelude::*;
use vstd::string::StringExecFns;
use vstd::utf8::*;

verus! {

/// The length in bytes of the UTF-8 text `s`.
pub open spec fn byte_len(s: Seq<char>) -> int {
    encode_utf8(s).len() as int
}

/// `c` is an ASCII upper-case letter.
pub open spec fn is_ascii_upper(c: char) -> bool {
    'A' <= c <= 'Z'
}

/// `c` is an ASCII lower-case letter.
pub open spec fn is_ascii_lower(c: char) -> bool {
    'a' <= c <= 'z'
}

/// `r` is `s` with each ASCII upper-case letter made lower case.
pub open spec fn lowered(s: Seq<char>, r: Seq<char>) -> bool {
    &&& r.len() == s.len()
    &&& forall|i: int|
        0 <= i < s.len() ==> if is_ascii_upper(#[trigger] s[i]) {
            r[i] as u32 == s[i] as u32 + 32
        } else {
            r[i] == s[i]
        }
}

/// `r` is `s` with each ASCII lower-case letter made upper case.
pub open spec fn raised(s: Seq<char>, r: Seq<char>) -> bool {
    &&& r.len() == s.len()
    &&& forall|i: int|
        0 <= i < s.len() ==> if is_ascii_lower(#[trigger] s[i]) {
            r[i] as u32 + 32 == s[i] as u32
        } else {
            r[i] == s[i]
        }
}

/// Relies on `str::to_ascii_lowercase`: 'A' to 'Z' become 'a' to 'z', and
/// every other char is kept.
#[verifier::external_body]
fn ascii_lowercase(s: &str) -> (r: String)
    ensures
        lowered(s@, r@),
{
    s.to_ascii_lowercase()
}

/// Relies on `str::to_ascii_uppercase`: 'a' to 'z' become 'A' to 'Z', and
/// every other char is kept.
#[verifier::external_body]
fn ascii_uppercase(s: &str) -> (r: String)
    ensures
        raised(s@, r@),
{
    s.to_ascii_uppercase()
}

/// The UTF-8 bytes of two joined texts are the bytes of each, joined.
pub proof fn lemma_byte_len_concat(a: Seq<char>, b: Seq<char>)
    ensures
        encode_utf8(a + b) == encode_utf8(a) + encode_utf8(b),
    decreases a.len(),
{
    if a.len() == 0 {
        assert(a + b =~= b);
        assert(encode_utf8(a) =~= Seq::<u8>::empty());
        assert(encode_utf8(a) + encode_utf8(b) =~= encode_utf8(b));
    } else {
        lemma_byte_len_concat(a.drop_first(), b);
        assert((a + b).drop_first() =~= a.drop_first() + b);
        assert((a + b)[0] == a[0]);
        assert(encode_utf8(a + b) =~= encode_scalar(a[0] as u32) + encode_utf8(a.drop_first() + b));
    }
}

/// Two texts whose chars differ only between ASCII chars have the same
/// number of bytes.
proof fn lemma_ascii_swap_len(s: Seq<char>, r: Seq<char>)
    requires
        r.len() == s.len(),
        forall|i: int|
            0 <= i < s.len() ==> r[i] == s[i] || ((#[trigger] s[i]) as u32 <= 0x7F && r[i] as u32 <= 0x7F),
    ensures
        byte_len(r) == byte_len(s),
    decreases s.len(),
{
    if s.len() > 0 {
        let s1 = s.drop_first();
        let r1 = r.drop_first();
        assert forall|i: int| 0 <= i < s1.len() implies r1[i] == s1[i] || ((#[trigger] s1[i]) as u32 <= 0x7F && r1[i] as u32 <= 0x7F) by {
            assert(s1[i] == s[i + 1]);
            assert(r1[i] == r[i + 1]);
        }
        lemma_ascii_swap_len(s1, r1);
    }
}

/// The identity alignment over the char boundaries of `text`.
fn boundary_identity(text: &str) -> (alignment: Alignment)
    requires
        byte_len(text@) < usize::MAX,
    ensures
        alignment.wf(),
        spans(text@, text@, alignment@),
        forall|k: int| 0 <= k < alignment@.len() ==> (#[trigger] alignment@[k]).0 == alignment@[k].1
            && is_char_boundary(encode_utf8(text@), alignment@[k].0 as int),
        forall|i: int|
            0 <= i <= byte_len(text@) && is_char_boundary(encode_utf8(text@), i) ==> exists|k: int|
                0 <= k < alignment@.len() && #[trigger] alignment@[k].0 == i,
        forall|k: int| 0 <= k < alignment@.len() - 1 ==> (#[trigger] alignment@[k]).0 < alignment@[k + 1].0,
{
        let n = text.len();
        let ghost bytes = encode_utf8(text@);
        let mut alignment = Alignment::new();
        let mut i: usize = 0;
        proof {
            encode_utf8_valid_utf8(text@);
            is_char_boundary_start_end_of_seq(bytes);
        }
        while i <= n
            invariant
                n == bytes.len() < usize::MAX,
                bytes == encode_utf8(text@),
                is_char_boundary(bytes, 0),
                is_char_boundary(bytes, n as int),
                i <= n + 1,
                alignment.wf(),
                i > 0 ==> alignment@.len() > 0 && alignment@[0] == (0usize, 0usize),
                i == 0 ==> alignment@.len() == 0,
                forall|k: int| 0 <= k < alignment@.len() ==> (#[trigger] alignment@[k]).0 == alignment@[k].1
                    && is_char_boundary(bytes, alignment@[k].0 as int) && alignment@[k].0 < i,
                forall|j: int|
                    0 <= j < i && is_char_boundary(bytes, j) ==> exists|k: int|
                        0 <= k < alignment@.len() && #[trigger] alignment@[k].0 == j,
                forall|k: int| 0 <= k < alignment@.len() - 1 ==> (#[trigger] alignment@[k]).0 < alignment@[k + 1].0,
                i > n ==> alignment@.last() == (n, n),
            decreases n + 1 - i,
        {
            if text.is_char_boundary(i) {
                let ghost before = alignment@;
                alignment.push(i, i);
                proof {
                    assert(alignment@ == before.push((i, i)));
                    assert forall|j: int|
                        0 <= j < i + 1 && is_char_boundary(bytes, j) implies exists|k: int|
                            0 <= k < alignment@.len() && #[trigger] alignment@[k].0 == j by {
                        if j < i {
                            let k = choose|k: int| 0 <= k < before.len() && #[trigger] before[k].0 == j;
                            assert(alignment@[k].0 == j);
                        } else {
                            assert(alignment@[before.len() as int].0 == j);
                        }
                    }
                }
            }
            i = i + 1;
        }
        assert forall|j: int|
            0 <= j <= byte_len(text@) && is_char_boundary(encode_utf8(text@), j) implies exists|k: int|
                0 <= k < alignment@.len() && #[trigger] alignment@[k].0 == j by {
            assert(0 <= j < i && is_char_boundary(bytes, j));
        }
        alignment
}

/// A bidirectionally transformed string: an original text, a modified text,
/// and the alignment between their byte positions.
#[derive(Debug)]
pub struct BiString {
    original: String,
    modified: String,
    alignment: Alignment,
}

/// The alignment runs from `(0, 0)` to the byte lengths of the two texts.
pub open spec fn spans(original: Seq<char>, modified: Seq<char>, a: Seq<(usize, usize)>) -> bool {
    &&& a.len() > 0
    &&& a[0] == (0usize, 0usize)
    &&& a.last().0 == byte_len(original)
    &&& a.last().1 == byte_len(modified)
}

impl View for BiString {
    type V = (Seq<char>, Seq<char>, Seq<(usize, usize)>);

    closed spec fn view(&self) -> (Seq<char>, Seq<char>, Seq<(usize, usize)>) {
        (self.original@, self.modified@, self.alignment@)
    }
}

impl PartialEq for BiString {
    fn eq(&self, other: &BiString) -> (r: bool)
        ensures
            r == (self@ == other@),
    {
        self.original == other.original && self.modified == other.modified && self.alignment
            == other.alignment
    }
}

impl vstd::std_specs::cmp::PartialEqSpecImpl for BiString {
    open spec fn obeys_eq_spec() -> bool {
        true
    }

    open spec fn eq_spec(&self, other: &BiString) -> bool {
        self@ == other@
    }
}

impl Eq for BiString {}

impl BiString {
    /// The alignment is well-formed and spans both texts.
    pub closed spec fn wf(&self) -> bool {
        self.alignment.wf() && spans(self.original@, self.modified@, self.alignment@)
    }

    /// The alignment between the two texts.
    pub closed spec fn alignment_spec(&self) -> Alignment {
        self.alignment
    }

    /// What a well-formed bistring's alignment satisfies.
    pub proof fn lemma_wf(&self)
        requires
            self.wf(),
        ensures
            self.alignment_spec()@ == self@.2,
            self.alignment_spec().wf(),
            crate::align::well_formed(self@.2),
            spans(self@.0, self@.1, self@.2),
    {
    }

    /// A bistring with an explicit alignment, which must run from `(0, 0)` to
    /// the byte lengths of the two texts.
    pub fn new(original: String, modified: String, alignment: Alignment) -> (r: Self)
        requires
            alignment.wf(),
            spans(original@, modified@, alignment@),
        ensures
            r.wf(),
            r@ == (original@, modified@, alignment@),
    {
        BiString { original, modified, alignment }
    }

    /// A bistring whose alignment only joins the two ends of the texts.
    pub fn chunk(original: &str, modified: &str) -> (r: Self)
        requires
            byte_len(original@) <= usize::MAX,
            byte_len(modified@) <= usize::MAX,
        ensures
            r.wf(),
            r@.0 == original@,
            r@.1 == modified@,
            r@.2 == canonical(
                seq![(0usize, 0usize), (byte_len(original@) as usize, byte_len(modified@) as usize)],
            ),
    {
        let o = original.to_owned();
        let m = modified.to_owned();
        let pairs = [(0usize, 0usize), (original.len(), modified.len())];
        let ps = pairs.as_slice();
        assert(ps@ == seq![(0usize, 0usize), (byte_len(original@) as usize, byte_len(modified@) as usize)]);
        let alignment = Alignment::from_pairs(ps);
        proof {
            let e = Seq::<(usize, usize)>::empty();
            assert(ps@.drop_last().drop_last() =~= e);
            assert(canonical(e) == e);
            assert(canonical(ps@.drop_last()) == pushed(e, (0usize, 0usize)));
            assert(pushed(e, (0usize, 0usize)) =~= seq![(0usize, 0usize)]);
            assert(canonical(ps@) == pushed(canonical(ps@.drop_last()), ps@.last()));
        }
        BiString::new(o, m, alignment)
    }

    /// A bistring whose two texts are both `text`, aligned at every char boundary.
    pub fn from_string(text: &str) -> (r: Self)
        requires
            byte_len(text@) < usize::MAX,
        ensures
            r.wf(),
            r@.0 == text@,
            r@.1 == text@,
            forall|k: int| 0 <= k < r@.2.len() ==> (#[trigger] r@.2[k]).0 == r@.2[k].1
                && is_char_boundary(encode_utf8(text@), r@.2[k].0 as int),
            forall|i: int|
                0 <= i <= byte_len(text@) && is_char_boundary(encode_utf8(text@), i) ==> exists|k: int|
                    0 <= k < r@.2.len() && #[trigger] r@.2[k].0 == i,
            forall|k: int| 0 <= k < r@.2.len() - 1 ==> (#[trigger] r@.2[k]).0 < r@.2[k + 1].0,
    {
        let alignment = boundary_identity(text);
        let o = text.to_owned();
        let m = text.to_owned();
        let r = BiString::new(o, m, alignment);
        assert forall|i: int|
            0 <= i <= byte_len(text@) && is_char_boundary(encode_utf8(text@), i) implies exists|k: int|
                0 <= k < r@.2.len() && #[trigger] r@.2[k].0 == i by {
            let k = choose|k: int| 0 <= k < alignment@.len() && #[trigger] alignment@[k].0 == i;
            assert(r@.2[k].0 == i);
        }
        r
    }

    /// The original text.
    pub fn original(&self) -> (r: &str)
        ensures
            r@ == self@.0,
    {
        self.original.as_str()
    }

    /// The modified text.
    pub fn modified(&self) -> (r: &str)
        ensures
            r@ == self@.1,
    {
        self.modified.as_str()
    }

    /// The alignment between the two texts.
    pub fn alignment(&self) -> (r: &Alignment)
        ensures
            r@ == self@.2,
            *r == self.alignment_spec(),
    {
        &self.alignment
    }

    /// Appends `text` to both sides, aligned byte by byte.
    pub fn push_str(&mut self, text: &str)
        requires
            old(self).wf(),
            byte_len(old(self)@.0) + byte_len(text@) <= usize::MAX,
            byte_len(old(self)@.1) + byte_len(text@) <= usize::MAX,
        ensures
            final(self).wf(),
            final(self)@.0 == old(self)@.0 + text@,
            final(self)@.1 == old(self)@.1 + text@,
            final(self)@.2 == old(self)@.2 + run(
                byte_len(old(self)@.0) as usize,
                byte_len(old(self)@.1) as usize,
                byte_len(text@) as usize,
            ),
    {
        let ol = self.original.as_str().len();
        let ml = self.modified.as_str().len();
        let n = text.len();
        self.alignment.push_run(ol, ml, n);
        proof {
            lemma_byte_len_concat(self.original@, text@);
            lemma_byte_len_concat(self.modified@, text@);
        }
        self.original.append(text);
        self.modified.append(text);
    }

    /// Appends another bistring: its texts go after ours, and its pairs follow
    /// moved by our byte lengths.
    pub fn push_bistr(&mut self, other: &BiString)
        requires
            old(self).wf(),
            other.wf(),
            byte_len(old(self)@.0) + byte_len(other@.0) <= usize::MAX,
            byte_len(old(self)@.1) + byte_len(other@.1) <= usize::MAX,
        ensures
            final(self).wf(),
            final(self)@.0 == old(self)@.0 + other@.0,
            final(self)@.1 == old(self)@.1 + other@.1,
            byte_len(final(self)@.0) == byte_len(old(self)@.0) + byte_len(other@.0),
            byte_len(final(self)@.1) == byte_len(old(self)@.1) + byte_len(other@.1),
            final(self)@.2.last() == (byte_len(final(self)@.0) as usize, byte_len(final(self)@.1) as usize),
            final(self)@.2 == old(self)@.2 + moved_by(
                other@.2,
                byte_len(old(self)@.0) as usize,
                byte_len(old(self)@.1) as usize,
            ).drop_first(),
    {
        let ol = self.original.as_str().len();
        let ml = self.modified.as_str().len();
        let ghost a0 = self.alignment@;
        let ghost u = moved_by(other.alignment@, ol, ml);
        self.alignment.append_moved(&other.alignment, ol, ml);
        proof {
            assert(u[0] == a0.last());
            assert(u.last() == u[u.len() - 1]);
            assert(self.alignment@ == a0 + u.drop_first());
            if u.len() > 1 {
                assert(self.alignment@.last() == u.last());
            } else {
                assert(self.alignment@ =~= a0);
            }
            lemma_byte_len_concat(self.original@, other.original@);
            lemma_byte_len_concat(self.modified@, other.modified@);
        }
        self.original.append(other.original.as_str());
        self.modified.append(other.modified.as_str());
    }

    /// A copy whose modified text has its ASCII letters made lower case.
    pub fn to_ascii_lowercase(&self) -> (r: Self)
        requires
            self.wf(),
        ensures
            r.wf(),
            r@.0 == self@.0,
            lowered(self@.1, r@.1),
            r@.2 == self@.2,
    {
        let m = ascii_lowercase(self.modified.as_str());
        proof {
            lemma_ascii_swap_len(self.modified@, m@);
        }
        BiString::new(self.original.clone(), m, self.alignment.duplicate())
    }

    /// A copy whose modified text has its ASCII letters made upper case.
    pub fn to_ascii_uppercase(&self) -> (r: Self)
        requires
            self.wf(),
        ensures
            r.wf(),
            r@.0 == self@.0,
            raised(self@.1, r@.1),
            r@.2 == self@.2,
    {
        let m = ascii_uppercase(self.modified.as_str());
        proof {
            lemma_ascii_swap_len(self.modified@, m@);
        }
        BiString::new(self.original.clone(), m, self.alignment.duplicate())
    }
}

} // verus!
