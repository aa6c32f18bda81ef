//! A unified half-open range type with optional endpoints.
use std::ops::Range;
use vstd::prelude::*;

verus! {

/// One end of a range as a caller writes it.
#[derive(Clone, Copy, Debug, PartialEq, Eq, Structural)]
pub enum Endpoint {
    Included(usize),
    Excluded(usize),
    Unbounded,
}

/// A half-open range `[start, end)` whose endpoints may be absent.
#[derive(Clone, Copy, Debug, PartialEq, Eq, Structural)]
pub struct Bounds {
    pub start: Option<usize>,
    pub end: Option<usize>,
}

/// The normalized start of a range: an exclusive start moves one up.
pub open spec fn start_of(e: Endpoint) -> Option<int> {
    match e {
        Endpoint::Included(n) => Some(n as int),
        Endpoint::Excluded(n) => Some(n + 1),
        Endpoint::Unbounded => None,
    }
}

/// The normalized end of a range: an inclusive end moves one up.
pub open spec fn end_of(e: Endpoint) -> Option<int> {
    match e {
        Endpoint::Included(n) => Some(n + 1),
        Endpoint::Excluded(n) => Some(n as int),
        Endpoint::Unbounded => None,
    }
}

/// A start endpoint whose normalized value fits in a `usize`.
pub open spec fn start_fits(e: Endpoint) -> bool {
    match e {
        Endpoint::Excluded(n) => n < usize::MAX,
        _ => true,
    }
}

/// An end endpoint whose normalized value fits in a `usize`.
pub open spec fn end_fits(e: Endpoint) -> bool {
    match e {
        Endpoint::Included(n) => n < usize::MAX,
        _ => true,
    }
}

pub open spec fn opt_int(o: Option<usize>) -> Option<int> {
    match o {
        Some(n) => Some(n as int),
        None => None,
    }
}

/// An optional position moved `d` places up.
pub open spec fn plus(o: Option<int>, d: int) -> Option<int> {
    match o {
        Some(n) => Some(n + d),
        None => None,
    }
}

impl Bounds {
    pub open spec fn lo(&self) -> int {
        match self.start {
            Some(s) => s as int,
            None => 0,
        }
    }

    pub open spec fn hi(&self, len: int) -> int {
        match self.end {
            Some(e) => e as int,
            None => len,
        }
    }

    pub open spec fn full_spec() -> Bounds {
        Bounds { start: None, end: None }
    }

    /// `n` clipped into the bounds that are present.
    pub open spec fn clamp_spec(&self, n: int) -> int {
        let a = match self.start {
            Some(s) => if n < s { s as int } else { n },
            None => n,
        };
        match self.end {
            Some(e) => if a > e { e as int } else { a },
            None => a,
        }
    }

    /// Normalizes the two endpoints of a range to a half-open one.
    pub fn new(start: Endpoint, end: Endpoint) -> (r: Self)
        requires
            start_fits(start),
            end_fits(end),
        ensures
            opt_int(r.start) == start_of(start),
            opt_int(r.end) == end_of(end),
    {
        let s = match start {
            Endpoint::Included(n) => Some(n),
            Endpoint::Excluded(n) => Some(n + 1),
            Endpoint::Unbounded => None,
        };
        let e = match end {
            Endpoint::Included(n) => Some(n + 1),
            Endpoint::Excluded(n) => Some(n),
            Endpoint::Unbounded => None,
        };
        Bounds { start: s, end: e }
    }

    /// The half-open range `a..b`.
    pub fn range(a: usize, b: usize) -> (r: Self)
        ensures
            r.start == Some(a),
            r.end == Some(b),
    {
        Bounds { start: Some(a), end: Some(b) }
    }

    /// The unbounded range `..`.
    pub fn full() -> (r: Self)
        ensures
            r == Bounds::full_spec(),
    {
        Bounds { start: None, end: None }
    }

    /// These bounds made concrete over a sequence of length `len`.
    pub fn to_range(&self, len: usize) -> (r: Range<usize>)
        ensures
            r.start == self.lo(),
            r.end == self.hi(len as int),
    {
        let start = match self.start {
            Some(s) => s,
            None => 0,
        };
        let end = match self.end {
            Some(e) => e,
            None => len,
        };
        start..end
    }

    /// The bounds that `slice` returns.
    pub open spec fn slice_spec(&self, start: Endpoint, end: Endpoint) -> Bounds {
        Bounds {
            start: match start {
                Endpoint::Unbounded => self.start,
                _ => Some((start_of(start).unwrap() + self.lo()) as usize),
            },
            end: match end {
                Endpoint::Unbounded => self.end,
                _ => Some((end_of(end).unwrap() + self.lo()) as usize),
            },
        }
    }

    /// Re-reads `start..end` as offsets from this range's start; an absent
    /// endpoint keeps this range's own.
    pub fn slice(&self, start: Endpoint, end: Endpoint) -> (r: Self)
        requires
            plus(start_of(start), self.lo()) matches Some(n) ==> n <= usize::MAX,
            plus(end_of(end), self.lo()) matches Some(n) ==> n <= usize::MAX,
        ensures
            r == self.slice_spec(start, end),
            opt_int(r.start) == match start {
                Endpoint::Unbounded => opt_int(self.start),
                _ => plus(start_of(start), self.lo()),
            },
            opt_int(r.end) == match end {
                Endpoint::Unbounded => opt_int(self.end),
                _ => plus(end_of(end), self.lo()),
            },
    {
        let offset = match self.start {
            Some(s) => s,
            None => 0,
        };
        let s = match start {
            Endpoint::Included(n) => Endpoint::Included(offset + n),
            Endpoint::Excluded(n) => Endpoint::Excluded(offset + n),
            Endpoint::Unbounded => match self.start {
                Some(n) => Endpoint::Included(n),
                None => Endpoint::Unbounded,
            },
        };
        let e = match end {
            Endpoint::Included(n) => Endpoint::Included(offset + n),
            Endpoint::Excluded(n) => Endpoint::Excluded(offset + n),
            Endpoint::Unbounded => match self.end {
                Some(n) => Endpoint::Excluded(n),
                None => Endpoint::Unbounded,
            },
        };
        Self::new(s, e)
    }

    /// Clamps `n` into these bounds.
    pub fn clamp(&self, n: usize) -> (r: usize)
        ensures
            r == self.clamp_spec(n as int),
    {
        let mut n = n;
        if let Some(start) = self.start {
            if n < start {
                n = start;
            }
        }
        if let Some(end) = self.end {
            if n > end {
                n = end;
            }
        }
        n
    }
}

} // verus!
