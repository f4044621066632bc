//! Source-code locations, for diagnostics.
//!
//! A [`Span`] records where a value came from in the original source
//! buffer: nowhere in particular, a contiguous substring (as a half-open
//! character range), or an abstract address range obtained by merging
//! other spans.  Merging is done by [`between`], which takes the minimal
//! enclosing range, treating unknown provenance as absorbing.

use vstd::prelude::*;

verus! {

/// Source code location, for better error reporting.
#[derive(Copy, Clone, PartialEq, Eq, Structural, Debug)]
pub enum Span {
    /// Unknown provenance.
    Unknown,
    /// A substring of the source, as a half-open character range.
    Slice { start: usize, end: usize },
    /// An abstract address range, produced by merging spans.
    AddrRange(usize, usize),
}

/// A value paired with the span it came from.
#[derive(Copy, Clone, PartialEq, Eq, Structural, Debug)]
pub struct Spanned<T>(pub T, pub Span);

impl<T> Spanned<T> {
    /// Apply a function to the value, keeping the span.
    pub fn map<B, F: Fn(T) -> B>(self, function: F) -> (r: Spanned<B>)
        requires
            function.requires((self.0,)),
        ensures
            function.ensures((self.0,), r.0),
            r.1 == self.1,
    {
        let Spanned(a, span) = self;
        let b = function(a);
        Spanned(b, span)
    }
}

/// The span of the half-open range `start .. end`, or unknown when the
/// bounds are out of order.
pub open spec fn spec_until(start: usize, end: usize) -> Span {
    if start <= end {
        Span::Slice { start, end }
    } else {
        Span::Unknown
    }
}

/// Span covering the half-open range from `start` to `end`.
pub fn until(start: usize, end: usize) -> (s: Span)
    ensures
        s == spec_until(start, end),
{
    if start <= end {
        Span::Slice { start, end }
    } else {
        Span::Unknown
    }
}

/// The address bounds a span contributes when merging, if any.
pub open spec fn spec_bounds(s: Span) -> Option<(usize, usize)> {
    match s {
        Span::Unknown => Option::None,
        Span::Slice { start, end } => Option::Some((start, end)),
        Span::AddrRange(lo, hi) => Option::Some((lo, hi)),
    }
}

/// The minimal enclosing range of two spans; unknown spans are absorbed.
pub open spec fn spec_between(span0: Span, span1: Span) -> Span {
    match (spec_bounds(span0), spec_bounds(span1)) {
        (Option::None, Option::None) => Span::Unknown,
        (Option::Some((lo, hi)), Option::None) => Span::AddrRange(lo, hi),
        (Option::None, Option::Some((lo, hi))) => Span::AddrRange(lo, hi),
        (Option::Some((lo0, hi0)), Option::Some((lo1, hi1))) => Span::AddrRange(
            if lo0 <= lo1 {
                lo0
            } else {
                lo1
            },
            if hi0 >= hi1 {
                hi0
            } else {
                hi1
            },
        ),
    }
}

/// Merge two spans into the minimal range enclosing both.
pub fn between(span0: Span, span1: Span) -> (s: Span)
    ensures
        s == spec_between(span0, span1),
{
    let b0 = bounds(span0);
    let b1 = bounds(span1);
    match (b0, b1) {
        (Option::None, Option::None) => Span::Unknown,
        (Option::Some((lo, hi)), Option::None) => Span::AddrRange(lo, hi),
        (Option::None, Option::Some((lo, hi))) => Span::AddrRange(lo, hi),
        (Option::Some((lo0, hi0)), Option::Some((lo1, hi1))) => Span::AddrRange(
            if lo0 <= lo1 {
                lo0
            } else {
                lo1
            },
            if hi0 >= hi1 {
                hi0
            } else {
                hi1
            },
        ),
    }
}

fn bounds(s: Span) -> (b: Option<(usize, usize)>)
    ensures
        b == spec_bounds(s),
{
    match s {
        Span::Unknown => Option::None,
        Span::Slice { start, end } => Option::Some((start, end)),
        Span::AddrRange(lo, hi) => Option::Some((lo, hi)),
    }
}

/// Types that carry a source span.
pub trait HasSpan {
    /// The span, in specifications.
    spec fn spec_span(&self) -> Span;

    /// The span this value covers.
    fn span(&self) -> (s: Span)
        ensures
            s == self.spec_span(),
    ;
}

impl HasSpan for Span {
    open spec fn spec_span(&self) -> Span {
        *self
    }

    fn span(&self) -> (s: Span)
        ensures
            s == self.spec_span(),
    {
        *self
    }
}

impl<T> HasSpan for Spanned<T> {
    open spec fn spec_span(&self) -> Span {
        self.1
    }

    fn span(&self) -> (s: Span)
        ensures
            s == self.spec_span(),
    {
        self.1
    }
}

/// Left fold of [`spec_between`] over a sequence of spans, starting from
/// unknown provenance.
pub open spec fn spec_merge_all(spans: Seq<Span>) -> Span
    decreases spans.len(),
{
    if spans.len() == 0 {
        Span::Unknown
    } else {
        spec_between(spec_merge_all(spans.drop_last()), spans.last())
    }
}

/// The minimal range enclosing the spans of all elements.
pub fn merge_all<T: HasSpan>(spanned: &Vec<T>) -> (s: Span)
    ensures
        s == spec_merge_all(spanned@.map_values(|t: T| t.spec_span())),
{
    let ghost all = spanned@.map_values(|t: T| t.spec_span());
    let mut broad = Span::Unknown;
    let mut i: usize = 0;
    while i < spanned.len()
        invariant
            i <= spanned.len(),
            all == spanned@.map_values(|t: T| t.spec_span()),
            broad == spec_merge_all(all.take(i as int)),
        decreases spanned.len() - i,
    {
        broad = between(broad, spanned[i].span());
        proof {
            assert(all.take(i + 1).drop_last() =~= all.take(i as int));
            assert(all.take(i + 1).last() == all[i as int]);
        }
        i += 1;
    }
    proof {
        assert(all.take(spanned@.len() as int) =~= all);
    }
    broad
}

} // verus!
