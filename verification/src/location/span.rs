use vstd::prelude::*;
use vstd::std_specs::cmp::PartialOrdSpecImpl;
use std::cmp::Ordering;

verus! {

/// A half-open byte range `[start, end)` into one source text.
#[derive(Debug, Clone, Copy, PartialEq, Eq, Structural)]
pub struct Span {
    pub start: usize,
    pub end: usize,
}

impl Span {
    /// The range holds `start <= end`; every span the tokenizer hands out does.
    pub open spec fn wf(self) -> bool {
        self.start <= self.end
    }

    /// The smallest range that encloses both `s1` and `s2`.
    pub open spec fn spec_union_of(s1: Span, s2: Span) -> Span {
        Span {
            start: if s1.start <= s2.start { s1.start } else { s2.start },
            end: if s1.end >= s2.end { s1.end } else { s2.end },
        }
    }

    /// Whether this range covers all of `other`.
    pub open spec fn encloses(self, other: Span) -> bool {
        self.start <= other.start && other.end <= self.end
    }

    pub fn new(start: usize, end: usize) -> (s: Self)
        ensures
            s.start == start,
            s.end == end,
    {
        Self { start, end }
    }

    pub fn union_of(s1: Self, s2: Self) -> (u: Self)
        ensures
            u == Self::spec_union_of(s1, s2),
    {
        let start = if s1.start <= s2.start { s1.start } else { s2.start };
        let end = if s1.end >= s2.end { s1.end } else { s2.end };
        Self::new(start, end)
    }

    pub fn as_range(&self) -> (r: std::ops::Range<usize>)
        ensures
            r.start == self.start,
            r.end == self.end,
    {
        self.start..self.end
    }
}

/// Spans are ordered by where they start; the end takes no part.
impl PartialOrd for Span {
    fn partial_cmp(&self, other: &Self) -> (o: Option<Ordering>) {
        if self.start < other.start {
            Some(Ordering::Less)
        } else if self.start == other.start {
            Some(Ordering::Equal)
        } else {
            Some(Ordering::Greater)
        }
    }
}

impl PartialOrdSpecImpl for Span {
    open spec fn obeys_partial_cmp_spec() -> bool {
        true
    }

    open spec fn partial_cmp_spec(&self, other: &Self) -> Option<Ordering> {
        if self.start < other.start {
            Some(Ordering::Less)
        } else if self.start == other.start {
            Some(Ordering::Equal)
        } else {
            Some(Ordering::Greater)
        }
    }
}

/// Anything that can say where in the source it came from.
pub trait HasSpan {
    fn span(&self) -> Span;
}

/// The union of two well-formed spans is well formed, encloses both, and is
/// enclosed by every span that encloses both.
pub proof fn lemma_union_is_smallest_enclosing(s1: Span, s2: Span, other: Span)
    requires
        s1.wf(),
        s2.wf(),
    ensures
        Span::spec_union_of(s1, s2).wf(),
        Span::spec_union_of(s1, s2).encloses(s1),
        Span::spec_union_of(s1, s2).encloses(s2),
        other.encloses(s1) && other.encloses(s2) ==> other.encloses(Span::spec_union_of(s1, s2)),
{
}

} // verus!
