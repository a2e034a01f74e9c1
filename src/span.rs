use vstd::prelude::*;

verus! {

/// A byte range of the source text.
#[derive(Clone, Copy, Debug, PartialEq, Eq, Structural)]
pub struct Span {
    pub start: usize,
    pub end: usize,
}

impl Span {
    pub open spec fn wf(self) -> bool {
        self.start <= self.end
    }

    pub fn new(start: usize, end: usize) -> (r: Span)
        requires
            start <= end,
        ensures
            r.start == start,
            r.end == end,
            r.wf(),
    {
        Span { start, end }
    }
}

/// A name as written in the source, with where it was written.
#[derive(Debug, PartialEq, Eq)]
pub struct Ident {
    pub primary_name: String,
    pub span: Span,
}

impl Ident {
    pub fn new(primary_name: String, span: Span) -> (r: Ident)
        ensures
            r.primary_name == primary_name,
            r.span == span,
    {
        Ident { primary_name, span }
    }

    /// An identical, independently owned copy.
    pub fn duplicate(&self) -> (r: Ident)
        ensures
            r == *self,
    {
        Ident { primary_name: self.primary_name.clone(), span: self.span }
    }
}

} // verus!
