//! The span: one timed unit of work.

use vstd::prelude::*;

verus! {

/// A span identifier.
pub type SpanId = u64;

/// A single span: a named interval `[start_ns, end_ns)` with an optional parent.
#[derive(Debug, PartialEq, Eq)]
pub struct Span {
    pub id: SpanId,
    pub name: String,
    pub start_ns: u64,
    pub end_ns: u64,
    pub parent: Option<SpanId>,
}

impl Span {
    /// The wall-clock duration: `end - start`, or zero when the interval is inverted.
    pub open spec fn duration(self) -> u64 {
        if self.end_ns >= self.start_ns {
            (self.end_ns - self.start_ns) as u64
        } else {
            0
        }
    }

    pub fn new(id: SpanId, name: &str, start_ns: u64, end_ns: u64, parent: Option<SpanId>) -> (r:
        Span)
        ensures
            r.id == id,
            r.name@ == name@,
            r.start_ns == start_ns,
            r.end_ns == end_ns,
            r.parent == parent,
    {
        Span { id, name: name.to_owned(), start_ns, end_ns, parent }
    }

    /// Wall-clock duration of the span, saturating at zero.
    pub fn duration_ns(&self) -> (d: u64)
        ensures
            d == self.duration(),
    {
        if self.end_ns >= self.start_ns {
            self.end_ns - self.start_ns
        } else {
            0
        }
    }
}

impl Clone for Span {
    fn clone(&self) -> (r: Span)
        ensures
            r.id == self.id,
            r.name@ == self.name@,
            r.start_ns == self.start_ns,
            r.end_ns == self.end_ns,
            r.parent == self.parent,
    {
        Span {
            id: self.id,
            name: self.name.clone(),
            start_ns: self.start_ns,
            end_ns: self.end_ns,
            parent: self.parent,
        }
    }
}

} // verus!
