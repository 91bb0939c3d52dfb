//! Identifier and span algebra.
//!
//! Every operation is identified by a `(client, counter)` pair; counters grow
//! monotonically from zero per client. A contiguous run of operations from one
//! client is an [`IdSpan`], the unit of causal tracking. Spans support length,
//! containment, intersection and splitting at an offset.

use vstd::prelude::*;

verus! {

/// A globally unique operation identifier: the issuing client plus that
/// client's monotonically increasing counter.
#[derive(Clone, Copy, Debug, PartialEq, Eq, Hash, Structural)]
pub struct ID {
    pub client: u64,
    pub counter: i32,
}

/// A contiguous, half-open run `[start, end)` of counters from one client.
#[derive(Clone, Copy, Debug, PartialEq, Eq, Hash, Structural)]
pub struct IdSpan {
    pub client: u64,
    pub start: i32,
    pub end: i32,
}

/// Failure of a span operation: the caller addressed a point outside the span.
#[derive(Clone, Copy, Debug, PartialEq, Eq, Structural)]
pub enum SpanError {
    OutOfRange,
}

impl ID {
    pub fn new(client: u64, counter: i32) -> (r: ID)
        ensures
            r == (ID { client, counter }),
    {
        ID { client, counter }
    }
}

impl IdSpan {
    /// Counters start at zero per client and the run is never reversed.
    pub open spec fn wf(self) -> bool {
        0 <= self.start <= self.end
    }

    pub open spec fn spec_len(self) -> int {
        self.end - self.start
    }

    /// Whether this span covers the single identifier `(client, c)`.
    pub open spec fn covers(self, client: u64, c: int) -> bool {
        self.client == client && self.start <= c < self.end
    }

    pub fn new(client: u64, start: i32, end: i32) -> (r: IdSpan)
        requires
            0 <= start <= end,
        ensures
            r == (IdSpan { client, start, end }),
            r.wf(),
    {
        IdSpan { client, start, end }
    }

    pub fn len(&self) -> (r: usize)
        requires
            self.wf(),
        ensures
            r == self.spec_len(),
    {
        (self.end - self.start) as usize
    }

    pub fn is_empty(&self) -> (r: bool)
        requires
            self.wf(),
        ensures
            r == (self.spec_len() == 0),
    {
        self.start == self.end
    }

    pub fn contains_id(&self, id: ID) -> (r: bool)
        ensures
            r == self.covers(id.client, id.counter as int),
    {
        self.client == id.client && self.start <= id.counter && id.counter < self.end
    }

    /// Whether every identifier of the non-empty span `other` lies in `self`.
    pub fn contains_span(&self, other: &IdSpan) -> (r: bool)
        requires
            self.wf(),
            other.wf(),
        ensures
            r == (other.spec_len() > 0 && self.client == other.client && self.start
                <= other.start && other.end <= self.end),
            r ==> forall|cl: u64, c: int| other.covers(cl, c) ==> self.covers(cl, c),
    {
        other.start < other.end && self.client == other.client && self.start <= other.start
            && other.end <= self.end
    }

    /// The set intersection of two spans: empty (`None`) when the clients
    /// differ or the counter ranges do not overlap.
    pub fn intersect(&self, other: &IdSpan) -> (r: Option<IdSpan>)
        requires
            self.wf(),
            other.wf(),
        ensures
            match r {
                Some(s) => {
                    &&& s.wf()
                    &&& s.spec_len() > 0
                    &&& forall|cl: u64, c: int|
                        s.covers(cl, c) == (self.covers(cl, c) && other.covers(cl, c))
                },
                None => forall|cl: u64, c: int| !(self.covers(cl, c) && other.covers(cl, c)),
            },
    {
        if self.client != other.client {
            return None;
        }
        let lo: i32 = if self.start >= other.start {
            self.start
        } else {
            other.start
        };
        let hi: i32 = if self.end <= other.end {
            self.end
        } else {
            other.end
        };
        if lo < hi {
            Some(IdSpan { client: self.client, start: lo, end: hi })
        } else {
            None
        }
    }

    /// Split at `offset` counters from the start. The two halves reconstruct
    /// the original exactly; an offset past the end is refused.
    pub fn split(&self, offset: usize) -> (r: Result<(IdSpan, IdSpan), SpanError>)
        requires
            self.wf(),
        ensures
            match r {
                Ok(p) => {
                    &&& offset <= self.spec_len()
                    &&& p.0 == (IdSpan {
                        client: self.client,
                        start: self.start,
                        end: (self.start + offset) as i32,
                    })
                    &&& p.1 == (IdSpan {
                        client: self.client,
                        start: (self.start + offset) as i32,
                        end: self.end,
                    })
                    &&& p.0.wf() && p.1.wf()
                    &&& p.0.spec_len() + p.1.spec_len() == self.spec_len()
                    &&& forall|cl: u64, c: int|
                        self.covers(cl, c) == (p.0.covers(cl, c) || p.1.covers(cl, c))
                },
                Err(SpanError::OutOfRange) => offset > self.spec_len(),
            },
    {
        let n: usize = self.len();
        if offset > n {
            return Err(SpanError::OutOfRange);
        }
        let mid: i32 = self.start + offset as i32;
        Ok((
            IdSpan { client: self.client, start: self.start, end: mid },
            IdSpan { client: self.client, start: mid, end: self.end },
        ))
    }
}

} // verus!
