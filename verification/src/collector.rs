//! The span collector: records nested spans into a `Trace`.
//!
//! The collector models a single logical flow of execution: `start` opens a
//! span as a child of the currently-open span, and `end` closes it. Each span
//! gets the next id in sequence, so ids are `0, 1, 2, ...` in recording order.

use std::collections::HashMap;
use vstd::prelude::*;

use crate::clock::Clock;
use crate::span::{Span, SpanId};
use crate::trace::Trace;

verus! {

/// The innermost open span, if any.
pub open spec fn innermost(open: Seq<SpanId>) -> Option<SpanId> {
    if open.len() == 0 {
        None
    } else {
        Some(open.last())
    }
}

/// The last position of `s` holding `x`, if any.
pub open spec fn last_position(s: Seq<SpanId>, x: SpanId) -> Option<int>
    decreases s.len(),
{
    if s.len() == 0 {
        None
    } else if s.last() == x {
        Some(s.len() - 1)
    } else {
        last_position(s.drop_last(), x)
    }
}

/// `s` without the last occurrence of `x`.
pub open spec fn without_last(s: Seq<SpanId>, x: SpanId) -> Seq<SpanId> {
    match last_position(s, x) {
        Some(p) => s.remove(p),
        None => s,
    }
}

/// Two spans agree on everything but their end time.
pub open spec fn same_but_end(a: Span, b: Span) -> bool {
    &&& a.id == b.id
    &&& a.name@ == b.name@
    &&& a.start_ns == b.start_ns
    &&& a.parent == b.parent
}

/// Two spans agree field by field.
pub open spec fn same_span(a: Span, b: Span) -> bool {
    same_but_end(a, b) && a.end_ns == b.end_ns
}

/// `new` follows `old` with `name` opened at `now` below the innermost open
/// span: the new span takes the next id and starts and ends at `now`.
pub open spec fn opened(old: Seq<Span>, new: Seq<Span>, open: Seq<SpanId>, name: Seq<char>, now: u64) -> bool {
    &&& new.len() == old.len() + 1
    &&& forall|i: int| 0 <= i < old.len() ==> new[i] == old[i]
    &&& new.last().id == old.len()
    &&& new.last().name@ == name
    &&& new.last().start_ns == now
    &&& new.last().end_ns == now
    &&& new.last().parent == innermost(open)
}

/// `new` follows `old` with span `id` (when recorded) ending at `now`.
pub open spec fn ended(old: Seq<Span>, new: Seq<Span>, id: SpanId, now: u64) -> bool {
    &&& new.len() == old.len()
    &&& forall|i: int| 0 <= i < old.len() && i != id ==> new[i] == old[i]
    &&& id < old.len() ==> same_but_end(new[id as int], old[id as int]) && new[id as int].end_ns == now
}

/// What the collector has recorded: the next id to hand out, the spans in
/// recording order, each span's position by id, and the ids of the open spans,
/// outermost first.
struct State {
    next_id: SpanId,
    spans: Vec<Span>,
    index: HashMap<SpanId, usize>,
    open_stack: Vec<SpanId>,
}

impl State {
    /// The span at position `i` has id `i`, the index maps each id to its
    /// position, every parent precedes its child, and the open ids are
    /// distinct recorded ids.
    spec fn consistent(&self) -> bool {
        &&& self.spans@.len() == self.next_id
        &&& forall|i: int| 0 <= i < self.spans@.len() ==> (#[trigger] self.spans@[i]).id == i
        &&& forall|i: int| 0 <= i < self.spans@.len() ==> match (#[trigger] self.spans@[i]).parent {
            Some(p) => p < i,
            None => true,
        }
        &&& forall|k: SpanId| #[trigger] self.index@.contains_key(k) <==> k < self.next_id
        &&& forall|k: SpanId| #[trigger] self.index@.contains_key(k) ==> self.index@[k] == k
        &&& forall|a: int, b: int| 0 <= a < b < self.open_stack@.len() ==> self.open_stack@[a] != self.open_stack@[b]
        &&& forall|a: int| 0 <= a < self.open_stack@.len() ==> self.open_stack@[a] < self.next_id
    }

    fn empty() -> (st: State)
        ensures
            st.consistent(),
            st.spans@ == Seq::<Span>::empty(),
            st.open_stack@ == Seq::<SpanId>::empty(),
    {
        State { next_id: 0, spans: Vec::new(), index: HashMap::new(), open_stack: Vec::new() }
    }
}

/// The recorded state, kept consistent by a type invariant: an update takes
/// the state out, changes it, and puts back a consistent one.
struct Log {
    state: State,
}

impl Log {
    #[verifier::type_invariant]
    spec fn log_consistent(&self) -> bool {
        self.state.consistent()
    }

    fn empty() -> (log: Log)
        ensures
            log.state.consistent(),
            log.state.spans@ == Seq::<Span>::empty(),
            log.state.open_stack@ == Seq::<SpanId>::empty(),
    {
        Log { state: State::empty() }
    }
}

/// Removing one entry from distinct ids below `bound` leaves distinct ids
/// below `bound`.
proof fn lemma_remove_keeps_distinct(open: Seq<SpanId>, p: int, bound: SpanId)
    requires
        0 <= p < open.len(),
        forall|a: int, b: int| 0 <= a < b < open.len() ==> open[a] != open[b],
        forall|a: int| 0 <= a < open.len() ==> open[a] < bound,
    ensures
        forall|a: int, b: int| 0 <= a < b < open.remove(p).len() ==> open.remove(p)[a] != open.remove(p)[b],
        forall|a: int| 0 <= a < open.remove(p).len() ==> open.remove(p)[a] < bound,
{
    let r = open.remove(p);
    assert forall|a: int, b: int| 0 <= a < b < r.len() implies r[a] != r[b] by {
        let a0 = if a < p { a } else { a + 1 };
        let b0 = if b < p { b } else { b + 1 };
        assert(r[a] == open[a0]);
        assert(r[b] == open[b0]);
    }
    assert forall|a: int| 0 <= a < r.len() implies r[a] < bound by {
        let a0 = if a < p { a } else { a + 1 };
        assert(r[a] == open[a0]);
    }
}

/// Records spans timed by a `Clock`.
pub struct Collector<C: Clock> {
    clock: C,
    log: Log,
}

impl<C: Clock> Collector<C> {
    /// The spans recorded so far, in recording order.
    pub closed spec fn recorded(&self) -> Seq<Span> {
        self.log.state.spans@
    }

    /// The ids of the spans that are open, outermost first.
    pub closed spec fn open_ids(&self) -> Seq<SpanId> {
        self.log.state.open_stack@
    }

    /// The clock that times the spans.
    pub closed spec fn timer(&self) -> C {
        self.clock
    }

    /// The collector's internal consistency: recorded ids are their
    /// positions, every parent precedes its child, and the open ids are
    /// distinct recorded ids. It holds of every collector (the log's type
    /// invariant keeps it), and every operation states it of its result, so
    /// that laws about collector values can rely on it.
    pub closed spec fn wf(&self) -> bool {
        self.log.state.consistent()
    }

    /// What every collector keeps: recorded ids are their positions, every
    /// parent precedes its child, and the open ids are recorded ids.
    pub proof fn lemma_wf_shape(&self)
        requires
            self.wf(),
        ensures
            forall|i: int| 0 <= i < self.recorded().len() ==> (#[trigger] self.recorded()[i]).id == i,
            forall|i: int| 0 <= i < self.recorded().len() ==> match (#[trigger] self.recorded()[i]).parent {
                Some(p) => p < i,
                None => true,
            },
            forall|a: int| 0 <= a < self.open_ids().len() ==> #[trigger] self.open_ids()[a] < self.recorded().len(),
            forall|a: int, b: int| 0 <= a < b < self.open_ids().len() ==> self.open_ids()[a] != self.open_ids()[b],
    {
    }

    pub fn new(clock: C) -> (c: Collector<C>)
        ensures
            c.wf(),
            c.recorded() == Seq::<Span>::empty(),
            c.open_ids() == Seq::<SpanId>::empty(),
            c.timer() == clock,
    {
        Collector { clock, log: Log::empty() }
    }

    /// Access the clock (used to advance a `ManualClock` in tests and demos).
    pub fn clock(&mut self) -> (c: &mut C)
        ensures
            *c == old(self).timer(),
            final(self).timer() == *final(c),
            final(self).recorded() == old(self).recorded(),
            final(self).open_ids() == old(self).open_ids(),
            final(self).wf(),
    {
        proof { use_type_invariant(&self.log); }
        &mut self.clock
    }

    /// Opens a span named `name` at time `now_ns` as a child of the
    /// currently-open span; returns its id.
    pub fn start_at(&mut self, name: &str, now_ns: u64) -> (id: SpanId)
        requires
            old(self).recorded().len() < u64::MAX,
        ensures
            id == old(self).recorded().len(),
            opened(old(self).recorded(), final(self).recorded(), old(self).open_ids(), name@, now_ns),
            final(self).open_ids() == old(self).open_ids().push(id),
            final(self).timer() == old(self).timer(),
            final(self).wf(),
    {
        proof { use_type_invariant(&self.log); }
        let mut st = State::empty();
        std::mem::swap(&mut st, &mut self.log.state);
        let id = st.next_id;
        st.next_id = st.next_id + 1;
        let parent = if st.open_stack.len() == 0 {
            None
        } else {
            Some(st.open_stack[st.open_stack.len() - 1])
        };
        let idx = st.spans.len();
        st.spans.push(Span::new(id, name, now_ns, now_ns, parent));
        st.index.insert(id, idx);
        st.open_stack.push(id);
        self.log.state = st;
        id
    }

    /// Closes span `id` at time `now_ns`, recording its end time, and removes
    /// its last occurrence from the open spans. An unknown id changes nothing.
    pub fn end_at(&mut self, id: SpanId, now_ns: u64)
        ensures
            ended(old(self).recorded(), final(self).recorded(), id, now_ns),
            final(self).open_ids() == without_last(old(self).open_ids(), id),
            !final(self).open_ids().contains(id),
            final(self).timer() == old(self).timer(),
            final(self).wf(),
    {
        proof { use_type_invariant(&self.log); }
        let mut st = State::empty();
        std::mem::swap(&mut st, &mut self.log.state);
        match st.index.get(&id) {
            Some(idx) => {
                let idx = *idx;
                let sp = &st.spans[idx];
                let closed = Span {
                    id: sp.id,
                    name: sp.name.clone(),
                    start_ns: sp.start_ns,
                    end_ns: now_ns,
                    parent: sp.parent,
                };
                st.spans.set(idx, closed);
            },
            None => {},
        }
        let ghost open = st.open_stack@;
        let mut pos: usize = st.open_stack.len();
        let mut found = false;
        assert(open.take(pos as int) =~= open);
        while pos > 0
            invariant_except_break
                !found,
                0 <= pos <= open.len(),
                st.open_stack@ == open,
                last_position(open, id) == last_position(open.take(pos as int), id),
            ensures
                st.open_stack@ == open,
                found ==> 0 < pos <= open.len() && last_position(open, id) == Some(pos - 1),
                !found ==> last_position(open, id) is None,
            decreases pos,
        {
            assert(open.take(pos as int).drop_last() =~= open.take(pos - 1));
            if st.open_stack[pos - 1] == id {
                found = true;
                break;
            }
            pos = pos - 1;
        }
        if found {
            proof { lemma_remove_keeps_distinct(open, pos - 1, st.next_id); }
            st.open_stack.remove(pos - 1);
        }
        proof { crate::laws::law_closed_span_is_no_longer_open(open, id); }
        self.log.state = st;
    }

    /// Opens a span as a child of the currently-open span, timed by the clock;
    /// returns its id. The span starts (and, until closed, ends) at a reading
    /// that the clock's `now_ns` can give.
    pub fn start(&mut self, name: &str) -> (id: SpanId)
        requires
            old(self).recorded().len() < u64::MAX,
        ensures
            id == old(self).recorded().len(),
            opened(old(self).recorded(), final(self).recorded(), old(self).open_ids(), name@, final(self).recorded().last().start_ns),
            call_ensures(C::now_ns, (&old(self).timer(),), final(self).recorded().last().start_ns),
            final(self).open_ids() == old(self).open_ids().push(id),
            final(self).timer() == old(self).timer(),
            final(self).wf(),
    {
        let now = self.clock.now_ns();
        self.start_at(name, now)
    }

    /// Closes a previously-opened span, recording as its end time a reading
    /// that the clock's `now_ns` can give.
    pub fn end(&mut self, id: SpanId)
        ensures
            id < old(self).recorded().len() ==> ended(old(self).recorded(), final(self).recorded(), id, final(self).recorded()[id as int].end_ns),
            id < old(self).recorded().len() ==> call_ensures(C::now_ns, (&old(self).timer(),), final(self).recorded()[id as int].end_ns),
            id >= old(self).recorded().len() ==> final(self).recorded() == old(self).recorded(),
            final(self).open_ids() == without_last(old(self).open_ids(), id),
            !final(self).open_ids().contains(id),
            final(self).timer() == old(self).timer(),
            final(self).wf(),
    {
        let now = self.clock.now_ns();
        self.end_at(id, now);
        proof {
            if id >= old(self).recorded().len() {
                assert(self.recorded() =~= old(self).recorded());
            }
        }
    }

    /// A snapshot of the recorded trace so far.
    pub fn snapshot(&self) -> (t: Trace)
        ensures
            t.spans@.len() == self.recorded().len(),
            forall|i: int| 0 <= i < t.spans@.len() ==> same_span(#[trigger] t.spans@[i], self.recorded()[i]),
    {
        let mut spans: Vec<Span> = Vec::new();
        let mut i: usize = 0;
        while i < self.log.state.spans.len()
            invariant
                0 <= i <= self.log.state.spans@.len(),
                spans@.len() == i,
                forall|k: int| 0 <= k < i ==> same_span(#[trigger] spans@[k], self.log.state.spans@[k]),
            decreases self.log.state.spans@.len() - i,
        {
            spans.push(self.log.state.spans[i].clone());
            i = i + 1;
        }
        Trace::new(spans)
    }

    /// Consumes the collector, returning the recorded trace.
    pub fn finish(self) -> (t: Trace)
        ensures
            t.spans@ == self.recorded(),
    {
        Trace::new(self.log.state.spans)
    }
}

} // verus!
