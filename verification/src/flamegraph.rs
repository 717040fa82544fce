//! Flamegraph aggregation: fold the trace tree into per-stack self-time.
//!
//! A span's *self time* is its own duration minus the time accounted for by its
//! direct children. Folding accumulates self time keyed by the call stack (the
//! sequence of span names from a root down to the span), so repeated stacks
//! aggregate — exactly the structure a flamegraph renders.

use std::collections::HashMap;
use vstd::prelude::*;

use crate::order::{
    Order, compare_stacks, names_view, stack_lt, lemma_stack_lt_irreflexive,
    lemma_stack_lt_transitive,
};
use crate::span::{Span, SpanId};
use crate::trace::{Trace, has_id, lookup, lemma_lookup};

verus! {

/// One folded stack: a root-to-node name path and its accumulated self time.
#[derive(Debug, Clone, PartialEq, Eq)]
pub struct FoldedStack {
    pub stack: Vec<String>,
    pub self_ns: u64,
}

impl View for FoldedStack {
    /// The stack's names and its self time.
    type V = (Seq<Seq<char>>, u64);

    open spec fn view(&self) -> (Seq<Seq<char>>, u64) {
        (names_view(self.stack@), self.self_ns)
    }
}

/// Total duration of the children of `pid` found in the first `k` spans, each
/// child id resolved to the span it looks up to.
pub open spec fn children_total(s: Seq<Span>, pid: SpanId, k: int) -> nat
    decreases k,
{
    if k <= 0 {
        0
    } else if s[k - 1].parent == Some(pid) {
        children_total(s, pid, k - 1) + s[lookup(s, s[k - 1].id)].duration() as nat
    } else {
        children_total(s, pid, k - 1)
    }
}

/// Self time of the span at `i`: its duration minus its children's, saturating
/// at zero.
pub open spec fn self_time(s: Seq<Span>, i: int) -> u64 {
    let total = children_total(s, s[i].id, s.len() as int);
    if s[i].duration() >= total {
        (s[i].duration() - total) as u64
    } else {
        0
    }
}

/// The (stack, self time) visits of a depth-first walk from position `i` below
/// the stack `prefix`, cut `fuel` levels down.
pub open spec fn visits(s: Seq<Span>, i: int, prefix: Seq<Seq<char>>, fuel: nat) -> Seq<
    (Seq<Seq<char>>, u64),
>
    decreases fuel, 0int,
{
    if fuel == 0 {
        seq![]
    } else {
        let stack = prefix.push(s[i].name@);
        seq![(stack, self_time(s, i))] + child_visits(
            s,
            s[i].id,
            stack,
            (fuel - 1) as nat,
            s.len() as int,
        )
    }
}

/// The visits below the children of `pid` found in the first `k` spans.
pub open spec fn child_visits(
    s: Seq<Span>,
    pid: SpanId,
    stack: Seq<Seq<char>>,
    fuel: nat,
    k: int,
) -> Seq<(Seq<Seq<char>>, u64)>
    decreases fuel, k + 1,
{
    if k <= 0 {
        seq![]
    } else if s[k - 1].parent == Some(pid) {
        child_visits(s, pid, stack, fuel, k - 1) + visits(s, lookup(s, s[k - 1].id), stack, fuel)
    } else {
        child_visits(s, pid, stack, fuel, k - 1)
    }
}

/// The walk from position `i` ends within `fuel` levels, and no child-duration
/// sum on the way exceeds `u64::MAX`.
pub open spec fn tree_ok(s: Seq<Span>, i: int, fuel: nat) -> bool
    decreases fuel, 0int,
{
    &&& fuel > 0
    &&& children_total(s, s[i].id, s.len() as int) <= u64::MAX
    &&& kids_ok(s, s[i].id, (fuel - 1) as nat, s.len() as int)
}

/// Every child of `pid` among the first `k` spans has a walk that is fine.
pub open spec fn kids_ok(s: Seq<Span>, pid: SpanId, fuel: nat, k: int) -> bool
    decreases fuel, k + 1,
{
    if k <= 0 {
        true
    } else {
        &&& kids_ok(s, pid, fuel, k - 1)
        &&& (s[k - 1].parent == Some(pid) ==> tree_ok(s, lookup(s, s[k - 1].id), fuel))
    }
}

/// The visits of the walks from the roots among the first `k` spans.
pub open spec fn forest_visits(s: Seq<Span>, k: int) -> Seq<(Seq<Seq<char>>, u64)>
    decreases k,
{
    if k <= 0 {
        seq![]
    } else if s[k - 1].parent is None {
        forest_visits(s, k - 1) + visits(s, k - 1, seq![], s.len() + 1)
    } else {
        forest_visits(s, k - 1)
    }
}

/// Every walk from a root ends (a walk that ends visits each span at most once
/// along any branch, so one level more than there are spans always suffices),
/// and no child-duration sum overflows.
pub open spec fn forest_ok(s: Seq<Span>) -> bool {
    forall|i: int| 0 <= i < s.len() && #[trigger] s[i].parent is None ==> tree_ok(s, i, s.len() + 1)
}

/// Adds one visit's self time to the total of its stack.
pub open spec fn add_visit(m: Map<Seq<Seq<char>>, int>, v: (Seq<Seq<char>>, u64)) -> Map<
    Seq<Seq<char>>,
    int,
> {
    m.insert(v.0, (if m.contains_key(v.0) { m[v.0] } else { 0 }) + v.1)
}

/// Adds the self times of all visits to `m`.
pub open spec fn accumulate(m: Map<Seq<Seq<char>>, int>, vs: Seq<(Seq<Seq<char>>, u64)>) -> Map<
    Seq<Seq<char>>,
    int,
>
    decreases vs.len(),
{
    if vs.len() == 0 {
        m
    } else {
        add_visit(accumulate(m, vs.drop_last()), vs.last())
    }
}

/// Total self time per call stack over the whole trace.
pub open spec fn flame_totals(s: Seq<Span>) -> Map<Seq<Seq<char>>, int> {
    accumulate(Map::empty(), forest_visits(s, s.len() as int))
}

/// Every total fits in a `u64`.
pub open spec fn bounded(m: Map<Seq<Seq<char>>, int>) -> bool {
    forall|st: Seq<Seq<char>>| #[trigger] m.contains_key(st) ==> m[st] <= u64::MAX
}

/// `out` lists the totals of `m`, one entry per stack, in strictly increasing
/// stack order.
pub open spec fn lists_totals(out: Seq<(Seq<Seq<char>>, u64)>, m: Map<Seq<Seq<char>>, int>) -> bool {
    &&& forall|i: int, j: int| 0 <= i < j < out.len() ==> stack_lt(out[i].0, out[j].0)
    &&& forall|i: int| 0 <= i < out.len() ==> m.contains_key(#[trigger] out[i].0) && m[out[i].0] == out[i].1
    &&& forall|st: Seq<Seq<char>>| #[trigger] m.contains_key(st) ==> exists|i: int| 0 <= i < out.len() && out[i].0 == st
}

pub proof fn lemma_accumulate_split(m: Map<Seq<Seq<char>>, int>, a: Seq<(Seq<Seq<char>>, u64)>, b: Seq<(Seq<Seq<char>>, u64)>)
    ensures
        accumulate(m, a + b) == accumulate(accumulate(m, a), b),
    decreases b.len(),
{
    if b.len() == 0 {
        assert(a + b =~= a);
    } else {
        assert((a + b).drop_last() =~= a + b.drop_last());
        lemma_accumulate_split(m, a, b.drop_last());
    }
}

pub proof fn lemma_accumulate_grows(m: Map<Seq<Seq<char>>, int>, vs: Seq<(Seq<Seq<char>>, u64)>)
    ensures
        forall|st: Seq<Seq<char>>| #[trigger] m.contains_key(st) ==> accumulate(m, vs).contains_key(st) && m[st] <= accumulate(m, vs)[st],
    decreases vs.len(),
{
    if vs.len() > 0 {
        lemma_accumulate_grows(m, vs.drop_last());
    }
}

pub proof fn lemma_accumulate_bounded_prefix(m: Map<Seq<Seq<char>>, int>, a: Seq<(Seq<Seq<char>>, u64)>, b: Seq<(Seq<Seq<char>>, u64)>)
    requires
        bounded(accumulate(m, a + b)),
    ensures
        bounded(accumulate(m, a)),
{
    lemma_accumulate_split(m, a, b);
    lemma_accumulate_grows(accumulate(m, a), b);
}

proof fn lemma_child_visits_prefix(s: Seq<Span>, pid: SpanId, stack: Seq<Seq<char>>, fuel: nat, k: int, n: int) -> (t: Seq<(Seq<Seq<char>>, u64)>)
    requires
        0 <= k <= n,
    ensures
        child_visits(s, pid, stack, fuel, n) == child_visits(s, pid, stack, fuel, k) + t,
    decreases n - k,
{
    if k == n {
        let t = Seq::<(Seq<Seq<char>>, u64)>::empty();
        assert(child_visits(s, pid, stack, fuel, n) =~= child_visits(s, pid, stack, fuel, k) + t);
        t
    } else {
        let t = lemma_child_visits_prefix(s, pid, stack, fuel, k, n - 1);
        if s[n - 1].parent == Some(pid) {
            let u = visits(s, lookup(s, s[n - 1].id), stack, fuel);
            assert(child_visits(s, pid, stack, fuel, n) =~= child_visits(s, pid, stack, fuel, k) + (t + u));
            t + u
        } else {
            t
        }
    }
}

proof fn lemma_forest_visits_prefix(s: Seq<Span>, k: int, n: int) -> (t: Seq<(Seq<Seq<char>>, u64)>)
    requires
        0 <= k <= n,
    ensures
        forest_visits(s, n) == forest_visits(s, k) + t,
    decreases n - k,
{
    if k == n {
        let t = Seq::<(Seq<Seq<char>>, u64)>::empty();
        assert(forest_visits(s, n) =~= forest_visits(s, k) + t);
        t
    } else {
        let t = lemma_forest_visits_prefix(s, k, n - 1);
        if s[n - 1].parent is None {
            let u = visits(s, n - 1, seq![], s.len() + 1);
            assert(forest_visits(s, n) =~= forest_visits(s, k) + (t + u));
            t + u
        } else {
            t
        }
    }
}

proof fn lemma_kids_ok_prefix(s: Seq<Span>, pid: SpanId, fuel: nat, k: int, n: int)
    requires
        0 <= k <= n,
        kids_ok(s, pid, fuel, n),
    ensures
        kids_ok(s, pid, fuel, k),
    decreases n - k,
{
    if k < n {
        lemma_kids_ok_prefix(s, pid, fuel, k, n - 1);
    }
}

proof fn lemma_children_total_prefix(s: Seq<Span>, pid: SpanId, k: int, n: int)
    requires
        0 <= k <= n,
    ensures
        children_total(s, pid, k) <= children_total(s, pid, n),
    decreases n - k,
{
    if k < n {
        lemma_children_total_prefix(s, pid, k, n - 1);
    }
}

/// Totals listed as `u64` values fit in a `u64`.
proof fn lemma_listed_totals_fit(out: Seq<(Seq<Seq<char>>, u64)>, m: Map<Seq<Seq<char>>, int>)
    requires
        lists_totals(out, m),
    ensures
        bounded(m),
{
    assert forall|st: Seq<Seq<char>>| #[trigger] m.contains_key(st) implies m[st] <= u64::MAX by {
        let i = choose|i: int| 0 <= i < out.len() && out[i].0 == st;
        assert(m.contains_key(out[i].0));
    }
}

/// Copies a stack of names.
fn copy_names(v: &Vec<String>) -> (r: Vec<String>)
    ensures
        names_view(r@) == names_view(v@),
{
    let mut r: Vec<String> = Vec::new();
    let mut i: usize = 0;
    while i < v.len()
        invariant
            0 <= i <= v@.len(),
            names_view(r@) =~= names_view(v@).take(i as int),
        decreases v@.len() - i,
    {
        let x = v[i].clone();
        let ghost before = r@;
        r.push(x);
        proof {
            assert(r@ =~= before.push(x));
            assert(names_view(r@) =~= names_view(before).push(x@));
            assert(names_view(v@).take(i + 1) =~= names_view(v@).take(i as int).push(v@[i as int]@));
        }
        i = i + 1;
    }
    assert(names_view(v@).take(v@.len() as int) =~= names_view(v@));
    r
}

/// Adds `self_ns` to the entry for `stack` in the sorted accumulator.
/// Returns whether the new total fits in a `u64`; if it does not, `acc` is
/// left as it was.
fn add_to_totals(acc: &mut Vec<FoldedStack>, stack: &Vec<String>, self_ns: u64, Ghost(m): Ghost<Map<Seq<Seq<char>>, int>>) -> (ok: bool)
    requires
        lists_totals(old(acc)@.map_values(|f: FoldedStack| f@), m),
    ensures
        ok == bounded(add_visit(m, (names_view(stack@), self_ns))),
        ok ==> lists_totals(final(acc)@.map_values(|f: FoldedStack| f@), add_visit(m, (names_view(stack@), self_ns))),
        !ok ==> final(acc)@ == old(acc)@,
{
    let ghost st = names_view(stack@);
    let ghost m2 = add_visit(m, (st, self_ns));
    let ghost old_view = acc@.map_values(|f: FoldedStack| f@);
    let mut p: usize = 0;
    let mut found = false;
    while p < acc.len()
        invariant_except_break
            acc@.map_values(|f: FoldedStack| f@) == old_view,
            st == names_view(stack@),
            !found,
            0 <= p <= acc@.len(),
            forall|k: int| 0 <= k < p ==> stack_lt(old_view[k].0, st),
        ensures
            acc@.map_values(|f: FoldedStack| f@) == old_view,
            0 <= p <= acc@.len(),
            forall|k: int| 0 <= k < p ==> stack_lt(old_view[k].0, st),
            found ==> p < acc@.len() && old_view[p as int].0 == st,
            !found ==> (p == acc@.len() || stack_lt(st, old_view[p as int].0)),
        decreases acc@.len() - p,
    {
        let c = compare_stacks(&acc[p].stack, stack);
        assert(old_view[p as int] == acc@[p as int]@);
        match c {
            Order::Less => {
                assert(stack_lt(old_view[p as int].0, st));
            },
            Order::Equal => {
                found = true;
                break;
            },
            Order::Greater => {
                break;
            },
        }
        p = p + 1;
    }
    proof {
        assert forall|i: int, j: int| 0 <= i < j < old_view.len() implies old_view[i].0 != old_view[j].0 by {
            lemma_stack_lt_irreflexive(old_view[i].0);
        }
    }
    if found {
        let ghost before = acc@;
        assert(m.contains_key(st));
        assert(m2[st] == m[st] + self_ns);
        assert(old_view[p as int] == acc@[p as int]@);
        assert(acc@[p as int].self_ns as int == m[st]);
        assert(m2.contains_key(st));
        let total = match acc[p].self_ns.checked_add(self_ns) {
            Some(t) => t,
            None => {
                assert(!bounded(m2));
                return false;
            },
        };
        let entry = FoldedStack { stack: copy_names(stack), self_ns: total };
        acc.set(p, entry);
        proof {
            let nv = acc@.map_values(|f: FoldedStack| f@);
            assert(nv =~= old_view.update(p as int, (st, total)));
            assert forall|st2: Seq<Seq<char>>| #[trigger] m2.contains_key(st2) implies exists|i: int| 0 <= i < nv.len() && nv[i].0 == st2 by {
                if st2 != st {
                    let i = choose|i: int| 0 <= i < old_view.len() && old_view[i].0 == st2;
                    assert(nv[i].0 == st2);
                } else {
                    assert(nv[p as int].0 == st2);
                }
            }
            lemma_listed_totals_fit(nv, m2);
        }
        true
    } else {
        let ghost before = acc@;
        assert(!m.contains_key(st)) by {
            if m.contains_key(st) {
                let i = choose|i: int| 0 <= i < old_view.len() && old_view[i].0 == st;
                if i < p {
                    lemma_stack_lt_irreflexive(st);
                } else {
                    if i > p {
                        lemma_stack_lt_transitive(st, old_view[p as int].0, old_view[i].0);
                    }
                    lemma_stack_lt_irreflexive(st);
                }
            }
        }
        let entry = FoldedStack { stack: copy_names(stack), self_ns };
        acc.insert(p, entry);
        proof {
            let nv = acc@.map_values(|f: FoldedStack| f@);
            assert(nv =~= old_view.insert(p as int, (st, self_ns)));
            assert forall|i: int, j: int| 0 <= i < j < nv.len() implies stack_lt(nv[i].0, nv[j].0) by {
                if j < p {
                } else if j == p {
                } else if i < p {
                    // i before, j after the new entry
                    if j - 1 > p {
                        lemma_stack_lt_transitive(st, old_view[p as int].0, old_view[j - 1].0);
                    }
                    lemma_stack_lt_transitive(old_view[i].0, st, old_view[j - 1].0);
                } else if i == p {
                    if j - 1 > p {
                        lemma_stack_lt_transitive(st, old_view[p as int].0, old_view[j - 1].0);
                    }
                } else {
                }
            }
            assert forall|st2: Seq<Seq<char>>| #[trigger] m2.contains_key(st2) implies exists|i: int| 0 <= i < nv.len() && nv[i].0 == st2 by {
                if st2 != st {
                    let i = choose|i: int| 0 <= i < old_view.len() && old_view[i].0 == st2;
                    if i < p {
                        assert(nv[i].0 == st2);
                    } else {
                        assert(nv[i + 1].0 == st2);
                    }
                } else {
                    assert(nv[p as int].0 == st2);
                }
            }
            lemma_listed_totals_fit(nv, m2);
        }
        true
    }
}

/// The total duration of the children of `pid`, or `None` when it does not
/// fit in a `u64`.
fn children_total_of(trace: &Trace, by_id: &HashMap<SpanId, &Span>, pid: SpanId) -> (r: Option<u64>)
    requires
        forall|id: SpanId| #[trigger] by_id@.contains_key(id) <==> has_id(trace.spans@, id),
        forall|id: SpanId|
            #[trigger] by_id@.contains_key(id) ==> *by_id@[id] == trace.spans@[lookup(trace.spans@, id)],
    ensures
        r matches Some(t) ==> t == children_total(trace.spans@, pid, trace.spans@.len() as int),
        r is None ==> children_total(trace.spans@, pid, trace.spans@.len() as int) > u64::MAX,
{
    let ghost s = trace.spans@;
    let n = trace.spans.len();
    let mut total: u64 = 0;
    let mut k: usize = 0;
    while k < n
        invariant
            s == trace.spans@,
            n == s.len(),
            0 <= k <= n,
            forall|id: SpanId| #[trigger] by_id@.contains_key(id) <==> has_id(s, id),
            forall|id: SpanId|
                #[trigger] by_id@.contains_key(id) ==> *by_id@[id] == s[lookup(s, id)],
            total == children_total(s, pid, k as int),
        decreases n - k,
    {
        let sp = &trace.spans[k];
        if sp.parent == Some(pid) {
            proof {
                assert(has_id(s, sp.id)) by {
                    assert(s[k as int].id == sp.id);
                }
            }
            match by_id.get(&sp.id) {
                Some(c) => {
                    match total.checked_add(c.duration_ns()) {
                        Some(t) => {
                            total = t;
                        },
                        None => {
                            proof {
                                lemma_children_total_prefix(s, pid, k + 1, n as int);
                            }
                            return None;
                        },
                    }
                },
                None => {},
            }
        }
        k = k + 1;
    }
    Some(total)
}

/// Whether the children of every span add up to at most `u64::MAX`
/// nanoseconds.
pub fn child_totals_fit(trace: &Trace) -> (r: bool)
    ensures
        r == (forall|j: int| 0 <= j < trace.spans@.len()
            ==> children_total(trace.spans@, #[trigger] trace.spans@[j].id, trace.spans@.len() as int) <= u64::MAX),
{
    let ghost s = trace.spans@;
    let n = trace.spans.len();
    let by_id = trace.index_by_id();
    let mut j: usize = 0;
    while j < n
        invariant
            s == trace.spans@,
            n == s.len(),
            0 <= j <= n,
            forall|id: SpanId| #[trigger] by_id@.contains_key(id) <==> has_id(s, id),
            forall|id: SpanId|
                #[trigger] by_id@.contains_key(id) ==> *by_id@[id] == s[lookup(s, id)],
            forall|x: int| 0 <= x < j ==> children_total(s, #[trigger] s[x].id, n as int) <= u64::MAX,
        decreases n - j,
    {
        if children_total_of(trace, &by_id, trace.spans[j].id).is_none() {
            assert(children_total(s, s[j as int].id, n as int) > u64::MAX);
            return false;
        }
        j = j + 1;
    }
    true
}

/// Whether the walk from `span`, at position `i`, is fine within `d + 1`
/// levels (`tree_ok`): it ends, and no child-duration sum on the way overflows.
fn walk_fits(trace: &Trace, by_id: &HashMap<SpanId, &Span>, span: &Span, Ghost(i): Ghost<int>, d: usize) -> (r: bool)
    requires
        0 <= i < trace.spans@.len(),
        *span == trace.spans@[i],
        forall|id: SpanId| #[trigger] by_id@.contains_key(id) <==> has_id(trace.spans@, id),
        forall|id: SpanId|
            #[trigger] by_id@.contains_key(id) ==> *by_id@[id] == trace.spans@[lookup(trace.spans@, id)],
    ensures
        r == tree_ok(trace.spans@, i, (d + 1) as nat),
    decreases d,
{
    let ghost s = trace.spans@;
    let n = trace.spans.len();
    if children_total_of(trace, by_id, span.id).is_none() {
        return false;
    }
    let mut k: usize = 0;
    while k < n
        invariant
            s == trace.spans@,
            n == s.len(),
            0 <= k <= n,
            0 <= i < n,
            *span == s[i],
            forall|id: SpanId| #[trigger] by_id@.contains_key(id) <==> has_id(s, id),
            forall|id: SpanId|
                #[trigger] by_id@.contains_key(id) ==> *by_id@[id] == s[lookup(s, id)],
            kids_ok(s, span.id, d as nat, k as int),
        decreases n - k,
    {
        let sp = &trace.spans[k];
        if sp.parent == Some(span.id) {
            proof {
                assert(has_id(s, sp.id)) by {
                    assert(s[k as int].id == sp.id);
                }
                lemma_lookup(s, sp.id);
            }
            match by_id.get(&sp.id) {
                Some(c) => {
                    let ok = if d == 0 {
                        false
                    } else {
                        walk_fits(trace, by_id, *c, Ghost(lookup(s, sp.id)), d - 1)
                    };
                    if !ok {
                        proof {
                            assert(s[k as int].id == sp.id);
                            assert(!tree_ok(s, lookup(s, s[k as int].id), d as nat));
                            assert(!kids_ok(s, span.id, d as nat, k + 1));
                            if kids_ok(s, span.id, d as nat, n as int) {
                                lemma_kids_ok_prefix(s, span.id, d as nat, k + 1, n as int);
                            }
                        }
                        return false;
                    }
                },
                None => {},
            }
        }
        k = k + 1;
    }
    true
}

/// Whether every depth-first walk from the roots ends and no child-duration
/// sum on the way overflows: exactly when `fold` and `try_fold` may run.
pub fn fold_walks_end(trace: &Trace) -> (r: bool)
    ensures
        r == forest_ok(trace.spans@),
{
    let ghost s = trace.spans@;
    let n = trace.spans.len();
    let by_id = trace.index_by_id();
    let mut k: usize = 0;
    while k < n
        invariant
            s == trace.spans@,
            n == s.len(),
            0 <= k <= n,
            forall|id: SpanId| #[trigger] by_id@.contains_key(id) <==> has_id(s, id),
            forall|id: SpanId|
                #[trigger] by_id@.contains_key(id) ==> *by_id@[id] == s[lookup(s, id)],
            forall|j: int| 0 <= j < k && #[trigger] s[j].parent is None ==> tree_ok(s, j, s.len() + 1),
        decreases n - k,
    {
        let sp = &trace.spans[k];
        if sp.parent.is_none() {
            if !walk_fits(trace, &by_id, sp, Ghost(k as int), n) {
                assert(s[k as int].parent is None);
                return false;
            }
        }
        k = k + 1;
    }
    true
}

/// Folds a trace into its flamegraph stacks, ordered deterministically.
pub fn fold(trace: &Trace) -> (out: Vec<FoldedStack>)
    requires
        forest_ok(trace.spans@),
        bounded(flame_totals(trace.spans@)),
    ensures
        lists_totals(out@.map_values(|f: FoldedStack| f@), flame_totals(trace.spans@)),
{
    try_fold(trace).unwrap()
}

/// Folds a trace as `fold` does, or returns `None` when some stack's total
/// self time does not fit in a `u64`.
pub fn try_fold(trace: &Trace) -> (r: Option<Vec<FoldedStack>>)
    requires
        forest_ok(trace.spans@),
    ensures
        r is Some <==> bounded(flame_totals(trace.spans@)),
        r matches Some(out) ==> lists_totals(out@.map_values(|f: FoldedStack| f@), flame_totals(trace.spans@)),
{
    let ghost s = trace.spans@;
    let n = trace.spans.len();
    let by_id = trace.index_by_id();
    let mut acc: Vec<FoldedStack> = Vec::new();
    let mut k: usize = 0;
    while k < n
        invariant
            s == trace.spans@,
            n == s.len(),
            0 <= k <= n,
            forest_ok(s),
            forall|id: SpanId| #[trigger] by_id@.contains_key(id) <==> has_id(s, id),
            forall|id: SpanId|
                #[trigger] by_id@.contains_key(id) ==> *by_id@[id] == s[lookup(s, id)],
            lists_totals(acc@.map_values(|f: FoldedStack| f@), accumulate(Map::empty(), forest_visits(s, k as int))),
        decreases n - k,
    {
        let sp = &trace.spans[k];
        if sp.parent.is_none() {
            let ghost before = accumulate(Map::empty(), forest_visits(s, k as int));
            let ghost vs = visits(s, k as int, seq![], (n + 1) as nat);
            proof {
                assert(forest_visits(s, k + 1) == forest_visits(s, k as int) + vs);
                lemma_accumulate_split(Map::empty(), forest_visits(s, k as int), vs);
                assert(tree_ok(s, k as int, (n + 1) as nat));
            }
            let empty: Vec<String> = Vec::new();
            assert(names_view(empty@) =~= Seq::<Seq<char>>::empty());
            let ok = fold_span(trace, sp, &empty, &by_id, &mut acc, Ghost(k as int), Ghost((n + 1) as nat), Ghost(before));
            if !ok {
                proof {
                    let t = lemma_forest_visits_prefix(s, k + 1, n as int);
                    if bounded(flame_totals(s)) {
                        lemma_accumulate_bounded_prefix(Map::empty(), forest_visits(s, k + 1), t);
                    }
                }
                return None;
            }
        }
        k = k + 1;
    }
    proof {
        lemma_listed_totals_fit(acc@.map_values(|f: FoldedStack| f@), flame_totals(s));
    }
    Some(acc)
}

#[verifier::rlimit(50)]
fn fold_span(
    trace: &Trace,
    span: &Span,
    prefix: &Vec<String>,
    by_id: &HashMap<SpanId, &Span>,
    acc: &mut Vec<FoldedStack>,
    Ghost(i): Ghost<int>,
    Ghost(fuel): Ghost<nat>,
    Ghost(m): Ghost<Map<Seq<Seq<char>>, int>>,
) -> (ok: bool)
    requires
        0 <= i < trace.spans@.len(),
        *span == trace.spans@[i],
        tree_ok(trace.spans@, i, fuel),
        forall|id: SpanId| #[trigger] by_id@.contains_key(id) <==> has_id(trace.spans@, id),
        forall|id: SpanId|
            #[trigger] by_id@.contains_key(id) ==> *by_id@[id] == trace.spans@[lookup(trace.spans@, id)],
        lists_totals(old(acc)@.map_values(|f: FoldedStack| f@), m),
    ensures
        ok == bounded(accumulate(m, visits(trace.spans@, i, names_view(prefix@), fuel))),
        ok ==> lists_totals(final(acc)@.map_values(|f: FoldedStack| f@), accumulate(m, visits(trace.spans@, i, names_view(prefix@), fuel))),
    decreases fuel,
{
    let ghost s = trace.spans@;
    let n = trace.spans.len();
    let mut stack = copy_names(prefix);
    stack.push(span.name.clone());
    let ghost stv = names_view(stack@);
    assert(stv =~= names_view(prefix@).push(span.name@));

    // Time accounted for by the direct children.
    let mut children_ns: u64 = 0;
    let mut k: usize = 0;
    while k < n
        invariant
            s == trace.spans@,
            n == s.len(),
            0 <= k <= n,
            0 <= i < n,
            *span == s[i],
            tree_ok(s, i, fuel),
            forall|id: SpanId| #[trigger] by_id@.contains_key(id) <==> has_id(s, id),
            forall|id: SpanId|
                #[trigger] by_id@.contains_key(id) ==> *by_id@[id] == s[lookup(s, id)],
            children_ns == children_total(s, span.id, k as int),
        decreases n - k,
    {
        let sp = &trace.spans[k];
        if sp.parent == Some(span.id) {
            proof {
                assert(has_id(s, sp.id)) by {
                    assert(s[k as int].id == sp.id);
                }
                lemma_children_total_prefix(s, span.id, k + 1, n as int);
            }
            match by_id.get(&sp.id) {
                Some(c) => {
                    children_ns = children_ns + c.duration_ns();
                },
                None => {},
            }
        }
        k = k + 1;
    }
    let dur = span.duration_ns();
    let self_ns = if dur >= children_ns { dur - children_ns } else { 0 };
    assert(self_ns == self_time(s, i));

    let ghost own = seq![(stv, self_ns)];
    let ghost cv = child_visits(s, span.id, stv, (fuel - 1) as nat, n as int);
    assert(visits(s, i, names_view(prefix@), fuel) == own + cv);
    proof {
        assert(child_visits(s, span.id, stv, (fuel - 1) as nat, 0) =~= Seq::<(Seq<Seq<char>>, u64)>::empty());
        assert(own + child_visits(s, span.id, stv, (fuel - 1) as nat, 0) =~= own);
        assert(accumulate(m, own) == add_visit(m, (stv, self_ns))) by {
            assert(own.drop_last() =~= Seq::<(Seq<Seq<char>>, u64)>::empty());
            assert(accumulate(m, own.drop_last()) == m);
        }
    }
    if !add_to_totals(acc, &stack, self_ns, Ghost(m)) {
        proof {
            if bounded(accumulate(m, own + cv)) {
                lemma_accumulate_bounded_prefix(m, own, cv);
            }
        }
        return false;
    }

    let mut k: usize = 0;
    while k < n
        invariant
            s == trace.spans@,
            n == s.len(),
            0 <= k <= n,
            0 <= i < n,
            *span == s[i],
            tree_ok(s, i, fuel),
            stv == names_view(stack@),
            own == seq![(stv, self_ns)],
            visits(s, i, names_view(prefix@), fuel) == own + child_visits(s, span.id, stv, (fuel - 1) as nat, n as int),
            forall|id: SpanId| #[trigger] by_id@.contains_key(id) <==> has_id(s, id),
            forall|id: SpanId|
                #[trigger] by_id@.contains_key(id) ==> *by_id@[id] == s[lookup(s, id)],
            lists_totals(acc@.map_values(|f: FoldedStack| f@), accumulate(m, own + child_visits(s, span.id, stv, (fuel - 1) as nat, k as int))),
        decreases n - k,
    {
        let sp = &trace.spans[k];
        if sp.parent == Some(span.id) {
            proof {
                assert(has_id(s, sp.id)) by {
                    assert(s[k as int].id == sp.id);
                }
                lemma_lookup(s, sp.id);
            }
            match by_id.get(&sp.id) {
                Some(c) => {
                    let c: &Span = *c;
                    let ghost ci = lookup(s, sp.id);
                    let ghost before = accumulate(m, own + child_visits(s, span.id, stv, (fuel - 1) as nat, k as int));
                    let ghost cvs = visits(s, ci, stv, (fuel - 1) as nat);
                    proof {
                        lemma_kids_ok_prefix(s, span.id, (fuel - 1) as nat, k + 1, n as int);
                        assert(tree_ok(s, ci, (fuel - 1) as nat));
                        assert(child_visits(s, span.id, stv, (fuel - 1) as nat, k + 1) == child_visits(s, span.id, stv, (fuel - 1) as nat, k as int) + cvs);
                        assert(own + child_visits(s, span.id, stv, (fuel - 1) as nat, k + 1) =~= (own + child_visits(s, span.id, stv, (fuel - 1) as nat, k as int)) + cvs);
                        lemma_accumulate_split(m, own + child_visits(s, span.id, stv, (fuel - 1) as nat, k as int), cvs);
                    }
                    if !fold_span(trace, c, &stack, by_id, acc, Ghost(ci), Ghost((fuel - 1) as nat), Ghost(before)) {
                        proof {
                            let t = lemma_child_visits_prefix(s, span.id, stv, (fuel - 1) as nat, k + 1, n as int);
                            assert(own + child_visits(s, span.id, stv, (fuel - 1) as nat, n as int) =~= (own + child_visits(s, span.id, stv, (fuel - 1) as nat, k + 1)) + t);
                            if bounded(accumulate(m, own + child_visits(s, span.id, stv, (fuel - 1) as nat, n as int))) {
                                lemma_accumulate_bounded_prefix(m, own + child_visits(s, span.id, stv, (fuel - 1) as nat, k + 1), t);
                            }
                        }
                        return false;
                    }
                },
                None => {},
            }
        }
        k = k + 1;
    }
    proof {
        lemma_listed_totals_fit(acc@.map_values(|f: FoldedStack| f@), accumulate(m, visits(s, i, names_view(prefix@), fuel)));
    }
    true
}

} // verus!
