//! Properties that relate the library's operations.

use vstd::prelude::*;

use crate::critical_path::{
    critical_path_ends, critical_path_of, finishes_at_least, governing_root, governing_root_upto,
    last_child, last_child_upto, path_entry, path_ends, path_from, root_at_least,
    lemma_governing_root_bounds,
};
use crate::flamegraph::{
    accumulate, add_visit, child_visits, children_total, flame_totals, forest_ok, forest_visits,
    kids_ok, lists_totals, self_time, tree_ok, visits,
};
use crate::order::{stack_lt, lemma_name_lt_irreflexive, lemma_stack_lt_irreflexive};
use crate::report::{add_to_name, name_totals, ranks_before, ranks_totals};
use crate::clock::{Clock, ManualClock};
use crate::collector::{Collector, ended, innermost, last_position, opened, without_last};
use crate::span::{Span, SpanId};
use crate::trace::{
    ancestor, cyclic_at, duplicate_at, first_bad_span, first_cyclic, first_missing_parent, has_id,
    inverted_at, is_valid, lookup, unique_ids, missing_parent_at, parent_of, max_end, min_start,
    total_duration,
    ascending, children_sorted, has_child, insert_by_id, roots_of, sorted_by_id,
    lemma_lookup, lemma_children_sorted_ascending,
    lemma_insert_sorted_ascending, lemma_roots_sorted,
};

verus! {

proof fn lemma_first_bad_span_none(s: Seq<Span>, k: int)
    requires
        first_bad_span(s, k) is None,
    ensures
        forall|i: int| 0 <= i < k ==> !duplicate_at(s, i) && !inverted_at(s, i),
    decreases k,
{
    if k > 0 {
        lemma_first_bad_span_none(s, k - 1);
    }
}

proof fn lemma_first_missing_parent_none(s: Seq<Span>, k: int)
    requires
        first_missing_parent(s, k) is None,
    ensures
        forall|i: int| 0 <= i < k ==> !missing_parent_at(s, i),
    decreases k,
{
    if k > 0 {
        lemma_first_missing_parent_none(s, k - 1);
    }
}

/// A valid trace has unique ids and existing parents.
proof fn lemma_valid_facts(s: Seq<Span>)
    requires
        is_valid(s),
    ensures
        unique_ids(s),
        forall|i: int| 0 <= i < s.len() ==> !missing_parent_at(s, i),
{
    lemma_first_bad_span_none(s, s.len() as int);
    lemma_first_missing_parent_none(s, s.len() as int);
    assert forall|i: int, j: int| 0 <= i < s.len() && 0 <= j < s.len() && s[i].id == s[j].id implies i == j by {
        if i < j {
            assert(duplicate_at(s, j));
        } else if j < i {
            assert(duplicate_at(s, i));
        }
    }
}

proof fn lemma_lookup_self(s: Seq<Span>, k: int)
    requires
        unique_ids(s),
        0 <= k < s.len(),
    ensures
        lookup(s, s[k].id) == k,
        parent_of(s, s[k].id) == s[k].parent,
{
    assert(has_id(s, s[k].id));
    lemma_lookup(s, s[k].id);
}

proof fn lemma_last_child_origin(s: Seq<Span>, pid: SpanId, k: int)
    requires
        k <= s.len(),
        last_child_upto(s, pid, k) is Some,
    ensures
        exists|j: int| 0 <= j < k && s[j].parent == Some(pid) && last_child_upto(s, pid, k) == Some(lookup(s, #[trigger] s[j].id)),
    decreases k,
{
    if k > 0 {
        let b = last_child_upto(s, pid, k - 1);
        if s[k - 1].parent == Some(pid) && (b is None || last_child_upto(s, pid, k) == Some(lookup(s, s[k - 1].id))) {
            assert(s[k - 1].parent == Some(pid));
        } else {
            lemma_last_child_origin(s, pid, k - 1);
        }
    }
}

/// A trace that passes validation has a critical path that ends: the descent
/// from the governing root reaches a childless span. Every depth-first walk
/// from its roots ends as well, and the fold may run on it whenever no span's
/// children add up to more than `u64::MAX` nanoseconds.
pub proof fn law_valid_traces_have_finite_walks(s: Seq<Span>)
    requires
        is_valid(s),
    ensures
        critical_path_ends(s),
        (forall|j: int| 0 <= j < s.len() ==> children_total(s, #[trigger] s[j].id, s.len() as int) <= u64::MAX)
            ==> forest_ok(s),
{
    lemma_valid_facts(s);
    law_unique_ids_make_walks_end(s);
}

/// `p` is a walk down from a root: its first position holds a parentless span,
/// each later position holds a child of the span before it, and no position
/// repeats.
pub open spec fn root_walk(s: Seq<Span>, p: Seq<int>) -> bool {
    &&& p.len() > 0
    &&& forall|k: int| 0 <= k < p.len() ==> 0 <= #[trigger] p[k] < s.len()
    &&& s[p[0]].parent is None
    &&& forall|k: int| 0 < k < p.len() ==> s[#[trigger] p[k]].parent == Some(s[p[k - 1]].id)
    &&& p.no_duplicates()
}

/// A walk that repeats no position is no longer than the trace.
proof fn lemma_root_walk_len(s: Seq<Span>, p: Seq<int>)
    requires
        root_walk(s, p),
    ensures
        p.len() <= s.len(),
{
    p.unique_seq_to_set();
    vstd::set_lib::lemma_int_range(0, s.len() as int);
    assert(p.to_set().subset_of(vstd::set_lib::set_int_range(0, s.len() as int))) by {
        assert forall|x: int| p.to_set().contains(x) implies vstd::set_lib::set_int_range(0, s.len() as int).contains(x) by {
            let k = choose|k: int| 0 <= k < p.len() && p[k] == x;
            assert(0 <= p[k] < s.len());
        }
    }
    vstd::set_lib::lemma_len_subset(p.to_set(), vstd::set_lib::set_int_range(0, s.len() as int));
}

/// With unique ids, a child of the walk's last span is new to the walk.
proof fn lemma_root_walk_extend(s: Seq<Span>, p: Seq<int>, c: int)
    requires
        unique_ids(s),
        root_walk(s, p),
        0 <= c < s.len(),
        s[c].parent == Some(s[p.last()].id),
    ensures
        root_walk(s, p.push(c)),
{
    let q = p.push(c);
    assert forall|j: int| 0 <= j < p.len() implies p[j] != c by {
        if p[j] == c && j > 0 {
            assert(s[p[j]].parent == Some(s[p[j - 1]].id));
            assert(p[j - 1] == p[p.len() - 1]);
        }
    }
    assert forall|a: int, b: int| 0 <= a < q.len() && 0 <= b < q.len() && a != b implies q[a] != q[b] by {
        if a < p.len() && b < p.len() {
            assert(q[a] == p[a] && q[b] == p[b]);
        }
    }
    assert forall|k: int| 0 < k < q.len() implies s[#[trigger] q[k]].parent == Some(s[q[k - 1]].id) by {
        if k < p.len() {
            assert(q[k] == p[k] && q[k - 1] == p[k - 1]);
        }
    }
}

proof fn lemma_walk_tree_ok(s: Seq<Span>, p: Seq<int>, f: nat)
    requires
        unique_ids(s),
        forall|j: int| 0 <= j < s.len() ==> children_total(s, #[trigger] s[j].id, s.len() as int) <= u64::MAX,
        root_walk(s, p),
        p.len() + f >= s.len() + 1,
    ensures
        tree_ok(s, p.last(), f),
    decreases f, 0int,
{
    lemma_root_walk_len(s, p);
    assert(children_total(s, s[p.last()].id, s.len() as int) <= u64::MAX);
    lemma_walk_kids_ok(s, p, (f - 1) as nat, s.len() as int);
}

proof fn lemma_walk_kids_ok(s: Seq<Span>, p: Seq<int>, f: nat, k: int)
    requires
        unique_ids(s),
        forall|j: int| 0 <= j < s.len() ==> children_total(s, #[trigger] s[j].id, s.len() as int) <= u64::MAX,
        root_walk(s, p),
        k <= s.len(),
        p.len() + f + 1 >= s.len() + 1,
    ensures
        kids_ok(s, s[p.last()].id, f, k),
    decreases f, k + 1,
{
    if k > 0 {
        lemma_walk_kids_ok(s, p, f, k - 1);
        if s[k - 1].parent == Some(s[p.last()].id) {
            lemma_lookup_self(s, k - 1);
            lemma_root_walk_extend(s, p, k - 1);
            lemma_walk_tree_ok(s, p.push(k - 1), f);
        }
    }
}

proof fn lemma_walk_path_ends(s: Seq<Span>, p: Seq<int>, f: nat)
    requires
        unique_ids(s),
        root_walk(s, p),
        p.len() + f >= s.len() + 1,
    ensures
        path_ends(s, p.last(), f),
    decreases f,
{
    lemma_root_walk_len(s, p);
    let i = p.last();
    match last_child(s, s[i].id) {
        None => {},
        Some(c) => {
            lemma_last_child_origin(s, s[i].id, s.len() as int);
            let j = choose|j: int| 0 <= j < s.len() && s[j].parent == Some(s[i].id) && last_child_upto(s, s[i].id, s.len() as int) == Some(lookup(s, #[trigger] s[j].id));
            lemma_lookup_self(s, j);
            lemma_root_walk_extend(s, p, j);
            lemma_walk_path_ends(s, p.push(j), (f - 1) as nat);
        },
    }
}

/// Unique ids alone make every walk down from a root end, whatever the parent
/// links: the descent from the governing root reaches a childless span, and
/// the depth-first walks from the roots end as well, so the fold may run
/// whenever no span's children add up to more than `u64::MAX` nanoseconds. A
/// walk from a root never comes back to a span it has passed: that span would
/// then have two parents.
pub proof fn law_unique_ids_make_walks_end(s: Seq<Span>)
    requires
        unique_ids(s),
    ensures
        critical_path_ends(s),
        (forall|j: int| 0 <= j < s.len() ==> children_total(s, #[trigger] s[j].id, s.len() as int) <= u64::MAX)
            ==> forest_ok(s),
{
    lemma_governing_root_bounds(s, s.len() as int);
    match governing_root(s) {
        None => {},
        Some(r) => {
            assert(root_walk(s, seq![r]));
            lemma_walk_path_ends(s, seq![r], s.len() + 1);
        },
    }
    if forall|j: int| 0 <= j < s.len() ==> children_total(s, #[trigger] s[j].id, s.len() as int) <= u64::MAX {
        assert forall|i: int| 0 <= i < s.len() && #[trigger] s[i].parent is None implies tree_ok(s, i, s.len() + 1) by {
            assert(root_walk(s, seq![i]));
            lemma_walk_tree_ok(s, seq![i], s.len() + 1);
        }
    }
}


proof fn lemma_no_bad_span(s: Seq<Span>, k: int)
    requires
        k <= s.len(),
        forall|i: int| 0 <= i < k ==> !duplicate_at(s, i) && !inverted_at(s, i),
    ensures
        first_bad_span(s, k) is None,
    decreases k,
{
    if k > 0 {
        lemma_no_bad_span(s, k - 1);
    }
}

proof fn lemma_no_missing_parent(s: Seq<Span>, k: int)
    requires
        k <= s.len(),
        forall|i: int| 0 <= i < k ==> !missing_parent_at(s, i),
    ensures
        first_missing_parent(s, k) is None,
    decreases k,
{
    if k > 0 {
        lemma_no_missing_parent(s, k - 1);
    }
}

proof fn lemma_no_cyclic(s: Seq<Span>, k: int)
    requires
        k <= s.len(),
        forall|i: int| 0 <= i < k ==> !cyclic_at(s, i),
    ensures
        first_cyclic(s, k) is None,
    decreases k,
{
    if k > 0 {
        lemma_no_cyclic(s, k - 1);
    }
}

/// Ids are positions and parents precede their children.
pub open spec fn numbered_in_order(s: Seq<Span>) -> bool {
    &&& forall|i: int| 0 <= i < s.len() ==> (#[trigger] s[i]).id == i
    &&& forall|i: int| 0 <= i < s.len() ==> match (#[trigger] s[i]).parent {
        Some(p) => p < i,
        None => true,
    }
}

proof fn lemma_ancestors_descend(s: Seq<Span>, i: int, k: nat)
    requires
        numbered_in_order(s),
        0 <= i < s.len(),
    ensures
        ancestor(s, s[i].parent, k) matches Some(v) ==> v + k < i,
    decreases k,
{
    if k > 0 {
        lemma_ancestors_descend(s, i, (k - 1) as nat);
        match ancestor(s, s[i].parent, (k - 1) as nat) {
            Some(w) => {
                assert(s[w as int].id == w);
                assert(unique_ids(s));
                lemma_lookup_self(s, w as int);
                assert(parent_of(s, w) == s[w as int].parent);
            },
            None => {},
        }
    }
}

/// A trace numbered in order (the span at position `i` has id `i`, and every
/// parent precedes its child) with no inverted interval passes validation.
pub proof fn law_numbered_traces_are_valid(s: Seq<Span>)
    requires
        numbered_in_order(s),
        forall|i: int| 0 <= i < s.len() ==> (#[trigger] s[i]).start_ns <= s[i].end_ns,
    ensures
        is_valid(s),
{
    assert forall|i: int| 0 <= i < s.len() implies !duplicate_at(s, i) && !inverted_at(s, i) by {
        assert(s[i].id == i);
        if duplicate_at(s, i) {
            let j = choose|j: int| 0 <= j < i && s[j].id == s[i].id;
            assert(s[j].id == j);
        }
    }
    lemma_no_bad_span(s, s.len() as int);
    assert forall|i: int| 0 <= i < s.len() implies !missing_parent_at(s, i) by {
        match s[i].parent {
            Some(p) => {
                assert(s[p as int].id == p);
            },
            None => {},
        }
    }
    lemma_no_missing_parent(s, s.len() as int);
    assert forall|i: int| 0 <= i < s.len() implies !cyclic_at(s, i) by {
        lemma_ancestors_descend(s, i, s.len());
    }
    lemma_no_cyclic(s, s.len() as int);
}

/// What a collector records passes validation as long as no span ends before
/// it starts (which holds whenever the clock never runs backwards).
pub proof fn law_recorded_traces_are_valid<C: Clock>(c: &Collector<C>)
    requires
        c.wf(),
        forall|i: int| 0 <= i < c.recorded().len() ==> (#[trigger] c.recorded()[i]).start_ns <= c.recorded()[i].end_ns,
    ensures
        is_valid(c.recorded()),
{
    c.lemma_wf_shape();
    law_numbered_traces_are_valid(c.recorded());
}

/// Where `x` last occurs in `s`, if anywhere.
proof fn lemma_last_position(s: Seq<SpanId>, x: SpanId)
    ensures
        match last_position(s, x) {
            Some(p) => 0 <= p < s.len() && s[p] == x && forall|q: int| p < q < s.len() ==> s[q] != x,
            None => forall|q: int| 0 <= q < s.len() ==> s[q] != x,
        },
    decreases s.len(),
{
    if s.len() > 0 && s.last() != x {
        lemma_last_position(s.drop_last(), x);
        assert forall|q: int| 0 <= q < s.len() - 1 implies s[q] == s.drop_last()[q] by {}
    }
}

/// Closing a span removes it from the open spans when they are distinct, as
/// they are in every collector: afterwards `id` is not open, and every other
/// open span still is, in the same order.
pub proof fn law_closed_span_is_no_longer_open(open: Seq<SpanId>, id: SpanId)
    requires
        forall|a: int, b: int| 0 <= a < b < open.len() ==> open[a] != open[b],
    ensures
        !without_last(open, id).contains(id),
        without_last(open, id) == open.filter(|x: SpanId| x != id),
{
    lemma_last_position(open, id);
    match last_position(open, id) {
        Some(p) => {
            assert forall|q: int| 0 <= q < open.len() && q != p implies open[q] != id by {
                if q < p {
                    assert(open[q] != open[p]);
                }
            }
            let r = open.remove(p);
            assert forall|q: int| 0 <= q < r.len() implies r[q] != id by {
                if q < p {
                    assert(r[q] == open[q]);
                } else {
                    assert(r[q] == open[q + 1]);
                }
            }
            lemma_filter_drops_one(open, id, p);
        },
        None => {
            lemma_filter_keeps_all(open, id);
        },
    }
}

/// Filtering out `id` from a sequence where it occurs only at `p` removes `p`.
proof fn lemma_filter_drops_one(s: Seq<SpanId>, id: SpanId, p: int)
    requires
        0 <= p < s.len(),
        s[p] == id,
        forall|q: int| 0 <= q < s.len() && q != p ==> s[q] != id,
    ensures
        s.remove(p) == s.filter(|x: SpanId| x != id),
    decreases s.len(),
{
    reveal_with_fuel(Seq::filter, 1);
    if p == s.len() - 1 {
        lemma_filter_keeps_all(s.drop_last(), id);
        assert(s.remove(p) =~= s.drop_last());
    } else {
        lemma_filter_drops_one(s.drop_last(), id, p);
        assert(s.remove(p) =~= s.drop_last().remove(p).push(s.last()));
    }
}

/// Filtering out a value that does not occur changes nothing.
proof fn lemma_filter_keeps_all(s: Seq<SpanId>, id: SpanId)
    requires
        forall|q: int| 0 <= q < s.len() ==> s[q] != id,
    ensures
        s == s.filter(|x: SpanId| x != id),
    decreases s.len(),
{
    reveal_with_fuel(Seq::filter, 1);
    if s.len() > 0 {
        lemma_filter_keeps_all(s.drop_last(), id);
        assert(s =~= s.drop_last().push(s.last()));
    } else {
        assert(s.filter(|x: SpanId| x != id) =~= s);
    }
}

/// Opening a span and closing it again with nothing in between leaves the open
/// spans as they were and adds one span, below the innermost open span, that
/// starts at the opening time and ends at the closing time.
pub proof fn law_close_undoes_open(
    s0: Seq<Span>,
    s1: Seq<Span>,
    s2: Seq<Span>,
    open: Seq<SpanId>,
    name: Seq<char>,
    t1: u64,
    t2: u64,
)
    requires
        opened(s0, s1, open, name, t1),
        ended(s1, s2, s0.len() as SpanId, t2),
    ensures
        without_last(open.push(s0.len() as SpanId), s0.len() as SpanId) == open,
        s2.len() == s0.len() + 1,
        forall|i: int| 0 <= i < s0.len() ==> s2[i] == s0[i],
        s2.last().id == s0.len(),
        s2.last().name@ == name,
        s2.last().start_ns == t1,
        s2.last().end_ns == t2,
        s2.last().parent == innermost(open),
        t1 <= t2 ==> s2.last().duration() == t2 - t1,
{
    let id = s0.len() as SpanId;
    assert(open.push(id).last() == id);
    assert(open.push(id).remove(open.len() as int) =~= open);
    assert(s1.last().id == s0.len());
    assert(id as int == s0.len());
}


/// Total self time of a list of (stack, self time) entries.
pub open spec fn self_sum(vs: Seq<(Seq<Seq<char>>, u64)>) -> int
    decreases vs.len(),
{
    if vs.len() == 0 {
        0
    } else {
        self_sum(vs.drop_last()) + vs.last().1
    }
}

/// Total duration of the roots among the first `k` spans.
pub open spec fn root_duration_sum(s: Seq<Span>, k: int) -> int
    decreases k,
{
    if k <= 0 {
        0
    } else if s[k - 1].parent is None {
        root_duration_sum(s, k - 1) + s[k - 1].duration()
    } else {
        root_duration_sum(s, k - 1)
    }
}

/// No span's children add up to more than its own duration.
pub open spec fn children_fit(s: Seq<Span>) -> bool {
    forall|i: int| 0 <= i < s.len() ==> children_total(s, #[trigger] s[i].id, s.len() as int) <= s[i].duration()
}

proof fn lemma_self_sum_add(a: Seq<(Seq<Seq<char>>, u64)>, b: Seq<(Seq<Seq<char>>, u64)>)
    ensures
        self_sum(a + b) == self_sum(a) + self_sum(b),
    decreases b.len(),
{
    if b.len() == 0 {
        assert(a + b =~= a);
    } else {
        assert((a + b).drop_last() =~= a + b.drop_last());
        lemma_self_sum_add(a, b.drop_last());
    }
}

proof fn lemma_self_sum_update(vs: Seq<(Seq<Seq<char>>, u64)>, p: int, x: (Seq<Seq<char>>, u64))
    requires
        0 <= p < vs.len(),
    ensures
        self_sum(vs.update(p, x)) == self_sum(vs) - vs[p].1 + x.1,
    decreases vs.len(),
{
    if p < vs.len() - 1 {
        assert(vs.update(p, x).drop_last() =~= vs.drop_last().update(p, x));
        lemma_self_sum_update(vs.drop_last(), p, x);
    } else {
        assert(vs.update(p, x).drop_last() =~= vs.drop_last());
    }
}

proof fn lemma_self_sum_remove(vs: Seq<(Seq<Seq<char>>, u64)>, p: int)
    requires
        0 <= p < vs.len(),
    ensures
        self_sum(vs.remove(p)) == self_sum(vs) - vs[p].1,
    decreases vs.len(),
{
    if p < vs.len() - 1 {
        assert(vs.remove(p).drop_last() =~= vs.drop_last().remove(p));
        assert(vs.remove(p).last() == vs.last());
        lemma_self_sum_remove(vs.drop_last(), p);
    } else {
        assert(vs.remove(p) =~= vs.drop_last());
    }
}

proof fn lemma_accumulate_nonnegative(vs: Seq<(Seq<Seq<char>>, u64)>)
    ensures
        forall|st: Seq<Seq<char>>| #[trigger] accumulate(Map::empty(), vs).contains_key(st) ==> accumulate(Map::empty(), vs)[st] >= 0,
    decreases vs.len(),
{
    if vs.len() > 0 {
        lemma_accumulate_nonnegative(vs.drop_last());
        assert(accumulate(Map::empty(), vs) == add_visit(accumulate(Map::empty(), vs.drop_last()), vs.last()));
    }
}

/// A list of per-stack totals adds up to the self times that were accumulated.
proof fn lemma_listed_sum(out: Seq<(Seq<Seq<char>>, u64)>, vs: Seq<(Seq<Seq<char>>, u64)>)
    requires
        lists_totals(out, accumulate(Map::empty(), vs)),
    ensures
        self_sum(out) == self_sum(vs),
    decreases vs.len(),
{
    let m = accumulate(Map::empty(), vs);
    if vs.len() == 0 {
        if out.len() > 0 {
            assert(m.contains_key(out[0].0));
        }
    } else {
        let v = vs.last();
        let m0 = accumulate(Map::empty(), vs.drop_last());
        assert(m == add_visit(m0, v));
        assert(m.contains_key(v.0));
        let p = choose|i: int| 0 <= i < out.len() && out[i].0 == v.0;
        assert forall|i: int, j: int| 0 <= i < j < out.len() implies out[i].0 != out[j].0 by {
            lemma_stack_lt_irreflexive(out[i].0);
        }
        lemma_accumulate_nonnegative(vs.drop_last());
        if m0.contains_key(v.0) {
            let x = (v.0, (out[p].1 - v.1) as u64);
            let o2 = out.update(p, x);
            assert(out[p].1 == m0[v.0] + v.1);
            assert forall|i: int| 0 <= i < o2.len() implies m0.contains_key(#[trigger] o2[i].0) && m0[o2[i].0] == o2[i].1 by {
                if i != p {
                    assert(o2[i] == out[i]);
                    assert(m.contains_key(out[i].0));
                }
            }
            assert forall|st: Seq<Seq<char>>| #[trigger] m0.contains_key(st) implies exists|i: int| 0 <= i < o2.len() && o2[i].0 == st by {
                assert(m.contains_key(st));
                let i = choose|i: int| 0 <= i < out.len() && out[i].0 == st;
                assert(o2[i].0 == st);
            }
            assert forall|i: int, j: int| 0 <= i < j < o2.len() implies stack_lt(o2[i].0, o2[j].0) by {
                assert(o2[i].0 == out[i].0);
                assert(o2[j].0 == out[j].0);
            }
            lemma_listed_sum(o2, vs.drop_last());
            lemma_self_sum_update(out, p, x);
        } else {
            let o2 = out.remove(p);
            assert(out[p].1 == v.1);
            assert forall|i: int| 0 <= i < o2.len() implies m0.contains_key(#[trigger] o2[i].0) && m0[o2[i].0] == o2[i].1 by {
                let i0 = if i < p { i } else { i + 1 };
                assert(o2[i] == out[i0]);
                assert(m.contains_key(out[i0].0));
                assert(out[i0].0 != v.0);
            }
            assert forall|st: Seq<Seq<char>>| #[trigger] m0.contains_key(st) implies exists|i: int| 0 <= i < o2.len() && o2[i].0 == st by {
                assert(m.contains_key(st));
                let i = choose|i: int| 0 <= i < out.len() && out[i].0 == st;
                assert(i != p);
                if i < p {
                    assert(o2[i].0 == st);
                } else {
                    assert(o2[i - 1].0 == st);
                }
            }
            assert forall|i: int, j: int| 0 <= i < j < o2.len() implies stack_lt(o2[i].0, o2[j].0) by {
                let i0 = if i < p { i } else { i + 1 };
                let j0 = if j < p { j } else { j + 1 };
                assert(o2[i] == out[i0]);
                assert(o2[j] == out[j0]);
            }
            lemma_listed_sum(o2, vs.drop_last());
            lemma_self_sum_remove(out, p);
        }
    }
}

proof fn lemma_visits_sum(s: Seq<Span>, i: int, prefix: Seq<Seq<char>>, f: nat)
    requires
        0 <= i < s.len(),
        children_fit(s),
        tree_ok(s, i, f),
    ensures
        self_sum(visits(s, i, prefix, f)) == s[i].duration(),
    decreases f, 0int,
{
    let stack = prefix.push(s[i].name@);
    let own = seq![(stack, crate::flamegraph::self_time(s, i))];
    assert(own.drop_last() =~= Seq::<(Seq<Seq<char>>, u64)>::empty());
    assert(self_sum(own.drop_last()) == 0);
    assert(self_sum(own) == crate::flamegraph::self_time(s, i));
    assert(children_total(s, s[i].id, s.len() as int) <= s[i].duration());
    assert(visits(s, i, prefix, f) == own + child_visits(s, s[i].id, stack, (f - 1) as nat, s.len() as int));
    lemma_child_visits_sum(s, s[i].id, stack, (f - 1) as nat, s.len() as int);
    lemma_self_sum_add(own, child_visits(s, s[i].id, stack, (f - 1) as nat, s.len() as int));
}

proof fn lemma_child_visits_sum(s: Seq<Span>, pid: SpanId, stack: Seq<Seq<char>>, f: nat, k: int)
    requires
        k <= s.len(),
        children_fit(s),
        kids_ok(s, pid, f, k),
    ensures
        self_sum(child_visits(s, pid, stack, f, k)) == children_total(s, pid, k),
    decreases f, k + 1,
{
    if k > 0 {
        lemma_child_visits_sum(s, pid, stack, f, k - 1);
        if s[k - 1].parent == Some(pid) {
            let c = lookup(s, s[k - 1].id);
            assert(has_id(s, s[k - 1].id));
            lemma_lookup(s, s[k - 1].id);
            lemma_visits_sum(s, c, stack, f);
            lemma_self_sum_add(child_visits(s, pid, stack, f, k - 1), visits(s, c, stack, f));
        }
    }
}

proof fn lemma_forest_sum(s: Seq<Span>, k: int)
    requires
        k <= s.len(),
        children_fit(s),
        forest_ok(s),
    ensures
        self_sum(forest_visits(s, k)) == root_duration_sum(s, k),
    decreases k,
{
    if k > 0 {
        lemma_forest_sum(s, k - 1);
        if s[k - 1].parent is None {
            assert(tree_ok(s, k - 1, s.len() + 1));
            lemma_visits_sum(s, k - 1, seq![], s.len() + 1);
            lemma_self_sum_add(forest_visits(s, k - 1), visits(s, k - 1, seq![], s.len() + 1));
        }
    }
}

/// When no span's children add up to more than the span itself, the folded
/// self times add up to the total duration of the roots: folding moves time
/// between stacks but neither creates nor loses any.
pub proof fn law_fold_conserves_time(s: Seq<Span>, out: Seq<(Seq<Seq<char>>, u64)>)
    requires
        forest_ok(s),
        children_fit(s),
        lists_totals(out, flame_totals(s)),
    ensures
        self_sum(out) == root_duration_sum(s, s.len() as int),
{
    lemma_listed_sum(out, forest_visits(s, s.len() as int));
    lemma_forest_sum(s, s.len() as int);
}


proof fn lemma_governing_root_upto(s: Seq<Span>, k: int)
    requires
        0 <= k <= s.len(),
    ensures
        governing_root_upto(s, k) is None <==> forall|j: int| 0 <= j < k ==> (#[trigger] s[j]).parent is Some,
        governing_root_upto(s, k) matches Some(r) ==> 0 <= r < k && s[r].parent is None && forall|j: int|
            0 <= j < k && (#[trigger] s[j]).parent is None ==> root_at_least(s, r, j),
    decreases k,
{
    if k > 0 {
        lemma_governing_root_upto(s, k - 1);
    }
}

/// The critical path starts at the governing root: a parentless span that runs
/// at least as long as every other root, and among the longest, has the
/// smallest id. There is no governing root exactly when every span has a parent.
pub proof fn law_governing_root_is_longest(s: Seq<Span>)
    ensures
        governing_root(s) is None <==> forall|j: int| 0 <= j < s.len() ==> (#[trigger] s[j]).parent is Some,
        governing_root(s) matches Some(r) ==> {
            &&& 0 <= r < s.len()
            &&& s[r].parent is None
            &&& forall|j: int| 0 <= j < s.len() && (#[trigger] s[j]).parent is None ==> {
                ||| s[r].duration() > s[j].duration()
                ||| s[r].duration() == s[j].duration() && s[r].id <= s[j].id
            }
        },
{
    lemma_governing_root_upto(s, s.len() as int);
}

proof fn lemma_last_child_upto(s: Seq<Span>, pid: SpanId, k: int)
    requires
        0 <= k <= s.len(),
    ensures
        last_child_upto(s, pid, k) is None <==> forall|j: int| 0 <= j < k ==> (#[trigger] s[j]).parent != Some(pid),
        last_child_upto(s, pid, k) matches Some(c) ==> {
            &&& 0 <= c < s.len()
            &&& exists|j: int| 0 <= j < k && s[j].parent == Some(pid) && c == lookup(s, #[trigger] s[j].id)
            &&& forall|j: int| 0 <= j < k && (#[trigger] s[j]).parent == Some(pid) ==> finishes_at_least(s, c, lookup(s, s[j].id))
        },
    decreases k,
{
    if k > 0 {
        lemma_last_child_upto(s, pid, k - 1);
        if s[k - 1].parent == Some(pid) {
            assert(has_id(s, s[k - 1].id));
            lemma_lookup(s, s[k - 1].id);
        }
    }
}

/// Each step of the critical path descends into the child that finishes last:
/// among the spans that the children of `pid` resolve to, the one with the
/// greatest end time and, among those, the smallest id. There is no such step
/// exactly when `pid` has no children.
pub proof fn law_descends_into_last_finishing_child(s: Seq<Span>, pid: SpanId)
    ensures
        last_child(s, pid) is None <==> !has_child(s, pid),
        last_child(s, pid) matches Some(c) ==> {
            &&& 0 <= c < s.len()
            &&& exists|j: int| 0 <= j < s.len() && s[j].parent == Some(pid) && c == lookup(s, #[trigger] s[j].id)
            &&& forall|j: int| 0 <= j < s.len() && (#[trigger] s[j]).parent == Some(pid) ==> {
                let d = lookup(s, s[j].id);
                ||| s[c].end_ns > s[d].end_ns
                ||| s[c].end_ns == s[d].end_ns && s[c].id <= s[d].id
            }
        },
{
    lemma_last_child_upto(s, pid, s.len() as int);
}

proof fn lemma_insert_by_id_multiset(r: Seq<Span>, x: Span)
    ensures
        insert_by_id(r, x).to_multiset() =~= r.to_multiset().insert(x),
    decreases r.len(),
{
    broadcast use vstd::seq_lib::group_to_multiset_ensures;

    if r.len() == 0 {
        assert(seq![x] =~= Seq::<Span>::empty().push(x));
    } else if r.last().id <= x.id {
    } else {
        lemma_insert_by_id_multiset(r.drop_last(), x);
        assert(r =~= r.drop_last().push(r.last()));
    }
}

/// The roots are exactly the parentless spans, each as often as it occurs,
/// sorted by id.
pub proof fn law_roots_are_the_sorted_parentless_spans(s: Seq<Span>)
    ensures
        sorted_by_id(roots_of(s)),
        roots_of(s).to_multiset() == s.filter(|x: Span| x.parent is None).to_multiset(),
    decreases s.len(),
{
    lemma_roots_sorted(s);
    if s.len() > 0 {
        law_roots_are_the_sorted_parentless_spans(s.drop_last());
        assert(s =~= s.drop_last().push(s.last()));
        s.drop_last().lemma_filter_push(s.last(), |x: Span| x.parent is None);
        if s.last().parent is None {
            lemma_insert_by_id_multiset(roots_of(s.drop_last()), s.last());
            broadcast use vstd::seq_lib::group_to_multiset_ensures;
        }
    } else {
        assert(s.filter(|x: Span| x.parent is None) =~= Seq::<Span>::empty());
        assert(roots_of(s) =~= Seq::<Span>::empty());
    }
}

/// Each child list is in ascending order and holds exactly the ids of the
/// spans whose parent is `p`, each as often as it occurs.
pub proof fn law_child_lists_are_sorted_and_complete(s: Seq<Span>, p: SpanId)
    ensures
        ascending(children_sorted(s, p)),
        children_sorted(s, p).to_multiset() == s.filter(|x: Span| x.parent == Some(p)).map_values(|x: Span| x.id).to_multiset(),
    decreases s.len(),
{
    lemma_children_sorted_ascending(s, p);
    if s.len() > 0 {
        law_child_lists_are_sorted_and_complete(s.drop_last(), p);
        assert(s =~= s.drop_last().push(s.last()));
        s.drop_last().lemma_filter_push(s.last(), |x: Span| x.parent == Some(p));
        let f = s.drop_last().filter(|x: Span| x.parent == Some(p));
        if s.last().parent == Some(p) {
            f.lemma_push_map_commute(|x: Span| x.id, s.last());
            lemma_insert_sorted_ascending(children_sorted(s.drop_last(), p), s.last().id);
            broadcast use vstd::seq_lib::group_to_multiset_ensures;
        }
    } else {
        assert(s.filter(|x: Span| x.parent == Some(p)) =~= Seq::<Span>::empty());
        assert(children_sorted(s, p) =~= Seq::<u64>::empty());
        assert(Seq::<Span>::empty().map_values(|x: Span| x.id) =~= Seq::<u64>::empty());
    }
}


/// The sorted sample starts at the sample's minimum and ends at its maximum,
/// which is what makes the 0th and 100th percentiles exact.
pub proof fn law_sorted_sample_ends_are_extremes(values: Seq<u64>, r: Seq<u64>)
    requires
        values.len() > 0,
        ascending(r),
        r.to_multiset() == values.to_multiset(),
    ensures
        r.len() == values.len(),
        values.contains(r[0]),
        values.contains(r.last()),
        forall|i: int| 0 <= i < values.len() ==> r[0] <= #[trigger] values[i] <= r.last(),
{
    broadcast use vstd::seq_lib::group_to_multiset_ensures;

    r.to_multiset_ensures();
    values.to_multiset_ensures();
    assert(r.to_multiset().count(r[0]) > 0);
    assert(r.to_multiset().count(r.last()) > 0);
    assert forall|i: int| 0 <= i < values.len() implies r[0] <= #[trigger] values[i] <= r.last() by {
        assert(values.to_multiset().count(values[i]) > 0);
        assert(r.contains(values[i]));
        let j = choose|j: int| 0 <= j < r.len() && r[j] == values[i];
    }
}


/// Total self time of a list of (name, self time) entries.
pub open spec fn named_sum(vs: Seq<(Seq<char>, u64)>) -> int
    decreases vs.len(),
{
    if vs.len() == 0 {
        0
    } else {
        named_sum(vs.drop_last()) + vs.last().1
    }
}

/// Total self time of the folded stacks that name a span (are not empty).
pub open spec fn named_stack_sum(fs: Seq<(Seq<Seq<char>>, u64)>) -> int
    decreases fs.len(),
{
    if fs.len() == 0 {
        0
    } else if fs.last().0.len() == 0 {
        named_stack_sum(fs.drop_last())
    } else {
        named_stack_sum(fs.drop_last()) + fs.last().1
    }
}

/// `out` holds the totals of `m`, one entry per name, in any order.
spec fn covers(out: Seq<(Seq<char>, u64)>, m: Map<Seq<char>, int>) -> bool {
    &&& forall|i: int, j: int| 0 <= i < j < out.len() ==> out[i].0 != out[j].0
    &&& forall|i: int| 0 <= i < out.len() ==> m.contains_key(#[trigger] out[i].0) && m[out[i].0] == out[i].1
    &&& forall|k: Seq<char>| #[trigger] m.contains_key(k) ==> exists|i: int| 0 <= i < out.len() && out[i].0 == k
}

proof fn lemma_named_sum_update(vs: Seq<(Seq<char>, u64)>, p: int, x: (Seq<char>, u64))
    requires
        0 <= p < vs.len(),
    ensures
        named_sum(vs.update(p, x)) == named_sum(vs) - vs[p].1 + x.1,
    decreases vs.len(),
{
    if p < vs.len() - 1 {
        assert(vs.update(p, x).drop_last() =~= vs.drop_last().update(p, x));
        lemma_named_sum_update(vs.drop_last(), p, x);
    } else {
        assert(vs.update(p, x).drop_last() =~= vs.drop_last());
    }
}

proof fn lemma_named_sum_remove(vs: Seq<(Seq<char>, u64)>, p: int)
    requires
        0 <= p < vs.len(),
    ensures
        named_sum(vs.remove(p)) == named_sum(vs) - vs[p].1,
    decreases vs.len(),
{
    if p < vs.len() - 1 {
        assert(vs.remove(p).drop_last() =~= vs.drop_last().remove(p));
        assert(vs.remove(p).last() == vs.last());
        lemma_named_sum_remove(vs.drop_last(), p);
    } else {
        assert(vs.remove(p) =~= vs.drop_last());
    }
}

proof fn lemma_name_totals_nonnegative(fs: Seq<(Seq<Seq<char>>, u64)>)
    ensures
        forall|k: Seq<char>| #[trigger] name_totals(fs).contains_key(k) ==> name_totals(fs)[k] >= 0,
    decreases fs.len(),
{
    if fs.len() > 0 {
        lemma_name_totals_nonnegative(fs.drop_last());
        assert(name_totals(fs) == add_to_name(name_totals(fs.drop_last()), fs.last()));
    }
}

proof fn lemma_covered_sum(out: Seq<(Seq<char>, u64)>, fs: Seq<(Seq<Seq<char>>, u64)>)
    requires
        covers(out, name_totals(fs)),
    ensures
        named_sum(out) == named_stack_sum(fs),
    decreases fs.len(),
{
    let m = name_totals(fs);
    if fs.len() == 0 {
        if out.len() > 0 {
            assert(m.contains_key(out[0].0));
        }
    } else {
        let v = fs.last();
        let m0 = name_totals(fs.drop_last());
        assert(m == add_to_name(m0, v));
        if v.0.len() == 0 {
            lemma_covered_sum(out, fs.drop_last());
        } else {
            let key = v.0.last();
            assert(m.contains_key(key));
            let p = choose|i: int| 0 <= i < out.len() && out[i].0 == key;
            lemma_name_totals_nonnegative(fs.drop_last());
            if m0.contains_key(key) {
                let x = (key, (out[p].1 - v.1) as u64);
                let o2 = out.update(p, x);
                assert(out[p].1 == m0[key] + v.1);
                assert forall|i: int| 0 <= i < o2.len() implies m0.contains_key(#[trigger] o2[i].0) && m0[o2[i].0] == o2[i].1 by {
                    if i != p {
                        assert(o2[i] == out[i]);
                        assert(m.contains_key(out[i].0));
                    }
                }
                assert forall|k: Seq<char>| #[trigger] m0.contains_key(k) implies exists|i: int| 0 <= i < o2.len() && o2[i].0 == k by {
                    assert(m.contains_key(k));
                    let i = choose|i: int| 0 <= i < out.len() && out[i].0 == k;
                    assert(o2[i].0 == k);
                }
                assert forall|i: int, j: int| 0 <= i < j < o2.len() implies o2[i].0 != o2[j].0 by {
                    assert(o2[i].0 == out[i].0);
                    assert(o2[j].0 == out[j].0);
                }
                lemma_covered_sum(o2, fs.drop_last());
                lemma_named_sum_update(out, p, x);
            } else {
                let o2 = out.remove(p);
                assert(out[p].1 == v.1);
                assert forall|i: int| 0 <= i < o2.len() implies m0.contains_key(#[trigger] o2[i].0) && m0[o2[i].0] == o2[i].1 by {
                    let i0 = if i < p { i } else { i + 1 };
                    assert(o2[i] == out[i0]);
                    assert(m.contains_key(out[i0].0));
                }
                assert forall|k: Seq<char>| #[trigger] m0.contains_key(k) implies exists|i: int| 0 <= i < o2.len() && o2[i].0 == k by {
                    assert(m.contains_key(k));
                    let i = choose|i: int| 0 <= i < out.len() && out[i].0 == k;
                    assert(i != p);
                    if i < p {
                        assert(o2[i].0 == k);
                    } else {
                        assert(o2[i - 1].0 == k);
                    }
                }
                assert forall|i: int, j: int| 0 <= i < j < o2.len() implies o2[i].0 != o2[j].0 by {
                    let i0 = if i < p { i } else { i + 1 };
                    let j0 = if j < p { j } else { j + 1 };
                    assert(o2[i] == out[i0]);
                    assert(o2[j] == out[j0]);
                }
                lemma_covered_sum(o2, fs.drop_last());
                lemma_named_sum_remove(out, p);
            }
        }
    }
}

/// Ranking bottlenecks moves self time onto span names but keeps the total:
/// the ranked self times add up to the self times of the folded stacks that
/// name a span.
pub proof fn law_ranking_conserves_time(out: Seq<(Seq<char>, u64)>, fs: Seq<(Seq<Seq<char>>, u64)>)
    requires
        ranks_totals(out, name_totals(fs)),
    ensures
        named_sum(out) == named_stack_sum(fs),
{
    let m = name_totals(fs);
    assert forall|i: int, j: int| 0 <= i < j < out.len() implies out[i].0 != out[j].0 by {
        if out[i].0 == out[j].0 {
            assert(m.contains_key(out[i].0));
            assert(ranks_before(out[i], out[j]));
            lemma_name_lt_irreflexive(out[i].0);
        }
    }
    lemma_covered_sum(out, fs);
}


/// Every span recorded by a manually clocked collector ends no earlier than it
/// starts, and no later than the clock's current reading.
pub open spec fn times_settled(c: &Collector<ManualClock>) -> bool {
    forall|i: int| 0 <= i < c.recorded().len() ==> {
        &&& (#[trigger] c.recorded()[i]).start_ns <= c.recorded()[i].end_ns
        &&& c.recorded()[i].end_ns <= c.timer().reading()
    }
}

/// A collector that has recorded nothing is settled.
pub proof fn law_empty_collector_is_settled(c: &Collector<ManualClock>)
    requires
        c.recorded().len() == 0,
    ensures
        times_settled(c),
{
}

/// Opening a span on a settled collector keeps it settled: the new span starts
/// and ends at the manual clock's reading.
pub proof fn law_start_keeps_times_settled(
    c0: &Collector<ManualClock>,
    c1: &Collector<ManualClock>,
    name: Seq<char>,
)
    requires
        times_settled(c0),
        opened(c0.recorded(), c1.recorded(), c0.open_ids(), name, c1.recorded().last().start_ns),
        call_ensures(ManualClock::now_ns, (&c0.timer(),), c1.recorded().last().start_ns),
        c1.timer() == c0.timer(),
    ensures
        c1.recorded().last().start_ns == c0.timer().reading(),
        times_settled(c1),
{
    assert forall|i: int| 0 <= i < c1.recorded().len() implies {
        &&& (#[trigger] c1.recorded()[i]).start_ns <= c1.recorded()[i].end_ns
        &&& c1.recorded()[i].end_ns <= c1.timer().reading()
    } by {
        if i < c0.recorded().len() {
            assert(c1.recorded()[i] == c0.recorded()[i]);
        }
    }
}

/// Closing a span on a settled collector keeps it settled: the span ends at the
/// manual clock's reading, which is no earlier than its start.
pub proof fn law_end_keeps_times_settled(
    c0: &Collector<ManualClock>,
    c1: &Collector<ManualClock>,
    id: SpanId,
)
    requires
        times_settled(c0),
        id < c0.recorded().len() ==> ended(c0.recorded(), c1.recorded(), id, c1.recorded()[id as int].end_ns),
        id < c0.recorded().len() ==> call_ensures(ManualClock::now_ns, (&c0.timer(),), c1.recorded()[id as int].end_ns),
        id >= c0.recorded().len() ==> c1.recorded() == c0.recorded(),
        c1.timer() == c0.timer(),
    ensures
        id < c0.recorded().len() ==> c1.recorded()[id as int].end_ns == c0.timer().reading(),
        times_settled(c1),
{
    assert forall|i: int| 0 <= i < c1.recorded().len() implies {
        &&& (#[trigger] c1.recorded()[i]).start_ns <= c1.recorded()[i].end_ns
        &&& c1.recorded()[i].end_ns <= c1.timer().reading()
    } by {
        assert(c0.recorded()[i].start_ns <= c0.recorded()[i].end_ns);
        if i != id {
            assert(c1.recorded()[i] == c0.recorded()[i]);
        }
    }
}

/// Moving the manual clock forward (an advance that does not wrap, or a set to
/// a later time) keeps a settled collector settled.
pub proof fn law_clock_forward_keeps_times_settled(c0: &Collector<ManualClock>, c1: &Collector<ManualClock>)
    requires
        times_settled(c0),
        c1.recorded() == c0.recorded(),
        c0.timer().reading() <= c1.timer().reading(),
    ensures
        times_settled(c1),
{
    assert forall|i: int| 0 <= i < c1.recorded().len() implies {
        &&& (#[trigger] c1.recorded()[i]).start_ns <= c1.recorded()[i].end_ns
        &&& c1.recorded()[i].end_ns <= c1.timer().reading()
    } by {
        assert(c0.recorded()[i].start_ns <= c0.recorded()[i].end_ns);
    }
}

/// A settled, manually clocked collector has recorded a valid trace. With the
/// laws above: a collector driven by `start`, `end`, and a manual clock that is
/// only moved forward records only traces that pass validation.
pub proof fn law_forward_clock_records_valid_traces(c: &Collector<ManualClock>)
    requires
        c.wf(),
        times_settled(c),
    ensures
        is_valid(c.recorded()),
{
    assert forall|i: int| 0 <= i < c.recorded().len() implies (#[trigger] c.recorded()[i]).start_ns <= c.recorded()[i].end_ns by {}
    law_recorded_traces_are_valid(c);
}

/// `c1` follows `c0` by one of the collector's own steps, with a manual clock
/// that only moves forward: a `start` (as its contract describes it), an `end`
/// (likewise), or a move of the clock that does not go back.
pub open spec fn forward_step(c0: &Collector<ManualClock>, c1: &Collector<ManualClock>) -> bool {
    ||| exists|name: Seq<char>| #[trigger] opened(c0.recorded(), c1.recorded(), c0.open_ids(), name, c1.recorded().last().start_ns)
        && call_ensures(ManualClock::now_ns, (&c0.timer(),), c1.recorded().last().start_ns)
        && c1.timer() == c0.timer()
    ||| exists|id: SpanId| {
        &&& #[trigger] without_last(c0.open_ids(), id) == c1.open_ids()
        &&& id < c0.recorded().len() ==> ended(c0.recorded(), c1.recorded(), id, c1.recorded()[id as int].end_ns)
        &&& id < c0.recorded().len() ==> call_ensures(ManualClock::now_ns, (&c0.timer(),), c1.recorded()[id as int].end_ns)
        &&& id >= c0.recorded().len() ==> c1.recorded() == c0.recorded()
        &&& c1.timer() == c0.timer()
    }
    ||| c1.recorded() == c0.recorded() && c0.timer().reading() <= c1.timer().reading()
}

proof fn lemma_forward_run_settled(cs: Seq<Collector<ManualClock>>, k: int)
    requires
        0 <= k < cs.len(),
        cs[0].recorded().len() == 0,
        forall|i: int| 0 <= i < cs.len() - 1 ==> #[trigger] forward_step(&cs[i], &cs[i + 1]),
    ensures
        times_settled(&cs[k]),
    decreases k,
{
    if k == 0 {
        law_empty_collector_is_settled(&cs[0]);
    } else {
        lemma_forward_run_settled(cs, k - 1);
        let j = k - 1;
        assert(forward_step(&cs[j], &cs[j + 1]));
        assert(j + 1 == k);
        let c0 = &cs[j];
        let c1 = &cs[k];
        if exists|name: Seq<char>| #[trigger] opened(c0.recorded(), c1.recorded(), c0.open_ids(), name, c1.recorded().last().start_ns)
            && call_ensures(ManualClock::now_ns, (&c0.timer(),), c1.recorded().last().start_ns)
            && c1.timer() == c0.timer() {
            let name = choose|name: Seq<char>| #[trigger] opened(c0.recorded(), c1.recorded(), c0.open_ids(), name, c1.recorded().last().start_ns)
                && call_ensures(ManualClock::now_ns, (&c0.timer(),), c1.recorded().last().start_ns)
                && c1.timer() == c0.timer();
            law_start_keeps_times_settled(c0, c1, name);
        } else if c1.recorded() == c0.recorded() && c0.timer().reading() <= c1.timer().reading() {
            law_clock_forward_keeps_times_settled(c0, c1);
        } else {
            let id = choose|id: SpanId| {
                &&& #[trigger] without_last(c0.open_ids(), id) == c1.open_ids()
                &&& id < c0.recorded().len() ==> ended(c0.recorded(), c1.recorded(), id, c1.recorded()[id as int].end_ns)
                &&& id < c0.recorded().len() ==> call_ensures(ManualClock::now_ns, (&c0.timer(),), c1.recorded()[id as int].end_ns)
                &&& id >= c0.recorded().len() ==> c1.recorded() == c0.recorded()
                &&& c1.timer() == c0.timer()
            };
            law_end_keeps_times_settled(c0, c1, id);
        }
    }
}

/// A collector on a manual clock that starts empty and then takes any
/// sequence of `start` and `end` calls (any names, any ids, in any order), with
/// the clock only moved forward in between, records a trace that passes
/// validation.
pub proof fn law_forward_runs_record_valid_traces(cs: Seq<Collector<ManualClock>>)
    requires
        cs.len() > 0,
        cs[0].recorded().len() == 0,
        forall|i: int| 0 <= i < cs.len() - 1 ==> #[trigger] forward_step(&cs[i], &cs[i + 1]),
        cs.last().wf(),
    ensures
        is_valid(cs.last().recorded()),
{
    lemma_forward_run_settled(cs, cs.len() - 1);
    law_forward_clock_records_valid_traces(&cs.last());
}

/// `c1` follows `c0` by one `start` or `end` that took the reading `t` from
/// the clock, as the two operations' contracts describe them: `start` opens a
/// span at `t`; `end` closes span `id` at `t` when `id` was recorded, and
/// changes no span otherwise.
pub open spec fn step_reading<C: Clock>(c0: &Collector<C>, c1: &Collector<C>, t: u64) -> bool {
    ||| exists|name: Seq<char>| #[trigger] opened(c0.recorded(), c1.recorded(), c0.open_ids(), name, t)
    ||| exists|id: SpanId| {
        &&& #[trigger] without_last(c0.open_ids(), id) == c1.open_ids()
        &&& id < c0.recorded().len() ==> ended(c0.recorded(), c1.recorded(), id, t)
        &&& id >= c0.recorded().len() ==> c1.recorded() == c0.recorded()
    }
}

/// Every recorded span ends no earlier than it starts and no later than `t`.
pub open spec fn settled_by<C: Clock>(c: &Collector<C>, t: u64) -> bool {
    forall|i: int| 0 <= i < c.recorded().len() ==> {
        &&& (#[trigger] c.recorded()[i]).start_ns <= c.recorded()[i].end_ns
        &&& c.recorded()[i].end_ns <= t
    }
}

proof fn lemma_step_reading_settles<C: Clock>(c0: &Collector<C>, c1: &Collector<C>, b: u64, t: u64)
    requires
        settled_by(c0, b),
        b <= t,
        step_reading(c0, c1, t),
    ensures
        settled_by(c1, t),
{
    if exists|name: Seq<char>| #[trigger] opened(c0.recorded(), c1.recorded(), c0.open_ids(), name, t) {
        let name = choose|name: Seq<char>| #[trigger] opened(c0.recorded(), c1.recorded(), c0.open_ids(), name, t);
        assert forall|i: int| 0 <= i < c1.recorded().len() implies {
            &&& (#[trigger] c1.recorded()[i]).start_ns <= c1.recorded()[i].end_ns
            &&& c1.recorded()[i].end_ns <= t
        } by {
            if i < c0.recorded().len() {
                assert(c1.recorded()[i] == c0.recorded()[i]);
            }
        }
    } else {
        let id = choose|id: SpanId| {
            &&& #[trigger] without_last(c0.open_ids(), id) == c1.open_ids()
            &&& id < c0.recorded().len() ==> ended(c0.recorded(), c1.recorded(), id, t)
            &&& id >= c0.recorded().len() ==> c1.recorded() == c0.recorded()
        };
        assert forall|i: int| 0 <= i < c1.recorded().len() implies {
            &&& (#[trigger] c1.recorded()[i]).start_ns <= c1.recorded()[i].end_ns
            &&& c1.recorded()[i].end_ns <= t
        } by {
            assert(c0.recorded()[i].start_ns <= c0.recorded()[i].end_ns);
            if id >= c0.recorded().len() || i != id {
                assert(c1.recorded()[i] == c0.recorded()[i]);
            }
        }
    }
}

proof fn lemma_rising_run_settled<C: Clock>(cs: Seq<Collector<C>>, ts: Seq<u64>, k: int)
    requires
        cs.len() == ts.len() + 1,
        1 <= k < cs.len(),
        cs[0].recorded().len() == 0,
        forall|i: int| 0 <= i < ts.len() ==> #[trigger] step_reading(&cs[i], &cs[i + 1], ts[i]),
        forall|i: int, j: int| 0 <= i < j < ts.len() ==> ts[i] <= ts[j],
    ensures
        settled_by(&cs[k], ts[k - 1]),
    decreases k,
{
    let j = k - 1;
    assert(step_reading(&cs[j], &cs[j + 1], ts[j]));
    assert(j + 1 == k);
    if k == 1 {
        assert(settled_by(&cs[0], ts[0]));
        lemma_step_reading_settles(&cs[0], &cs[1], ts[0], ts[0]);
    } else {
        lemma_rising_run_settled(cs, ts, k - 1);
        lemma_step_reading_settles(&cs[j], &cs[k], ts[j - 1], ts[j]);
    }
}

/// A collector on any clock that starts empty and then takes any sequence of
/// `start` and `end` calls (any names, any ids, in any order), where the
/// readings `ts` that those calls take from the clock never decrease, records a
/// trace that passes validation. (`start` and `end` state that the times they
/// record are readings of the collector's clock.)
pub proof fn law_rising_readings_record_valid_traces<C: Clock>(cs: Seq<Collector<C>>, ts: Seq<u64>)
    requires
        cs.len() == ts.len() + 1,
        cs[0].recorded().len() == 0,
        forall|i: int| 0 <= i < ts.len() ==> #[trigger] step_reading(&cs[i], &cs[i + 1], ts[i]),
        forall|i: int, j: int| 0 <= i < j < ts.len() ==> ts[i] <= ts[j],
        cs.last().wf(),
    ensures
        is_valid(cs.last().recorded()),
{
    let c = cs.last();
    if ts.len() > 0 {
        lemma_rising_run_settled(cs, ts, cs.len() - 1);
    }
    assert forall|i: int| 0 <= i < c.recorded().len() implies (#[trigger] c.recorded()[i]).start_ns <= c.recorded()[i].end_ns by {
        if ts.len() > 0 {
            assert(settled_by(&cs[cs.len() - 1], ts[cs.len() - 2]));
        }
    }
    law_recorded_traces_are_valid(&c);
}

/// A span's duration is the time from its start to its end, or zero when it
/// ends before it starts.
pub proof fn law_duration_is_elapsed_time(sp: Span)
    ensures
        sp.start_ns <= sp.end_ns ==> sp.start_ns + sp.duration() == sp.end_ns,
        sp.end_ns < sp.start_ns ==> sp.duration() == 0,
{
}

/// A span's self time is its duration less the total duration of its direct
/// children, and never less than zero: with `total` the children's total, the
/// self time and `min(total, duration)` add up to the duration exactly.
pub proof fn law_self_time_is_duration_less_children(s: Seq<Span>, i: int)
    requires
        0 <= i < s.len(),
    ensures
        self_time(s, i) <= s[i].duration(),
        children_total(s, s[i].id, s.len() as int) <= s[i].duration()
            ==> self_time(s, i) + children_total(s, s[i].id, s.len() as int) == s[i].duration(),
        children_total(s, s[i].id, s.len() as int) > s[i].duration() ==> self_time(s, i) == 0,
{
}

/// The descent that builds a path from position `i` within `f` spans, as
/// positions: each is the last-finishing child of the one before, and the
/// last has no children.
proof fn lemma_path_chain(s: Seq<Span>, i: int, f: nat) -> (ps: Seq<int>)
    requires
        0 <= i < s.len(),
        path_ends(s, i, f),
    ensures
        ps.len() == path_from(s, i, f).len(),
        ps.len() >= 1,
        ps[0] == i,
        forall|k: int| 0 <= k < ps.len() ==> 0 <= #[trigger] ps[k] < s.len()
            && path_from(s, i, f)[k] == path_entry(s[ps[k]]),
        forall|k: int| 0 <= k < ps.len() - 1 ==> last_child(s, s[#[trigger] ps[k]].id) == Some(ps[k + 1]),
        last_child(s, s[ps.last()].id) is None,
    decreases f,
{
    match last_child(s, s[i].id) {
        None => seq![i],
        Some(c) => {
            lemma_last_child_bounds(s, s[i].id, s.len() as int);
            let rest = lemma_path_chain(s, c, (f - 1) as nat);
            let ps = seq![i] + rest;
            let p = path_from(s, i, f);
            assert(p == seq![path_entry(s[i])] + path_from(s, c, (f - 1) as nat));
            assert forall|k: int| 0 <= k < ps.len() implies 0 <= #[trigger] ps[k] < s.len()
                && p[k] == path_entry(s[ps[k]]) by {
                if k > 0 {
                    assert(ps[k] == rest[k - 1]);
                }
            }
            assert forall|k: int| 0 <= k < ps.len() - 1 implies last_child(s, s[#[trigger] ps[k]].id) == Some(ps[k + 1]) by {
                if k > 0 {
                    assert(ps[k] == rest[k - 1]);
                    assert(ps[k + 1] == rest[k]);
                }
            }
            assert(ps.last() == rest.last());
            ps
        },
    }
}

proof fn lemma_last_child_bounds(s: Seq<Span>, pid: SpanId, k: int)
    requires
        k <= s.len(),
    ensures
        last_child_upto(s, pid, k) matches Some(c) ==> 0 <= c < s.len(),
    decreases k,
{
    if k > 0 {
        lemma_last_child_bounds(s, pid, k - 1);
        assert(has_id(s, s[k - 1].id)) by {
            assert(s[k - 1].id == s[k - 1].id);
        }
        lemma_lookup(s, s[k - 1].id);
    }
}

/// The critical path starts at the governing root and keeps descending into
/// the child that finishes last, for as long as there is a child: each entry
/// after the first is the last-finishing child of the one before, and the
/// last entry's span has no children. A trace with no root has an empty path.
pub proof fn law_critical_path_descends_until_childless(s: Seq<Span>)
    requires
        critical_path_ends(s),
    ensures
        governing_root(s) is None ==> critical_path_of(s).len() == 0,
        governing_root(s) matches Some(r) ==> exists|ps: Seq<int>| {
            &&& ps.len() == critical_path_of(s).len()
            &&& ps.len() >= 1
            &&& ps[0] == r
            &&& forall|k: int| 0 <= k < ps.len() ==> 0 <= #[trigger] ps[k] < s.len()
                && critical_path_of(s)[k] == (s[ps[k]].id, s[ps[k]].name@, s[ps[k]].duration())
            &&& forall|k: int| 0 <= k < ps.len() - 1 ==> last_child(s, s[#[trigger] ps[k]].id) == Some(ps[k + 1])
            &&& last_child(s, s[ps.last()].id) is None
        },
{
    lemma_governing_root_bounds(s, s.len() as int);
    match governing_root(s) {
        None => {},
        Some(r) => {
            let ps = lemma_path_chain(s, r, s.len() + 1);
            assert(ps.len() == critical_path_of(s).len());
        },
    }
}

/// A trace that passes validation has no span that ends before it starts,
/// root or child; its ids are distinct; and every parent it names is the id
/// of one of its spans.
pub proof fn law_valid_traces_are_well_formed(s: Seq<Span>)
    requires
        is_valid(s),
    ensures
        forall|i: int| 0 <= i < s.len() ==> (#[trigger] s[i]).start_ns <= s[i].end_ns,
        forall|i: int, j: int| 0 <= i < s.len() && 0 <= j < s.len() && s[i].id == s[j].id ==> i == j,
        forall|i: int| 0 <= i < s.len() && (#[trigger] s[i]).parent is Some
            ==> exists|j: int| 0 <= j < s.len() && s[j].id == s[i].parent->0,
{
    lemma_valid_facts(s);
    lemma_first_bad_span_none(s, s.len() as int);
    assert forall|i: int| 0 <= i < s.len() implies (#[trigger] s[i]).start_ns <= s[i].end_ns by {
        assert(!inverted_at(s, i));
    }
    assert forall|i: int| 0 <= i < s.len() && (#[trigger] s[i]).parent is Some
        implies exists|j: int| 0 <= j < s.len() && s[j].id == s[i].parent->0 by {
        assert(!missing_parent_at(s, i));
    }
}

proof fn lemma_extremes(s: Seq<Span>)
    requires
        s.len() > 0,
    ensures
        forall|i: int| 0 <= i < s.len() ==> min_start(s) <= (#[trigger] s[i]).start_ns && s[i].end_ns <= max_end(s),
        exists|j: int| 0 <= j < s.len() && s[j].start_ns == min_start(s),
        exists|j: int| 0 <= j < s.len() && s[j].end_ns == max_end(s),
    decreases s.len(),
{
    if s.len() == 1 {
        assert(s[0].start_ns == min_start(s));
        assert(s[0].end_ns == max_end(s));
    } else {
        let t = s.drop_last();
        lemma_extremes(t);
        assert forall|i: int| 0 <= i < s.len() implies min_start(s) <= (#[trigger] s[i]).start_ns && s[i].end_ns <= max_end(s) by {
            if i < t.len() {
                assert(s[i] == t[i]);
            }
        }
        if s.last().start_ns <= min_start(t) {
            assert(s[s.len() - 1].start_ns == min_start(s));
        } else {
            let j = choose|j: int| 0 <= j < t.len() && t[j].start_ns == min_start(t);
            assert(s[j] == t[j]);
        }
        if s.last().end_ns >= max_end(t) {
            assert(s[s.len() - 1].end_ns == max_end(s));
        } else {
            let j = choose|j: int| 0 <= j < t.len() && t[j].end_ns == max_end(t);
            assert(s[j] == t[j]);
        }
    }
}

/// The total duration of a trace is its latest end over all spans minus its
/// earliest start over all spans, saturating at zero; a trace with no spans
/// lasts zero. (`min_start` and `max_end` are bounds on every span that some
/// span attains.)
pub proof fn law_total_duration_spans_all_spans(s: Seq<Span>)
    ensures
        s.len() == 0 ==> total_duration(s) == 0,
        s.len() > 0 ==> forall|i: int| 0 <= i < s.len() ==> min_start(s) <= (#[trigger] s[i]).start_ns && s[i].end_ns <= max_end(s),
        s.len() > 0 ==> exists|j: int| 0 <= j < s.len() && s[j].start_ns == min_start(s),
        s.len() > 0 ==> exists|j: int| 0 <= j < s.len() && s[j].end_ns == max_end(s),
        s.len() > 0 ==> total_duration(s) == if max_end(s) >= min_start(s) { (max_end(s) - min_start(s)) as u64 } else { 0 },
{
    if s.len() > 0 {
        lemma_extremes(s);
    }
}

proof fn lemma_ranked_ancestors_descend(s: Seq<Span>, rank: Seq<int>, i: int, k: nat)
    requires
        unique_ids(s),
        rank.len() == s.len(),
        forall|a: int| 0 <= a < s.len() && (#[trigger] s[a]).parent is Some
            ==> exists|b: int| 0 <= b < s.len() && s[b].id == s[a].parent->0,
        forall|a: int, b: int| 0 <= a < s.len() && 0 <= b < s.len() && #[trigger] s[a].parent == Some(#[trigger] s[b].id)
            ==> rank[b] < rank[a],
        0 <= i < s.len(),
    ensures
        ancestor(s, s[i].parent, k) matches Some(v) ==> has_id(s, v) && rank[lookup(s, v)] + k < rank[i],
    decreases k,
{
    if k == 0 {
        match s[i].parent {
            Some(v) => {
                assert(s[i].parent is Some);
                let b = choose|b: int| 0 <= b < s.len() && s[b].id == s[i].parent->0;
                lemma_lookup_self(s, b);
                assert(s[i].parent == Some(s[b].id));
            },
            None => {},
        }
    } else {
        lemma_ranked_ancestors_descend(s, rank, i, (k - 1) as nat);
        match ancestor(s, s[i].parent, (k - 1) as nat) {
            Some(w) => {
                let a = lookup(s, w);
                lemma_lookup(s, w);
                lemma_lookup_self(s, a);
                assert(parent_of(s, w) == s[a].parent);
                match s[a].parent {
                    Some(v) => {
                        assert(s[a].parent is Some);
                        let b = choose|b: int| 0 <= b < s.len() && s[b].id == s[a].parent->0;
                        lemma_lookup_self(s, b);
                        assert(s[a].parent == Some(s[b].id));
                    },
                    None => {},
                }
            },
            None => {},
        }
    }
}

/// A trace passes validation when its ids are distinct, no span ends before
/// it starts, every parent it names is the id of one of its spans, and its
/// spans can be ranked below the number of spans with every parent ranked
/// below its children (so no parent chain comes back on itself).
pub proof fn law_ranked_traces_are_valid(s: Seq<Span>, rank: Seq<int>)
    requires
        forall|i: int, j: int| 0 <= i < s.len() && 0 <= j < s.len() && s[i].id == s[j].id ==> i == j,
        forall|i: int| 0 <= i < s.len() ==> (#[trigger] s[i]).start_ns <= s[i].end_ns,
        forall|a: int| 0 <= a < s.len() && (#[trigger] s[a]).parent is Some
            ==> exists|b: int| 0 <= b < s.len() && s[b].id == s[a].parent->0,
        rank.len() == s.len(),
        forall|i: int| 0 <= i < s.len() ==> 0 <= #[trigger] rank[i] < s.len(),
        forall|a: int, b: int| 0 <= a < s.len() && 0 <= b < s.len() && #[trigger] s[a].parent == Some(#[trigger] s[b].id)
            ==> rank[b] < rank[a],
    ensures
        is_valid(s),
{
    assert(unique_ids(s));
    assert forall|i: int| 0 <= i < s.len() implies !duplicate_at(s, i) && !inverted_at(s, i) by {
        if duplicate_at(s, i) {
            let j = choose|j: int| 0 <= j < i && s[j].id == s[i].id;
        }
    }
    lemma_no_bad_span(s, s.len() as int);
    assert forall|i: int| 0 <= i < s.len() implies !missing_parent_at(s, i) by {
        if s[i].parent is Some {
            let b = choose|b: int| 0 <= b < s.len() && s[b].id == s[i].parent->0;
            assert(has_id(s, s[i].parent->0)) by {
                assert(s[b].id == s[i].parent->0);
            }
        }
    }
    lemma_no_missing_parent(s, s.len() as int);
    assert forall|i: int| 0 <= i < s.len() implies !cyclic_at(s, i) by {
        lemma_ranked_ancestors_descend(s, rank, i, s.len());
        if ancestor(s, s[i].parent, s.len()) is Some {
            let v = ancestor(s, s[i].parent, s.len())->0;
            lemma_lookup(s, v);
            assert(rank[lookup(s, v)] >= 0);
        }
    }
    lemma_no_cyclic(s, s.len() as int);
}

proof fn lemma_first_cyclic_none(s: Seq<Span>, k: int)
    requires
        first_cyclic(s, k) is None,
    ensures
        forall|i: int| 0 <= i < k ==> !cyclic_at(s, i),
    decreases k,
{
    if k > 0 {
        lemma_first_cyclic_none(s, k - 1);
    }
}

proof fn lemma_cycle_ancestors(s: Seq<Span>, ps: Seq<int>, m: nat) -> (j: int)
    requires
        unique_ids(s),
        ps.len() > 0,
        forall|k: int| 0 <= k < ps.len() ==> 0 <= #[trigger] ps[k] < s.len(),
        forall|k: int| 0 <= k < ps.len() - 1 ==> s[#[trigger] ps[k]].parent == Some(s[ps[k + 1]].id),
        s[ps.last()].parent == Some(s[ps[0]].id),
    ensures
        0 <= j < ps.len(),
        ancestor(s, s[ps[0]].parent, m) == Some(s[ps[j]].id),
    decreases m,
{
    if m == 0 {
        if ps.len() == 1 {
            0
        } else {
            assert(s[ps[0]].parent == Some(s[ps[1]].id));
            1
        }
    } else {
        let j0 = lemma_cycle_ancestors(s, ps, (m - 1) as nat);
        lemma_lookup_self(s, ps[j0]);
        if j0 + 1 < ps.len() {
            assert(s[ps[j0]].parent == Some(s[ps[j0 + 1]].id));
            j0 + 1
        } else {
            0
        }
    }
}

/// No trace that passes validation has a parent cycle: when each of the
/// spans `ps[0]`, ..., `ps[last]` names the next as its parent, the last does
/// not name the first.
pub proof fn law_valid_traces_have_no_parent_cycles(s: Seq<Span>, ps: Seq<int>)
    requires
        is_valid(s),
        ps.len() > 0,
        forall|k: int| 0 <= k < ps.len() ==> 0 <= #[trigger] ps[k] < s.len(),
        forall|k: int| 0 <= k < ps.len() - 1 ==> s[#[trigger] ps[k]].parent == Some(s[ps[k + 1]].id),
    ensures
        s[ps.last()].parent != Some(s[ps[0]].id),
{
    lemma_valid_facts(s);
    lemma_first_cyclic_none(s, s.len() as int);
    if s[ps.last()].parent == Some(s[ps[0]].id) {
        lemma_cycle_ancestors(s, ps, s.len());
        assert(cyclic_at(s, ps[0]));
    }
}

proof fn lemma_children_total_prefix_same(s: Seq<Span>, x: Span, pid: SpanId, k: int)
    requires
        unique_ids(s.push(x)),
        0 <= k <= s.len(),
    ensures
        children_total(s.push(x), pid, k) == children_total(s, pid, k),
    decreases k,
{
    let t = s.push(x);
    if k > 0 {
        lemma_children_total_prefix_same(s, x, pid, k - 1);
        assert(t[k - 1] == s[k - 1]);
        assert(unique_ids(s)) by {
            assert forall|i: int, j: int| 0 <= i < s.len() && 0 <= j < s.len() && s[i].id == s[j].id implies i == j by {
                assert(t[i] == s[i] && t[j] == s[j]);
            }
        }
        lemma_lookup_self(s, k - 1);
        lemma_lookup_self(t, k - 1);
    }
}

/// With distinct ids, adding a span to a trace adds its duration to the
/// children's total of its parent and leaves every other total as it was; a
/// trace with no spans has no children anywhere.
pub proof fn law_child_adds_its_duration(s: Seq<Span>, x: Span, pid: SpanId)
    requires
        unique_ids(s.push(x)),
    ensures
        children_total(Seq::<Span>::empty(), pid, 0) == 0,
        children_total(s.push(x), pid, s.len() + 1int) == children_total(s, pid, s.len() as int)
            + if x.parent == Some(pid) { x.duration() as nat } else { 0 },
{
    let t = s.push(x);
    lemma_children_total_prefix_same(s, x, pid, s.len() as int);
    assert(t[s.len() as int] == x);
    lemma_lookup_self(t, s.len() as int);
}

/// `ps` goes down from a root: its first span has no parent, and each later
/// span is a child of the one before it.
pub open spec fn down_chain(s: Seq<Span>, ps: Seq<int>) -> bool {
    &&& ps.len() > 0
    &&& forall|k: int| 0 <= k < ps.len() ==> 0 <= #[trigger] ps[k] < s.len()
    &&& s[ps[0]].parent is None
    &&& forall|k: int| 0 < k < ps.len() ==> s[#[trigger] ps[k]].parent == Some(s[ps[k - 1]].id)
}

/// The names of the spans at the positions `ps`, in order.
pub open spec fn chain_names(s: Seq<Span>, ps: Seq<int>) -> Seq<Seq<char>> {
    ps.map_values(|p: int| s[p].name@)
}

/// `st` is the names of a chain of spans that goes down from a root.
pub open spec fn is_name_path(s: Seq<Span>, st: Seq<Seq<char>>) -> bool {
    exists|ps: Seq<int>| down_chain(s, ps) && #[trigger] chain_names(s, ps) == st
}

#[verifier::spinoff_prover]
proof fn lemma_visits_paths(s: Seq<Span>, i: int, pre: Seq<int>, fuel: nat)
    requires
        unique_ids(s),
        0 <= i < s.len(),
        down_chain(s, pre.push(i)),
    ensures
        forall|m: int| 0 <= m < visits(s, i, chain_names(s, pre), fuel).len()
            ==> is_name_path(s, (#[trigger] visits(s, i, chain_names(s, pre), fuel)[m]).0),
    decreases fuel, 0int,
{
    if fuel > 0 {
        let q = pre.push(i);
        let stack = chain_names(s, pre).push(s[i].name@);
        assert(stack =~= chain_names(s, q));
        let cv = child_visits(s, s[i].id, stack, (fuel - 1) as nat, s.len() as int);
        lemma_child_visits_paths(s, q, (fuel - 1) as nat, s.len() as int);
        let head = seq![(stack, self_time(s, i))];
        assert(visits(s, i, chain_names(s, pre), fuel) == head + cv);
        assert(is_name_path(s, head[0].0)) by {
            assert(chain_names(s, q) == head[0].0);
        }
        lemma_paths_concat(s, head, cv);
    }
}

/// Extending a chain that goes down from a root by a child of its last span.
proof fn lemma_down_chain_push(s: Seq<Span>, q: Seq<int>, c: int)
    requires
        down_chain(s, q),
        0 <= c < s.len(),
        s[c].parent == Some(s[q.last()].id),
    ensures
        down_chain(s, q.push(c)),
{
    let q2 = q.push(c);
    assert forall|j: int| 0 <= j < q2.len() implies 0 <= #[trigger] q2[j] < s.len() by {
        if j < q.len() {
            assert(q2[j] == q[j]);
        }
    }
    assert forall|j: int| 0 < j < q2.len() implies s[#[trigger] q2[j]].parent == Some(s[q2[j - 1]].id) by {
        if j < q.len() {
            assert(q2[j] == q[j] && q2[j - 1] == q[j - 1]);
        }
    }
}

/// Every visit of a list made of two lists is a visit of one of them.
proof fn lemma_paths_concat(s: Seq<Span>, a: Seq<(Seq<Seq<char>>, u64)>, b: Seq<(Seq<Seq<char>>, u64)>)
    requires
        forall|m: int| 0 <= m < a.len() ==> is_name_path(s, (#[trigger] a[m]).0),
        forall|m: int| 0 <= m < b.len() ==> is_name_path(s, (#[trigger] b[m]).0),
    ensures
        forall|m: int| 0 <= m < (a + b).len() ==> is_name_path(s, (#[trigger] (a + b)[m]).0),
{
    assert forall|m: int| 0 <= m < (a + b).len() implies is_name_path(s, (#[trigger] (a + b)[m]).0) by {
        if m < a.len() {
            assert((a + b)[m] == a[m]);
        } else {
            assert((a + b)[m] == b[m - a.len()]);
        }
    }
}

#[verifier::spinoff_prover]
proof fn lemma_child_visits_paths(s: Seq<Span>, q: Seq<int>, fuel: nat, k: int)
    requires
        unique_ids(s),
        down_chain(s, q),
        k <= s.len(),
    ensures
        forall|m: int| 0 <= m < child_visits(s, s[q.last()].id, chain_names(s, q), fuel, k).len()
            ==> is_name_path(s, (#[trigger] child_visits(s, s[q.last()].id, chain_names(s, q), fuel, k)[m]).0),
    decreases fuel, k + 1,
{
    if k > 0 {
        let pid = s[q.last()].id;
        let st = chain_names(s, q);
        lemma_child_visits_paths(s, q, fuel, k - 1);
        let a = child_visits(s, pid, st, fuel, k - 1);
        if s[k - 1].parent == Some(pid) {
            lemma_lookup_self(s, k - 1);
            lemma_down_chain_push(s, q, k - 1);
            assert(q.push(k - 1).drop_last() =~= q);
            lemma_visits_paths(s, k - 1, q, fuel);
            let b = visits(s, k - 1, st, fuel);
            assert(child_visits(s, pid, st, fuel, k) == a + b);
            lemma_paths_concat(s, a, b);
        } else {
            assert(child_visits(s, pid, st, fuel, k) == a);
        }
    }
}

proof fn lemma_forest_paths(s: Seq<Span>, k: int)
    requires
        unique_ids(s),
        k <= s.len(),
    ensures
        forall|m: int| 0 <= m < forest_visits(s, k).len() ==> is_name_path(s, (#[trigger] forest_visits(s, k)[m]).0),
    decreases k,
{
    if k > 0 {
        lemma_forest_paths(s, k - 1);
        if s[k - 1].parent is None {
            let pre = Seq::<int>::empty();
            assert(pre.push(k - 1) =~= seq![k - 1]);
            assert(chain_names(s, pre) =~= Seq::<Seq<char>>::empty());
            lemma_visits_paths(s, k - 1, pre, s.len() + 1);
            let a = forest_visits(s, k - 1);
            let b = visits(s, k - 1, seq![], s.len() + 1);
            assert(forest_visits(s, k) == a + b);
            lemma_paths_concat(s, a, b);
        } else {
            assert(forest_visits(s, k) == forest_visits(s, k - 1));
        }
    }
}

proof fn lemma_accumulate_keys(m0: Map<Seq<Seq<char>>, int>, vs: Seq<(Seq<Seq<char>>, u64)>)
    ensures
        forall|st: Seq<Seq<char>>| #[trigger] accumulate(m0, vs).contains_key(st)
            ==> m0.contains_key(st) || exists|j: int| 0 <= j < vs.len() && vs[j].0 == st,
    decreases vs.len(),
{
    if vs.len() > 0 {
        lemma_accumulate_keys(m0, vs.drop_last());
        assert forall|st: Seq<Seq<char>>| #[trigger] accumulate(m0, vs).contains_key(st)
            implies m0.contains_key(st) || exists|j: int| 0 <= j < vs.len() && vs[j].0 == st by {
            if st == vs.last().0 {
                assert(vs[vs.len() - 1].0 == st);
            } else {
                assert(accumulate(m0, vs.drop_last()).contains_key(st));
                if !m0.contains_key(st) {
                    let j = choose|j: int| 0 <= j < vs.drop_last().len() && vs.drop_last()[j].0 == st;
                    assert(vs[j] == vs.drop_last()[j]);
                }
            }
        }
    }
}

/// With distinct ids, every stack that the fold reports is the names of a
/// chain of spans that goes down from a root, each a child of the one before.
pub proof fn law_fold_stacks_are_name_paths(s: Seq<Span>)
    requires
        unique_ids(s),
    ensures
        forall|st: Seq<Seq<char>>| #[trigger] flame_totals(s).contains_key(st) ==> is_name_path(s, st),
{
    lemma_forest_paths(s, s.len() as int);
    lemma_accumulate_keys(Map::empty(), forest_visits(s, s.len() as int));
    assert forall|st: Seq<Seq<char>>| #[trigger] flame_totals(s).contains_key(st) implies is_name_path(s, st) by {
        let vs = forest_visits(s, s.len() as int);
        let j = choose|j: int| 0 <= j < vs.len() && vs[j].0 == st;
        assert(is_name_path(s, vs[j].0));
    }
}

} // verus!
