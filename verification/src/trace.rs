//! A trace: a collection of spans forming a parent/child forest.

use std::collections::{HashMap, HashSet};
use vstd::prelude::*;

use crate::error::CoreError;
use crate::span::{Span, SpanId};
use crate::text::{decimal, decimal_text};

verus! {

/// A trace is a flat list of spans linked by parent ids. Analysis treats it as a
/// forest of trees (one tree per parentless root).
#[derive(Debug, Clone)]
pub struct Trace {
    pub spans: Vec<Span>,
}

/// Some span of `s` carries `id`.
pub open spec fn has_id(s: Seq<Span>, id: SpanId) -> bool {
    exists|i: int| 0 <= i < s.len() && s[i].id == id
}

/// `i` is the first position of `s` whose span carries `id`.
pub open spec fn is_first_with_id(s: Seq<Span>, id: SpanId, i: int) -> bool {
    &&& 0 <= i < s.len()
    &&& s[i].id == id
    &&& forall|j: int| 0 <= j < i ==> s[j].id != id
}

/// `i` is the last position of `s` whose span carries `id`.
pub open spec fn is_last_with_id(s: Seq<Span>, id: SpanId, i: int) -> bool {
    &&& 0 <= i < s.len()
    &&& s[i].id == id
    &&& forall|j: int| i < j < s.len() ==> s[j].id != id
}

/// The position that an id resolves to: the last span carrying it. This is the
/// span that an id-keyed index built by walking the spans in order keeps.
pub open spec fn lookup(s: Seq<Span>, id: SpanId) -> int {
    choose|i: int| is_last_with_id(s, id, i)
}

pub proof fn lemma_lookup(s: Seq<Span>, id: SpanId)
    requires
        has_id(s, id),
    ensures
        is_last_with_id(s, id, lookup(s, id)),
    decreases s.len(),
{
    if s.last().id == id {
        assert(is_last_with_id(s, id, s.len() - 1));
    } else {
        let t = s.drop_last();
        let i = choose|i: int| 0 <= i < s.len() && s[i].id == id;
        assert(t[i].id == id);
        lemma_lookup(t, id);
        let j = lookup(t, id);
        assert forall|k: int| j < k < s.len() implies s[k].id != id by {
            if k < t.len() {
                assert(t[k] == s[k]);
            }
        }
        assert(is_last_with_id(s, id, j));
    }
}

pub proof fn lemma_last_unique(s: Seq<Span>, id: SpanId, i: int, j: int)
    requires
        is_last_with_id(s, id, i),
        is_last_with_id(s, id, j),
    ensures
        i == j,
{
}

/// The latest end time over the spans (zero for none).
pub open spec fn max_end(s: Seq<Span>) -> u64
    decreases s.len(),
{
    if s.len() == 0 {
        0
    } else if s.len() == 1 || s.last().end_ns >= max_end(s.drop_last()) {
        s.last().end_ns
    } else {
        max_end(s.drop_last())
    }
}

/// The earliest start time over the spans (zero for none).
pub open spec fn min_start(s: Seq<Span>) -> u64
    decreases s.len(),
{
    if s.len() == 0 {
        0
    } else if s.len() == 1 || s.last().start_ns <= min_start(s.drop_last()) {
        s.last().start_ns
    } else {
        min_start(s.drop_last())
    }
}

/// Latest end minus earliest start, saturating at zero; zero for no spans.
pub open spec fn total_duration(s: Seq<Span>) -> u64 {
    if s.len() == 0 || max_end(s) < min_start(s) {
        0
    } else {
        (max_end(s) - min_start(s)) as u64
    }
}

/// Inserts `x` into `r` after every span whose id is at most `x.id`.
pub open spec fn insert_by_id(r: Seq<Span>, x: Span) -> Seq<Span>
    decreases r.len(),
{
    if r.len() == 0 {
        seq![x]
    } else if r.last().id <= x.id {
        r.push(x)
    } else {
        insert_by_id(r.drop_last(), x).push(r.last())
    }
}

/// The parentless spans, stably sorted by id.
pub open spec fn roots_of(s: Seq<Span>) -> Seq<Span>
    decreases s.len(),
{
    if s.len() == 0 {
        seq![]
    } else if s.last().parent is None {
        insert_by_id(roots_of(s.drop_last()), s.last())
    } else {
        roots_of(s.drop_last())
    }
}

/// Inserts `x` into the ascending sequence `r`.
pub open spec fn insert_sorted(r: Seq<u64>, x: u64) -> Seq<u64>
    decreases r.len(),
{
    if r.len() == 0 {
        seq![x]
    } else if r.last() <= x {
        r.push(x)
    } else {
        insert_sorted(r.drop_last(), x).push(r.last())
    }
}

/// Some span of `s` names `p` as its parent.
pub open spec fn has_child(s: Seq<Span>, p: SpanId) -> bool {
    exists|i: int| 0 <= i < s.len() && s[i].parent == Some(p)
}

/// The ids of the spans whose parent is `p`, in ascending order.
pub open spec fn children_sorted(s: Seq<Span>, p: SpanId) -> Seq<u64>
    decreases s.len(),
{
    if s.len() == 0 {
        seq![]
    } else if s.last().parent == Some(p) {
        insert_sorted(children_sorted(s.drop_last(), p), s.last().id)
    } else {
        children_sorted(s.drop_last(), p)
    }
}

/// Spans are ordered by id, ascending.
pub open spec fn sorted_by_id(r: Seq<Span>) -> bool {
    forall|i: int, j: int| 0 <= i < j < r.len() ==> r[i].id <= r[j].id
}

/// Values are in ascending order.
pub open spec fn ascending(r: Seq<u64>) -> bool {
    forall|i: int, j: int| 0 <= i < j < r.len() ==> r[i] <= r[j]
}

proof fn lemma_insert_by_id_at(r: Seq<Span>, x: Span, p: int)
    requires
        0 <= p <= r.len(),
        forall|k: int| 0 <= k < p ==> r[k].id <= x.id,
        forall|k: int| p <= k < r.len() ==> r[k].id > x.id,
    ensures
        insert_by_id(r, x) =~= r.insert(p, x),
    decreases r.len(),
{
    if r.len() == 0 {
    } else if r.last().id <= x.id {
        assert(p == r.len());
    } else {
        lemma_insert_by_id_at(r.drop_last(), x, p);
    }
}

pub proof fn lemma_insert_sorted_at(r: Seq<u64>, x: u64, p: int)
    requires
        0 <= p <= r.len(),
        forall|k: int| 0 <= k < p ==> r[k] <= x,
        forall|k: int| p <= k < r.len() ==> r[k] > x,
    ensures
        insert_sorted(r, x) =~= r.insert(p, x),
    decreases r.len(),
{
    if r.len() == 0 {
    } else if r.last() <= x {
        assert(p == r.len());
    } else {
        lemma_insert_sorted_at(r.drop_last(), x, p);
    }
}

pub proof fn lemma_insert_sorted_ascending(r: Seq<u64>, x: u64)
    requires
        ascending(r),
    ensures
        ascending(insert_sorted(r, x)),
        insert_sorted(r, x).to_multiset() =~= r.to_multiset().insert(x),
    decreases r.len(),
{
    broadcast use vstd::seq_lib::group_to_multiset_ensures;

    if r.len() == 0 {
        assert(seq![x] =~= Seq::<u64>::empty().push(x));
    } else if r.last() <= x {
    } else {
        let t = r.drop_last();
        lemma_insert_sorted_ascending(t, x);
        assert(r =~= t.push(r.last()));
        let u = insert_sorted(t, x);
        assert forall|k: int| 0 <= k < u.len() implies u[k] <= r.last() by {
            assert(u.to_multiset().count(u[k]) > 0);
            if u[k] != x {
                assert(t.to_multiset().count(u[k]) > 0);
                let j = choose|j: int| 0 <= j < t.len() && t[j] == u[k];
            }
        }
    }
}

pub proof fn lemma_children_sorted_empty(s: Seq<Span>, p: SpanId)
    requires
        !has_child(s, p),
    ensures
        children_sorted(s, p) =~= Seq::<u64>::empty(),
    decreases s.len(),
{
    if s.len() > 0 {
        assert(!has_child(s.drop_last(), p)) by {
            if has_child(s.drop_last(), p) {
                let j = choose|j: int| 0 <= j < s.drop_last().len() && s.drop_last()[j].parent == Some(p);
                assert(s[j] == s.drop_last()[j]);
            }
        }
        assert(s[s.len() - 1].parent != Some(p));
        lemma_children_sorted_empty(s.drop_last(), p);
    }
}

pub proof fn lemma_children_sorted_ascending(s: Seq<Span>, p: SpanId)
    ensures
        ascending(children_sorted(s, p)),
    decreases s.len(),
{
    if s.len() > 0 {
        lemma_children_sorted_ascending(s.drop_last(), p);
        if s.last().parent == Some(p) {
            lemma_insert_sorted_ascending(children_sorted(s.drop_last(), p), s.last().id);
        }
    }
}

pub proof fn lemma_roots_sorted(s: Seq<Span>)
    ensures
        sorted_by_id(roots_of(s)),
    decreases s.len(),
{
    if s.len() > 0 {
        lemma_roots_sorted(s.drop_last());
        if s.last().parent is None {
            lemma_insert_by_id_sorted(roots_of(s.drop_last()), s.last());
        }
    }
}

pub proof fn lemma_insert_by_id_sorted(r: Seq<Span>, x: Span)
    requires
        sorted_by_id(r),
    ensures
        sorted_by_id(insert_by_id(r, x)),
        insert_by_id(r, x).len() == r.len() + 1,
    decreases r.len(),
{
    if r.len() > 0 && r.last().id > x.id {
        lemma_insert_by_id_sorted(r.drop_last(), x);
        let t = insert_by_id(r.drop_last(), x);
        assert forall|k: int| 0 <= k < t.len() implies t[k].id <= r.last().id by {
            lemma_insert_by_id_member(r.drop_last(), x, k);
        }
    }
}

proof fn lemma_insert_by_id_member(r: Seq<Span>, x: Span, k: int)
    requires
        0 <= k < insert_by_id(r, x).len(),
    ensures
        insert_by_id(r, x)[k] == x || exists|j: int| 0 <= j < r.len() && insert_by_id(r, x)[k] == r[j],
    decreases r.len(),
{
    if r.len() == 0 {
    } else if r.last().id <= x.id {
        if k < r.len() {
            assert(insert_by_id(r, x)[k] == r[k]);
        }
    } else {
        let t = insert_by_id(r.drop_last(), x);
        lemma_insert_by_id_len(r.drop_last(), x);
        if k < t.len() {
            lemma_insert_by_id_member(r.drop_last(), x, k);
            if insert_by_id(r, x)[k] != x {
                let j = choose|j: int| 0 <= j < r.drop_last().len() && t[k] == r.drop_last()[j];
                assert(insert_by_id(r, x)[k] == r[j]);
            }
        } else {
            assert(insert_by_id(r, x)[k] == r[r.len() - 1]);
        }
    }
}

proof fn lemma_insert_by_id_len(r: Seq<Span>, x: Span)
    ensures
        insert_by_id(r, x).len() == r.len() + 1,
    decreases r.len(),
{
    if r.len() > 0 && r.last().id > x.id {
        lemma_insert_by_id_len(r.drop_last(), x);
    }
}

/// No two spans share an id.
pub open spec fn unique_ids(s: Seq<Span>) -> bool {
    forall|i: int, j: int| 0 <= i < s.len() && 0 <= j < s.len() && s[i].id == s[j].id ==> i == j
}

/// Position `i` repeats an id carried by an earlier span.
pub open spec fn duplicate_at(s: Seq<Span>, i: int) -> bool {
    exists|j: int| 0 <= j < i && s[j].id == s[i].id
}

/// The span at position `i` ends before it starts.
pub open spec fn inverted_at(s: Seq<Span>, i: int) -> bool {
    s[i].end_ns < s[i].start_ns
}

/// The span at position `i` names a parent that no span carries.
pub open spec fn missing_parent_at(s: Seq<Span>, i: int) -> bool {
    match s[i].parent {
        Some(p) => !has_id(s, p),
        None => false,
    }
}

/// The parent of the span that `id` resolves to, if any.
pub open spec fn parent_of(s: Seq<Span>, id: SpanId) -> Option<SpanId> {
    if has_id(s, id) {
        s[lookup(s, id)].parent
    } else {
        None
    }
}

/// The id reached after `k` parent hops from `start` (`None` once the chain ends).
pub open spec fn ancestor(s: Seq<Span>, start: Option<SpanId>, k: nat) -> Option<SpanId>
    decreases k,
{
    if k == 0 {
        start
    } else {
        match ancestor(s, start, (k - 1) as nat) {
            Some(p) => parent_of(s, p),
            None => None,
        }
    }
}

/// The parent chain of the span at `i` still goes on after as many hops as
/// there are spans: it runs into a cycle.
pub open spec fn cyclic_at(s: Seq<Span>, i: int) -> bool {
    ancestor(s, s[i].parent, s.len()) is Some
}

/// The first position below `k` with a repeated id or an inverted interval.
pub open spec fn first_bad_span(s: Seq<Span>, k: int) -> Option<int>
    decreases k,
{
    if k <= 0 {
        None
    } else {
        match first_bad_span(s, k - 1) {
            Some(i) => Some(i),
            None => if duplicate_at(s, k - 1) || inverted_at(s, k - 1) {
                Some(k - 1)
            } else {
                None
            },
        }
    }
}

/// The first position below `k` whose parent is missing.
pub open spec fn first_missing_parent(s: Seq<Span>, k: int) -> Option<int>
    decreases k,
{
    if k <= 0 {
        None
    } else {
        match first_missing_parent(s, k - 1) {
            Some(i) => Some(i),
            None => if missing_parent_at(s, k - 1) {
                Some(k - 1)
            } else {
                None
            },
        }
    }
}

/// The first position below `k` whose parent chain cycles.
pub open spec fn first_cyclic(s: Seq<Span>, k: int) -> Option<int>
    decreases k,
{
    if k <= 0 {
        None
    } else {
        match first_cyclic(s, k - 1) {
            Some(i) => Some(i),
            None => if cyclic_at(s, k - 1) {
                Some(k - 1)
            } else {
                None
            },
        }
    }
}

/// What validation reports for `s`: `None` when the trace is well formed, else
/// the message of the first failure. Checks run in three passes over the spans
/// in order: repeated ids and inverted intervals, then missing parents, then
/// cycles.
pub open spec fn validation_failure(s: Seq<Span>) -> Option<Seq<char>> {
    match first_bad_span(s, s.len() as int) {
        Some(i) => Some(
            if duplicate_at(s, i) {
                "duplicate span id "@ + decimal(s[i].id as nat)
            } else {
                "span "@ + decimal(s[i].id as nat) + " ends before it starts"@
            },
        ),
        None => match first_missing_parent(s, s.len() as int) {
            Some(i) => Some(
                "span "@ + decimal(s[i].id as nat) + " references missing parent "@ + decimal(
                    s[i].parent->0 as nat,
                ),
            ),
            None => match first_cyclic(s, s.len() as int) {
                Some(i) => Some("cycle detected involving span "@ + decimal(s[i].id as nat)),
                None => None,
            },
        },
    }
}

/// The trace is structurally valid: unique ids, non-inverted intervals,
/// existing parents, and no cycles.
pub open spec fn is_valid(s: Seq<Span>) -> bool {
    validation_failure(s) is None
}

pub proof fn lemma_ancestor_none_stays(s: Seq<Span>, start: Option<SpanId>, k: nat, k2: nat)
    requires
        ancestor(s, start, k) is None,
        k <= k2,
    ensures
        ancestor(s, start, k2) is None,
    decreases k2 - k,
{
    if k < k2 {
        lemma_ancestor_none_stays(s, start, k, (k2 - 1) as nat);
    }
}

proof fn lemma_first_bad_span_stays(s: Seq<Span>, k: int, k2: int)
    requires
        k <= k2,
        first_bad_span(s, k) is Some,
    ensures
        first_bad_span(s, k2) == first_bad_span(s, k),
    decreases k2 - k,
{
    if k < k2 {
        lemma_first_bad_span_stays(s, k, k2 - 1);
    }
}

proof fn lemma_first_missing_parent_stays(s: Seq<Span>, k: int, k2: int)
    requires
        k <= k2,
        first_missing_parent(s, k) is Some,
    ensures
        first_missing_parent(s, k2) == first_missing_parent(s, k),
    decreases k2 - k,
{
    if k < k2 {
        lemma_first_missing_parent_stays(s, k, k2 - 1);
    }
}

proof fn lemma_first_cyclic_stays(s: Seq<Span>, k: int, k2: int)
    requires
        k <= k2,
        first_cyclic(s, k) is Some,
    ensures
        first_cyclic(s, k2) == first_cyclic(s, k),
    decreases k2 - k,
{
    if k < k2 {
        lemma_first_cyclic_stays(s, k, k2 - 1);
    }
}

impl Trace {
    pub fn new(spans: Vec<Span>) -> (t: Trace)
        ensures
            t.spans@ == spans@,
    {
        Trace { spans }
    }

    pub fn span_count(&self) -> (n: usize)
        ensures
            n == self.spans@.len(),
    {
        self.spans.len()
    }

    /// The first span with the given id, if present.
    pub fn span(&self, id: SpanId) -> (r: Option<&Span>)
        ensures
            match r {
                Some(sp) => exists|i: int| is_first_with_id(self.spans@, id, i) && *sp == self.spans@[i],
                None => !has_id(self.spans@, id),
            },
    {
        let mut i: usize = 0;
        while i < self.spans.len()
            invariant
                0 <= i <= self.spans@.len(),
                forall|j: int| 0 <= j < i ==> self.spans@[j].id != id,
            decreases self.spans@.len() - i,
        {
            if self.spans[i].id == id {
                assert(is_first_with_id(self.spans@, id, i as int));
                return Some(&self.spans[i]);
            }
            i = i + 1;
        }
        None
    }

    /// The total wall-clock span of the trace: latest end minus earliest start.
    pub fn total_duration_ns(&self) -> (d: u64)
        ensures
            d == total_duration(self.spans@),
    {
        let n = self.spans.len();
        if n == 0 {
            return 0;
        }
        let mut min_s: u64 = self.spans[0].start_ns;
        let mut max_e: u64 = self.spans[0].end_ns;
        let mut i: usize = 1;
        assert(self.spans@.take(1).drop_last() =~= Seq::<Span>::empty());
        while i < n
            invariant
                n == self.spans@.len(),
                1 <= i <= n,
                min_s == min_start(self.spans@.take(i as int)),
                max_e == max_end(self.spans@.take(i as int)),
            decreases n - i,
        {
            let sp = &self.spans[i];
            assert(self.spans@.take(i + 1).drop_last() =~= self.spans@.take(i as int));
            if sp.start_ns <= min_s {
                min_s = sp.start_ns;
            }
            if sp.end_ns >= max_e {
                max_e = sp.end_ns;
            }
            i = i + 1;
        }
        assert(self.spans@.take(n as int) =~= self.spans@);
        if max_e >= min_s {
            max_e - min_s
        } else {
            0
        }
    }

    /// The parentless root spans, sorted by id for determinism (ties keep their
    /// order in the trace).
    pub fn roots(&self) -> (r: Vec<&Span>)
        ensures
            r@.map_values(|x: &Span| *x) == roots_of(self.spans@),
    {
        let n = self.spans.len();
        let mut out: Vec<&Span> = Vec::new();
        let mut i: usize = 0;
        while i < n
            invariant
                n == self.spans@.len(),
                0 <= i <= n,
                out@.map_values(|x: &Span| *x) == roots_of(self.spans@.take(i as int)),
            decreases n - i,
        {
            let sp = &self.spans[i];
            let ghost prev = out@.map_values(|x: &Span| *x);
            assert(self.spans@.take(i + 1).drop_last() =~= self.spans@.take(i as int));
            assert(self.spans@.take(i + 1).last() == *sp);
            proof {
                lemma_roots_sorted(self.spans@.take(i as int));
            }
            if sp.parent.is_none() {
                let mut p: usize = out.len();
                while p > 0 && out[p - 1].id > sp.id
                    invariant
                        0 <= p <= out@.len(),
                        prev == out@.map_values(|x: &Span| *x),
                        sorted_by_id(prev),
                        forall|k: int| p <= k < prev.len() ==> prev[k].id > sp.id,
                    decreases p,
                {
                    p = p - 1;
                }
                proof {
                    assert forall|k: int| 0 <= k < p implies prev[k].id <= sp.id by {
                        assert(prev[k].id <= prev[p - 1].id);
                    }
                    lemma_insert_by_id_at(prev, *sp, p as int);
                }
                out.insert(p, sp);
                assert(out@.map_values(|x: &Span| *x) =~= prev.insert(p as int, *sp));
            }
            i = i + 1;
        }
        assert(self.spans@.take(n as int) =~= self.spans@);
        out
    }

    /// Map from span id to span reference; an id carried by several spans maps
    /// to the last of them.
    pub fn index_by_id(&self) -> (m: HashMap<SpanId, &Span>)
        ensures
            forall|id: SpanId| #[trigger] m@.contains_key(id) <==> has_id(self.spans@, id),
            forall|id: SpanId|
                #[trigger] m@.contains_key(id) ==> *m@[id] == self.spans@[lookup(self.spans@, id)],
    {
        let n = self.spans.len();
        let mut m: HashMap<SpanId, &Span> = HashMap::new();
        let mut i: usize = 0;
        while i < n
            invariant
                n == self.spans@.len(),
                0 <= i <= n,
                forall|id: SpanId|
                    #[trigger] m@.contains_key(id) <==> exists|j: int|
                        0 <= j < i && self.spans@[j].id == id,
                forall|id: SpanId|
                    #[trigger] m@.contains_key(id) ==> exists|j: int|
                        0 <= j < i && self.spans@[j].id == id && *m@[id] == self.spans@[j] && (
                        forall|k: int| j < k < i ==> self.spans@[k].id != id),
            decreases n - i,
        {
            let sp = &self.spans[i];
            m.insert(sp.id, sp);
            proof {
                assert forall|id: SpanId| #[trigger] m@.contains_key(id) implies exists|j: int|
                    0 <= j < i + 1 && self.spans@[j].id == id && *m@[id] == self.spans@[j] && (
                    forall|k: int| j < k < i + 1 ==> self.spans@[k].id != id) by {
                    if id == sp.id {
                        assert(self.spans@[i as int].id == id);
                    } else {
                        let j = choose|j: int|
                            0 <= j < i && self.spans@[j].id == id && *m@[id] == self.spans@[j] && (
                            forall|k: int| j < k < i ==> self.spans@[k].id != id);
                        assert(forall|k: int| j < k < i + 1 ==> self.spans@[k].id != id);
                    }
                }
            }
            i = i + 1;
        }
        proof {
            assert forall|id: SpanId| #[trigger] m@.contains_key(id) implies *m@[id]
                == self.spans@[lookup(self.spans@, id)] by {
                let j = choose|j: int|
                    0 <= j < n && self.spans@[j].id == id && *m@[id] == self.spans@[j] && (
                    forall|k: int| j < k < n ==> self.spans@[k].id != id);
                lemma_lookup(self.spans@, id);
                lemma_last_unique(self.spans@, id, j, lookup(self.spans@, id));
            }
        }
        m
    }

    /// Map from a parent id to its child ids, each child list sorted for
    /// deterministic traversal.
    pub fn child_map(&self) -> (m: HashMap<SpanId, Vec<SpanId>>)
        ensures
            forall|p: SpanId| #[trigger] m@.contains_key(p) <==> has_child(self.spans@, p),
            forall|p: SpanId|
                #[trigger] m@.contains_key(p) ==> m@[p]@ == children_sorted(self.spans@, p),
    {
        let n = self.spans.len();
        let mut m: HashMap<SpanId, Vec<SpanId>> = HashMap::new();
        let mut i: usize = 0;
        while i < n
            invariant
                n == self.spans@.len(),
                0 <= i <= n,
                forall|p: SpanId|
                    #[trigger] m@.contains_key(p) <==> has_child(self.spans@.take(i as int), p),
                forall|p: SpanId|
                    #[trigger] m@.contains_key(p) ==> m@[p]@ == children_sorted(
                        self.spans@.take(i as int),
                        p,
                    ),
            decreases n - i,
        {
            let sp = &self.spans[i];
            let ghost pre = self.spans@.take(i as int);
            let ghost post = self.spans@.take(i + 1);
            assert(post.drop_last() =~= pre);
            assert(post.last() == *sp);
            assert forall|p: SpanId| has_child(pre, p) implies has_child(post, p) by {
                let j = choose|j: int| 0 <= j < pre.len() && pre[j].parent == Some(p);
                assert(post[j] == pre[j]);
            }
            assert forall|p: SpanId| has_child(post, p) && sp.parent != Some(p) implies has_child(pre, p) by {
                let j = choose|j: int| 0 <= j < post.len() && post[j].parent == Some(p);
                assert(j < pre.len());
                assert(post[j] == pre[j]);
            }
            match sp.parent {
                Some(p) => {
                    let mut list: Vec<SpanId> = match m.remove(&p) {
                        Some(v) => v,
                        None => Vec::new(),
                    };
                    let ghost before = list@;
                    proof {
                        if !has_child(pre, p) {
                            lemma_children_sorted_empty(pre, p);
                        }
                    }
                    assert(before == children_sorted(pre, p));
                    proof { lemma_children_sorted_ascending(pre, p); }
                    let mut q: usize = list.len();
                    while q > 0 && list[q - 1] > sp.id
                        invariant
                            0 <= q <= list@.len(),
                            list@ == before,
                            ascending(before),
                            forall|k: int| q <= k < before.len() ==> before[k] > sp.id,
                        decreases q,
                    {
                        q = q - 1;
                    }
                    proof {
                        assert forall|k: int| 0 <= k < q implies before[k] <= sp.id by {
                            assert(before[k] <= before[q - 1]);
                        }
                        lemma_insert_sorted_at(before, sp.id, q as int);
                    }
                    list.insert(q, sp.id);
                    assert(post[i as int].parent == Some(p));
                    m.insert(p, list);
                },
                None => {},
            }
            i = i + 1;
        }
        assert(self.spans@.take(n as int) =~= self.spans@);
        m
    }

    /// Whether every span has an id of its own.
    pub fn has_unique_ids(&self) -> (r: bool)
        ensures
            r == unique_ids(self.spans@),
    {
        let ghost s = self.spans@;
        let n = self.spans.len();
        let mut ids: HashSet<SpanId> = HashSet::new();
        let mut i: usize = 0;
        while i < n
            invariant
                s == self.spans@,
                n == s.len(),
                0 <= i <= n,
                forall|a: int, b: int| 0 <= a < i && 0 <= b < i && s[a].id == s[b].id ==> a == b,
                forall|id: SpanId| #[trigger] ids@.contains(id) <==> exists|j: int|
                    0 <= j < i && s[j].id == id,
            decreases n - i,
        {
            let sp = &self.spans[i];
            let fresh = ids.insert(sp.id);
            if !fresh {
                proof {
                    let j = choose|j: int| 0 <= j < i && s[j].id == sp.id;
                    assert(s[j].id == s[i as int].id && j != i);
                }
                return false;
            }
            i = i + 1;
        }
        true
    }

    /// Validates structural integrity: unique ids, non-inverted intervals,
    /// existing parents, and absence of cycles.
    pub fn validate(&self) -> (r: Result<(), CoreError>)
        ensures
            r is Ok <==> is_valid(self.spans@),
            r matches Err(e) ==> (e matches CoreError::Validation(msg) && Some(msg@)
                == validation_failure(self.spans@)),
    {
        let ghost s = self.spans@;
        let n = self.spans.len();
        let mut ids: HashSet<SpanId> = HashSet::new();
        let mut i: usize = 0;
        while i < n
            invariant
                s == self.spans@,
                n == s.len(),
                0 <= i <= n,
                first_bad_span(s, i as int) is None,
                forall|id: SpanId| #[trigger] ids@.contains(id) <==> exists|j: int|
                    0 <= j < i && s[j].id == id,
            decreases n - i,
        {
            let sp = &self.spans[i];
            let fresh = ids.insert(sp.id);
            if !fresh {
                assert(duplicate_at(s, i as int));
                assert(first_bad_span(s, i + 1) == Some(i as int));
                proof { lemma_first_bad_span_stays(s, i + 1, n as int); }
                let mut msg = "duplicate span id ".to_owned();
                msg.append(decimal_text(sp.id).as_str());
                return Err(CoreError::Validation(msg));
            }
            assert(!duplicate_at(s, i as int));
            if sp.end_ns < sp.start_ns {
                assert(first_bad_span(s, i + 1) == Some(i as int));
                proof { lemma_first_bad_span_stays(s, i + 1, n as int); }
                let mut msg = "span ".to_owned();
                msg.append(decimal_text(sp.id).as_str());
                msg.append(" ends before it starts");
                return Err(CoreError::Validation(msg));
            }
            i = i + 1;
        }
        assert forall|id: SpanId| #[trigger] ids@.contains(id) <==> has_id(s, id) by {}

        let mut i: usize = 0;
        while i < n
            invariant
                s == self.spans@,
                n == s.len(),
                0 <= i <= n,
                first_bad_span(s, n as int) is None,
                first_missing_parent(s, i as int) is None,
                forall|id: SpanId| #[trigger] ids@.contains(id) <==> has_id(s, id),
            decreases n - i,
        {
            let sp = &self.spans[i];
            if let Some(parent) = sp.parent {
                if !ids.contains(&parent) {
                    assert(missing_parent_at(s, i as int));
                    assert(first_missing_parent(s, i + 1) == Some(i as int));
                    proof { lemma_first_missing_parent_stays(s, i + 1, n as int); }
                    let mut msg = "span ".to_owned();
                    msg.append(decimal_text(sp.id).as_str());
                    msg.append(" references missing parent ");
                    msg.append(decimal_text(parent).as_str());
                    return Err(CoreError::Validation(msg));
                }
            }
            i = i + 1;
        }

        let by_id = self.index_by_id();
        let mut i: usize = 0;
        while i < n
            invariant
                s == self.spans@,
                n == s.len(),
                0 <= i <= n,
                first_bad_span(s, n as int) is None,
                first_missing_parent(s, n as int) is None,
                first_cyclic(s, i as int) is None,
                forall|id: SpanId| #[trigger] by_id@.contains_key(id) <==> has_id(s, id),
                forall|id: SpanId|
                    #[trigger] by_id@.contains_key(id) ==> *by_id@[id] == s[lookup(s, id)],
            decreases n - i,
        {
            let sp = &self.spans[i];
            let mut steps: usize = 0;
            let mut current: Option<SpanId> = sp.parent;
            loop
                invariant_except_break
                    s == self.spans@,
                    n == s.len(),
                    0 <= i < n,
                    *sp == s[i as int],
                    steps <= n,
                    first_bad_span(s, n as int) is None,
                    first_missing_parent(s, n as int) is None,
                    first_cyclic(s, i as int) is None,
                    current == ancestor(s, s[i as int].parent, steps as nat),
                    forall|id: SpanId| #[trigger] by_id@.contains_key(id) <==> has_id(s, id),
                    forall|id: SpanId|
                        #[trigger] by_id@.contains_key(id) ==> *by_id@[id] == s[lookup(s, id)],
                ensures
                    ancestor(s, s[i as int].parent, steps as nat) is None,
                    steps <= n,
                decreases n - steps,
            {
                match current {
                    None => break,
                    Some(parent_id) => {
                        if steps >= n {
                            assert(cyclic_at(s, i as int));
                            assert(first_cyclic(s, i + 1) == Some(i as int));
                            proof { lemma_first_cyclic_stays(s, i + 1, n as int); }
                            let mut msg = "cycle detected involving span ".to_owned();
                            msg.append(decimal_text(sp.id).as_str());
                            return Err(CoreError::Validation(msg));
                        }
                        steps = steps + 1;
                        current = match by_id.get(&parent_id) {
                            Some(p) => p.parent,
                            None => None,
                        };
                    },
                }
            }
            proof {
                lemma_ancestor_none_stays(s, s[i as int].parent, steps as nat, n as nat);
            }
            assert(!cyclic_at(s, i as int));
            i = i + 1;
        }
        Ok(())
    }
}

} // verus!
