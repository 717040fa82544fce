//! Critical-path analysis.
//!
//! The critical path is the chain of spans that gates total completion: starting
//! at the longest-running root, at each level we descend into the child that
//! *finishes last* (greatest end time), since that is what its parent waited on.
//! Ties break toward the smaller span id for determinism.

use std::collections::HashMap;
use vstd::prelude::*;

use crate::span::{Span, SpanId};
use crate::trace::{Trace, has_id, lookup, lemma_lookup};

verus! {

/// One span on the critical path.
#[derive(Debug, Clone, PartialEq, Eq)]
pub struct CriticalSpan {
    pub id: u64,
    pub name: String,
    pub duration_ns: u64,
}

impl View for CriticalSpan {
    /// Id, name and duration.
    type V = (u64, Seq<char>, u64);

    open spec fn view(&self) -> (u64, Seq<char>, u64) {
        (self.id, self.name@, self.duration_ns)
    }
}

/// Root `i` governs at least as much as root `j`: it runs longer, or as long
/// with an id no larger.
pub open spec fn root_at_least(s: Seq<Span>, i: int, j: int) -> bool {
    s[i].duration() > s[j].duration() || (s[i].duration() == s[j].duration() && s[i].id <= s[j].id)
}

/// The governing root among the first `k` spans: the longest-running
/// parentless span, ties to the smaller id (and, between spans sharing both,
/// to the later one).
pub open spec fn governing_root_upto(s: Seq<Span>, k: int) -> Option<int>
    decreases k,
{
    if k <= 0 {
        None
    } else {
        let b = governing_root_upto(s, k - 1);
        if s[k - 1].parent is None && (b is None || root_at_least(s, k - 1, b->0)) {
            Some(k - 1)
        } else {
            b
        }
    }
}

/// The governing root of the trace, if it has a root.
pub open spec fn governing_root(s: Seq<Span>) -> Option<int> {
    governing_root_upto(s, s.len() as int)
}

/// Span `a` finishes at least as late as span `b`: later end, or the same end
/// with an id no larger.
pub open spec fn finishes_at_least(s: Seq<Span>, a: int, b: int) -> bool {
    s[a].end_ns > s[b].end_ns || (s[a].end_ns == s[b].end_ns && s[a].id <= s[b].id)
}

/// Among the children of `pid` found in the first `k` spans (each child id
/// resolved to the span it looks up to), the one that finishes last.
pub open spec fn last_child_upto(s: Seq<Span>, pid: SpanId, k: int) -> Option<int>
    decreases k,
{
    if k <= 0 {
        None
    } else {
        let b = last_child_upto(s, pid, k - 1);
        if s[k - 1].parent == Some(pid) {
            let c = lookup(s, s[k - 1].id);
            if b is None || finishes_at_least(s, c, b->0) {
                Some(c)
            } else {
                b
            }
        } else {
            b
        }
    }
}

/// The child of `pid` that finishes last, if `pid` has children.
pub open spec fn last_child(s: Seq<Span>, pid: SpanId) -> Option<int> {
    last_child_upto(s, pid, s.len() as int)
}

/// The entry that a span contributes to a path.
pub open spec fn path_entry(sp: Span) -> (u64, Seq<char>, u64) {
    (sp.id, sp.name@, sp.duration())
}

/// The chain that starts at position `i` and keeps descending into the
/// last-finishing child, cut after `fuel` spans.
pub open spec fn path_from(s: Seq<Span>, i: int, fuel: nat) -> Seq<(u64, Seq<char>, u64)>
    decreases fuel,
{
    if fuel == 0 {
        seq![]
    } else {
        match last_child(s, s[i].id) {
            None => seq![path_entry(s[i])],
            Some(c) => seq![path_entry(s[i])] + path_from(s, c, (fuel - 1) as nat),
        }
    }
}

/// The descent from position `i` reaches a childless span within `fuel` spans.
pub open spec fn path_ends(s: Seq<Span>, i: int, fuel: nat) -> bool
    decreases fuel,
{
    fuel > 0 && match last_child(s, s[i].id) {
        None => true,
        Some(c) => path_ends(s, c, (fuel - 1) as nat),
    }
}

/// The descent from the governing root ends. A chain that ends visits each
/// span at most once, so one step more than there are spans always suffices;
/// one that does not end would revisit spans forever.
pub open spec fn critical_path_ends(s: Seq<Span>) -> bool {
    match governing_root(s) {
        None => true,
        Some(r) => path_ends(s, r, s.len() + 1),
    }
}

/// The critical path of the spans `s`, as (id, name, duration) entries.
pub open spec fn critical_path_of(s: Seq<Span>) -> Seq<(u64, Seq<char>, u64)> {
    match governing_root(s) {
        None => seq![],
        Some(r) => path_from(s, r, s.len() + 1),
    }
}

pub proof fn lemma_governing_root_bounds(s: Seq<Span>, k: int)
    requires
        k <= s.len(),
    ensures
        governing_root_upto(s, k) matches Some(r) ==> 0 <= r < k && s[r].parent is None,
    decreases k,
{
    if k > 0 {
        lemma_governing_root_bounds(s, k - 1);
    }
}

/// The position of the governing root, if the trace has a root.
fn governing_root_index(trace: &Trace) -> (r: Option<usize>)
    ensures
        r matches Some(b) ==> b < trace.spans@.len(),
        governing_root(trace.spans@) == match r {
            Some(b) => Some(b as int),
            None => None,
        },
{
    let ghost s = trace.spans@;
    let n = trace.spans.len();
    // The governing root is the longest-running one (ties: smaller id).
    let mut best: Option<usize> = None;
    let mut k: usize = 0;
    while k < n
        invariant
            s == trace.spans@,
            n == s.len(),
            0 <= k <= n,
            best matches Some(b) ==> b < n,
            governing_root_upto(s, k as int) == match best {
                Some(b) => Some(b as int),
                None => None,
            },
        decreases n - k,
    {
        let sp = &trace.spans[k];
        if sp.parent.is_none() {
            match best {
                None => {
                    best = Some(k);
                },
                Some(b) => {
                    let cur = &trace.spans[b];
                    let dk = sp.duration_ns();
                    let db = cur.duration_ns();
                    if dk > db || (dk == db && sp.id <= cur.id) {
                        best = Some(k);
                    }
                },
            }
        }
        k = k + 1;
    }
    best
}

/// The child of `cur` that finishes last (ties: smaller id), with its
/// position.
fn last_finishing_child<'a>(trace: &'a Trace, by_id: &HashMap<SpanId, &'a Span>, cur: &Span) -> (r: (Option<&'a Span>, Ghost<int>))
    requires
        forall|id: SpanId| #[trigger] by_id@.contains_key(id) <==> has_id(trace.spans@, id),
        forall|id: SpanId|
            #[trigger] by_id@.contains_key(id) ==> *by_id@[id] == trace.spans@[lookup(trace.spans@, id)],
    ensures
        last_child(trace.spans@, cur.id) == match r.0 {
            Some(_) => Some(r.1@),
            None => None,
        },
        r.0 matches Some(c) ==> (0 <= r.1@ < trace.spans@.len() && *c == trace.spans@[r.1@]),
{
    let ghost s = trace.spans@;
    let n = trace.spans.len();
    let mut next: Option<&Span> = None;
    let ghost mut next_i: int = 0;
    let mut k: usize = 0;
    while k < n
        invariant
            s == trace.spans@,
            n == s.len(),
            0 <= k <= n,
            forall|id: SpanId| #[trigger] by_id@.contains_key(id) <==> has_id(s, id),
            forall|id: SpanId|
                #[trigger] by_id@.contains_key(id) ==> *by_id@[id] == s[lookup(s, id)],
            last_child_upto(s, cur.id, k as int) == match next {
                Some(_) => Some(next_i),
                None => None,
            },
            next matches Some(c) ==> (0 <= next_i < n && *c == s[next_i]),
        decreases n - k,
    {
        let sp = &trace.spans[k];
        if sp.parent == Some(cur.id) {
            proof {
                assert(has_id(s, sp.id)) by {
                    assert(s[k as int].id == sp.id);
                }
                lemma_lookup(s, sp.id);
            }
            match by_id.get(&sp.id) {
                Some(c) => {
                    let c: &Span = *c;
                    match next {
                        None => {
                            next = Some(c);
                            proof { next_i = lookup(s, sp.id); }
                        },
                        Some(b) => {
                            if c.end_ns > b.end_ns || (c.end_ns == b.end_ns && c.id <= b.id) {
                                next = Some(c);
                                proof { next_i = lookup(s, sp.id); }
                            }
                        },
                    }
                },
                None => {},
            }
        }
        k = k + 1;
    }
    (next, Ghost(next_i))
}

/// Computes the critical path through the trace.
pub fn critical_path(trace: &Trace) -> (path: Vec<CriticalSpan>)
    requires
        critical_path_ends(trace.spans@),
    ensures
        path@.map_values(|c: CriticalSpan| c@) == critical_path_of(trace.spans@),
{
    let ghost s = trace.spans@;
    let n = trace.spans.len();
    let by_id = trace.index_by_id();
    let root = match governing_root_index(trace) {
        None => {
            return Vec::new();
        },
        Some(b) => b,
    };

    let mut path: Vec<CriticalSpan> = Vec::new();
    let mut cur: &Span = &trace.spans[root];
    let ghost mut cur_i: int = root as int;
    let ghost mut fuel: nat = (n + 1) as nat;
    loop
        invariant_except_break
            s == trace.spans@,
            n == s.len(),
            0 <= cur_i < n,
            *cur == s[cur_i],
            path_ends(s, cur_i, fuel),
            path@.map_values(|c: CriticalSpan| c@) + path_from(s, cur_i, fuel) == critical_path_of(s),
            forall|id: SpanId| #[trigger] by_id@.contains_key(id) <==> has_id(s, id),
            forall|id: SpanId|
                #[trigger] by_id@.contains_key(id) ==> *by_id@[id] == s[lookup(s, id)],
        ensures
            path@.map_values(|c: CriticalSpan| c@) == critical_path_of(s),
        decreases fuel,
    {
        let ghost before = path@.map_values(|c: CriticalSpan| c@);
        let entry = CriticalSpan { id: cur.id, name: cur.name.clone(), duration_ns: cur.duration_ns() };
        path.push(entry);
        assert(path@.map_values(|c: CriticalSpan| c@) =~= before.push(path_entry(s[cur_i])));

        // Descend into the last-finishing child (ties: smaller id).
        let (next, Ghost(next_i)) = last_finishing_child(trace, &by_id, cur);
        match next {
            Some(child) => {
                proof {
                    assert(path_from(s, cur_i, fuel) == seq![path_entry(s[cur_i])] + path_from(s, next_i, (fuel - 1) as nat));
                    assert(before.push(path_entry(s[cur_i])) + path_from(s, next_i, (fuel - 1) as nat)
                        =~= before + path_from(s, cur_i, fuel));
                    cur_i = next_i;
                    fuel = (fuel - 1) as nat;
                }
                cur = child;
            },
            None => {
                assert(path_from(s, cur_i, fuel) == seq![path_entry(s[cur_i])]);
                assert(before.push(path_entry(s[cur_i])) =~= before + path_from(s, cur_i, fuel));
                break;
            },
        }
    }
    path
}

/// Whether the descent from the governing root reaches a childless span:
/// exactly when `critical_path` may run.
pub fn critical_walk_ends(trace: &Trace) -> (r: bool)
    ensures
        r == critical_path_ends(trace.spans@),
{
    let ghost s = trace.spans@;
    let n = trace.spans.len();
    let by_id = trace.index_by_id();
    let root = match governing_root_index(trace) {
        None => {
            return true;
        },
        Some(b) => b,
    };
    let mut cur: &Span = &trace.spans[root];
    let ghost mut cur_i: int = root as int;
    let mut steps: usize = 0;
    loop
        invariant_except_break
            s == trace.spans@,
            n == s.len(),
            0 <= cur_i < n,
            *cur == s[cur_i],
            steps <= n,
            path_ends(s, cur_i, (n + 1 - steps) as nat) == critical_path_ends(s),
            forall|id: SpanId| #[trigger] by_id@.contains_key(id) <==> has_id(s, id),
            forall|id: SpanId|
                #[trigger] by_id@.contains_key(id) ==> *by_id@[id] == s[lookup(s, id)],
        ensures
            critical_path_ends(s),
        decreases n - steps,
    {
        let (next, Ghost(next_i)) = last_finishing_child(trace, &by_id, cur);
        match next {
            Some(child) => {
                if steps == n {
                    assert(path_ends(s, next_i, 0) == false);
                    return false;
                }
                proof {
                    cur_i = next_i;
                }
                cur = child;
                steps = steps + 1;
            },
            None => {
                break;
            },
        }
    }
    true
}

} // verus!
