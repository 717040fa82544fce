//! Bottleneck ranking: self time aggregated by span name, ranked descending.

use vstd::prelude::*;

use crate::flamegraph::FoldedStack;
use crate::order::{
    Order, compare_names, name_lt, lemma_name_lt_transitive,
    lemma_name_lt_total,
};
use crate::span::Span;
use crate::trace::Trace;

verus! {

/// A named self-time contributor.
#[derive(Debug, Clone, PartialEq, Eq)]
pub struct Bottleneck {
    pub name: String,
    pub self_ns: u64,
}

impl View for Bottleneck {
    /// The name and its total self time.
    type V = (Seq<char>, u64);

    open spec fn view(&self) -> (Seq<char>, u64) {
        (self.name@, self.self_ns)
    }
}

/// Adds the self time of a folded stack to the total of its innermost name;
/// an empty stack adds nothing.
pub open spec fn add_to_name(m: Map<Seq<char>, int>, f: (Seq<Seq<char>>, u64)) -> Map<Seq<char>, int> {
    if f.0.len() == 0 {
        m
    } else {
        m.insert(f.0.last(), (if m.contains_key(f.0.last()) { m[f.0.last()] } else { 0 }) + f.1)
    }
}

/// Total self time per innermost span name over the folded stacks.
pub open spec fn name_totals(fs: Seq<(Seq<Seq<char>>, u64)>) -> Map<Seq<char>, int>
    decreases fs.len(),
{
    if fs.len() == 0 {
        Map::empty()
    } else {
        add_to_name(name_totals(fs.drop_last()), fs.last())
    }
}

/// Every total fits in a `u64`.
pub open spec fn names_bounded(m: Map<Seq<char>, int>) -> bool {
    forall|k: Seq<char>| #[trigger] m.contains_key(k) ==> m[k] <= u64::MAX
}

/// `a` ranks before `b`: more self time, or as much with a smaller name.
pub open spec fn ranks_before(a: (Seq<char>, u64), b: (Seq<char>, u64)) -> bool {
    a.1 > b.1 || (a.1 == b.1 && name_lt(a.0, b.0))
}

/// `out` lists the totals of `m`, one entry per name, in strictly decreasing
/// rank.
pub open spec fn ranks_totals(out: Seq<(Seq<char>, u64)>, m: Map<Seq<char>, int>) -> bool {
    &&& forall|i: int, j: int| 0 <= i < j < out.len() ==> ranks_before(out[i], out[j])
    &&& forall|i: int| 0 <= i < out.len() ==> m.contains_key(#[trigger] out[i].0) && m[out[i].0] == out[i].1
    &&& forall|k: Seq<char>| #[trigger] m.contains_key(k) ==> exists|i: int| 0 <= i < out.len() && out[i].0 == k
}

proof fn lemma_ranks_before_transitive(a: (Seq<char>, u64), b: (Seq<char>, u64), c: (Seq<char>, u64))
    requires
        ranks_before(a, b),
        ranks_before(b, c),
    ensures
        ranks_before(a, c),
{
    if a.1 == b.1 && b.1 == c.1 {
        lemma_name_lt_transitive(a.0, b.0, c.0);
    }
}

proof fn lemma_ranks_before_total(a: (Seq<char>, u64), b: (Seq<char>, u64))
    requires
        a.0 != b.0,
    ensures
        ranks_before(a, b) || ranks_before(b, a),
{
    lemma_name_lt_total(a.0, b.0);
}

/// Entries are in strictly decreasing rank.
pub open spec fn ranked(o: Seq<(Seq<char>, u64)>) -> bool {
    forall|x: int, y: int| 0 <= x < y < o.len() ==> ranks_before(o[x], o[y])
}

/// No two entries share a name.
pub open spec fn distinct_names(o: Seq<(Seq<char>, u64)>) -> bool {
    forall|x: int, y: int| 0 <= x < y < o.len() ==> o[x].0 != o[y].0
}

/// The two sequences hold the same entries.
pub open spec fn same_entries(o: Seq<(Seq<char>, u64)>, a: Seq<(Seq<char>, u64)>) -> bool {
    &&& forall|x: int| 0 <= x < o.len() ==> a.contains(#[trigger] o[x])
    &&& forall|y: int| 0 <= y < a.len() ==> o.contains(#[trigger] a[y])
}

proof fn lemma_fresh_name(av: Seq<(Seq<char>, u64)>, j: int, ov: Seq<(Seq<char>, u64)>)
    requires
        0 <= j < av.len(),
        distinct_names(av),
        same_entries(ov, av.take(j)),
    ensures
        forall|x: int| 0 <= x < ov.len() ==> (#[trigger] ov[x]).0 != av[j].0,
{
    assert forall|x: int| 0 <= x < ov.len() implies (#[trigger] ov[x]).0 != av[j].0 by {
        assert(av.take(j).contains(ov[x]));
        let a = choose|a: int| 0 <= a < av.take(j).len() && av.take(j)[a] == ov[x];
        assert(av[a] == ov[x]);
    }
}

proof fn lemma_insert_ranked(ov: Seq<(Seq<char>, u64)>, e: (Seq<char>, u64), p: int)
    requires
        ranked(ov),
        0 <= p <= ov.len(),
        forall|x: int| 0 <= x < p ==> ranks_before(#[trigger] ov[x], e),
        p < ov.len() ==> ranks_before(e, ov[p]),
    ensures
        ranked(ov.insert(p, e)),
{
    let nv = ov.insert(p, e);
    assert forall|x: int, y: int| 0 <= x < y < nv.len() implies ranks_before(nv[x], nv[y]) by {
        if y < p {
        } else if y == p {
        } else if x < p {
            if y - 1 > p {
                lemma_ranks_before_transitive(e, ov[p], ov[y - 1]);
            }
            lemma_ranks_before_transitive(ov[x], e, ov[y - 1]);
        } else if x == p {
            if y - 1 > p {
                lemma_ranks_before_transitive(e, ov[p], ov[y - 1]);
            }
        } else {
        }
    }
}

proof fn lemma_same_entries_insert(ov: Seq<(Seq<char>, u64)>, av: Seq<(Seq<char>, u64)>, j: int, p: int)
    requires
        0 <= j < av.len(),
        0 <= p <= ov.len(),
        same_entries(ov, av.take(j)),
    ensures
        same_entries(ov.insert(p, av[j]), av.take(j + 1)),
{
    let nv = ov.insert(p, av[j]);
    let t = av.take(j + 1);
    assert forall|x: int| 0 <= x < nv.len() implies t.contains(#[trigger] nv[x]) by {
        if x == p {
            assert(t[j] == av[j]);
        } else {
            let x0 = if x < p { x } else { x - 1 };
            assert(nv[x] == ov[x0]);
            assert(av.take(j).contains(ov[x0]));
            let a = choose|a: int| 0 <= a < av.take(j).len() && av.take(j)[a] == ov[x0];
            assert(t[a] == ov[x0]);
        }
    }
    assert forall|y: int| 0 <= y < t.len() implies nv.contains(#[trigger] t[y]) by {
        if y == j {
            assert(nv[p] == av[j]);
        } else {
            assert(t[y] == av.take(j)[y]);
            assert(ov.contains(av.take(j)[y]));
            let x = choose|x: int| 0 <= x < ov.len() && ov[x] == av.take(j)[y];
            if x < p {
                assert(nv[x] == ov[x]);
            } else {
                assert(nv[x + 1] == ov[x]);
            }
        }
    }
}

proof fn lemma_name_totals_grows(fs: Seq<(Seq<Seq<char>>, u64)>, k: int)
    requires
        0 <= k <= fs.len(),
    ensures
        forall|x: Seq<char>| #[trigger] name_totals(fs.take(k)).contains_key(x) ==> name_totals(fs).contains_key(x)
            && name_totals(fs.take(k))[x] <= name_totals(fs)[x],
    decreases fs.len() - k,
{
    if k < fs.len() {
        lemma_name_totals_grows(fs, k + 1);
        assert(fs.take(k + 1).drop_last() =~= fs.take(k));
        let a = name_totals(fs.take(k));
        let b = name_totals(fs.take(k + 1));
        assert(b == add_to_name(a, fs.take(k + 1).last()));
        assert forall|x: Seq<char>| #[trigger] a.contains_key(x) implies b.contains_key(x) && a[x] <= b[x] by {}
    } else {
        assert(fs.take(k) =~= fs);
    }
}

/// Aggregates self time by innermost span name and ranks the names by
/// descending self time, then ascending name.
pub fn rank_bottlenecks(flame: &Vec<FoldedStack>) -> (out: Vec<Bottleneck>)
    requires
        names_bounded(name_totals(flame@.map_values(|f: FoldedStack| f@))),
    ensures
        ranks_totals(out@.map_values(|b: Bottleneck| b@), name_totals(flame@.map_values(|f: FoldedStack| f@))),
{
    try_rank_bottlenecks(flame).unwrap()
}

/// Ranks the bottlenecks as `rank_bottlenecks` does, or returns `None` when
/// some name's total self time does not fit in a `u64`.
pub fn try_rank_bottlenecks(flame: &Vec<FoldedStack>) -> (r: Option<Vec<Bottleneck>>)
    ensures
        r is Some <==> names_bounded(name_totals(flame@.map_values(|f: FoldedStack| f@))),
        r matches Some(out) ==> ranks_totals(out@.map_values(|b: Bottleneck| b@), name_totals(flame@.map_values(|f: FoldedStack| f@))),
{
    let ghost fs = flame@.map_values(|f: FoldedStack| f@);
    let n = flame.len();

    // Aggregate self time by span name.
    let mut agg: Vec<Bottleneck> = Vec::new();
    let mut i: usize = 0;
    while i < n
        invariant
            fs == flame@.map_values(|f: FoldedStack| f@),
            n == fs.len(),
            0 <= i <= n,
            forall|a: int, b: int| 0 <= a < b < agg@.len() ==> agg@[a].name@ != agg@[b].name@,
            forall|a: int| 0 <= a < agg@.len() ==> name_totals(fs.take(i as int)).contains_key(#[trigger] agg@[a]@.0)
                && name_totals(fs.take(i as int))[agg@[a]@.0] == agg@[a]@.1,
            forall|k: Seq<char>| #[trigger] name_totals(fs.take(i as int)).contains_key(k) ==> exists|a: int|
                0 <= a < agg@.len() && agg@[a]@.0 == k,
        decreases n - i,
    {
        let ghost m0 = name_totals(fs.take(i as int));
        assert(fs.take(i + 1).drop_last() =~= fs.take(i as int));
        assert(fs.take(i + 1).last() == flame@[i as int]@);
        let stack = &flame[i].stack;
        let self_ns = flame[i].self_ns;
        if stack.len() > 0 {
            let name = &stack[stack.len() - 1];
            let ghost key = name@;
            assert(flame@[i as int]@.0.last() == key);
            let ghost m1 = name_totals(fs.take(i + 1));
            proof {
                lemma_name_totals_grows(fs, i + 1);
                assert(m1.contains_key(key));
            }
            let mut a: usize = 0;
            let mut found = false;
            while a < agg.len()
                invariant_except_break
                    !found,
                    name@ == key,
                    0 <= a <= agg@.len(),
                    forall|b: int| 0 <= b < a ==> agg@[b].name@ != key,
                ensures
                    0 <= a <= agg@.len(),
                    forall|b: int| 0 <= b < a ==> agg@[b].name@ != key,
                    found ==> a < agg@.len() && agg@[a as int].name@ == key,
                    !found ==> a == agg@.len(),
                decreases agg@.len() - a,
            {
                if agg[a].name == *name {
                    found = true;
                    break;
                }
                a = a + 1;
            }
            if found {
                let ghost before = agg@;
                assert(agg@[a as int]@.0 == key);
                assert(m0.contains_key(key));
                let total = match agg[a].self_ns.checked_add(self_ns) {
                    Some(t) => t,
                    None => {
                        assert(m1[key] == m0[key] + self_ns);
                        assert(!names_bounded(name_totals(fs))) by {
                            assert(fs.take(n as int) =~= fs);
                            assert(name_totals(fs).contains_key(key));
                        }
                        return None;
                    },
                };
                let entry = Bottleneck { name: name.clone(), self_ns: total };
                agg.set(a, entry);
                proof {
                    assert forall|b: int| 0 <= b < agg@.len() implies m1.contains_key(#[trigger] agg@[b]@.0)
                        && m1[agg@[b]@.0] == agg@[b]@.1 by {
                        if b != a {
                            assert(agg@[b] == before[b]);
                        }
                    }
                    assert forall|k: Seq<char>| #[trigger] m1.contains_key(k) implies exists|b: int|
                        0 <= b < agg@.len() && agg@[b]@.0 == k by {
                        if k == key {
                            assert(agg@[a as int]@.0 == k);
                        } else {
                            let b = choose|b: int| 0 <= b < before.len() && before[b]@.0 == k;
                            assert(agg@[b]@.0 == k);
                        }
                    }
                }
            } else {
                let ghost before = agg@;
                assert(!m0.contains_key(key));
                let entry = Bottleneck { name: name.clone(), self_ns };
                agg.push(entry);
                proof {
                    assert forall|b: int| 0 <= b < agg@.len() implies m1.contains_key(#[trigger] agg@[b]@.0)
                        && m1[agg@[b]@.0] == agg@[b]@.1 by {
                        if b < before.len() {
                            assert(agg@[b] == before[b]);
                        }
                    }
                    assert forall|k: Seq<char>| #[trigger] m1.contains_key(k) implies exists|b: int|
                        0 <= b < agg@.len() && agg@[b]@.0 == k by {
                        if k == key {
                            assert(agg@[before.len() as int]@.0 == k);
                        } else {
                            let b = choose|b: int| 0 <= b < before.len() && before[b]@.0 == k;
                            assert(agg@[b]@.0 == k);
                        }
                    }
                }
            }
        } else {
            assert(name_totals(fs.take(i + 1)) == m0);
        }
        i = i + 1;
    }
    assert(fs.take(n as int) =~= fs);
    let ghost m = name_totals(fs);
    assert(names_bounded(m)) by {
        assert forall|k: Seq<char>| #[trigger] m.contains_key(k) implies m[k] <= u64::MAX by {
            let a = choose|a: int| 0 <= a < agg@.len() && agg@[a]@.0 == k;
            assert(m.contains_key(agg@[a]@.0));
        }
    }
    let ghost av = agg@.map_values(|b: Bottleneck| b@);
    assert(distinct_names(av)) by {
        assert forall|x: int, y: int| 0 <= x < y < av.len() implies av[x].0 != av[y].0 by {
            assert(av[x] == agg@[x]@);
            assert(av[y] == agg@[y]@);
        }
    }
    assert(same_entries(Seq::<(Seq<char>, u64)>::empty(), av.take(0)));

    // Descending self time, then ascending name for stable ties.
    let mut out: Vec<Bottleneck> = Vec::new();
    let mut j: usize = 0;
    while j < agg.len()
        invariant
            av == agg@.map_values(|b: Bottleneck| b@),
            0 <= j <= av.len(),
            distinct_names(av),
            ranked(out@.map_values(|b: Bottleneck| b@)),
            same_entries(out@.map_values(|b: Bottleneck| b@), av.take(j as int)),
        decreases av.len() - j,
    {
        let ghost ov = out@.map_values(|b: Bottleneck| b@);
        let e = &agg[j];
        assert(e@ == av[j as int]);
        proof { lemma_fresh_name(av, j as int, ov); }
        let mut p: usize = 0;
        while p < out.len()
            invariant_except_break
                ov == out@.map_values(|b: Bottleneck| b@),
                0 <= p <= ov.len(),
                forall|x: int| 0 <= x < p ==> ranks_before(#[trigger] ov[x], e@),
                forall|x: int| 0 <= x < ov.len() ==> (#[trigger] ov[x]).0 != e@.0,
            ensures
                ov == out@.map_values(|b: Bottleneck| b@),
                0 <= p <= ov.len(),
                forall|x: int| 0 <= x < p ==> ranks_before(#[trigger] ov[x], e@),
                p < ov.len() ==> ranks_before(e@, ov[p as int]),
            decreases ov.len() - p,
        {
            let q = &out[p];
            assert(q@ == ov[p as int]);
            let before_q = if e.self_ns > q.self_ns {
                true
            } else if e.self_ns == q.self_ns {
                match compare_names(&e.name, &q.name) {
                    Order::Less => true,
                    _ => false,
                }
            } else {
                false
            };
            if before_q {
                break;
            }
            proof {
                lemma_ranks_before_total(ov[p as int], e@);
            }
            p = p + 1;
        }
        let entry = Bottleneck { name: e.name.clone(), self_ns: e.self_ns };
        out.insert(p, entry);
        proof {
            assert(out@.map_values(|b: Bottleneck| b@) =~= ov.insert(p as int, e@));
            lemma_insert_ranked(ov, e@, p as int);
            lemma_same_entries_insert(ov, av, j as int, p as int);
        }
        j = j + 1;
    }
    proof {
        assert(av.take(av.len() as int) =~= av);
        let ov = out@.map_values(|b: Bottleneck| b@);
        assert forall|x: int| 0 <= x < ov.len() implies m.contains_key(#[trigger] ov[x].0) && m[ov[x].0] == ov[x].1 by {
            assert(av.contains(ov[x]));
            let a = choose|a: int| 0 <= a < av.len() && av[a] == ov[x];
            assert(av[a] == agg@[a]@);
        }
        assert forall|k: Seq<char>| #[trigger] m.contains_key(k) implies exists|x: int| 0 <= x < ov.len() && ov[x].0 == k by {
            let a = choose|a: int| 0 <= a < agg@.len() && agg@[a]@.0 == k;
            assert(av[a] == agg@[a]@);
            assert(ov.contains(av[a]));
        }
    }
    Some(out)
}

/// The duration of every span, in trace order.
pub fn span_durations(trace: &Trace) -> (r: Vec<u64>)
    ensures
        r@ == trace.spans@.map_values(|s: Span| s.duration()),
{
    let mut r: Vec<u64> = Vec::new();
    let mut i: usize = 0;
    while i < trace.spans.len()
        invariant
            0 <= i <= trace.spans@.len(),
            r@ =~= trace.spans@.take(i as int).map_values(|s: Span| s.duration()),
        decreases trace.spans@.len() - i,
    {
        r.push(trace.spans[i].duration_ns());
        i = i + 1;
    }
    assert(trace.spans@.take(i as int) =~= trace.spans@);
    r
}

} // verus!
