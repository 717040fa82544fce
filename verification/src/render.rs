//! The text rendering of an analysis: the counts at its head and the
//! bottleneck, critical-path and flamegraph sections below the latencies.

use vstd::prelude::*;

use crate::critical_path::CriticalSpan;
use crate::flamegraph::FoldedStack;
use crate::order::names_view;
use crate::report::Bottleneck;
use crate::text::{decimal, decimal_text};

verus! {

/// `s` padded with spaces on the right to at least `width` characters.
pub open spec fn pad_right(s: Seq<char>, width: nat) -> Seq<char> {
    if s.len() >= width {
        s
    } else {
        s + Seq::new((width - s.len()) as nat, |i: int| ' ')
    }
}

/// The names joined with `sep` between neighbours.
pub open spec fn join(names: Seq<Seq<char>>, sep: Seq<char>) -> Seq<char>
    decreases names.len(),
{
    if names.len() == 0 {
        seq![]
    } else if names.len() == 1 {
        names[0]
    } else {
        join(names.drop_last(), sep) + sep + names.last()
    }
}

/// One bottleneck line: the name left-aligned in 16 columns, then its self time.
pub open spec fn bottleneck_line(b: (Seq<char>, u64)) -> Seq<char> {
    "  "@ + pad_right(b.0, 16) + " "@ + decimal(b.1 as nat) + " ns\n"@
}

/// One critical-path line: the name and the duration.
pub open spec fn path_line(c: (u64, Seq<char>, u64)) -> Seq<char> {
    "  "@ + c.1 + " ("@ + decimal(c.2 as nat) + " ns)\n"@
}

/// One flamegraph line: the stack joined with `;`, then its self time.
pub open spec fn flame_line(f: (Seq<Seq<char>>, u64)) -> Seq<char> {
    "  "@ + join(f.0, ";"@) + " "@ + decimal(f.1 as nat) + "\n"@
}

/// The bottleneck lines, one per entry.
pub open spec fn bottleneck_lines(bs: Seq<(Seq<char>, u64)>) -> Seq<char>
    decreases bs.len(),
{
    if bs.len() == 0 {
        seq![]
    } else {
        bottleneck_lines(bs.drop_last()) + bottleneck_line(bs.last())
    }
}

/// The critical-path lines, one per entry.
pub open spec fn path_lines(cs: Seq<(u64, Seq<char>, u64)>) -> Seq<char>
    decreases cs.len(),
{
    if cs.len() == 0 {
        seq![]
    } else {
        path_lines(cs.drop_last()) + path_line(cs.last())
    }
}

/// The flamegraph lines, one per entry.
pub open spec fn flame_lines(fs: Seq<(Seq<Seq<char>>, u64)>) -> Seq<char>
    decreases fs.len(),
{
    if fs.len() == 0 {
        seq![]
    } else {
        flame_lines(fs.drop_last()) + flame_line(fs.last())
    }
}

/// The head of the report: the span count and the total duration.
pub open spec fn head_text(span_count: nat, total_duration_ns: nat) -> Seq<char> {
    "Spans: "@ + decimal(span_count) + "\n"@ + "Total duration: "@ + decimal(total_duration_ns) + " ns\n"@
}

/// The sections of the report: the top five bottlenecks, the critical path and
/// the folded stacks.
pub open spec fn sections_text(
    bs: Seq<(Seq<char>, u64)>,
    cs: Seq<(u64, Seq<char>, u64)>,
    fs: Seq<(Seq<Seq<char>>, u64)>,
) -> Seq<char> {
    "\nTop bottlenecks (self time):\n"@ + bottleneck_lines(bs.take(if bs.len() < 5 { bs.len() as int } else { 5 }))
        + "\nCritical path:\n"@ + path_lines(cs) + "\nFlamegraph (folded self time):\n"@ + flame_lines(fs)
}

/// Appends `count` spaces.
fn push_spaces(out: &mut String, count: usize)
    ensures
        final(out)@ == old(out)@ + Seq::new(count as nat, |i: int| ' '),
{
    let mut k: usize = 0;
    while k < count
        invariant
            0 <= k <= count,
            out@ == old(out)@ + Seq::new(k as nat, |i: int| ' '),
        decreases count - k,
    {
        out.append(" ");
        proof {
            reveal_strlit(" ");
        }
        assert(old(out)@ + Seq::new((k + 1) as nat, |i: int| ' ') =~= old(out)@ + Seq::new(k as nat, |i: int| ' ') + " "@);
        k = k + 1;
    }
}

/// Appends the names joined with `;`.
fn push_joined(out: &mut String, names: &Vec<String>)
    ensures
        final(out)@ == old(out)@ + join(names_view(names@), ";"@),
{
    let ghost nv = names_view(names@);
    let mut k: usize = 0;
    assert(nv.take(0) =~= Seq::<Seq<char>>::empty());
    assert(old(out)@ + join(nv.take(0), ";"@) =~= old(out)@);
    while k < names.len()
        invariant
            nv == names_view(names@),
            0 <= k <= names@.len(),
            out@ == old(out)@ + join(nv.take(k as int), ";"@),
        decreases names@.len() - k,
    {
        let ghost before = out@;
        if k > 0 {
            out.append(";");
        }
        out.append(names[k].as_str());
        proof {
            let t = nv.take(k + 1);
            assert(t.drop_last() =~= nv.take(k as int));
            assert(t.last() == names@[k as int]@);
            if k == 0 {
                assert(join(t, ";"@) == t[0]);
                assert(out@ =~= old(out)@ + join(t, ";"@));
            } else {
                assert(out@ =~= old(out)@ + join(t, ";"@));
            }
        }
        k = k + 1;
    }
    assert(nv.take(names@.len() as int) =~= nv);
}

/// The head of the report: the span count and the total duration.
pub fn format_head(span_count: usize, total_duration_ns: u64) -> (r: String)
    ensures
        r@ == head_text(span_count as nat, total_duration_ns as nat),
{
    let mut out = "Spans: ".to_owned();
    out.append(decimal_text(span_count as u64).as_str());
    out.append("\n");
    out.append("Total duration: ");
    out.append(decimal_text(total_duration_ns).as_str());
    out.append(" ns\n");
    out
}

/// The sections of the report below the latencies: the top five bottlenecks,
/// the critical path, and the folded stacks.
pub fn format_sections(
    bottlenecks: &Vec<Bottleneck>,
    critical_path: &Vec<CriticalSpan>,
    flame: &Vec<FoldedStack>,
) -> (r: String)
    ensures
        r@ == sections_text(
            bottlenecks@.map_values(|b: Bottleneck| b@),
            critical_path@.map_values(|c: CriticalSpan| c@),
            flame@.map_values(|f: FoldedStack| f@),
        ),
{
    let ghost bv = bottlenecks@.map_values(|b: Bottleneck| b@);
    let ghost cv = critical_path@.map_values(|c: CriticalSpan| c@);
    let ghost fv = flame@.map_values(|f: FoldedStack| f@);

    let mut out = "\nTop bottlenecks (self time):\n".to_owned();
    let ghost head = out@;
    let top = if bottlenecks.len() < 5 { bottlenecks.len() } else { 5 };
    let mut i: usize = 0;
    assert(bv.take(0) =~= Seq::<(Seq<char>, u64)>::empty());
    assert(out@ =~= head + bottleneck_lines(bv.take(0)));
    while i < top
        invariant
            bv == bottlenecks@.map_values(|b: Bottleneck| b@),
            top <= bottlenecks@.len(),
            0 <= i <= top,
            out@ == head + bottleneck_lines(bv.take(i as int)),
        decreases top - i,
    {
        let b = &bottlenecks[i];
        let ghost before = out@;
        out.append("  ");
        out.append(b.name.as_str());
        let width = b.name.as_str().unicode_len();
        if width < 16 {
            push_spaces(&mut out, 16 - width);
        }
        out.append(" ");
        out.append(decimal_text(b.self_ns).as_str());
        out.append(" ns\n");
        proof {
            assert(bv.take(i + 1).drop_last() =~= bv.take(i as int));
            assert(bv.take(i + 1).last() == b@);
            assert(out@ =~= before + bottleneck_line(b@));
        }
        i = i + 1;
    }

    let ghost mid = out@;
    out.append("\nCritical path:\n");
    let ghost head2 = out@;
    let mut j: usize = 0;
    assert(cv.take(0) =~= Seq::<(u64, Seq<char>, u64)>::empty());
    while j < critical_path.len()
        invariant
            cv == critical_path@.map_values(|c: CriticalSpan| c@),
            0 <= j <= critical_path@.len(),
            out@ == head2 + path_lines(cv.take(j as int)),
        decreases critical_path@.len() - j,
    {
        let c = &critical_path[j];
        let ghost before = out@;
        out.append("  ");
        out.append(c.name.as_str());
        out.append(" (");
        out.append(decimal_text(c.duration_ns).as_str());
        out.append(" ns)\n");
        proof {
            assert(cv.take(j + 1).drop_last() =~= cv.take(j as int));
            assert(cv.take(j + 1).last() == c@);
            assert(out@ =~= before + path_line(c@));
        }
        j = j + 1;
    }
    assert(cv.take(critical_path@.len() as int) =~= cv);

    let ghost mid2 = out@;
    out.append("\nFlamegraph (folded self time):\n");
    let ghost head3 = out@;
    let mut k: usize = 0;
    assert(fv.take(0) =~= Seq::<(Seq<Seq<char>>, u64)>::empty());
    while k < flame.len()
        invariant
            fv == flame@.map_values(|f: FoldedStack| f@),
            0 <= k <= flame@.len(),
            out@ == head3 + flame_lines(fv.take(k as int)),
        decreases flame@.len() - k,
    {
        let f = &flame[k];
        let ghost before = out@;
        out.append("  ");
        push_joined(&mut out, &f.stack);
        out.append(" ");
        out.append(decimal_text(f.self_ns).as_str());
        out.append("\n");
        proof {
            assert(fv.take(k + 1).drop_last() =~= fv.take(k as int));
            assert(fv.take(k + 1).last() == f@);
            assert(out@ =~= before + flame_line(f@));
        }
        k = k + 1;
    }
    assert(fv.take(flame@.len() as int) =~= fv);
    assert(out@ =~= sections_text(bv, cv, fv));
    out
}

} // verus!
