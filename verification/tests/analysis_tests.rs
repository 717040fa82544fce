use tracescope::critical_path::critical_walk_ends;
use tracescope::flamegraph::{child_totals_fit, fold_walks_end, try_fold, FoldedStack};
use tracescope::percentile::sorted_samples;
use tracescope::render::{format_head, format_sections};
use tracescope::report::{span_durations, try_rank_bottlenecks};
use tracescope::Bottleneck;
use tracescope::{critical_path, fold, rank_bottlenecks, Span, Trace};

fn sample() -> Trace {
    Trace::new(vec![
        Span::new(1, "main", 0, 100, None),
        Span::new(2, "work", 0, 60, Some(1)),
        Span::new(3, "io", 60, 90, Some(1)),
        Span::new(4, "read", 60, 80, Some(3)),
    ])
}

fn self_of(folded: &[FoldedStack], path: &[&str]) -> Option<u64> {
    let target: Vec<String> = path.iter().map(|s| (*s).to_string()).collect();
    folded.iter().find(|f| f.stack == target).map(|f| f.self_ns)
}

#[test]
fn follows_last_finishing_children() {
    // main's children: work ends 60, io ends 90 -> io. io's child read -> read.
    let path = critical_path(&sample());
    let names: Vec<&str> = path.iter().map(|s| s.name.as_str()).collect();
    assert_eq!(names, vec!["main", "io", "read"]);
}

#[test]
fn empty_trace_has_empty_path() {
    assert!(critical_path(&Trace::new(vec![])).is_empty());
}

#[test]
fn self_times_sum_to_root_duration() {
    let folded = fold(&sample());
    // main: 100 - (work 60 + io 30) = 10
    assert_eq!(self_of(&folded, &["main"]), Some(10));
    // work: leaf -> 60
    assert_eq!(self_of(&folded, &["main", "work"]), Some(60));
    // io: 30 - (read 20) = 10
    assert_eq!(self_of(&folded, &["main", "io"]), Some(10));
    // read: leaf -> 20
    assert_eq!(self_of(&folded, &["main", "io", "read"]), Some(20));

    let total: u64 = folded.iter().map(|f| f.self_ns).sum();
    assert_eq!(total, 100);
}

#[test]
fn fold_orders_stacks_and_merges_repeats() {
    let trace = Trace::new(vec![
        Span::new(1, "b", 0, 10, None),
        Span::new(2, "a", 0, 10, None),
        Span::new(3, "b", 20, 25, None),
        Span::new(4, "x", 0, 4, Some(1)),
    ]);
    let folded = fold(&trace);
    let stacks: Vec<(String, u64)> = folded
        .iter()
        .map(|f| (f.stack.join(";"), f.self_ns))
        .collect();
    assert_eq!(
        stacks,
        vec![
            ("a".to_string(), 10),
            ("b".to_string(), 11),
            ("b;x".to_string(), 4),
        ]
    );
}

#[test]
fn critical_path_prefers_longest_root_then_smaller_id() {
    let trace = Trace::new(vec![
        Span::new(5, "short", 0, 10, None),
        Span::new(3, "long_b", 0, 50, None),
        Span::new(2, "long_a", 10, 60, None),
        Span::new(6, "c1", 10, 30, Some(2)),
        Span::new(4, "c2", 20, 30, Some(2)),
    ]);
    let path = critical_path(&trace);
    let ids: Vec<u64> = path.iter().map(|s| s.id).collect();
    // roots long_a (id 2) and long_b (id 3) both last 50: id 2 wins; its
    // children c1 and c2 both end at 30: the smaller id 4 wins.
    assert_eq!(ids, vec![2, 4]);
    assert_eq!(path[0].duration_ns, 50);
    assert_eq!(path[1].name, "c2");
}

#[test]
fn bottlenecks_rank_by_self_time_then_name() {
    let report = rank_bottlenecks(&fold(&sample()));
    let ranked: Vec<(&str, u64)> = report.iter().map(|b| (b.name.as_str(), b.self_ns)).collect();
    // self times: work 60, read 20, main 10, io 10 -> work leads; io before main.
    assert_eq!(ranked, vec![("work", 60), ("read", 20), ("io", 10), ("main", 10)]);
}

#[test]
fn bottlenecks_merge_names_across_stacks() {
    let flame = vec![
        FoldedStack { stack: vec!["a".to_string(), "x".to_string()], self_ns: 3 },
        FoldedStack { stack: vec![], self_ns: 100 },
        FoldedStack { stack: vec!["b".to_string(), "x".to_string()], self_ns: 4 },
        FoldedStack { stack: vec!["b".to_string()], self_ns: 7 },
    ];
    let ranked: Vec<(String, u64)> = rank_bottlenecks(&flame)
        .into_iter()
        .map(|b| (b.name, b.self_ns))
        .collect();
    assert_eq!(ranked, vec![("b".to_string(), 7), ("x".to_string(), 7)]);
}

#[test]
fn samples_sort_ascending_with_repeats() {
    assert_eq!(sorted_samples(&[40, 10, 30, 20, 10]), vec![10, 10, 20, 30, 40]);
    assert!(sorted_samples(&[]).is_empty());
}

#[test]
fn durations_follow_trace_order() {
    let trace = Trace::new(vec![
        Span::new(1, "x", 10, 35, None),
        Span::new(2, "y", 50, 10, None),
    ]);
    assert_eq!(span_durations(&trace), vec![25, 0]);
}

#[test]
fn sorted_sample_ends_are_min_and_max() {
    let values = [17, 3, 99, 42, 3];
    let sorted = sorted_samples(&values);
    assert_eq!(sorted.first(), values.iter().min());
    assert_eq!(sorted.last(), values.iter().max());
}

#[test]
fn fold_conserves_root_time_across_roots() {
    let trace = Trace::new(vec![
        Span::new(1, "a", 0, 50, None),
        Span::new(2, "b", 0, 20, Some(1)),
        Span::new(3, "c", 5, 15, Some(2)),
        Span::new(4, "a", 100, 130, None),
        Span::new(5, "b", 100, 110, Some(4)),
    ]);
    let folded = fold(&trace);
    let total: u64 = folded.iter().map(|f| f.self_ns).sum();
    assert_eq!(total, 50 + 30);
    assert_eq!(self_of(&folded, &["a"]), Some(30 + 20));
    assert_eq!(self_of(&folded, &["a", "b"]), Some(10 + 10));
    assert_eq!(self_of(&folded, &["a", "b", "c"]), Some(10));
}

#[test]
fn valid_deep_chains_are_walked_to_the_end() {
    let mut spans = vec![Span::new(0, "s0", 0, 1000, None)];
    for i in 1..200u64 {
        spans.push(Span::new(i, "step", i, 1000 - i, Some(i - 1)));
    }
    let trace = Trace::new(spans);
    assert!(trace.validate().is_ok());
    assert_eq!(critical_path(&trace).len(), 200);
    assert_eq!(fold(&trace).len(), 200);
}

#[test]
fn ranking_conserves_named_self_time() {
    let flame = fold(&sample());
    let ranked = rank_bottlenecks(&flame);
    let flame_total: u64 = flame.iter().filter(|f| !f.stack.is_empty()).map(|f| f.self_ns).sum();
    let ranked_total: u64 = ranked.iter().map(|b| b.self_ns).sum();
    assert_eq!(ranked_total, flame_total);
    assert_eq!(ranked_total, 100);
}

#[test]
fn analyses_of_rootless_and_empty_traces() {
    let empty = Trace::new(vec![]);
    assert!(fold(&empty).is_empty());
    assert!(rank_bottlenecks(&fold(&empty)).is_empty());
    assert!(span_durations(&empty).is_empty());

    // Every span has a parent: there is no root to start from.
    let rootless = Trace::new(vec![Span::new(1, "a", 0, 10, Some(2)), Span::new(2, "b", 0, 10, Some(1))]);
    assert!(critical_path(&rootless).is_empty());
    assert!(fold(&rootless).is_empty());
}

#[test]
fn format_sections_lists_bottlenecks_path_and_stacks() {
    let trace = sample();
    let flame = fold(&trace);
    let text = format_sections(&rank_bottlenecks(&flame), &critical_path(&trace), &flame);
    assert!(text.contains("Critical path"));
    assert!(text.contains("Top bottlenecks"));
    assert_eq!(
        text,
        "\nTop bottlenecks (self time):\n\
         \x20 work             60 ns\n\
         \x20 read             20 ns\n\
         \x20 io               10 ns\n\
         \x20 main             10 ns\n\
         \nCritical path:\n\
         \x20 main (100 ns)\n\
         \x20 io (30 ns)\n\
         \x20 read (20 ns)\n\
         \nFlamegraph (folded self time):\n\
         \x20 main 10\n\
         \x20 main;io 10\n\
         \x20 main;io;read 20\n\
         \x20 main;work 60\n"
    );
    assert_eq!(format_head(4, 100), "Spans: 4\nTotal duration: 100 ns\n");
}

#[test]
fn format_sections_shows_at_most_five_bottlenecks() {
    let bottlenecks: Vec<Bottleneck> = (0..7u64)
        .map(|i| Bottleneck { name: format!("a_name_longer_than_sixteen_{i}"), self_ns: 70 - i })
        .collect();
    let text = format_sections(&bottlenecks, &vec![], &vec![]);
    assert!(text.contains("  a_name_longer_than_sixteen_4 66 ns\n"));
    assert!(!text.contains("sixteen_5"));
}

#[test]
fn reports_counts_and_totals() {
    let trace = sample();
    assert_eq!(trace.span_count(), 4);
    assert_eq!(trace.total_duration_ns(), 100);
}

#[test]
fn ranks_largest_self_time_first() {
    let bottlenecks = rank_bottlenecks(&fold(&sample()));
    // self times: work 60, read 20, main 10, io 10 -> work leads.
    let top = bottlenecks.first().unwrap();
    assert_eq!(top.name, "work");
    assert_eq!(top.self_ns, 60);
}

#[test]
fn format_text_includes_sections() {
    let trace = sample();
    let flame = fold(&trace);
    let mut text = format_head(trace.span_count(), trace.total_duration_ns());
    text.push_str(&format_sections(&rank_bottlenecks(&flame), &critical_path(&trace), &flame));
    assert!(text.contains("Critical path"));
    assert!(text.contains("Top bottlenecks"));
}

#[test]
fn unique_ids_let_walks_end_beside_a_cycle() {
    // Spans 1 and 2 name each other as parent; the root 3 has a child 4.
    let trace = Trace::new(vec![
        Span::new(1, "a", 0, 10, Some(2)),
        Span::new(2, "b", 0, 10, Some(1)),
        Span::new(3, "root", 0, 50, None),
        Span::new(4, "leaf", 5, 45, Some(3)),
    ]);
    assert!(trace.has_unique_ids());
    assert!(trace.validate().is_err());
    let names: Vec<String> = critical_path(&trace).into_iter().map(|c| c.name).collect();
    assert_eq!(names, vec!["root".to_string(), "leaf".to_string()]);
    let folded = fold(&trace);
    assert_eq!(folded.len(), 2);
    assert_eq!(self_of(&folded, &["root"]), Some(10));
    assert_eq!(self_of(&folded, &["root", "leaf"]), Some(40));
}

#[test]
fn repeated_ids_are_detected() {
    assert!(Trace::new(vec![]).has_unique_ids());
    assert!(sample().has_unique_ids());
    let repeated = Trace::new(vec![
        Span::new(1, "a", 0, 10, None),
        Span::new(2, "b", 0, 10, Some(1)),
        Span::new(1, "c", 0, 10, Some(2)),
    ]);
    assert!(!repeated.has_unique_ids());
}

#[test]
fn child_totals_that_overflow_are_detected() {
    assert!(child_totals_fit(&sample()));
    let trace = Trace::new(vec![
        Span::new(1, "p", 0, 10, None),
        Span::new(2, "a", 0, u64::MAX, Some(1)),
        Span::new(3, "b", 0, 1, Some(1)),
    ]);
    assert!(!child_totals_fit(&trace));
}

#[test]
fn checked_fold_matches_fold_or_reports_overflow() {
    assert_eq!(try_fold(&sample()), Some(fold(&sample())));
    let trace = Trace::new(vec![
        Span::new(1, "r", 0, u64::MAX, None),
        Span::new(2, "r", 0, u64::MAX, None),
    ]);
    assert!(child_totals_fit(&trace));
    assert_eq!(try_fold(&trace), None);
    let fits = Trace::new(vec![Span::new(1, "r", 0, u64::MAX - 1, None), Span::new(2, "r", 0, 1, None)]);
    let folded = try_fold(&fits).unwrap();
    assert_eq!(folded.len(), 1);
    assert_eq!(folded[0].self_ns, u64::MAX);
}

#[test]
fn checked_ranking_matches_ranking_or_reports_overflow() {
    let flame = fold(&sample());
    assert_eq!(try_rank_bottlenecks(&flame), Some(rank_bottlenecks(&flame)));
    let big = vec![
        FoldedStack { stack: vec!["a".to_string(), "x".to_string()], self_ns: u64::MAX },
        FoldedStack { stack: vec!["b".to_string(), "x".to_string()], self_ns: 1 },
    ];
    assert_eq!(try_rank_bottlenecks(&big), None);
}

#[test]
fn walks_are_decided_exactly() {
    assert!(fold_walks_end(&sample()));
    assert!(critical_walk_ends(&sample()));
    assert!(fold_walks_end(&Trace::new(vec![])));
    assert!(critical_walk_ends(&Trace::new(vec![])));

    // Two roots share an id: the ids are not unique, yet every walk ends.
    let shared = Trace::new(vec![Span::new(1, "a", 0, 10, None), Span::new(1, "b", 0, 5, None)]);
    assert!(!shared.has_unique_ids());
    assert!(fold_walks_end(&shared));
    assert!(critical_walk_ends(&shared));
    let names: Vec<String> = critical_path(&shared).into_iter().map(|c| c.name).collect();
    assert_eq!(names, vec!["a".to_string()]);
    assert_eq!(fold(&shared).len(), 2);

    // The child of 2 carries the root's id, so the walk from the root returns
    // to span 2 forever.
    let looping = Trace::new(vec![
        Span::new(1, "a", 0, 10, None),
        Span::new(2, "b", 0, 10, Some(1)),
        Span::new(1, "c", 0, 10, Some(2)),
    ]);
    assert!(!fold_walks_end(&looping));
    assert!(!critical_walk_ends(&looping));

    // Children that overflow make the fold's walk unfit.
    let overflowing = Trace::new(vec![
        Span::new(1, "p", 0, 10, None),
        Span::new(2, "a", 0, u64::MAX, Some(1)),
        Span::new(3, "b", 0, 1, Some(1)),
    ]);
    assert!(!fold_walks_end(&overflowing));
    assert!(critical_walk_ends(&overflowing));
}
