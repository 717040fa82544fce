use tracescope::clock::Clock;
use tracescope::{critical_path, fold, rank_bottlenecks, Collector, ManualClock, SystemClock};

#[test]
fn manual_clock_advances_and_sets() {
    let mut clock = ManualClock::new();
    assert_eq!(clock.now_ns(), 0);
    clock.advance(10);
    assert_eq!(clock.now_ns(), 10);
    clock.set(100);
    assert_eq!(clock.now_ns(), 100);
}

#[test]
fn manual_clock_wraps_around() {
    let mut clock = ManualClock::new();
    clock.set(u64::MAX - 1);
    clock.advance(3);
    assert_eq!(clock.now_ns(), 1);
}

#[test]
fn system_clock_is_non_decreasing() {
    let clock = SystemClock::new();
    let a = clock.now_ns();
    let b = clock.now_ns();
    assert!(b >= a);
}

#[test]
fn records_nested_spans_with_parents() {
    let mut collector = Collector::new(ManualClock::new());
    let outer = collector.start("outer"); // id 0 at t=0
    collector.clock().advance(10);
    let inner = collector.start("inner"); // id 1 at t=10, parent 0
    collector.clock().advance(5);
    collector.end(inner); // t=15
    collector.clock().advance(20);
    collector.end(outer); // t=35

    let trace = collector.snapshot();
    assert_eq!(trace.span_count(), 2);
    assert_eq!(trace.span(0).unwrap().duration_ns(), 35);
    assert_eq!(trace.span(1).unwrap().duration_ns(), 5);
    assert_eq!(trace.span(1).unwrap().parent, Some(0));
}

#[test]
fn finish_returns_the_trace() {
    let mut collector = Collector::new(ManualClock::new());
    let id = collector.start("only");
    collector.clock().advance(8);
    collector.end(id);
    let trace = collector.finish();
    assert_eq!(trace.span_count(), 1);
    assert_eq!(trace.span(0).unwrap().duration_ns(), 8);
}

#[test]
fn explicit_times_and_unknown_ids() {
    let mut collector = Collector::new(ManualClock::new());
    let a = collector.start_at("a", 3);
    let b = collector.start_at("b", 4);
    collector.end_at(99, 50); // unknown id: nothing changes
    collector.end_at(a, 9); // closes a while b stays open
    let c = collector.start_at("c", 10); // parent is still the innermost open span, b
    collector.end_at(c, 12);
    collector.end_at(b, 20);
    let trace = collector.finish();
    assert_eq!(trace.span(0).unwrap().end_ns, 9);
    assert_eq!(trace.span(1).unwrap().end_ns, 20);
    assert_eq!(trace.span(2).unwrap().parent, Some(b));
    assert!(trace.validate().is_ok());
}

/// The instrumented workload: handle_request [0, 75) with db_query [5, 45)
/// and render [45, 70), which holds serialize [60, 70).
fn workload() -> tracescope::Trace {
    let mut collector = Collector::new(ManualClock::new());
    let request = collector.start("handle_request");
    collector.clock().advance(5);
    let db = collector.start("db_query");
    collector.clock().advance(40);
    collector.end(db);
    let render = collector.start("render");
    collector.clock().advance(15);
    let serialize = collector.start("serialize");
    collector.clock().advance(10);
    collector.end(serialize);
    collector.end(render);
    collector.clock().advance(5);
    collector.end(request);
    collector.finish()
}

#[test]
fn collected_workload_has_expected_shape() {
    let trace = workload();
    trace.validate().expect("collected trace should be structurally valid");
    assert_eq!(trace.span_count(), 4);
    assert_eq!(trace.total_duration_ns(), 75);
}

#[test]
fn db_query_is_the_top_bottleneck() {
    let trace = workload();
    // Self times: db_query 40, render 15 (25 - serialize 10), serialize 10,
    // handle_request 10 (75 - 40 - 25). db_query leads.
    let bottlenecks = rank_bottlenecks(&fold(&trace));
    let top = bottlenecks.first().expect("expected at least one bottleneck");
    assert_eq!(top.name, "db_query");
    assert_eq!(top.self_ns, 40);
}

#[test]
fn critical_path_follows_last_finishing_children() {
    let trace = workload();
    // root -> render (ends 70, after db_query's 45) -> serialize (ends 70).
    let path = critical_path(&trace);
    let names: Vec<&str> = path.iter().map(|s| s.name.as_str()).collect();
    assert_eq!(names, vec!["handle_request", "render", "serialize"]);
}

#[test]
fn flame_self_times_sum_to_total() {
    let trace = workload();
    let total: u64 = fold(&trace).iter().map(|s| s.self_ns).sum();
    assert_eq!(total, trace.total_duration_ns());
}

#[test]
fn closing_a_span_restores_the_enclosing_span() {
    let mut collector = Collector::new(ManualClock::new());
    let outer = collector.start_at("outer", 0);
    let inner = collector.start_at("inner", 5);
    collector.end_at(inner, 9);
    let next = collector.start_at("next", 10);
    let trace = collector.finish();
    let inner_span = trace.span(inner).unwrap();
    assert_eq!(inner_span.parent, Some(outer));
    assert_eq!((inner_span.start_ns, inner_span.end_ns), (5, 9));
    assert_eq!(inner_span.duration_ns(), 4);
    assert_eq!(trace.span(next).unwrap().parent, Some(outer));
}

#[test]
fn forward_manual_clock_records_valid_traces_in_any_order() {
    let mut collector = Collector::new(ManualClock::new());
    let a = collector.start("a");
    collector.clock().advance(3);
    let b = collector.start("b");
    collector.clock().set(10);
    collector.end(a); // closed out of order, while b is still open
    let c = collector.start("c");
    collector.end(99); // unknown id
    collector.clock().advance(4);
    collector.end(c);
    collector.end(b);
    collector.end(b); // closing twice moves the end to the current time
    let trace = collector.finish();
    assert!(trace.validate().is_ok());
    let ends: Vec<(u64, u64)> = trace.spans.iter().map(|s| (s.start_ns, s.end_ns)).collect();
    assert_eq!(ends, vec![(0, 10), (3, 14), (10, 14)]);
    assert_eq!(trace.spans[2].parent, Some(b));
}

#[test]
fn system_clock_runs_record_valid_traces() {
    let mut collector = Collector::new(SystemClock::new());
    let outer = collector.start("outer");
    let inner = collector.start("inner");
    collector.end(outer); // out of order
    let next = collector.start("next");
    collector.end(next);
    collector.end(inner);
    let trace = collector.finish();
    assert!(trace.validate().is_ok());
    assert_eq!(trace.spans[2].parent, Some(inner));
}

#[test]
fn ended_spans_leave_the_open_spans() {
    let mut collector = Collector::new(ManualClock::new());
    let a = collector.start_at("a", 0);
    let b = collector.start_at("b", 1);
    collector.end_at(a, 2);
    // `a` is closed, so the next span nests under `b`.
    let c = collector.start_at("c", 3);
    collector.end_at(c, 4);
    collector.end_at(b, 5);
    let d = collector.start_at("d", 6);
    let trace = collector.finish();
    assert_eq!(trace.spans[c as usize].parent, Some(b));
    assert_eq!(trace.spans[d as usize].parent, None);
}
