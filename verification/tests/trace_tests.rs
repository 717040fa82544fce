use tracescope::{CoreError, Span, Trace};

fn sample() -> Trace {
    Trace::new(vec![
        Span::new(1, "main", 0, 100, None),
        Span::new(2, "work", 0, 60, Some(1)),
        Span::new(3, "io", 60, 90, Some(1)),
        Span::new(4, "read", 60, 80, Some(3)),
    ])
}

fn validation_message(trace: &Trace) -> Option<String> {
    match trace.validate() {
        Ok(()) => None,
        Err(CoreError::Validation(msg)) => Some(msg),
        Err(CoreError::Json(_)) => panic!("validation never reports a JSON error"),
    }
}

#[test]
fn total_duration_spans_the_trace() {
    assert_eq!(sample().total_duration_ns(), 100);
}

#[test]
fn roots_are_parentless() {
    let trace = sample();
    let roots = trace.roots();
    assert_eq!(roots.len(), 1);
    assert_eq!(roots[0].id, 1);
}

#[test]
fn validate_accepts_well_formed_trace() {
    assert!(sample().validate().is_ok());
}

#[test]
fn validate_rejects_missing_parent() {
    let trace = Trace::new(vec![Span::new(1, "a", 0, 10, Some(99))]);
    assert!(trace.validate().is_err());
}

#[test]
fn validate_rejects_duplicate_id() {
    let trace = Trace::new(vec![
        Span::new(1, "a", 0, 10, None),
        Span::new(1, "b", 0, 5, None),
    ]);
    assert!(trace.validate().is_err());
}

#[test]
fn validate_rejects_cycle() {
    let trace = Trace::new(vec![
        Span::new(1, "a", 0, 10, Some(2)),
        Span::new(2, "b", 0, 10, Some(1)),
    ]);
    assert!(trace.validate().is_err());
}

#[test]
fn validation_messages_name_the_first_failure() {
    let dup = Trace::new(vec![
        Span::new(7, "a", 0, 10, None),
        Span::new(7, "b", 20, 5, None),
    ]);
    assert_eq!(validation_message(&dup).as_deref(), Some("duplicate span id 7"));

    let inverted = Trace::new(vec![
        Span::new(1, "a", 0, 10, Some(42)),
        Span::new(12, "b", 20, 5, None),
    ]);
    assert_eq!(validation_message(&inverted).as_deref(), Some("span 12 ends before it starts"));

    let missing = Trace::new(vec![Span::new(1, "a", 0, 10, Some(99))]);
    assert_eq!(
        validation_message(&missing).as_deref(),
        Some("span 1 references missing parent 99")
    );

    let cycle = Trace::new(vec![
        Span::new(0, "root", 0, 10, None),
        Span::new(1, "a", 0, 10, Some(2)),
        Span::new(2, "b", 0, 10, Some(1)),
    ]);
    assert_eq!(
        validation_message(&cycle).as_deref(),
        Some("cycle detected involving span 1")
    );
    assert_eq!(validation_message(&sample()), None);
}

#[test]
fn span_finds_the_first_carrier_of_an_id() {
    let trace = Trace::new(vec![
        Span::new(5, "first", 0, 10, None),
        Span::new(5, "second", 0, 10, None),
    ]);
    assert_eq!(trace.span(5).unwrap().name, "first");
    assert!(trace.span(6).is_none());
}

#[test]
fn roots_sort_by_id_keeping_trace_order_for_ties() {
    let trace = Trace::new(vec![
        Span::new(9, "late", 0, 10, None),
        Span::new(3, "a", 0, 10, None),
        Span::new(4, "child", 0, 5, Some(3)),
        Span::new(3, "b", 0, 10, None),
    ]);
    let names: Vec<&str> = trace.roots().iter().map(|s| s.name.as_str()).collect();
    assert_eq!(names, vec!["a", "b", "late"]);
}

#[test]
fn child_map_lists_sorted_children() {
    let trace = Trace::new(vec![
        Span::new(1, "main", 0, 100, None),
        Span::new(7, "x", 0, 1, Some(1)),
        Span::new(2, "y", 0, 1, Some(1)),
        Span::new(5, "z", 0, 1, Some(1)),
        Span::new(3, "w", 0, 1, Some(7)),
    ]);
    let map = trace.child_map();
    assert_eq!(map.len(), 2);
    assert_eq!(map.get(&1), Some(&vec![2, 5, 7]));
    assert_eq!(map.get(&7), Some(&vec![3]));
    assert!(map.get(&2).is_none());
}

#[test]
fn index_by_id_keeps_the_last_carrier() {
    let trace = Trace::new(vec![
        Span::new(1, "first", 0, 10, None),
        Span::new(2, "other", 0, 10, None),
        Span::new(1, "last", 0, 10, None),
    ]);
    let index = trace.index_by_id();
    assert_eq!(index.len(), 2);
    assert_eq!(index.get(&1).unwrap().name, "last");
    assert_eq!(index.get(&2).unwrap().name, "other");
}

#[test]
fn total_duration_of_empty_and_inverted_traces() {
    assert_eq!(Trace::new(vec![]).total_duration_ns(), 0);
    let trace = Trace::new(vec![Span::new(1, "x", 50, 10, None)]);
    assert_eq!(trace.total_duration_ns(), 0);
    let trace = Trace::new(vec![
        Span::new(1, "x", 30, 40, None),
        Span::new(2, "y", 10, 25, None),
    ]);
    assert_eq!(trace.total_duration_ns(), 30);
}

#[test]
fn validation_errors_carry_their_message() {
    let trace = Trace::new(vec![Span::new(1, "a", 0, 10, Some(99))]);
    let err = trace.validate().unwrap_err();
    assert_eq!(err.message(), "invalid trace: span 1 references missing parent 99");
}

#[test]
fn json_errors_carry_their_kind() {
    let err = CoreError::Json(serde_json::from_str::<u64>("x").unwrap_err());
    assert!(err.message().starts_with("trace serialization error: "));
    assert!(err.message().len() > "trace serialization error: ".len());
}
