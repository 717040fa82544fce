use tracescope::text::decimal_text;
use tracescope::Span;

#[test]
fn duration_is_end_minus_start() {
    let span = Span::new(1, "x", 10, 35, None);
    assert_eq!(span.duration_ns(), 25);
}

#[test]
fn duration_saturates_when_inverted() {
    let span = Span::new(1, "x", 50, 10, None);
    assert_eq!(span.duration_ns(), 0);
}

#[test]
fn decimal_text_renders_without_padding() {
    assert_eq!(decimal_text(0), "0");
    assert_eq!(decimal_text(7), "7");
    assert_eq!(decimal_text(10), "10");
    assert_eq!(decimal_text(4096), "4096");
    assert_eq!(decimal_text(u64::MAX), u64::MAX.to_string());
}
