use context_engine::truncator::{auto_tail, smart_summary};
use context_engine::debounce::Debouncer;
use context_engine::text::{contains_str, ends_with, to_decimal, trim, strip_quotes};

#[test]
fn short_content_is_returned_unchanged() {
    let content = "a\nb\nc";
    assert_eq!(auto_tail(content, 2, 2), content);
}

#[test]
fn long_content_keeps_head_and_tail_with_marker() {
    let content = "l1\nl2\nl3\nl4\nl5\nl6";
    let out = auto_tail(content, 2, 2);
    assert_eq!(out, "l1\nl2\n\n<... 2 lines truncated ...>\n\nl5\nl6");
}

#[test]
fn trailing_newline_adds_no_phantom_line() {
    assert_eq!(auto_tail("a\nb\nc\n", 2, 1), "a\nb\nc\n");
}

#[test]
fn smart_summary_splits_budget_evenly() {
    let content = "l1\nl2\nl3\nl4\nl5\nl6";
    assert_eq!(
        smart_summary(content, 4),
        "l1\nl2\n\n<... 2 lines truncated ...>\n\nl5\nl6"
    );
}

#[test]
fn debouncer_drops_events_inside_window() {
    let mut d = Debouncer::new(500);
    assert!(d.observe("a.py", 1000));
    assert!(!d.observe("a.py", 1200));
    assert!(d.observe("b.py", 1200));
    assert!(d.observe("a.py", 1501));
    assert!(!d.observe("a.py", 1900));
}

#[test]
fn decimal_rendering_is_exact() {
    assert_eq!(to_decimal(0), "0");
    assert_eq!(to_decimal(120), "120");
    assert_eq!(to_decimal(98765), "98765");
}

#[test]
fn text_utilities_behave_like_their_specs() {
    assert!(contains_str("pkg/util.py", "pkg/util"));
    assert!(!contains_str("other.py", "pkg/util"));
    assert!(ends_with("src/a.py", ".py"));
    assert!(!ends_with("a.pyc", ".py"));
    assert_eq!(trim("  a.py\r"), "a.py");
    assert_eq!(strip_quotes("'./util'"), "./util");
}
