use ffwx::codec::{write_output, DelimiterProfile};
use ffwx::engine::{compute_diff, DiffKind};

fn lines(s: &[&str]) -> Vec<String> {
    s.iter().map(|x| x.to_string()).collect()
}

#[test]
fn headers_per_kind() {
    assert_eq!(DiffKind::Added.to_header(), "+ ");
    assert_eq!(DiffKind::Removed.to_header(), "- ");
    assert_eq!(DiffKind::Changed.to_header(), "~ ");
}

#[test]
fn human_readable_change() {
    let d = compute_diff(lines(&["a", "b", "c"]), lines(&["a", "x", "c"]));
    let out = write_output(&d, &DelimiterProfile::human_readable()).unwrap();
    assert_eq!(out, "a\n\n~ x\n\nc\n");
}

#[test]
fn compact_change() {
    let d = compute_diff(lines(&["a", "b", "c"]), lines(&["a", "x", "c"]));
    let out = write_output(&d, &DelimiterProfile::compact()).unwrap();
    assert_eq!(out, "~ x\u{1F489}a\u{1F52C}\u{1F52D}\u{1F52C}c\n");
}

#[test]
fn compact_addition_at_end_and_in_empty_file() {
    let d = compute_diff(lines(&["a", "b"]), lines(&["a", "b", "c"]));
    assert_eq!(write_output(&d, &DelimiterProfile::compact()).unwrap(), "+ c\u{1F489}b\u{1F52C}\u{1F52D}\n");
    assert_eq!(write_output(&d, &DelimiterProfile::human_readable()).unwrap(), "b\n\n+ c\n\n");
    let d = compute_diff(Vec::new(), lines(&["a"]));
    assert_eq!(write_output(&d, &DelimiterProfile::compact()).unwrap(), "+ a\u{1F489}\u{1F52D}\n");
    assert_eq!(write_output(&d, &DelimiterProfile::human_readable()).unwrap(), "\n+ a\n\n");
}

#[test]
fn empty_script_writes_nothing() {
    assert_eq!(write_output(&Vec::new(), &DelimiterProfile::compact()).unwrap(), "");
}

#[test]
fn records_in_script_order() {
    let d = compute_diff(lines(&["a", "b"]), Vec::new());
    assert_eq!(write_output(&d, &DelimiterProfile::human_readable()).unwrap(), "a\n\n- b\n\n\n- a\n\nb\n");
}

#[test]
fn compact_layout_refuses_marker_lines() {
    let d = compute_diff(lines(&["a", "b"]), lines(&["a", "c\u{1F52D}"]));
    assert_eq!(write_output(&d, &DelimiterProfile::compact()), None);
    let d = compute_diff(lines(&["a", "b"]), lines(&["a", "c\u{1F52D}"]));
    assert_eq!(
        write_output(&d, &DelimiterProfile::human_readable()).unwrap(),
        "a\n\n~ c\u{1F52D}\n\n"
    );
}
