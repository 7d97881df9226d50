use ffwx::engine::compute_diff;
use ffwx::reconstruct::{apply, ApplyError};

fn lines(s: &[&str]) -> Vec<String> {
    s.iter().map(|x| x.to_string()).collect()
}

fn round_trip(s: &[&str], m: &[&str]) {
    let source = lines(s);
    let modified = lines(m);
    let script = compute_diff(source.clone(), modified.clone());
    assert_eq!(apply(&source, &script), Ok(modified));
}

#[test]
fn apply_rebuilds_modified_files() {
    round_trip(&["a", "b", "c"], &["a", "x", "c"]);
    round_trip(&["a", "b"], &["a", "b", "c"]);
    round_trip(&[], &["a"]);
    round_trip(&["a", "b"], &[]);
    round_trip(&["p", "a", "q"], &["p", "b", "c", "q"]);
    round_trip(&["a", "b", "c", "d", "e"], &["a", "x", "c", "e", "f"]);
    round_trip(&["a", "b"], &["a", "a"]);
    round_trip(&["x", "y"], &["n1", "n2", "x", "y", "n3"]);
}

#[test]
fn apply_of_identity_diff_keeps_file() {
    let f = lines(&["a", "b", "a"]);
    let script = compute_diff(f.clone(), f.clone());
    assert_eq!(apply(&f, &script), Ok(f));
}

#[test]
fn apply_detects_drifted_source() {
    let script = compute_diff(lines(&["a", "b", "c"]), lines(&["a", "x", "c"]));
    let drifted = lines(&["a", "b", "d"]);
    assert_eq!(apply(&drifted, &script), Err(ApplyError::ContextMismatch { entry: 0 }));
}

#[test]
fn apply_detects_missing_removed_line() {
    let script = compute_diff(lines(&["a", "b", "c"]), lines(&["a", "c"]));
    assert_eq!(apply(&lines(&["a", "z", "c"]), &script), Err(ApplyError::ContextMismatch { entry: 0 }));
}

#[test]
fn coincidental_windows_merge_unrelated_edits() {
    let source = lines(&["x", "y", "x", "a", "y"]);
    let modified = lines(&["x", "b", "y", "x", "y"]);
    let script = compute_diff(source.clone(), modified.clone());
    assert_eq!(script.len(), 1);
    assert_eq!(apply(&source, &script), Ok(lines(&["x", "y", "x", "b", "y"])));
}
