use ffwx::codec::{write_output, DelimiterProfile};
use ffwx::engine::{compute_diff, diff, DiffKind};

fn lines(s: &[&str]) -> Vec<String> {
    s.iter().map(|x| x.to_string()).collect()
}

#[test]
fn identical_files_give_empty_script() {
    let f = lines(&["a", "b", "a", "c"]);
    assert!(compute_diff(f.clone(), f).is_empty());
    assert!(compute_diff(Vec::new(), Vec::new()).is_empty());
}

#[test]
fn middle_line_replaced_is_one_change() {
    let d = compute_diff(lines(&["a", "b", "c"]), lines(&["a", "x", "c"]));
    assert_eq!(d.len(), 1);
    assert_eq!(d[0].kind, DiffKind::Changed);
    assert_eq!(d[0].value, "x");
    assert_eq!(d[0].ctx.before, lines(&["a"]));
    assert_eq!(d[0].ctx.after, lines(&["c"]));
}

#[test]
fn appended_line_is_one_addition() {
    let d = compute_diff(lines(&["a", "b"]), lines(&["a", "b", "c"]));
    assert_eq!(d.len(), 1);
    assert_eq!(d[0].kind, DiffKind::Added);
    assert_eq!(d[0].value, "c");
    assert_eq!(d[0].ctx.before, lines(&["b"]));
    assert!(d[0].ctx.after.is_empty());
}

#[test]
fn addition_to_empty_source_has_no_context() {
    let d = compute_diff(Vec::new(), lines(&["a"]));
    assert_eq!(d.len(), 1);
    assert_eq!(d[0].kind, DiffKind::Added);
    assert_eq!(d[0].value, "a");
    assert!(d[0].ctx.before.is_empty());
    assert!(d[0].ctx.after.is_empty());
}

#[test]
fn removal_of_everything() {
    let d = compute_diff(lines(&["a", "b"]), Vec::new());
    assert_eq!(d.len(), 2);
    assert_eq!(d[0].kind, DiffKind::Removed);
    assert_eq!(d[0].value, "b");
    assert_eq!(d[1].kind, DiffKind::Removed);
    assert_eq!(d[1].value, "a");
    assert_eq!(d[1].ctx.after, lines(&["b"]));
}

#[test]
fn first_line_replaced_is_one_change() {
    let d = compute_diff(lines(&["a", "b", "c"]), lines(&["z", "b", "c"]));
    assert_eq!(d.len(), 1);
    assert_eq!(d[0].kind, DiffKind::Changed);
    assert_eq!(d[0].value, "z");
    assert!(d[0].ctx.before.is_empty());
    assert_eq!(d[0].ctx.after, lines(&["b"]));
}

#[test]
fn replacement_repeating_previous_line_is_not_merged() {
    let d = compute_diff(lines(&["a", "b"]), lines(&["a", "a"]));
    assert_eq!(d.len(), 2);
    assert_eq!(d[0].kind, DiffKind::Removed);
    assert_eq!(d[0].value, "b");
    assert_eq!(d[1].kind, DiffKind::Added);
    assert_eq!(d[1].value, "a");
}

#[test]
fn removal_wins_ties() {
    let d = compute_diff(lines(&["a"]), lines(&["b"]));
    assert_eq!(d.len(), 1);
    assert_eq!(d[0].kind, DiffKind::Changed);
    assert_eq!(d[0].value, "b");
    let d = compute_diff(lines(&["p", "a", "q"]), lines(&["p", "b", "c", "q"]));
    assert_eq!(d.len(), 3);
    assert_eq!(d[0].kind, DiffKind::Removed);
    assert_eq!(d[0].value, "a");
    assert_eq!(d[1].kind, DiffKind::Added);
    assert_eq!(d[1].value, "c");
    assert_eq!(d[1].ctx.before, lines(&["b"]));
    assert_eq!(d[2].kind, DiffKind::Added);
    assert_eq!(d[2].value, "b");
    assert_eq!(d[2].ctx.after, lines(&["c"]));
}

#[test]
fn revert_reverses_entries_and_records() {
    let s = lines(&["a", "b", "c", "d", "e"]);
    let m = lines(&["a", "x", "c", "e", "f"]);
    let fwd = diff(s.clone(), m.clone(), false);
    let back = diff(s, m, true);
    assert_eq!(fwd.len(), back.len());
    assert!(fwd.len() >= 2);
    for (a, b) in fwd.iter().zip(back.iter().rev()) {
        assert_eq!(a.kind, b.kind);
        assert_eq!(a.value, b.value);
        assert_eq!(a.ctx.before, b.ctx.before);
        assert_eq!(a.ctx.after, b.ctx.after);
    }
    let p = DelimiterProfile::compact();
    let fwd_text = write_output(&fwd, &p).unwrap();
    let back_text = write_output(&back, &p).unwrap();
    let fwd_records: Vec<&str> = fwd_text.split_terminator('\n').collect();
    let back_records: Vec<&str> = back_text.split_terminator('\n').collect();
    let mut expected = fwd_records.clone();
    expected.reverse();
    assert_eq!(fwd_text.len(), back_text.len());
    assert_ne!(fwd_text, back_text);
    assert_eq!(back_records, expected);
}
