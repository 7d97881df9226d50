use ffwx::context::{extract, LineCtx};
use ffwx::engine::{DiffKind, DiffLine};

fn gen_lines(s: &str) -> Vec<String> {
    s.split(',').map(|x| x.to_string()).collect()
}

#[test]
fn middle_context_of_1() {
    let lines = gen_lines("a,c,c,d");

    let mut l1 = DiffLine::new(DiffKind::Changed, "b".to_string());
    l1.ctx.push(&lines, 1, 1);
    assert_eq!(l1.ctx.before.len(), 1);
    assert_eq!(l1.ctx.before.get(0), Some(&"a".to_string()));
    assert_eq!(l1.ctx.after.len(), 1);
    assert_eq!(l1.ctx.after.get(0), Some(&"c".to_string()));
}

#[test]
fn head_context_of_1() {
    let lines = gen_lines("a,c,c,d");

    let mut l1 = DiffLine::new(DiffKind::Changed, "b".to_string());
    l1.ctx.push(&lines, 0, 1);
    assert_eq!(l1.ctx.before.len(), 0);
    assert_eq!(l1.ctx.before.get(0), None);
    assert_eq!(l1.ctx.after.len(), 1);
    assert_eq!(l1.ctx.after.get(0), Some(&"c".to_string()));
}

#[test]
fn tails_context_of_1() {
    let lines = gen_lines("a,c,c,d");

    let mut l1 = DiffLine::new(DiffKind::Changed, "b".to_string());
    l1.ctx.push(&lines, 3, 1);
    assert_eq!(l1.ctx.before.len(), 1);
    assert_eq!(l1.ctx.before.get(0), Some(&"c".to_string()));
    assert_eq!(l1.ctx.after.len(), 0);
    assert_eq!(l1.ctx.after.get(0), None);
}

#[test]
fn should_trim_contigous_ctx_lines() {
    assert_eq!(true, true);
}

#[test]
fn wider_radius_lists_nearest_first() {
    let lines = gen_lines("a,b,c,d,e");
    let mut ctx = LineCtx::new();
    ctx.push(&lines, 2, 3);
    assert_eq!(ctx.before, gen_lines("b,a"));
    assert_eq!(ctx.after, gen_lines("d,e"));
}

#[test]
fn window_sides_present_by_position() {
    let lines = gen_lines("a,b,c");
    for i in 0..lines.len() {
        let w = extract(&lines, i);
        assert_eq!(w.before.len() == 1, i > 0);
        assert_eq!(w.after.len() == 1, i + 1 < lines.len());
    }
    let single = gen_lines("only");
    let w = extract(&single, 0);
    assert!(w.before.is_empty());
    assert!(w.after.is_empty());
}

#[test]
fn windows_compare_both_sides() {
    let a = extract(&gen_lines("x,a,y"), 1);
    let b = extract(&gen_lines("x,b,y"), 1);
    let c = extract(&gen_lines("z,a,y"), 1);
    let d = extract(&gen_lines("x,a"), 1);
    assert!(a.compare(&b));
    assert!(!a.compare(&c));
    assert!(!a.compare(&d));
}

#[test]
fn out_of_range_index_gives_absent_sides() {
    let lines = gen_lines("a,c,c,d");
    let mut ctx = LineCtx::new();
    ctx.push(&lines, 5, 4);
    assert_eq!(ctx.before, gen_lines("d,c,c"));
    assert!(ctx.after.is_empty());
    let at_end = extract(&lines, 4);
    assert_eq!(at_end.before, gen_lines("d"));
    assert!(at_end.after.is_empty());
    let past = extract(&lines, 9);
    assert!(past.before.is_empty());
    assert!(past.after.is_empty());
    let empty: Vec<String> = Vec::new();
    let none = extract(&empty, 0);
    assert!(none.before.is_empty());
    assert!(none.after.is_empty());
}
