use vstd::prelude::*;

use crate::context::{extract, lines_view, window};
use crate::engine::{script_view, DiffKind, DiffLine, EntryView};

verus! {

/// Where a reconstruction stands: source lines `0..pos` are still to be
/// walked, and `tail` is the end of the modified file rebuilt so far.
pub ghost struct ApplyState {
    pub pos: int,
    pub tail: Seq<Seq<char>>,
}

/// Whether a removed or changed entry is anchored at source line `p`: the
/// window there is the recorded one and, for a removal, the line is the
/// removed text.
pub open spec fn anchored(s: Seq<Seq<char>>, e: EntryView, p: int) -> bool {
    &&& window(s, p) == e.ctx
    &&& (e.kind == DiffKind::Removed ==> s[p] == e.value)
}

/// The last source line before `p` where `e` is anchored, or -1.
pub open spec fn find_anchor(s: Seq<Seq<char>>, e: EntryView, p: int) -> int
    decreases p,
{
    if p <= 0 {
        -1
    } else if anchored(s, e, p - 1) {
        p - 1
    } else {
        find_anchor(s, e, p - 1)
    }
}

/// The first line of `x`, as a sequence of zero or one line.
pub open spec fn first_line(x: Seq<Seq<char>>) -> Seq<Seq<char>> {
    x.take(if x.len() > 0 { 1 } else { 0 })
}

/// Whether an added line whose recorded after side is `after` fits in
/// front of source line `q`, given the rebuilt `tail` after source line `pos`.
pub open spec fn fits_after(
    s: Seq<Seq<char>>,
    pos: int,
    tail: Seq<Seq<char>>,
    after: Seq<Seq<char>>,
    q: int,
) -> bool {
    after == first_line(s.subrange(q, pos) + tail)
}

/// The last insertion point at or before `q` where an added line fits, or -1.
pub open spec fn find_insert(
    s: Seq<Seq<char>>,
    pos: int,
    tail: Seq<Seq<char>>,
    after: Seq<Seq<char>>,
    q: int,
) -> int
    decreases q + 1,
{
    if q < 0 {
        -1
    } else if fits_after(s, pos, tail, after, q) {
        q
    } else {
        find_insert(s, pos, tail, after, q - 1)
    }
}

/// Applies one entry to a reconstruction state; `None` where its context
/// matches nowhere.
pub open spec fn apply_step(s: Seq<Seq<char>>, st: ApplyState, e: EntryView) -> Option<ApplyState> {
    if e.kind == DiffKind::Added {
        let q = find_insert(s, st.pos, st.tail, e.ctx.after, st.pos);
        if q < 0 {
            None
        } else {
            Some(ApplyState { pos: q, tail: seq![e.value] + s.subrange(q, st.pos) + st.tail })
        }
    } else {
        let p = find_anchor(s, e, st.pos);
        if p < 0 {
            None
        } else {
            let kept = s.subrange(p + 1, st.pos) + st.tail;
            Some(
                ApplyState {
                    pos: p,
                    tail: if e.kind == DiffKind::Changed { seq![e.value] + kept } else { kept },
                },
            )
        }
    }
}

/// The state after the first `k` entries of a script, or `None` where one
/// of them did not match.
pub open spec fn apply_state(s: Seq<Seq<char>>, script: Seq<EntryView>, k: int) -> Option<ApplyState>
    decreases k,
{
    if k <= 0 {
        Some(ApplyState { pos: s.len() as int, tail: seq![] })
    } else {
        match apply_state(s, script, k - 1) {
            Some(st) => apply_step(s, st, script[k - 1]),
            None => None,
        }
    }
}

/// The file that a script rebuilds from `s`, or `None` on a context mismatch.
pub open spec fn apply_spec(s: Seq<Seq<char>>, script: Seq<EntryView>) -> Option<Seq<Seq<char>>> {
    match apply_state(s, script, script.len() as int) {
        Some(st) => Some(s.subrange(0, st.pos) + st.tail),
        None => None,
    }
}

/// Why a script could not be applied.
#[derive(Debug, Clone, Copy, PartialEq, Eq, Structural)]
pub enum ApplyError {
    /// The context of the entry at this index matches nowhere in the source.
    ContextMismatch { entry: usize },
}

pub proof fn lemma_find_anchor_range(s: Seq<Seq<char>>, e: EntryView, p: int)
    ensures
        find_anchor(s, e, p) == -1 || 0 <= find_anchor(s, e, p) < p,
    decreases p,
{
    if p > 0 {
        lemma_find_anchor_range(s, e, p - 1);
    }
}

pub proof fn lemma_find_insert_range(
    s: Seq<Seq<char>>,
    pos: int,
    tail: Seq<Seq<char>>,
    after: Seq<Seq<char>>,
    q: int,
)
    ensures
        find_insert(s, pos, tail, after, q) == -1 || 0 <= find_insert(s, pos, tail, after, q) <= q,
    decreases q + 1,
{
    if q >= 0 {
        lemma_find_insert_range(s, pos, tail, after, q - 1);
    }
}

/// A failed entry fails the whole script.
pub proof fn lemma_failure_persists(s: Seq<Seq<char>>, script: Seq<EntryView>, k: int, n: int)
    requires
        0 <= k <= n,
        apply_state(s, script, k) is None,
    ensures
        apply_state(s, script, n) is None,
    decreases n - k,
{
    if k < n {
        lemma_failure_persists(s, script, k + 1, n);
    }
}

/// The last source line before `pos` where `e` is anchored.
fn find_anchor_line(source: &Vec<String>, e: &DiffLine, pos: usize) -> (r: Option<usize>)
    requires
        pos <= source.len(),
    ensures
        match r {
            Some(p) => p as int == find_anchor(lines_view(source@), e@, pos as int),
            None => find_anchor(lines_view(source@), e@, pos as int) == -1,
        },
{
    let ghost s = lines_view(source@);
    let mut p: usize = pos;
    while p > 0
        invariant
            s == lines_view(source@),
            p <= pos <= source.len(),
            find_anchor(s, e@, pos as int) == find_anchor(s, e@, p as int),
        decreases p,
    {
        let w = extract(source, p - 1);
        let same_value = source[p - 1] == e.value;
        proof {
            assert(s[p - 1] == source@[p - 1]@);
        }
        if w.compare(&e.ctx) && (same_value || e.kind != DiffKind::Removed) {
            return Some(p - 1);
        }
        p = p - 1;
    }
    None
}

/// The last insertion point at or before `pos` where a line followed by
/// `after` fits; `rev` holds the rebuilt tail in reverse.
fn find_insert_point(source: &Vec<String>, pos: usize, rev: &Vec<String>, after: &Vec<String>) -> (r: Option<usize>)
    requires
        pos <= source.len(),
    ensures
        ({
            let s = lines_view(source@);
            let tail = lines_view(rev@).reverse();
            let f = find_insert(s, pos as int, tail, lines_view(after@), pos as int);
            match r {
                Some(q) => q as int == f,
                None => f == -1,
            }
        }),
{
    let ghost s = lines_view(source@);
    let ghost tail = lines_view(rev@).reverse();
    let ghost a = lines_view(after@);
    let mut q: usize = pos;
    loop
        invariant
            s == lines_view(source@),
            tail == lines_view(rev@).reverse(),
            a == lines_view(after@),
            q <= pos <= source.len(),
            find_insert(s, pos as int, tail, a, pos as int) == find_insert(s, pos as int, tail, a, q as int),
        decreases q,
    {
        let ghost following = s.subrange(q as int, pos as int) + tail;
        let next: Option<&String> = if q < pos {
            Some(&source[q])
        } else if rev.len() > 0 {
            Some(&rev[rev.len() - 1])
        } else {
            None
        };
        let fits = match next {
            Some(x) => after.len() == 1 && after[0] == *x,
            None => after.len() == 0,
        };
        proof {
            match next {
                Some(x) => {
                    if q < pos {
                        assert(following[0] == s[q as int]);
                    } else {
                        assert(tail[0] == lines_view(rev@)[rev@.len() - 1]);
                        assert(following =~= tail);
                    }
                    assert(following[0] == x@);
                    assert(first_line(following) =~= seq![x@]);
                    if a == seq![x@] {
                        assert(a[0] == after@[0]@);
                    }
                    if after.len() == 1 && after[0]@ == x@ {
                        assert(a =~= seq![x@]);
                    }
                },
                None => {
                    assert(following.len() == 0);
                    assert(first_line(following) =~= Seq::<Seq<char>>::empty());
                    if after.len() == 0 {
                        assert(a =~= first_line(following));
                    }
                },
            }
            assert(fits == fits_after(s, pos as int, tail, a, q as int));
        }
        if fits {
            return Some(q);
        }
        if q == 0 {
            proof {
                assert(find_insert(s, pos as int, tail, a, -1) == -1);
            }
            return None;
        }
        q = q - 1;
    }
}

/// Pushes source lines `hi - 1` down to `lo` onto `rev`, so that the tail
/// it holds in reverse gains lines `lo..hi` in front.
fn push_lines_down(rev: &mut Vec<String>, source: &Vec<String>, lo: usize, hi: usize)
    requires
        lo <= hi <= source.len(),
    ensures
        lines_view(final(rev)@).reverse() == lines_view(source@).subrange(lo as int, hi as int) + lines_view(
            old(rev)@,
        ).reverse(),
{
    let ghost s = lines_view(source@);
    let ghost tail0 = lines_view(rev@).reverse();
    let mut t: usize = hi;
    proof {
        assert(lines_view(rev@).reverse() =~= s.subrange(t as int, hi as int) + tail0);
    }
    while t > lo
        invariant
            s == lines_view(source@),
            lo <= t <= hi <= source.len(),
            lines_view(rev@).reverse() == s.subrange(t as int, hi as int) + tail0,
        decreases t,
    {
        let ghost prev = lines_view(rev@);
        rev.push(source[t - 1].clone());
        proof {
            assert(lines_view(rev@) =~= prev.push(s[t - 1]));
            assert(lines_view(rev@).reverse() =~= seq![s[t - 1]] + prev.reverse());
            assert(s.subrange(t - 1, hi as int) =~= seq![s[t - 1]] + s.subrange(t as int, hi as int));
            assert(lines_view(rev@).reverse() =~= s.subrange(t - 1, hi as int) + tail0);
        }
        t = t - 1;
    }
}

/// Rebuilds the modified file from `source` and a script in the order the
/// diff produced it (end of file first). Each removed or changed entry is
/// placed at the last line before the current position whose window is the
/// recorded one; each added line at the last point whose following line is
/// its recorded after side. The before side of an added line is not
/// checked: the line in front of it may itself be added or changed by an
/// entry that comes later in the script, so it is not known yet when the
/// line is placed. Fails on the first entry that fits nowhere.
pub fn apply(source: &Vec<String>, script: &Vec<DiffLine>) -> (r: Result<Vec<String>, ApplyError>)
    ensures
        match r {
            Ok(v) => apply_spec(lines_view(source@), script_view(script@)) == Some(lines_view(v@)),
            Err(ApplyError::ContextMismatch { entry }) => {
                &&& entry < script.len()
                &&& apply_state(lines_view(source@), script_view(script@), entry as int) is Some
                &&& apply_state(lines_view(source@), script_view(script@), entry as int + 1) is None
                &&& apply_spec(lines_view(source@), script_view(script@)) is None
            },
        },
{
    let ghost s = lines_view(source@);
    let ghost sc = script_view(script@);
    let mut pos: usize = source.len();
    let mut rev: Vec<String> = Vec::new();
    let mut k: usize = 0;
    proof {
        assert(lines_view(rev@).reverse() =~= Seq::<Seq<char>>::empty());
    }
    while k < script.len()
        invariant
            s == lines_view(source@),
            sc == script_view(script@),
            k <= script.len(),
            pos <= source.len(),
            apply_state(s, sc, k as int) == Some(ApplyState { pos: pos as int, tail: lines_view(rev@).reverse() }),
        decreases script.len() - k,
    {
        let e = &script[k];
        let ghost st = ApplyState { pos: pos as int, tail: lines_view(rev@).reverse() };
        proof {
            assert(sc[k as int] == e@);
        }
        if e.kind == DiffKind::Added {
            match find_insert_point(source, pos, &rev, &e.ctx.after) {
                Some(q) => {
                    proof {
                        lemma_find_insert_range(s, pos as int, st.tail, e@.ctx.after, pos as int);
                    }
                    push_lines_down(&mut rev, source, q, pos);
                    let ghost prev = lines_view(rev@);
                    rev.push(e.value.clone());
                    proof {
                        assert(lines_view(rev@) =~= prev.push(e@.value));
                        assert(lines_view(rev@).reverse() =~= seq![e@.value] + prev.reverse());
                        assert(lines_view(rev@).reverse() =~= seq![e@.value] + s.subrange(q as int, pos as int) + st.tail);
                    }
                    pos = q;
                },
                None => {
                    proof {
                        lemma_failure_persists(s, sc, k as int + 1, sc.len() as int);
                    }
                    return Err(ApplyError::ContextMismatch { entry: k });
                },
            }
        } else {
            match find_anchor_line(source, e, pos) {
                Some(p) => {
                    proof {
                        lemma_find_anchor_range(s, e@, pos as int);
                    }
                    push_lines_down(&mut rev, source, p + 1, pos);
                    if e.kind == DiffKind::Changed {
                        let ghost prev = lines_view(rev@);
                        rev.push(e.value.clone());
                        proof {
                            assert(lines_view(rev@) =~= prev.push(e@.value));
                            assert(lines_view(rev@).reverse() =~= seq![e@.value] + prev.reverse());
                            assert(lines_view(rev@).reverse() =~= seq![e@.value] + (s.subrange(p + 1, pos as int) + st.tail));
                        }
                    }
                    pos = p;
                },
                None => {
                    proof {
                        lemma_failure_persists(s, sc, k as int + 1, sc.len() as int);
                    }
                    return Err(ApplyError::ContextMismatch { entry: k });
                },
            }
        }
        k = k + 1;
    }
    let ghost tail = lines_view(rev@).reverse();
    let mut out: Vec<String> = Vec::new();
    let mut t: usize = 0;
    while t < pos
        invariant
            s == lines_view(source@),
            t <= pos <= source.len(),
            lines_view(out@) == s.subrange(0, t as int),
        decreases pos - t,
    {
        let ghost prev = lines_view(out@);
        out.push(source[t].clone());
        proof {
            assert(lines_view(out@) =~= prev.push(s[t as int]));
            assert(s.subrange(0, t as int + 1) =~= s.subrange(0, t as int).push(s[t as int]));
        }
        t = t + 1;
    }
    while rev.len() > 0
        invariant
            lines_view(out@) + lines_view(rev@).reverse() == s.subrange(0, pos as int) + tail,
        decreases rev.len(),
    {
        let ghost before_out = lines_view(out@);
        let ghost before_rev = lines_view(rev@);
        let x = rev.pop().unwrap();
        out.push(x);
        proof {
            assert(before_rev =~= lines_view(rev@).push(x@));
            assert(before_rev.reverse() =~= seq![x@] + lines_view(rev@).reverse());
            assert(lines_view(out@) =~= before_out.push(x@));
            assert(lines_view(out@) + lines_view(rev@).reverse() =~= before_out + before_rev.reverse());
        }
    }
    proof {
        assert(lines_view(rev@).reverse() =~= Seq::<Seq<char>>::empty());
        assert(lines_view(out@) =~= s.subrange(0, pos as int) + tail);
    }
    Ok(out)
}

} // verus!

verus! {

/// Applying the diff of a file against itself gives the file back.
pub proof fn lemma_round_trip_identity(f: Seq<Seq<char>>)
    ensures
        apply_spec(f, crate::engine::diff_spec(f, f)) == Some(f),
{
    crate::engine::lemma_diff_identity(f);
    assert(f.subrange(0, f.len() as int) + Seq::<Seq<char>>::empty() =~= f);
}

/// The search finds `k` where `e` is anchored at `k` and nowhere in `k + 1..p`.
pub proof fn lemma_find_anchor_hits(s: Seq<Seq<char>>, e: EntryView, p: int, k: int)
    requires
        0 <= k < p <= s.len(),
        anchored(s, e, k),
        forall|t: int| k < t < p ==> !anchored(s, e, t),
    ensures
        find_anchor(s, e, p) == k,
    decreases p,
{
    if p - 1 > k {
        lemma_find_anchor_hits(s, e, p - 1, k);
    }
}

/// Applying the diff of a single-line replacement rebuilds the modified
/// file, where no later line of the source has the same window as the
/// replaced one.
pub proof fn lemma_round_trip_single_replacement(s: Seq<Seq<char>>, m: Seq<Seq<char>>, k: int)
    requires
        s.len() == m.len(),
        0 <= k < s.len(),
        s[k] != m[k],
        forall|t: int| 0 <= t < s.len() && t != k ==> s[t] == m[t],
        k == 0 || m[k] != s[k - 1],
        forall|t: int| k < t < s.len() ==> window(s, t) != window(s, k),
    ensures
        apply_spec(s, crate::engine::diff_spec(s, m)) == Some(m),
{
    crate::engine::lemma_single_replacement(s, m, k);
    let e = EntryView { kind: DiffKind::Changed, value: m[k], ctx: window(s, k) };
    let script = seq![e];
    lemma_find_anchor_hits(s, e, s.len() as int, k);
    let init = ApplyState { pos: s.len() as int, tail: seq![] };
    assert(apply_state(s, script, 0) == Some(init));
    let st = ApplyState { pos: k, tail: seq![m[k]] + (s.subrange(k + 1, s.len() as int) + Seq::<Seq<char>>::empty()) };
    assert(apply_step(s, init, e) == Some(st));
    assert(apply_state(s, script, 1) == Some(st));
    assert(s.subrange(0, k) + st.tail =~= m);
}

} // verus!

verus! {

/// The search finds nothing where `e` is anchored nowhere before `p`.
pub proof fn lemma_find_anchor_misses(s: Seq<Seq<char>>, e: EntryView, p: int)
    requires
        p <= s.len(),
        forall|t: int| 0 <= t < p ==> !anchored(s, e, t),
    ensures
        find_anchor(s, e, p) == -1,
    decreases p,
{
    if p > 0 {
        lemma_find_anchor_misses(s, e, p - 1);
    }
}

/// A removed or changed entry whose recorded window (and, for a removal,
/// line) is found at no line of the source makes the reconstruction fail,
/// whatever entries follow it.
pub proof fn lemma_drift_detected(s: Seq<Seq<char>>, script: Seq<EntryView>)
    requires
        script.len() >= 1,
        script[0].kind != DiffKind::Added,
        forall|t: int| 0 <= t < s.len() ==> !anchored(s, script[0], t),
    ensures
        apply_spec(s, script) is None,
{
    lemma_find_anchor_misses(s, script[0], s.len() as int);
    let init = ApplyState { pos: s.len() as int, tail: seq![] };
    assert(apply_state(s, script, 0) == Some(init));
    assert(apply_step(s, init, script[0]) is None);
    assert(apply_state(s, script, 1) is None);
    lemma_failure_persists(s, script, 1, script.len() as int);
}

} // verus!

verus! {

/// The additions of the first `j` lines of `m`,
/// last line first, each with its window in `m`.
pub open spec fn added_run(m: Seq<Seq<char>>, j: int) -> Seq<EntryView> {
    Seq::new(
        j as nat,
        |t: int| EntryView { kind: DiffKind::Added, value: m[j - 1 - t], ctx: window(m, j - 1 - t) },
    )
}

/// The removals of the first `i` lines of `s`, last line first, each with
/// its window in `s`.
pub open spec fn removed_run(s: Seq<Seq<char>>, i: int) -> Seq<EntryView> {
    Seq::new(
        i as nat,
        |t: int| EntryView { kind: DiffKind::Removed, value: s[i - 1 - t], ctx: window(s, i - 1 - t) },
    )
}

proof fn lemma_no_removed(acc: Seq<EntryView>, w: crate::context::WindowView, k: int)
    requires
        0 <= k,
        forall|t: int| 0 <= t < acc.len() ==> (#[trigger] acc[t]).kind != DiffKind::Removed,
    ensures
        crate::engine::first_removed(acc, w, k) == -1,
    decreases acc.len() - k,
{
    if k < acc.len() {
        lemma_no_removed(acc, w, k + 1);
    }
}

proof fn lemma_backtrace_from_empty(m: Seq<Seq<char>>, j: int, acc: Seq<EntryView>)
    requires
        0 <= j <= m.len(),
        forall|t: int| 0 <= t < acc.len() ==> (#[trigger] acc[t]).kind != DiffKind::Removed,
    ensures
        crate::engine::backtrace(seq![], m, 0, j, acc) == acc + added_run(m, j),
    decreases j,
{
    if j == 0 {
        assert(acc + added_run(m, j) =~= acc);
    } else {
        lemma_no_removed(acc, window(m, j - 1), 0);
        let e = EntryView { kind: DiffKind::Added, value: m[j - 1], ctx: window(m, j - 1) };
        let acc2 = acc.push(e);
        assert(crate::engine::push_added(acc, m[j - 1], window(m, j - 1)) == acc2);
        assert forall|t: int| 0 <= t < acc2.len() implies (#[trigger] acc2[t]).kind != DiffKind::Removed by {
            if t < acc.len() {
                assert(acc2[t] == acc[t]);
            }
        }
        lemma_backtrace_from_empty(m, j - 1, acc2);
        assert(acc2 + added_run(m, j - 1) =~= acc + added_run(m, j));
    }
}

proof fn lemma_backtrace_to_empty(s: Seq<Seq<char>>, i: int, acc: Seq<EntryView>)
    requires
        0 <= i <= s.len(),
    ensures
        crate::engine::backtrace(s, seq![], i, 0, acc) == acc + removed_run(s, i),
    decreases i,
{
    if i == 0 {
        assert(acc + removed_run(s, i) =~= acc);
    } else {
        let e = EntryView { kind: DiffKind::Removed, value: s[i - 1], ctx: window(s, i - 1) };
        lemma_backtrace_to_empty(s, i - 1, acc.push(e));
        assert(acc.push(e) + removed_run(s, i - 1) =~= acc + removed_run(s, i));
    }
}

proof fn lemma_apply_added_run(m: Seq<Seq<char>>, t: int)
    requires
        0 <= t <= m.len(),
    ensures
        apply_state(seq![], added_run(m, m.len() as int), t) == Some(
            ApplyState { pos: 0, tail: m.subrange(m.len() - t, m.len() as int) },
        ),
    decreases t,
{
    let n = m.len() as int;
    let empty = Seq::<Seq<char>>::empty();
    if t == 0 {
        assert(m.subrange(n, n) =~= empty);
        assert(apply_state(empty, added_run(m, n), 0) == Some(ApplyState { pos: 0, tail: empty }));
    } else {
        lemma_apply_added_run(m, t - 1);
        let tail = m.subrange(n - (t - 1), n);
        let st = ApplyState { pos: 0, tail };
        let e = added_run(m, n)[t - 1];
        assert(e == EntryView { kind: DiffKind::Added, value: m[n - t], ctx: window(m, n - t) });
        assert(empty.subrange(0, 0) + tail =~= tail);
        assert(first_line(tail) =~= window(m, n - t).after);
        assert(fits_after(empty, 0, tail, e.ctx.after, 0));
        assert(find_insert(empty, 0, tail, e.ctx.after, 0) == 0);
        assert(seq![m[n - t]] + empty.subrange(0, 0) + tail =~= m.subrange(n - t, n));
        assert(apply_step(empty, st, e) == Some(ApplyState { pos: 0, tail: m.subrange(n - t, n) }));
    }
}

proof fn lemma_apply_removed_run(s: Seq<Seq<char>>, t: int)
    requires
        0 <= t <= s.len(),
    ensures
        apply_state(s, removed_run(s, s.len() as int), t) == Some(
            ApplyState { pos: s.len() - t, tail: seq![] },
        ),
    decreases t,
{
    let n = s.len() as int;
    if t > 0 {
        lemma_apply_removed_run(s, t - 1);
        let st = ApplyState { pos: n - (t - 1), tail: seq![] };
        let e = removed_run(s, n)[t - 1];
        assert(e == EntryView { kind: DiffKind::Removed, value: s[n - t], ctx: window(s, n - t) });
        assert(anchored(s, e, n - t));
        assert(find_anchor(s, e, n - t + 1) == n - t);
        assert(s.subrange(n - t + 1, n - t + 1) + st.tail =~= Seq::<Seq<char>>::empty());
        assert(apply_step(s, st, e) == Some(ApplyState { pos: n - t, tail: seq![] }));
    }
}

/// Applying the diff from an empty file rebuilds the modified file.
pub proof fn lemma_round_trip_from_empty(m: Seq<Seq<char>>)
    ensures
        apply_spec(seq![], crate::engine::diff_spec(seq![], m)) == Some(m),
{
    let empty = Seq::<EntryView>::empty();
    lemma_backtrace_from_empty(m, m.len() as int, empty);
    assert(empty + added_run(m, m.len() as int) =~= added_run(m, m.len() as int));
    lemma_apply_added_run(m, m.len() as int);
    assert(Seq::<Seq<char>>::empty().subrange(0, 0) + m.subrange(0, m.len() as int) =~= m);
}

/// Applying the diff to an empty file removes every line.
pub proof fn lemma_round_trip_to_empty(s: Seq<Seq<char>>)
    ensures
        apply_spec(s, crate::engine::diff_spec(s, seq![])) == Some(Seq::<Seq<char>>::empty()),
{
    let empty = Seq::<EntryView>::empty();
    lemma_backtrace_to_empty(s, s.len() as int, empty);
    assert(empty + removed_run(s, s.len() as int) =~= removed_run(s, s.len() as int));
    lemma_apply_removed_run(s, s.len() as int);
    assert(s.subrange(0, 0) + Seq::<Seq<char>>::empty() =~= Seq::<Seq<char>>::empty());
}

} // verus!
