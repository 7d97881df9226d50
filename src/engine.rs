use vstd::prelude::*;

use crate::context::{extract, lines_view, window, LineCtx, WindowView};

verus! {

/// How a line differs between the source and the modified sequence.
#[derive(Debug, Clone, Copy, PartialEq, Eq, Structural)]
pub enum DiffKind {
    Added,
    Removed,
    Changed,
}

/// The two-character marker written in front of an entry of each kind.
pub open spec fn header_of(k: DiffKind) -> Seq<char> {
    match k {
        DiffKind::Added => seq!['+', ' '],
        DiffKind::Removed => seq!['-', ' '],
        DiffKind::Changed => seq!['~', ' '],
    }
}

impl DiffKind {
    pub fn to_header(&self) -> (r: String)
        ensures
            r@ == header_of(*self),
    {
        let r = match self {
            DiffKind::Added => String::from_str("+ "),
            DiffKind::Removed => String::from_str("- "),
            DiffKind::Changed => String::from_str("~ "),
        };
        proof {
            reveal_strlit("+ ");
            reveal_strlit("- ");
            reveal_strlit("~ ");
            assert(r@ =~= header_of(*self));
        }
        r
    }
}

/// Abstract view of an entry of an edit script.
pub ghost struct EntryView {
    pub kind: DiffKind,
    pub value: Seq<char>,
    pub ctx: WindowView,
}

/// One entry of an edit script: a changed line and its surroundings.
#[derive(Debug, Clone)]
pub struct DiffLine {
    pub kind: DiffKind,
    pub value: String,
    pub ctx: LineCtx,
}

impl View for DiffLine {
    type V = EntryView;

    open spec fn view(&self) -> EntryView {
        EntryView { kind: self.kind, value: self.value@, ctx: self.ctx@ }
    }
}

/// The abstract script that a vector of entries stands for.
pub open spec fn script_view(v: Seq<DiffLine>) -> Seq<EntryView> {
    v.map_values(|e: DiffLine| e@)
}

impl DiffLine {
    /// An entry with an empty context window.
    pub fn new(kind: DiffKind, value: String) -> (r: Self)
        ensures
            r@.kind == kind,
            r@.value == value@,
            r@.ctx.before.len() == 0,
            r@.ctx.after.len() == 0,
    {
        DiffLine { kind, value, ctx: LineCtx::new() }
    }

    pub fn added(value: String) -> (r: Self)
        ensures
            r@.kind == DiffKind::Added,
            r@.value == value@,
            r@.ctx.before.len() == 0,
            r@.ctx.after.len() == 0,
    {
        DiffLine::new(DiffKind::Added, value)
    }

    pub fn removed(value: String) -> (r: Self)
        ensures
            r@.kind == DiffKind::Removed,
            r@.value == value@,
            r@.ctx.before.len() == 0,
            r@.ctx.after.len() == 0,
    {
        DiffLine::new(DiffKind::Removed, value)
    }

    pub fn changed(value: String) -> (r: Self)
        ensures
            r@.kind == DiffKind::Changed,
            r@.value == value@,
            r@.ctx.before.len() == 0,
            r@.ctx.after.len() == 0,
    {
        DiffLine::new(DiffKind::Changed, value)
    }
}

/// Length of a longest common subsequence of the first `i` lines of `s`
/// and the first `j` lines of `m`.
pub open spec fn lcs(s: Seq<Seq<char>>, m: Seq<Seq<char>>, i: int, j: int) -> nat
    decreases i + j,
{
    if i <= 0 || j <= 0 {
        0
    } else if s[i - 1] == m[j - 1] {
        lcs(s, m, i - 1, j - 1) + 1
    } else {
        let a = lcs(s, m, i - 1, j);
        let b = lcs(s, m, i, j - 1);
        if a >= b { a } else { b }
    }
}

/// Index of the first `Removed` entry of `acc` at or after `k` whose window
/// equals `w`, or -1 where there is none.
pub open spec fn first_removed(acc: Seq<EntryView>, w: WindowView, k: int) -> int
    decreases acc.len() - k,
{
    if 0 <= k < acc.len() {
        if acc[k].kind == DiffKind::Removed && acc[k].ctx == w {
            k
        } else {
            first_removed(acc, w, k + 1)
        }
    } else {
        -1
    }
}

/// The first match at or after `k` lies in `k..acc.len()` where there is one.
pub proof fn lemma_first_removed_range(acc: Seq<EntryView>, w: WindowView, k: int)
    requires
        0 <= k,
    ensures
        first_removed(acc, w, k) == -1 || (k <= first_removed(acc, w, k) < acc.len()),
    decreases acc.len() - k,
{
    if 0 <= k < acc.len() {
        lemma_first_removed_range(acc, w, k + 1);
    }
}

/// Appends an added line to a partial script: where a removed line with the
/// same window was already emitted, the pair becomes one changed line.
pub open spec fn push_added(acc: Seq<EntryView>, value: Seq<char>, w: WindowView) -> Seq<EntryView> {
    let k = first_removed(acc, w, 0);
    if k >= 0 {
        acc.remove(k).push(EntryView { kind: DiffKind::Changed, value, ctx: w })
    } else {
        acc.push(EntryView { kind: DiffKind::Added, value, ctx: w })
    }
}

/// The script that the backtrace of the LCS table produces from cell
/// `(i, j)` on, after `acc` was emitted. Removal wins ties.
pub open spec fn backtrace(
    s: Seq<Seq<char>>,
    m: Seq<Seq<char>>,
    i: int,
    j: int,
    acc: Seq<EntryView>,
) -> Seq<EntryView>
    decreases
            (if i > 0 { i } else { 0 }) + (if j > 0 { j } else { 0 }),
{
    if i <= 0 && j <= 0 {
        acc
    } else if i > 0 && j > 0 && s[i - 1] == m[j - 1] {
        backtrace(s, m, i - 1, j - 1, acc)
    } else if i > 0 && (j <= 0 || lcs(s, m, i, j) == lcs(s, m, i - 1, j)) {
        backtrace(
            s,
            m,
            i - 1,
            j,
            acc.push(EntryView { kind: DiffKind::Removed, value: s[i - 1], ctx: window(s, i - 1) }),
        )
    } else {
        backtrace(s, m, i, j - 1, push_added(acc, m[j - 1], window(m, j - 1)))
    }
}

/// The edit script from `s` to `m`, from the end of the files to the start.
pub open spec fn diff_spec(s: Seq<Seq<char>>, m: Seq<Seq<char>>) -> Seq<EntryView> {
    backtrace(s, m, s.len() as int, m.len() as int, seq![])
}

/// A common subsequence is no longer than either prefix.
pub proof fn lemma_lcs_bounded(s: Seq<Seq<char>>, m: Seq<Seq<char>>, i: int, j: int)
    requires
        0 <= i,
        0 <= j,
    ensures
        lcs(s, m, i, j) <= i,
        lcs(s, m, i, j) <= j,
    decreases i + j,
{
    if i > 0 && j > 0 {
        lemma_lcs_bounded(s, m, i - 1, j - 1);
        lemma_lcs_bounded(s, m, i - 1, j);
        lemma_lcs_bounded(s, m, i, j - 1);
    }
}

/// Fills the LCS table: `table[i][j] == lcs(s, m, i, j)`.
fn lcs_table(source: &Vec<String>, modified: &Vec<String>) -> (table: Vec<Vec<usize>>)
    ensures
        table@.len() == source.len() + 1,
        forall|i: int| 0 <= i < table@.len() ==> (#[trigger] table@[i])@.len() == modified.len() + 1,
        forall|i: int, j: int|
            0 <= i <= source.len() && 0 <= j <= modified.len() ==> (#[trigger] table@[i]@[j]) as int
                == lcs(lines_view(source@), lines_view(modified@), i, j),
{
    let ghost s = lines_view(source@);
    let ghost m = lines_view(modified@);
    let n = modified.len();
    let mut table: Vec<Vec<usize>> = Vec::new();
    let mut row0: Vec<usize> = Vec::new();
    row0.push(0);
    let mut j: usize = 0;
    while j < n
        invariant
            row0@.len() == j + 1,
            j <= n,
            forall|c: int| 0 <= c < row0@.len() ==> row0@[c] == 0,
        decreases n - j,
    {
        row0.push(0);
        j = j + 1;
    }
    table.push(row0);
    let mut i: usize = 0;
    while i < source.len()
        invariant
            s == lines_view(source@),
            m == lines_view(modified@),
            n == modified.len(),
            i <= source.len(),
            table@.len() == i + 1,
            forall|r: int| 0 <= r < table@.len() ==> (#[trigger] table@[r])@.len() == n + 1,
            forall|r: int, c: int|
                0 <= r <= i && 0 <= c <= n ==> (#[trigger] table@[r]@[c]) as int == lcs(s, m, r, c),
        decreases source.len() - i,
    {
        let mut row: Vec<usize> = Vec::new();
        row.push(0);
        let mut j: usize = 0;
        while j < n
            invariant
                s == lines_view(source@),
                m == lines_view(modified@),
                n == modified.len(),
                i < source.len(),
                j <= n,
                table@.len() == i + 1,
                forall|r: int| 0 <= r < table@.len() ==> (#[trigger] table@[r])@.len() == n + 1,
                forall|r: int, c: int|
                    0 <= r <= i && 0 <= c <= n ==> (#[trigger] table@[r]@[c]) as int == lcs(s, m, r, c),
                row@.len() == j + 1,
                forall|c: int| 0 <= c <= j ==> (#[trigger] row@[c]) as int == lcs(s, m, i + 1, c),
            decreases n - j,
        {
            proof {
                lemma_lcs_bounded(s, m, i as int, j as int);
                assert(s[i as int] == source@[i as int]@);
                assert(m[j as int] == modified@[j as int]@);
            }
            let v: usize = if source[i] == modified[j] {
                table[i][j] + 1
            } else {
                let up = table[i][j + 1];
                let left = row[j];
                if up >= left { up } else { left }
            };
            row.push(v);
            j = j + 1;
        }
        table.push(row);
        i = i + 1;
    }
    table
}

/// Index of the first removed entry of `acc` whose window equals `w`.
fn find_removed(acc: &Vec<DiffLine>, w: &LineCtx) -> (r: Option<usize>)
    ensures
        match r {
            Some(k) => k as int == first_removed(script_view(acc@), w@, 0),
            None => first_removed(script_view(acc@), w@, 0) == -1,
        },
{
    let ghost sv = script_view(acc@);
    let mut k: usize = 0;
    while k < acc.len()
        invariant
            sv == script_view(acc@),
            k <= acc.len(),
            first_removed(sv, w@, 0) == first_removed(sv, w@, k as int),
        decreases acc.len() - k,
    {
        let e = &acc[k];
        proof {
            assert(sv[k as int] == e@);
        }
        if e.kind == DiffKind::Removed && e.ctx.compare(w) {
            return Some(k);
        }
        k = k + 1;
    }
    None
}

/// Appends an added line with its window to `acc`, merging it with an
/// earlier removed line of the same window into a changed line.
fn push_added_entry(acc: &mut Vec<DiffLine>, value: String, ctx: LineCtx)
    ensures
        script_view(final(acc)@) == push_added(script_view(old(acc)@), value@, ctx@),
{
    let ghost before = script_view(acc@);
    match find_removed(acc, &ctx) {
        Some(k) => {
            proof {
                lemma_first_removed_range(before, ctx@, 0);
            }
            let _ = acc.remove(k);
            let ghost mid = acc@;
            acc.push(DiffLine { kind: DiffKind::Changed, value, ctx });
            proof {
                assert(script_view(mid) =~= before.remove(k as int));
                assert(script_view(acc@) =~= script_view(mid).push(acc@.last()@));
            }
        },
        None => {
            let ghost mid = acc@;
            acc.push(DiffLine { kind: DiffKind::Added, value, ctx });
            proof {
                assert(script_view(acc@) =~= script_view(mid).push(acc@.last()@));
            }
        },
    }
}

/// The edit script from `source` to `modified`, from the end of the files
/// to the start: the LCS alignment, backtraced with removal winning ties,
/// each added line merged with an earlier removed line of the same window.
pub fn compute_diff(source: Vec<String>, modified: Vec<String>) -> (r: Vec<DiffLine>)
    ensures
        script_view(r@) == diff_spec(lines_view(source@), lines_view(modified@)),
{
    let ghost s = lines_view(source@);
    let ghost m = lines_view(modified@);
    let table = lcs_table(&source, &modified);
    let mut lines: Vec<DiffLine> = Vec::new();
    let mut i: usize = source.len();
    let mut j: usize = modified.len();
    proof {
        assert(script_view(lines@) =~= seq![]);
    }
    while i > 0 || j > 0
        invariant
            s == lines_view(source@),
            m == lines_view(modified@),
            i <= source.len(),
            j <= modified.len(),
            table@.len() == source.len() + 1,
            forall|r: int| 0 <= r < table@.len() ==> (#[trigger] table@[r])@.len() == modified.len() + 1,
            forall|r: int, c: int|
                0 <= r <= source.len() && 0 <= c <= modified.len() ==> (#[trigger] table@[r]@[c]) as int
                    == lcs(s, m, r, c),
            backtrace(s, m, i as int, j as int, script_view(lines@)) == diff_spec(s, m),
        decreases i + j,
    {
        let ghost acc = script_view(lines@);
        if i > 0 && j > 0 && source[i - 1] == modified[j - 1] {
            i = i - 1;
            j = j - 1;
        } else if i > 0 && (j == 0 || table[i][j] == table[i - 1][j]) {
            let ctx = extract(&source, i - 1);
            let ghost mid = lines@;
            lines.push(DiffLine { kind: DiffKind::Removed, value: source[i - 1].clone(), ctx });
            proof {
                assert(script_view(lines@) =~= script_view(mid).push(lines@.last()@));
            }
            i = i - 1;
        } else {
            let ctx = extract(&modified, j - 1);
            push_added_entry(&mut lines, modified[j - 1].clone(), ctx);
            j = j - 1;
        }
    }
    lines
}

} // verus!

verus! {

/// Reverses the order of a script.
fn reverse_script(v: Vec<DiffLine>) -> (r: Vec<DiffLine>)
    ensures
        script_view(r@) == script_view(v@).reverse(),
{
    let ghost orig = script_view(v@);
    let mut v = v;
    let mut r: Vec<DiffLine> = Vec::new();
    while v.len() > 0
        invariant
            orig.len() == v@.len() + r@.len(),
            forall|t: int| 0 <= t < v@.len() ==> (#[trigger] v@[t])@ == orig[t],
            forall|t: int| 0 <= t < r@.len() ==> (#[trigger] r@[t])@ == orig[orig.len() - 1 - t],
        decreases v.len(),
    {
        let e = v.pop().unwrap();
        r.push(e);
    }
    proof {
        assert(script_view(r@) =~= orig.reverse());
    }
    r
}

/// The edit script from `source` to `modified`; with `revert` set, its
/// entries come from the start of the files to the end.
pub fn diff(source: Vec<String>, modified: Vec<String>, revert: bool) -> (r: Vec<DiffLine>)
    ensures
        script_view(r@) == (if revert {
            diff_spec(lines_view(source@), lines_view(modified@)).reverse()
        } else {
            diff_spec(lines_view(source@), lines_view(modified@))
        }),
{
    let lines = compute_diff(source, modified);
    if revert {
        reverse_script(lines)
    } else {
        lines
    }
}

/// Where the first `i` lines of two sequences agree, the backtrace from
/// `(i, i)` emits nothing more.
pub proof fn lemma_backtrace_equal_prefix(
    s: Seq<Seq<char>>,
    m: Seq<Seq<char>>,
    i: int,
    acc: Seq<EntryView>,
)
    requires
        0 <= i <= s.len(),
        i <= m.len(),
        forall|t: int| 0 <= t < i ==> s[t] == m[t],
    ensures
        backtrace(s, m, i, i, acc) == acc,
    decreases i,
{
    if i > 0 {
        lemma_backtrace_equal_prefix(s, m, i - 1, acc);
    }
}

/// Where lines `k..n` of two sequences of length `n` agree, the backtrace
/// from `(n, n)` reaches `(k, k)` without emitting anything.
pub proof fn lemma_backtrace_equal_suffix(
    s: Seq<Seq<char>>,
    m: Seq<Seq<char>>,
    i: int,
    k: int,
    acc: Seq<EntryView>,
)
    requires
        0 <= k <= i <= s.len(),
        s.len() == m.len(),
        forall|t: int| k <= t < s.len() ==> s[t] == m[t],
    ensures
        backtrace(s, m, i, i, acc) == backtrace(s, m, k, k, acc),
    decreases i,
{
    if i > k {
        lemma_backtrace_equal_suffix(s, m, i - 1, k, acc);
    }
}

/// Where the first `i` lines of `s` start `m` as well, the first `i` lines of
/// `s` and the first `j >= i` lines of `m` have a common subsequence of length `i`.
pub proof fn lemma_lcs_of_prefix(s: Seq<Seq<char>>, m: Seq<Seq<char>>, i: int, j: int)
    requires
        0 <= i <= j,
        i <= s.len(),
        j <= m.len(),
        forall|t: int| 0 <= t < i ==> s[t] == m[t],
    ensures
        lcs(s, m, i, j) >= i,
    decreases i + j,
{
    if i > 0 {
        if s[i - 1] == m[j - 1] {
            lemma_lcs_of_prefix(s, m, i - 1, j - 1);
        } else {
            lemma_lcs_of_prefix(s, m, i, j - 1);
        }
    }
}

/// Diffing a file against itself yields an empty script.
pub proof fn lemma_diff_identity(f: Seq<Seq<char>>)
    ensures
        diff_spec(f, f) == Seq::<EntryView>::empty(),
{
    lemma_backtrace_equal_prefix(f, f, f.len() as int, seq![]);
}

/// Replacing the line at `k` by a different one, with its neighbours kept,
/// gives a script of exactly one changed line carrying the new text and the
/// shared window, where the new line does not repeat the line just before it.
pub proof fn lemma_single_replacement(s: Seq<Seq<char>>, m: Seq<Seq<char>>, k: int)
    requires
        s.len() == m.len(),
        0 <= k < s.len(),
        s[k] != m[k],
        forall|t: int| 0 <= t < s.len() && t != k ==> s[t] == m[t],
        k == 0 || m[k] != s[k - 1],
    ensures
        diff_spec(s, m) == seq![EntryView { kind: DiffKind::Changed, value: m[k], ctx: window(s, k) }],
{
    let n = s.len() as int;
    let empty = Seq::<EntryView>::empty();
    lemma_backtrace_equal_suffix(s, m, n, k + 1, empty);
    lemma_lcs_of_prefix(s, m, k, k + 1);
    lemma_lcs_bounded(s, m, k, k + 1);
    lemma_lcs_bounded(s, m, k + 1, k);
    let e1 = EntryView { kind: DiffKind::Removed, value: s[k], ctx: window(s, k) };
    let acc1 = empty.push(e1);
    assert(backtrace(s, m, k + 1, k + 1, empty) == backtrace(s, m, k, k + 1, acc1));
    assert(window(s, k).before =~= window(m, k).before);
    assert(window(s, k).after =~= window(m, k).after);
    assert(window(s, k) == window(m, k));
    assert(first_removed(acc1, window(m, k), 0) == 0);
    let acc2 = push_added(acc1, m[k], window(m, k));
    assert(acc2 =~= seq![EntryView { kind: DiffKind::Changed, value: m[k], ctx: window(s, k) }]);
    if k > 0 {
        lemma_lcs_bounded(s, m, k - 1, k + 1);
        assert(backtrace(s, m, k, k + 1, acc1) == backtrace(s, m, k, k, acc2));
    }
    lemma_backtrace_equal_prefix(s, m, k, acc2);
}

} // verus!
