use vstd::prelude::*;

verus! {

/// The text of each line of a sequence of lines.
pub open spec fn lines_view(v: Seq<String>) -> Seq<Seq<char>> {
    v.map_values(|s: String| s@)
}

/// Abstract view of a context window: the lines before a position (nearest
/// first) and the lines after it (nearest first).
pub ghost struct WindowView {
    pub before: Seq<Seq<char>>,
    pub after: Seq<Seq<char>>,
}

/// The up-to-`amount` lines before index `i` of `s`, nearest first; a
/// position outside the sequence holds no line.
pub open spec fn lines_before(s: Seq<Seq<char>>, i: int, amount: int) -> Seq<Seq<char>> {
    let hi = if i < s.len() { i } else { s.len() as int };
    let lo = if amount < i { i - amount } else { 0 };
    Seq::new(if lo < hi { (hi - lo) as nat } else { 0 }, |j: int| s[hi - 1 - j])
}

/// The up-to-`amount` lines after index `i` of `s`, nearest first; a
/// position outside the sequence holds no line.
pub open spec fn lines_after(s: Seq<Seq<char>>, i: int, amount: int) -> Seq<Seq<char>> {
    let start = i + 1;
    let end = if i + 1 + amount < s.len() { i + 1 + amount } else { s.len() as int };
    Seq::new(if start < end { (end - start) as nat } else { 0 }, |j: int| s[start + j])
}

/// The radius-one window around index `i`: the line just before and the
/// line just after, each absent at the edge of the sequence.
pub open spec fn window(s: Seq<Seq<char>>, i: int) -> WindowView {
    WindowView { before: lines_before(s, i, 1), after: lines_after(s, i, 1) }
}

/// Lines that surround a changed line.
#[derive(Debug, Clone)]
pub struct LineCtx {
    pub before: Vec<String>,
    pub after: Vec<String>,
}

impl View for LineCtx {
    type V = WindowView;

    open spec fn view(&self) -> WindowView {
        WindowView { before: lines_view(self.before@), after: lines_view(self.after@) }
    }
}

/// Whether two lists of lines hold the same texts in the same order.
pub fn lines_equal(a: &Vec<String>, b: &Vec<String>) -> (r: bool)
    ensures
        r == (lines_view(a@) == lines_view(b@)),
{
    if a.len() != b.len() {
        proof {
            assert(lines_view(a@).len() != lines_view(b@).len());
        }
        return false;
    }
    let mut i: usize = 0;
    while i < a.len()
        invariant
            a.len() == b.len(),
            i <= a.len(),
            forall|k: int| 0 <= k < i ==> a@[k]@ == b@[k]@,
        decreases a.len() - i,
    {
        if a[i] != b[i] {
            proof {
                assert(lines_view(a@)[i as int] != lines_view(b@)[i as int]);
            }
            return false;
        }
        i = i + 1;
    }
    proof {
        assert(lines_view(a@) =~= lines_view(b@));
    }
    true
}

impl LineCtx {
    /// An empty window.
    pub fn new() -> (r: Self)
        ensures
            r@.before.len() == 0,
            r@.after.len() == 0,
    {
        LineCtx { before: Vec::new(), after: Vec::new() }
    }

    /// Appends the up-to-`amount` lines before and after index `i` of `v`,
    /// nearest first, to the two sides of the window. Positions outside `v`
    /// hold no line, so any index is accepted.
    pub fn push(&mut self, v: &Vec<String>, i: usize, amount: usize)
        ensures
            final(self)@.before == old(self)@.before + lines_before(lines_view(v@), i as int, amount as int),
            final(self)@.after == old(self)@.after + lines_after(lines_view(v@), i as int, amount as int),
    {
        let ghost s = lines_view(v@);
        let ghost b0 = self@.before;
        let ghost a0 = self@.after;
        let hi: usize = if i < v.len() { i } else { v.len() };
        let lo: usize = if amount < i { i - amount } else { 0 };
        let mut t: usize = hi;
        proof {
            assert(self@.before =~= b0 + Seq::new((hi - t) as nat, |j: int| s[hi - 1 - j]));
        }
        while t > lo
            invariant
                s == lines_view(v@),
                hi <= v.len(),
                lo <= t <= hi || (t == hi && hi <= lo),
                self@.before == b0 + Seq::new((hi - t) as nat, |j: int| s[hi - 1 - j]),
                self@.after == a0,
            decreases t,
        {
            let ghost prev = self.before@;
            self.before.push(v[t - 1].clone());
            proof {
                assert(lines_view(self.before@) =~= lines_view(prev).push(s[t - 1]));
                assert(self@.before =~= b0 + Seq::new((hi - (t - 1)) as nat, |j: int| s[hi - 1 - j]));
            }
            t = t - 1;
        }
        proof {
            assert(self@.before =~= b0 + lines_before(s, i as int, amount as int));
        }
        if i < v.len() {
            let start: usize = i + 1;
            let end: usize = if amount < v.len() - start { start + amount } else { v.len() };
            let mut t: usize = start;
            proof {
                assert(self@.after =~= a0 + Seq::new((t - start) as nat, |j: int| s[start + j]));
            }
            while t < end
                invariant
                    s == lines_view(v@),
                    start <= t <= end <= v.len(),
                    self@.before == b0 + lines_before(s, i as int, amount as int),
                    self@.after == a0 + Seq::new((t - start) as nat, |j: int| s[start + j]),
                decreases end - t,
            {
                let ghost prev = self.after@;
                self.after.push(v[t].clone());
                proof {
                    assert(lines_view(self.after@) =~= lines_view(prev).push(s[t as int]));
                    assert(self@.after =~= a0 + Seq::new((t + 1 - start) as nat, |j: int| s[start + j]));
                }
                t = t + 1;
            }
            proof {
                assert(self@.after =~= a0 + lines_after(s, i as int, amount as int));
            }
        } else {
            proof {
                assert(self@.after =~= a0 + lines_after(s, i as int, amount as int));
            }
        }
    }

    /// Whether two windows hold exactly the same lines on both sides.
    pub fn compare(&self, other: &LineCtx) -> (r: bool)
        ensures
            r == (self@ == other@),
    {
        let b = lines_equal(&self.before, &other.before);
        let a = lines_equal(&self.after, &other.after);
        b && a
    }
}

/// The radius-one window around index `i` of `v`; a side that falls
/// outside `v` is empty.
pub fn extract(v: &Vec<String>, i: usize) -> (r: LineCtx)
    ensures
        r@ == window(lines_view(v@), i as int),
{
    let mut c = LineCtx::new();
    c.push(v, i, 1);
    proof {
        assert(c@.before =~= window(lines_view(v@), i as int).before);
        assert(c@.after =~= window(lines_view(v@), i as int).after);
    }
    c
}

} // verus!

verus! {

/// The before side of a window holds a line exactly when the index is not
/// the first, and the after side exactly when it is not the last.
pub proof fn lemma_window_sides(s: Seq<Seq<char>>, i: int)
    requires
        0 <= i < s.len(),
    ensures
        window(s, i).before.len() == (if i > 0 { 1int } else { 0int }),
        window(s, i).after.len() == (if i + 1 < s.len() { 1int } else { 0int }),
        i > 0 ==> window(s, i).before[0] == s[i - 1],
        i + 1 < s.len() ==> window(s, i).after[0] == s[i + 1],
{
}

} // verus!
