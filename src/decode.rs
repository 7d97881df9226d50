use vstd::prelude::*;
use vstd::std_specs::iter::IteratorSpec;
use vstd::string::StrSliceExecFns;

use crate::codec::{CTX_EOL, CTX_MID, CTX_NL};
use crate::context::{lines_view, LineCtx, WindowView};
use crate::engine::{header_of, script_view, DiffKind, DiffLine, EntryView};

verus! {

/// The pieces of `t` between the occurrences of `c`; there is always at
/// least one.
pub open spec fn split_on(t: Seq<char>, c: char) -> Seq<Seq<char>>
    decreases t.len(),
{
    if t.len() == 0 {
        seq![seq![]]
    } else {
        let p = split_on(t.drop_last(), c);
        if t.last() == c {
            p.push(seq![])
        } else {
            p.update(p.len() - 1, p.last().push(t.last()))
        }
    }
}

pub proof fn lemma_split_nonempty(t: Seq<char>, c: char)
    ensures
        split_on(t, c).len() >= 1,
    decreases t.len(),
{
    if t.len() > 0 {
        lemma_split_nonempty(t.drop_last(), c);
    }
}

/// The kind that a two-character header stands for.
pub open spec fn parse_header(h: Seq<char>) -> Option<DiffKind> {
    if h == header_of(DiffKind::Added) {
        Some(DiffKind::Added)
    } else if h == header_of(DiffKind::Removed) {
        Some(DiffKind::Removed)
    } else if h == header_of(DiffKind::Changed) {
        Some(DiffKind::Changed)
    } else {
        None
    }
}

/// The lines of a written before side: empty, or lines each followed by
/// the context separator.
pub open spec fn parse_before(part: Seq<char>) -> Option<Seq<Seq<char>>> {
    if part.len() == 0 {
        Some(seq![])
    } else {
        let p = split_on(part, CTX_NL);
        if p.last().len() == 0 {
            Some(p.drop_last())
        } else {
            None
        }
    }
}

/// The lines of a written after side: empty, or lines each preceded by the
/// context separator.
pub open spec fn parse_after(part: Seq<char>) -> Option<Seq<Seq<char>>> {
    if part.len() == 0 {
        Some(seq![])
    } else {
        let p = split_on(part, CTX_NL);
        if p[0].len() == 0 {
            Some(p.drop_first())
        } else {
            None
        }
    }
}

/// The entry that one compact record (without its newline) stands for:
/// header, value, terminator, before side, halfway marker, after side.
pub open spec fn parse_record(r: Seq<char>) -> Option<EntryView> {
    if r.len() < 2 {
        None
    } else {
        match parse_header(r.take(2)) {
            None => None,
            Some(kind) => {
                let q = split_on(r.skip(2), CTX_EOL);
                if q.len() != 2 {
                    None
                } else {
                    let u = split_on(q[1], CTX_MID);
                    if u.len() != 2 {
                        None
                    } else {
                        match (parse_before(u[0]), parse_after(u[1])) {
                            (Some(b), Some(a)) => Some(
                                EntryView { kind, value: q[0], ctx: WindowView { before: b, after: a } },
                            ),
                            _ => None,
                        }
                    }
                }
            },
        }
    }
}

/// The records of a compact text: the pieces between newlines, the last
/// of which is what follows the final newline.
pub open spec fn record_pieces(text: Seq<char>) -> Seq<Seq<char>> {
    split_on(text, '\n')
}

/// The script that a compact text stands for, or `None` where it is
/// malformed: text after the last newline, or a record that does not parse.
pub open spec fn decode_spec(text: Seq<char>) -> Option<Seq<EntryView>> {
    let rs = record_pieces(text);
    let n = rs.len() - 1;
    if rs.last().len() == 0 && forall|k: int| 0 <= k < n ==> (#[trigger] parse_record(rs[k])) is Some {
        Some(Seq::new(n as nat, |k: int| parse_record(rs[k])->0))
    } else {
        None
    }
}

/// The characters of a string, in order.
pub fn chars_of(s: &String) -> (r: Vec<char>)
    ensures
        r@ == s@,
{
    broadcast use vstd::string::group_string_axioms;

    let mut it = s.as_str().chars();
    let n = s.as_str().unicode_len();
    let mut v: Vec<char> = Vec::new();
    while v.len() < n
        invariant
            n == s@.len(),
            v@ + IteratorSpec::remaining(&it) == s@,
        decreases n - v.len(),
    {
        let ghost before = IteratorSpec::remaining(&it);
        match it.next() {
            Some(c) => {
                v.push(c);
                assert(v@ + IteratorSpec::remaining(&it) =~= s@);
            },
            None => {
                assert(v@ =~= s@);
                return v;
            },
        }
    }
    assert(v@ =~= s@);
    v
}

} // verus!

verus! {

/// Relies on String::push: appends one character at the end.
#[verifier::external_body]
fn push_char(s: &mut String, c: char)
    ensures
        final(s)@ == old(s)@.push(c),
{
    s.push(c);
}

/// The characters `lo..hi` of `t` as a string.
fn string_of(t: &Vec<char>, lo: usize, hi: usize) -> (r: String)
    requires
        lo <= hi <= t.len(),
    ensures
        r@ == t@.subrange(lo as int, hi as int),
{
    let mut r = String::new();
    let mut i: usize = lo;
    proof {
        assert(r@ =~= t@.subrange(lo as int, lo as int));
    }
    while i < hi
        invariant
            lo <= i <= hi <= t.len(),
            r@ == t@.subrange(lo as int, i as int),
        decreases hi - i,
    {
        push_char(&mut r, t[i]);
        proof {
            assert(r@ =~= t@.subrange(lo as int, i as int + 1));
        }
        i = i + 1;
    }
    r
}

/// The bounds, within `t`, of the pieces of `t[lo..hi]` between the
/// occurrences of `c`.
fn split_chars(t: &Vec<char>, lo: usize, hi: usize, c: char) -> (r: Vec<(usize, usize)>)
    requires
        lo <= hi <= t.len(),
    ensures
        r.len() >= 1,
        r.len() == split_on(t@.subrange(lo as int, hi as int), c).len(),
        forall|k: int|
            0 <= k < r.len() ==> lo <= (#[trigger] r@[k]).0 <= r@[k].1 <= hi && t@.subrange(
                r@[k].0 as int,
                r@[k].1 as int,
            ) == split_on(t@.subrange(lo as int, hi as int), c)[k],
{
    let mut done: Vec<(usize, usize)> = Vec::new();
    let mut start: usize = lo;
    let mut i: usize = lo;
    proof {
        assert(t@.subrange(lo as int, lo as int) =~= Seq::<char>::empty());
        assert(t@.subrange(start as int, i as int) =~= Seq::<char>::empty());
    }
    while i < hi
        invariant
            lo <= start <= i <= hi <= t.len(),
            done.len() + 1 == split_on(t@.subrange(lo as int, i as int), c).len(),
            forall|k: int|
                0 <= k < done.len() ==> lo <= (#[trigger] done@[k]).0 <= done@[k].1 <= hi && t@.subrange(
                    done@[k].0 as int,
                    done@[k].1 as int,
                ) == split_on(t@.subrange(lo as int, i as int), c)[k],
            t@.subrange(start as int, i as int) == split_on(t@.subrange(lo as int, i as int), c).last(),
        decreases hi - i,
    {
        let ghost sp = split_on(t@.subrange(lo as int, i as int), c);
        proof {
            lemma_split_nonempty(t@.subrange(lo as int, i as int), c);
            assert(t@.subrange(lo as int, i as int + 1).drop_last() =~= t@.subrange(lo as int, i as int));
            assert(t@.subrange(lo as int, i as int + 1).last() == t@[i as int]);
        }
        if t[i] == c {
            done.push((start, i));
            start = i + 1;
            proof {
                assert(t@.subrange(start as int, i as int + 1) =~= Seq::<char>::empty());
            }
        } else {
            proof {
                assert(t@.subrange(start as int, i as int + 1) =~= t@.subrange(start as int, i as int).push(t@[i as int]));
            }
        }
        i = i + 1;
    }
    proof {
        lemma_split_nonempty(t@.subrange(lo as int, hi as int), c);
    }
    done.push((start, hi));
    done
}

/// Strings for the pieces `from..to` of a split.
fn piece_strings(t: &Vec<char>, pieces: &Vec<(usize, usize)>, from: usize, to: usize) -> (r: Vec<String>)
    requires
        from <= to <= pieces.len(),
        forall|k: int| 0 <= k < pieces.len() ==> (#[trigger] pieces@[k]).0 <= pieces@[k].1 <= t.len(),
    ensures
        r.len() == to - from,
        forall|k: int|
            0 <= k < r.len() ==> (#[trigger] r@[k])@ == t@.subrange(
                pieces@[from + k].0 as int,
                pieces@[from + k].1 as int,
            ),
{
    let mut r: Vec<String> = Vec::new();
    let mut k: usize = from;
    while k < to
        invariant
            from <= k <= to <= pieces.len(),
            forall|j: int| 0 <= j < pieces.len() ==> (#[trigger] pieces@[j]).0 <= pieces@[j].1 <= t.len(),
            r.len() == k - from,
            forall|j: int|
                0 <= j < r.len() ==> (#[trigger] r@[j])@ == t@.subrange(
                    pieces@[from + j].0 as int,
                    pieces@[from + j].1 as int,
                ),
        decreases to - k,
    {
        let (a, b) = pieces[k];
        r.push(string_of(t, a, b));
        k = k + 1;
    }
    r
}

/// The lines of the written before side `t[lo..hi]`.
fn before_lines(t: &Vec<char>, lo: usize, hi: usize) -> (r: Option<Vec<String>>)
    requires
        lo <= hi <= t.len(),
    ensures
        match r {
            Some(v) => parse_before(t@.subrange(lo as int, hi as int)) == Some(lines_view(v@)),
            None => parse_before(t@.subrange(lo as int, hi as int)) is None,
        },
{
    let ghost part = t@.subrange(lo as int, hi as int);
    if lo == hi {
        let v: Vec<String> = Vec::new();
        proof {
            assert(lines_view(v@) =~= Seq::<Seq<char>>::empty());
        }
        return Some(v);
    }
    let pieces = split_chars(t, lo, hi, CTX_NL);
    let n = pieces.len();
    let (a, b) = pieces[n - 1];
    if a != b {
        return None;
    }
    let v = piece_strings(t, &pieces, 0, n - 1);
    proof {
        assert(lines_view(v@) =~= split_on(part, CTX_NL).drop_last());
    }
    Some(v)
}

/// The lines of the written after side `t[lo..hi]`.
fn after_lines(t: &Vec<char>, lo: usize, hi: usize) -> (r: Option<Vec<String>>)
    requires
        lo <= hi <= t.len(),
    ensures
        match r {
            Some(v) => parse_after(t@.subrange(lo as int, hi as int)) == Some(lines_view(v@)),
            None => parse_after(t@.subrange(lo as int, hi as int)) is None,
        },
{
    let ghost part = t@.subrange(lo as int, hi as int);
    if lo == hi {
        let v: Vec<String> = Vec::new();
        proof {
            assert(lines_view(v@) =~= Seq::<Seq<char>>::empty());
        }
        return Some(v);
    }
    let pieces = split_chars(t, lo, hi, CTX_NL);
    let n = pieces.len();
    let (a, b) = pieces[0];
    if a != b {
        return None;
    }
    let v = piece_strings(t, &pieces, 1, n);
    proof {
        assert(lines_view(v@) =~= split_on(part, CTX_NL).drop_first());
    }
    Some(v)
}

/// The kind whose header is `x` then `y`.
fn kind_of_header(x: char, y: char) -> (r: Option<DiffKind>)
    ensures
        r == parse_header(seq![x, y]),
{
    let r = if x == '+' && y == ' ' {
        Some(DiffKind::Added)
    } else if x == '-' && y == ' ' {
        Some(DiffKind::Removed)
    } else if x == '~' && y == ' ' {
        Some(DiffKind::Changed)
    } else {
        None
    };
    proof {
        let h = seq![x, y];
        assert(h[0] == x && h[1] == y);
        assert(header_of(DiffKind::Added)[0] == '+' && header_of(DiffKind::Added)[1] == ' ');
        assert(header_of(DiffKind::Removed)[0] == '-' && header_of(DiffKind::Removed)[1] == ' ');
        assert(header_of(DiffKind::Changed)[0] == '~' && header_of(DiffKind::Changed)[1] == ' ');
        if r is Some {
            assert(h =~= header_of(r->0));
        }
    }
    r
}

/// The entry that the compact record `t[lo..hi]` stands for.
fn record_entry(t: &Vec<char>, lo: usize, hi: usize) -> (r: Option<DiffLine>)
    requires
        lo <= hi <= t.len(),
    ensures
        match r {
            Some(e) => parse_record(t@.subrange(lo as int, hi as int)) == Some(e@),
            None => parse_record(t@.subrange(lo as int, hi as int)) is None,
        },
{
    let ghost rec = t@.subrange(lo as int, hi as int);
    if hi - lo < 2 {
        return None;
    }
    proof {
        assert(rec.take(2) =~= seq![t@[lo as int], t@[lo + 1]]);
        assert(rec.skip(2) =~= t@.subrange(lo + 2, hi as int));
    }
    let kind = match kind_of_header(t[lo], t[lo + 1]) {
        Some(k) => k,
        None => {
            return None;
        },
    };
    let q = split_chars(t, lo + 2, hi, CTX_EOL);
    if q.len() != 2 {
        return None;
    }
    let (v0, v1) = q[0];
    let (c0, c1) = q[1];
    let u = split_chars(t, c0, c1, CTX_MID);
    if u.len() != 2 {
        return None;
    }
    let (b0, b1) = u[0];
    let (a0, a1) = u[1];
    proof {
        assert(t@.subrange(b0 as int, b1 as int) == split_on(t@.subrange(c0 as int, c1 as int), CTX_MID)[0]);
    }
    let before = match before_lines(t, b0, b1) {
        Some(b) => b,
        None => {
            return None;
        },
    };
    let after = match after_lines(t, a0, a1) {
        Some(a) => a,
        None => {
            return None;
        },
    };
    let value = string_of(t, v0, v1);
    Some(DiffLine { kind, value, ctx: LineCtx { before, after } })
}

/// Why a compact text could not be read back.
#[derive(Debug, Clone, Copy, PartialEq, Eq, Structural)]
pub enum DecodeError {
    /// Text follows the last newline.
    Unterminated,
    /// The record at this index is not header, value, terminator, before
    /// side, halfway marker and after side.
    Malformed { record: usize },
}

/// Reads a script back from its compact layout.
pub fn decode(text: &String) -> (r: Result<Vec<DiffLine>, DecodeError>)
    ensures
        match r {
            Ok(v) => decode_spec(text@) == Some(script_view(v@)),
            Err(DecodeError::Unterminated) => {
                &&& record_pieces(text@).last().len() > 0
                &&& decode_spec(text@) is None
            },
            Err(DecodeError::Malformed { record }) => {
                &&& record < record_pieces(text@).len() - 1
                &&& parse_record(record_pieces(text@)[record as int]) is None
                &&& decode_spec(text@) is None
            },
        },
{
    let t = chars_of(text);
    let ghost rs = record_pieces(text@);
    let pieces = split_chars(&t, 0, t.len(), '\n');
    proof {
        assert(t@.subrange(0, t@.len() as int) =~= text@);
    }
    let n = pieces.len();
    let (l0, l1) = pieces[n - 1];
    if l0 != l1 {
        return Err(DecodeError::Unterminated);
    }
    let mut out: Vec<DiffLine> = Vec::new();
    let mut k: usize = 0;
    while k < n - 1
        invariant
            rs == record_pieces(text@),
            n == rs.len(),
            n == pieces.len(),
            n >= 1,
            rs.last().len() == 0,
            k <= n - 1,
            out.len() == k,
            forall|j: int| 0 <= j < pieces.len() ==> (#[trigger] pieces@[j]).0 <= pieces@[j].1 <= t.len()
                && t@.subrange(pieces@[j].0 as int, pieces@[j].1 as int) == rs[j],
            forall|j: int| 0 <= j < k ==> parse_record(#[trigger] rs[j]) == Some(out@[j]@),
        decreases n - 1 - k,
    {
        let (a, b) = pieces[k];
        match record_entry(&t, a, b) {
            Some(e) => {
                out.push(e);
            },
            None => {
                return Err(DecodeError::Malformed { record: k });
            },
        }
        k = k + 1;
    }
    proof {
        assert(forall|j: int| 0 <= j < n - 1 ==> (#[trigger] parse_record(rs[j])) is Some);
        assert(script_view(out@) =~= Seq::new((n - 1) as nat, |j: int| parse_record(rs[j])->0));
    }
    Ok(out)
}

} // verus!

verus! {

/// Whether `c` does not occur in `x`.
pub open spec fn free_of(x: Seq<char>, c: char) -> bool {
    forall|i: int| 0 <= i < x.len() ==> x[i] != c
}

/// Whether a line holds none of the newline and the three compact markers.
pub open spec fn plain_line(x: Seq<char>) -> bool {
    &&& free_of(x, '\n')
    &&& free_of(x, CTX_NL)
    &&& free_of(x, CTX_EOL)
    &&& free_of(x, CTX_MID)
}

/// Whether an entry's value and context lines are all plain.
pub open spec fn plain_entry(e: EntryView) -> bool {
    &&& plain_line(e.value)
    &&& forall|k: int| 0 <= k < e.ctx.before.len() ==> plain_line(#[trigger] e.ctx.before[k])
    &&& forall|k: int| 0 <= k < e.ctx.after.len() ==> plain_line(#[trigger] e.ctx.after[k])
}

pub proof fn lemma_free_concat(a: Seq<char>, b: Seq<char>, c: char)
    requires
        free_of(a, c),
        free_of(b, c),
    ensures
        free_of(a + b, c),
{
    assert forall|i: int| 0 <= i < (a + b).len() implies (a + b)[i] != c by {
        if i < a.len() {
            assert((a + b)[i] == a[i]);
        } else {
            assert((a + b)[i] == b[i - a.len()]);
        }
    }
}

/// Splitting around one separator splits each side on its own.
pub proof fn lemma_split_concat(a: Seq<char>, b: Seq<char>, c: char)
    ensures
        split_on(a + seq![c] + b, c) == split_on(a, c) + split_on(b, c),
    decreases b.len(),
{
    if b.len() == 0 {
        assert(a + seq![c] + b =~= a + seq![c]);
        assert((a + seq![c]).drop_last() =~= a);
        assert(split_on(a + seq![c], c) =~= split_on(a, c) + split_on(b, c));
    } else {
        let b0 = b.drop_last();
        lemma_split_concat(a, b0, c);
        lemma_split_nonempty(b0, c);
        lemma_split_nonempty(a, c);
        let t = a + seq![c] + b;
        assert(t.drop_last() =~= a + seq![c] + b0);
        assert(t.last() == b.last());
        let pa = split_on(a, c);
        let pb = split_on(b0, c);
        if b.last() == c {
            assert(split_on(t, c) =~= pa + pb.push(seq![]));
        } else {
            assert(split_on(t, c) =~= pa + pb.update(pb.len() - 1, pb.last().push(b.last())));
        }
    }
}

/// A text without the separator is a single piece.
pub proof fn lemma_split_free(x: Seq<char>, c: char)
    requires
        free_of(x, c),
    ensures
        split_on(x, c) == seq![x],
    decreases x.len(),
{
    if x.len() == 0 {
        assert(x =~= Seq::<char>::empty());
    } else {
        assert(free_of(x.drop_last(), c));
        assert(x.last() != c);
        lemma_split_free(x.drop_last(), c);
        assert(x.drop_last().push(x.last()) =~= x);
        assert(seq![x.drop_last()].update(0, x.drop_last().push(x.last())) =~= seq![x]);
    }
}

/// Joined lines split back into the lines.
pub proof fn lemma_split_join(l: Seq<Seq<char>>, c: char)
    requires
        l.len() >= 1,
        forall|k: int| 0 <= k < l.len() ==> free_of(#[trigger] l[k], c),
    ensures
        split_on(crate::codec::join(l, seq![c]), c) == l,
    decreases l.len(),
{
    if l.len() == 1 {
        lemma_split_free(l[0], c);
        assert(seq![l[0]] =~= l);
    } else {
        let d = l.drop_last();
        lemma_split_join(d, c);
        lemma_split_concat(crate::codec::join(d, seq![c]), l.last(), c);
        lemma_split_free(l.last(), c);
        assert(d + seq![l.last()] =~= l);
    }
}

/// Joining lines that lack `x` with a separator other than `x` gives a
/// text without `x`.
pub proof fn lemma_join_free(l: Seq<Seq<char>>, sep: char, x: char)
    requires
        sep != x,
        forall|k: int| 0 <= k < l.len() ==> free_of(#[trigger] l[k], x),
    ensures
        free_of(crate::codec::join(l, seq![sep]), x),
    decreases l.len(),
{
    if l.len() == 1 {
    } else if l.len() > 1 {
        lemma_join_free(l.drop_last(), sep, x);
        lemma_free_concat(crate::codec::join(l.drop_last(), seq![sep]), seq![sep], x);
        lemma_free_concat(crate::codec::join(l.drop_last(), seq![sep]) + seq![sep], l.last(), x);
    }
}

/// Both written sides of a plain window lack `x`, for `x` any of the
/// newline, the terminator and the halfway marker.
proof fn lemma_sides_free(e: EntryView, x: char)
    requires
        plain_entry(e),
        x == '\n' || x == CTX_EOL || x == CTX_MID,
    ensures
        free_of(crate::codec::render_before(e.ctx.before, seq![CTX_NL]), x),
        free_of(crate::codec::render_after(e.ctx.after, seq![CTX_NL]), x),
{
    let b = e.ctx.before;
    let a = e.ctx.after;
    assert forall|k: int| 0 <= k < b.len() implies free_of(#[trigger] b[k], x) by {
        assert(plain_line(b[k]));
    }
    assert forall|k: int| 0 <= k < a.len() implies free_of(#[trigger] a[k], x) by {
        assert(plain_line(a[k]));
    }
    lemma_join_free(b, CTX_NL, x);
    lemma_join_free(a, CTX_NL, x);
    lemma_free_concat(crate::codec::join(b, seq![CTX_NL]), seq![CTX_NL], x);
    lemma_free_concat(seq![CTX_NL], crate::codec::join(a, seq![CTX_NL]), x);
}

/// A plain entry written in the compact layout parses back to itself.
pub proof fn lemma_parse_record_body(e: EntryView)
    requires
        plain_entry(e),
    ensures
        parse_record(crate::codec::record_body(crate::codec::compact_view(), e)) == Some(e),
        free_of(crate::codec::record_body(crate::codec::compact_view(), e), '\n'),
{
    let h = header_of(e.kind);
    let b = e.ctx.before;
    let a = e.ctx.after;
    let bp = crate::codec::render_before(b, seq![CTX_NL]);
    let ap = crate::codec::render_after(a, seq![CTX_NL]);
    let tail = bp + seq![CTX_MID] + ap;
    let body = crate::codec::record_body(crate::codec::compact_view(), e);
    assert(body =~= h + e.value + seq![CTX_EOL] + tail);
    assert(body.take(2) =~= h);
    assert(parse_header(h) == Some(e.kind));
    assert(body.skip(2) =~= e.value + seq![CTX_EOL] + tail);
    lemma_sides_free(e, CTX_EOL);
    lemma_sides_free(e, CTX_MID);
    lemma_sides_free(e, '\n');
    lemma_free_concat(bp, seq![CTX_MID], CTX_EOL);
    lemma_free_concat(bp + seq![CTX_MID], ap, CTX_EOL);
    lemma_split_concat(e.value, tail, CTX_EOL);
    lemma_split_free(e.value, CTX_EOL);
    lemma_split_free(tail, CTX_EOL);
    let q = split_on(body.skip(2), CTX_EOL);
    assert(q =~= seq![e.value, tail]);
    lemma_split_concat(bp, ap, CTX_MID);
    lemma_split_free(bp, CTX_MID);
    lemma_split_free(ap, CTX_MID);
    let u = split_on(tail, CTX_MID);
    assert(u =~= seq![bp, ap]);
    assert forall|k: int| 0 <= k < b.len() implies free_of(#[trigger] b[k], CTX_NL) by {
        assert(plain_line(b[k]));
    }
    assert forall|k: int| 0 <= k < a.len() implies free_of(#[trigger] a[k], CTX_NL) by {
        assert(plain_line(a[k]));
    }
    if b.len() > 0 {
        let j = crate::codec::join(b, seq![CTX_NL]);
        lemma_split_join(b, CTX_NL);
        lemma_split_concat(j, Seq::<char>::empty(), CTX_NL);
        assert(j + seq![CTX_NL] + Seq::<char>::empty() =~= bp);
        assert(split_on(Seq::<char>::empty(), CTX_NL) =~= seq![Seq::<char>::empty()]);
        assert((b + seq![Seq::<char>::empty()]).drop_last() =~= b);
        assert(parse_before(bp) == Some(b));
    } else {
        assert(parse_before(bp) == Some(b));
    }
    if a.len() > 0 {
        let j = crate::codec::join(a, seq![CTX_NL]);
        lemma_split_join(a, CTX_NL);
        lemma_split_concat(Seq::<char>::empty(), j, CTX_NL);
        assert(Seq::<char>::empty() + seq![CTX_NL] + j =~= ap);
        assert(split_on(Seq::<char>::empty(), CTX_NL) =~= seq![Seq::<char>::empty()]);
        assert((seq![Seq::<char>::empty()] + a).drop_first() =~= a);
        assert(parse_after(ap) == Some(a));
    } else {
        assert(parse_after(ap) == Some(a));
    }
    lemma_free_concat(h, e.value, '\n');
    lemma_free_concat(h + e.value, seq![CTX_EOL], '\n');
    lemma_free_concat(seq![CTX_MID], ap, '\n');
    lemma_free_concat(bp, seq![CTX_MID] + ap, '\n');
    assert(tail =~= bp + (seq![CTX_MID] + ap));
    lemma_free_concat(h + e.value + seq![CTX_EOL], tail, '\n');
}

/// The records of a compact text of plain entries are their bodies, then
/// nothing after the final newline.
proof fn lemma_pieces_of_encoding(s: Seq<EntryView>)
    requires
        forall|k: int| 0 <= k < s.len() ==> plain_entry(#[trigger] s[k]),
    ensures
        record_pieces(crate::codec::encode_spec(crate::codec::compact_view(), s)) == s.map_values(
            |e: EntryView| crate::codec::record_body(crate::codec::compact_view(), e),
        ).push(seq![]),
    decreases s.len(),
{
    let p = crate::codec::compact_view();
    if s.len() == 0 {
        assert(crate::codec::encode_spec(p, s) =~= Seq::<char>::empty());
        assert(s.map_values(|e: EntryView| crate::codec::record_body(p, e)).push(seq![]) =~= seq![
            Seq::<char>::empty(),
        ]);
    } else {
        let rest = s.drop_first();
        assert forall|k: int| 0 <= k < rest.len() implies plain_entry(#[trigger] rest[k]) by {
            assert(rest[k] == s[k + 1]);
        }
        lemma_pieces_of_encoding(rest);
        assert(plain_entry(s[0]));
        lemma_parse_record_body(s[0]);
        let body = crate::codec::record_body(p, s[0]);
        lemma_split_concat(body, crate::codec::encode_spec(p, rest), '\n');
        lemma_split_free(body, '\n');
        assert(s.map_values(|e: EntryView| crate::codec::record_body(p, e)).push(seq![]) =~= seq![body]
            + rest.map_values(|e: EntryView| crate::codec::record_body(p, e)).push(seq![]));
    }
}

/// Reading back the compact layout of a script whose lines hold no
/// newline and no marker gives the script itself.
pub proof fn lemma_decode_encode(s: Seq<EntryView>)
    requires
        forall|k: int| 0 <= k < s.len() ==> plain_entry(#[trigger] s[k]),
    ensures
        decode_spec(crate::codec::encode_spec(crate::codec::compact_view(), s)) == Some(s),
{
    let p = crate::codec::compact_view();
    let text = crate::codec::encode_spec(p, s);
    lemma_pieces_of_encoding(s);
    let rs = record_pieces(text);
    assert(rs.len() - 1 == s.len());
    assert forall|k: int| 0 <= k < s.len() implies parse_record(#[trigger] rs[k]) == Some(s[k]) by {
        lemma_parse_record_body(s[k]);
    }
    assert(Seq::new(s.len(), |k: int| parse_record(rs[k])->0) =~= s);
}

} // verus!

verus! {

/// Whether a string holds none of the newline and the compact markers.
pub fn plain_text(s: &String) -> (r: bool)
    ensures
        r == plain_line(s@),
{
    let t = chars_of(s);
    let mut i: usize = 0;
    while i < t.len()
        invariant
            t@ == s@,
            i <= t.len(),
            forall|k: int| 0 <= k < i ==> t@[k] != '\n' && t@[k] != CTX_NL && t@[k] != CTX_EOL && t@[k] != CTX_MID,
        decreases t.len() - i,
    {
        let c = t[i];
        if c == '\n' || c == CTX_NL || c == CTX_EOL || c == CTX_MID {
            return false;
        }
        i = i + 1;
    }
    true
}

/// Whether every line of `v` is plain.
fn plain_lines(v: &Vec<String>) -> (r: bool)
    ensures
        r == forall|k: int| 0 <= k < v.len() ==> plain_line(#[trigger] lines_view(v@)[k]),
{
    let mut i: usize = 0;
    while i < v.len()
        invariant
            i <= v.len(),
            forall|k: int| 0 <= k < i ==> plain_line(#[trigger] lines_view(v@)[k]),
        decreases v.len() - i,
    {
        if !plain_text(&v[i]) {
            assert(!plain_line(lines_view(v@)[i as int]));
            return false;
        }
        i = i + 1;
    }
    true
}

/// Whether every value and context line of a script is plain, so that its
/// compact layout reads back to the script itself.
pub fn plain_script(script: &Vec<DiffLine>) -> (r: bool)
    ensures
        r == forall|k: int| 0 <= k < script.len() ==> plain_entry(#[trigger] script_view(script@)[k]),
{
    let ghost sv = script_view(script@);
    let mut i: usize = 0;
    while i < script.len()
        invariant
            sv == script_view(script@),
            i <= script.len(),
            forall|k: int| 0 <= k < i ==> plain_entry(#[trigger] sv[k]),
        decreases script.len() - i,
    {
        let e = &script[i];
        proof {
            assert(sv[i as int] == e@);
        }
        let ok = plain_text(&e.value) && plain_lines(&e.ctx.before) && plain_lines(&e.ctx.after);
        if !ok {
            proof {
                if plain_entry(e@) {
                    assert(plain_line(e@.value));
                    assert forall|k: int| 0 <= k < e.ctx.before.len() implies plain_line(
                        #[trigger] lines_view(e.ctx.before@)[k],
                    ) by {
                        assert(plain_line(e@.ctx.before[k]));
                    }
                    assert forall|k: int| 0 <= k < e.ctx.after.len() implies plain_line(
                        #[trigger] lines_view(e.ctx.after@)[k],
                    ) by {
                        assert(plain_line(e@.ctx.after[k]));
                    }
                }
            }
            return false;
        }
        proof {
            assert forall|k: int| 0 <= k < e@.ctx.before.len() implies plain_line(#[trigger] e@.ctx.before[k]) by {
                assert(plain_line(lines_view(e.ctx.before@)[k]));
            }
            assert forall|k: int| 0 <= k < e@.ctx.after.len() implies plain_line(#[trigger] e@.ctx.after[k]) by {
                assert(plain_line(lines_view(e.ctx.after@)[k]));
            }
        }
        i = i + 1;
    }
    true
}

} // verus!
