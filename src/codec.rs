use vstd::prelude::*;
use vstd::string::StringExecFns;

use crate::context::{lines_view, LineCtx};
use crate::decode::{plain_entry, plain_script};
use crate::engine::{header_of, script_view, DiffLine, EntryView};

verus! {

/// Marker that separates two lines of context in the compact layout.
pub const CTX_NL: char = '\u{1F52C}';

/// Marker that ends a changed line in the compact layout.
pub const CTX_EOL: char = '\u{1F489}';

/// Marker between the before and the after context in the compact layout.
pub const CTX_MID: char = '\u{1F52D}';

/// Abstract view of a delimiter profile.
pub ghost struct ProfileView {
    pub line_sep: Seq<char>,
    pub line_term: Seq<char>,
    pub halfway: Seq<char>,
}

/// The three delimiters of an encoding. A non-empty line terminator selects
/// the compact layout; an empty one the human-readable layout.
#[derive(Debug, Clone)]
pub struct DelimiterProfile {
    pub line_sep: String,
    pub line_term: String,
    pub halfway: String,
}

impl View for DelimiterProfile {
    type V = ProfileView;

    open spec fn view(&self) -> ProfileView {
        ProfileView { line_sep: self.line_sep@, line_term: self.line_term@, halfway: self.halfway@ }
    }
}

/// The compact profile: one reserved marker character per role.
pub open spec fn compact_view() -> ProfileView {
    ProfileView { line_sep: seq![CTX_NL], line_term: seq![CTX_EOL], halfway: seq![CTX_MID] }
}

/// The human-readable profile: plain newlines and no terminator.
pub open spec fn human_view() -> ProfileView {
    ProfileView { line_sep: seq!['\n'], line_term: seq![], halfway: seq!['\n'] }
}

impl DelimiterProfile {
    pub fn compact() -> (r: Self)
        ensures
            r@ == compact_view(),
    {
        let r = DelimiterProfile {
            line_sep: String::from_str("\u{1F52C}"),
            line_term: String::from_str("\u{1F489}"),
            halfway: String::from_str("\u{1F52D}"),
        };
        proof {
            reveal_strlit("\u{1F52C}");
            reveal_strlit("\u{1F489}");
            reveal_strlit("\u{1F52D}");
            assert(r@.line_sep =~= seq![CTX_NL]);
            assert(r@.line_term =~= seq![CTX_EOL]);
            assert(r@.halfway =~= seq![CTX_MID]);
        }
        r
    }

    pub fn human_readable() -> (r: Self)
        ensures
            r@ == human_view(),
    {
        let r = DelimiterProfile {
            line_sep: String::from_str("\n"),
            line_term: String::new(),
            halfway: String::from_str("\n"),
        };
        proof {
            reveal_strlit("\n");
            assert(r@.line_sep =~= seq!['\n']);
            assert(r@.halfway =~= seq!['\n']);
            assert(r@.line_term =~= Seq::<char>::empty());
        }
        r
    }
}

/// The lines of `l` with `sep` between each two of them.
pub open spec fn join(l: Seq<Seq<char>>, sep: Seq<char>) -> Seq<char>
    decreases l.len(),
{
    if l.len() == 0 {
        seq![]
    } else if l.len() == 1 {
        l[0]
    } else {
        join(l.drop_last(), sep) + sep + l.last()
    }
}

/// The before side of a window as written: each line followed by `sep`.
pub open spec fn render_before(l: Seq<Seq<char>>, sep: Seq<char>) -> Seq<char> {
    if l.len() == 0 {
        seq![]
    } else {
        join(l, sep) + sep
    }
}

/// The after side of a window as written: each line preceded by `sep`.
pub open spec fn render_after(l: Seq<Seq<char>>, sep: Seq<char>) -> Seq<char> {
    if l.len() == 0 {
        seq![]
    } else {
        sep + join(l, sep)
    }
}

/// One entry as written, without its final newline.
pub open spec fn record_body(p: ProfileView, e: EntryView) -> Seq<char> {
    let before = render_before(e.ctx.before, p.line_sep);
    let after = render_after(e.ctx.after, p.line_sep);
    if p.line_term.len() > 0 {
        header_of(e.kind) + e.value + p.line_term + before + p.halfway + after
    } else {
        before + p.line_sep + header_of(e.kind) + e.value + p.line_sep + after
    }
}

/// A whole script as written: each entry's record followed by a newline.
pub open spec fn encode_spec(p: ProfileView, s: Seq<EntryView>) -> Seq<char>
    decreases s.len(),
{
    if s.len() == 0 {
        seq![]
    } else {
        record_body(p, s[0]) + seq!['\n'] + encode_spec(p, s.drop_first())
    }
}

/// The records of a script, in script order.
pub open spec fn records(p: ProfileView, s: Seq<EntryView>) -> Seq<Seq<char>> {
    s.map_values(|e: EntryView| record_body(p, e))
}

/// Writing one more entry appends its record.
pub proof fn lemma_encode_push(p: ProfileView, s: Seq<EntryView>, e: EntryView)
    ensures
        encode_spec(p, s.push(e)) == encode_spec(p, s) + record_body(p, e) + seq!['\n'],
    decreases s.len(),
{
    if s.len() == 0 {
        assert(s.push(e).drop_first() =~= Seq::<EntryView>::empty());
        assert(s.push(e)[0] == e);
        assert(encode_spec(p, s.push(e)) == record_body(p, e) + seq!['\n'] + encode_spec(p, Seq::<EntryView>::empty()));
        assert(encode_spec(p, s.push(e)) =~= encode_spec(p, s) + record_body(p, e) + seq!['\n']);
    } else {
        assert(s.push(e).drop_first() =~= s.drop_first().push(e));
        lemma_encode_push(p, s.drop_first(), e);
        assert(s.push(e)[0] == s[0]);
        let head = record_body(p, s[0]) + seq!['\n'];
        assert(encode_spec(p, s.push(e)) == head + encode_spec(p, s.drop_first().push(e)));
        assert(encode_spec(p, s) == head + encode_spec(p, s.drop_first()));
        assert(encode_spec(p, s.push(e)) =~= encode_spec(p, s) + record_body(p, e) + seq!['\n']);
    }
}

/// The lines of `lines` with `sep` between each two of them.
pub fn join_lines(lines: &Vec<String>, sep: &String) -> (r: String)
    ensures
        r@ == join(lines_view(lines@), sep@),
{
    let ghost l = lines_view(lines@);
    let mut r = String::new();
    let mut k: usize = 0;
    while k < lines.len()
        invariant
            l == lines_view(lines@),
            k <= lines.len(),
            r@ == join(l.take(k as int), sep@),
        decreases lines.len() - k,
    {
        proof {
            assert(l.take(k as int + 1).drop_last() =~= l.take(k as int));
        }
        if k > 0 {
            r.append(sep.as_str());
        }
        r.append(lines[k].as_str());
        proof {
            if k == 0 {
                assert(r@ =~= join(l.take(1), sep@));
            } else {
                assert(r@ =~= join(l.take(k as int + 1), sep@));
            }
        }
        k = k + 1;
    }
    proof {
        assert(l.take(k as int) =~= l);
    }
    r
}

impl LineCtx {
    /// The before side as written: each line followed by `sep`.
    pub fn before_str(&self, sep: &String) -> (r: String)
        ensures
            r@ == render_before(self@.before, sep@),
    {
        let mut r = join_lines(&self.before, sep);
        if self.before.len() > 0 {
            r.append(sep.as_str());
        } else {
            assert(r@ =~= Seq::<char>::empty());
        }
        r
    }

    /// The after side as written: each line preceded by `sep`.
    pub fn after_str(&self, sep: &String) -> (r: String)
        ensures
            r@ == render_after(self@.after, sep@),
    {
        let j = join_lines(&self.after, sep);
        if self.after.len() > 0 {
            let r = sep.clone().concat(j.as_str());
            r
        } else {
            let r = String::new();
            assert(r@ =~= Seq::<char>::empty());
            r
        }
    }
}

/// Writes a script in the layout that `profile` selects, entries in script
/// order, one newline-terminated record each.
fn encode_script(lines: &Vec<DiffLine>, profile: &DelimiterProfile) -> (r: String)
    ensures
        r@ == encode_spec(profile@, script_view(lines@)),
{
    let ghost s = script_view(lines@);
    let newline = String::from_str("\n");
    proof {
        reveal_strlit("\n");
        assert(newline@ =~= seq!['\n']);
    }
    let mut buffer = String::new();
    let mut k: usize = 0;
    proof {
        assert(s.take(0) =~= Seq::<EntryView>::empty());
    }
    while k < lines.len()
        invariant
            s == script_view(lines@),
            newline@ == seq!['\n'],
            k <= lines.len(),
            buffer@ == encode_spec(profile@, s.take(k as int)),
        decreases lines.len() - k,
    {
        let line = &lines[k];
        let h = line.kind.to_header();
        let before = line.ctx.before_str(&profile.line_sep);
        let after = line.ctx.after_str(&profile.line_sep);
        let ghost start = buffer@;
        if profile.line_term.as_str().is_empty() {
            buffer.append(before.as_str());
            buffer.append(profile.line_sep.as_str());
            buffer.append(h.as_str());
            buffer.append(line.value.as_str());
            buffer.append(profile.line_sep.as_str());
            buffer.append(after.as_str());
        } else {
            buffer.append(h.as_str());
            buffer.append(line.value.as_str());
            buffer.append(profile.line_term.as_str());
            buffer.append(before.as_str());
            buffer.append(profile.halfway.as_str());
            buffer.append(after.as_str());
        }
        buffer.append(newline.as_str());
        proof {
            assert(s[k as int] == line@);
            assert(buffer@ =~= start + record_body(profile@, s[k as int]) + seq!['\n']);
            lemma_encode_push(profile@, s.take(k as int), s[k as int]);
            assert(s.take(k as int).push(s[k as int]) =~= s.take(k as int + 1));
        }
        k = k + 1;
    }
    proof {
        assert(s.take(k as int) =~= s);
    }
    buffer
}

/// Writes a script in the layout that `profile` selects, entries in script
/// order, one newline-terminated record each. The compact layout refuses a
/// script with a newline or a reserved marker in one of its lines (`None`),
/// since its text could not be read back.
pub fn write_output(lines: &Vec<DiffLine>, profile: &DelimiterProfile) -> (r: Option<String>)
    ensures
        r is None <==> (profile@.line_term.len() > 0 && !(forall|k: int|
            0 <= k < lines.len() ==> plain_entry(#[trigger] script_view(lines@)[k]))),
        r matches Some(t) ==> t@ == encode_spec(profile@, script_view(lines@)),
{
    if !profile.line_term.as_str().is_empty() && !plain_script(lines) {
        return None;
    }
    Some(encode_script(lines, profile))
}

} // verus!

verus! {

/// Reverting a diff writes the same records in the opposite order.
pub proof fn lemma_revert_reverses_records(s: Seq<Seq<char>>, m: Seq<Seq<char>>, p: ProfileView)
    ensures
        records(p, crate::engine::diff_spec(s, m).reverse()) == records(p, crate::engine::diff_spec(s, m)).reverse(),
{
    let d = crate::engine::diff_spec(s, m);
    assert(records(p, d.reverse()) =~= records(p, d).reverse());
}

} // verus!
