//! What makes the hunks of a unified difference a way from one text to another.

use vstd::prelude::*;

use crate::text::{concat, has_prefix, has_suffix, is_line, lemma_concat_add};

verus! {

/// What becomes of a line.
pub enum Mark {
    Kept,
    Removed,
    Added,
}

/// A line with its end, and what becomes of it.
pub type Edit = (Mark, Seq<char>);

/// The character that stands before a line in a hunk.
pub open spec fn mark_char(mark: Mark) -> char {
    match mark {
        Mark::Kept => ' ',
        Mark::Removed => '-',
        Mark::Added => '+',
    }
}

/// Whether a text is one line with its end: there is something in it, and a line feed only at its
/// end.
pub open spec fn is_line_with_end(text: Seq<char>) -> bool {
    text.len() > 0 && is_line(text.drop_last())
}

/// A line as it stands in a hunk. One that is not ended, as the last of a text may be, is ended
/// there, with a note below it.
pub open spec fn edit_text(edit: Edit) -> Seq<char> {
    let marked = seq![mark_char(edit.0)] + edit.1;
    if edit.1.last() == '\n' || edit.1.last() == '\r' {
        marked
    } else {
        marked + "\n\\ No newline at end of file\n"@
    }
}

/// Some lines as they stand in a hunk, one after the other.
pub open spec fn shown(edits: Seq<Edit>) -> Seq<char> {
    concat(edits.map_values(|edit: Edit| edit_text(edit)))
}

/// Whether a hunk shows these lines, below a first line that tells its place.
pub open spec fn is_hunk(hunk: Seq<char>, edits: Seq<Edit>) -> bool {
    &&& forall|i: int| 0 <= i < edits.len() ==> is_line_with_end((#[trigger] edits[i]).1)
    &&& exists|place: Seq<char>| #[trigger]
        is_place(place) && hunk == place + "\n"@ + shown(edits)
}

/// Whether a line has the form of the first line of a hunk.
pub open spec fn is_place(line: Seq<char>) -> bool {
    is_line(line) && has_prefix(line, "@@ -"@) && has_suffix(line, " @@"@)
}

/// The lines of a hunk that stand in one of the two texts: those that are kept, and those that are
/// marked so.
pub open spec fn side(edits: Seq<Edit>, mark: Mark) -> Seq<char> {
    concat(
        edits.filter(|edit: Edit| edit.0 == Mark::Kept || edit.0 == mark).map_values(
            |edit: Edit| edit.1,
        ),
    )
}

/// Stretches of text that no hunk shows, with one side of the hunks in between.
pub open spec fn woven(gaps: Seq<Seq<char>>, hunks: Seq<Seq<Edit>>, mark: Mark) -> Seq<char>
    decreases hunks.len(),
{
    if hunks.len() == 0 {
        gaps[0]
    } else {
        woven(gaps, hunks.drop_last(), mark) + side(hunks.last(), mark) + gaps[hunks.len() as int]
    }
}

/// Whether `edits` are what the hunks show, and lead from one text to the other: with `gaps` between
/// the hunks, what is kept and removed makes up the old text, and what is kept and added the new one.
pub open spec fn leads(
    hunks: Seq<Seq<char>>,
    edits: Seq<Seq<Edit>>,
    gaps: Seq<Seq<char>>,
    old_text: Seq<char>,
    new_text: Seq<char>,
) -> bool {
    &&& edits.len() == hunks.len()
    &&& gaps.len() == hunks.len() + 1
    &&& forall|i: int| 0 <= i < hunks.len() ==> is_hunk(#[trigger] hunks[i], edits[i])
    &&& old_text == woven(gaps, edits, Mark::Removed)
    &&& new_text == woven(gaps, edits, Mark::Added)
}

/// Whether some hunks lead from one text to the other: the lines that they show, carried out in
/// their order on the old text, give the new one.
pub open spec fn is_patch(
    hunks: Seq<Seq<char>>,
    old_text: Seq<char>,
    new_text: Seq<char>,
) -> bool {
    exists|edits: Seq<Seq<Edit>>, gaps: Seq<Seq<char>>| #[trigger]
        leads(hunks, edits, gaps, old_text, new_text)
}

proof fn lemma_shown_front(edits: Seq<Edit>)
    requires
        edits.len() > 0,
    ensures
        shown(edits) == edit_text(edits[0]) + shown(edits.skip(1)),
{
    let write = |edit: Edit| edit_text(edit);
    let first = seq![edit_text(edits[0])];
    assert(edits.map_values(write) =~= first + edits.skip(1).map_values(write));
    lemma_concat_add(first, edits.skip(1).map_values(write));
    assert(first.drop_last() =~= Seq::empty());
    assert(concat(first.drop_last()) =~= Seq::empty());
    assert(concat(first) =~= edit_text(edits[0]));
}

/// What follows a line in a hunk begins with a mark, if there is anything.
proof fn lemma_shown_begins(edits: Seq<Edit>)
    ensures
        shown(edits).len() > 0 ==> edits.len() > 0 && shown(edits)[0] == mark_char(edits[0].0),
        edits.len() > 0 ==> shown(edits).len() > 0,
{
    if edits.len() > 0 {
        lemma_shown_front(edits);
    }
}

/// Where the first line feed stands in a line of a hunk.
spec fn first_end(edit: Edit) -> int {
    if edit.1.last() == '\n' {
        edit.1.len() as int
    } else {
        edit.1.len() as int + 1
    }
}

/// Up to its first line feed, the text of a line in a hunk holds none.
proof fn lemma_first_end(edit: Edit)
    requires
        is_line_with_end(edit.1),
        edit.1.last() != '\r',
    ensures
        0 < first_end(edit) < edit_text(edit).len(),
        edit_text(edit)[first_end(edit)] == '\n',
        forall|i: int| 0 <= i < first_end(edit) ==> edit_text(edit)[i] != '\n',
        edit.1.last() == '\n' ==> edit_text(edit).len() == first_end(edit) + 1,
        edit.1.last() != '\n' ==> first_end(edit) + 1 < edit_text(edit).len()
            && edit_text(edit)[first_end(edit) + 1] == '\\',
        forall|i: int| 0 <= i < edit.1.len() ==> edit_text(edit)[i + 1] == edit.1[i],
{
    reveal_strlit("\n\\ No newline at end of file\n");
    let text = edit_text(edit);
    assert forall|i: int| 0 <= i < first_end(edit) implies text[i] != '\n' by {
        if 0 < i < edit.1.len() {
            assert(text[i] == edit.1.drop_last()[i - 1]);
        }
    }
}

/// The first line that a hunk shows can be told from what follows it.
proof fn lemma_first_edit(x: Edit, u: Seq<Edit>, y: Edit, v: Seq<Edit>)
    requires
        is_line_with_end(x.1),
        is_line_with_end(y.1),
        x.1.last() != '\r',
        y.1.last() != '\r',
        edit_text(x) + shown(u) == edit_text(y) + shown(v),
    ensures
        x == y,
        shown(u) == shown(v),
{
    let text = edit_text(x) + shown(u);
    lemma_first_end(x);
    lemma_first_end(y);
    lemma_shown_begins(u);
    lemma_shown_begins(v);
    assert(text[0] == edit_text(x)[0]);
    assert(text[0] == edit_text(y)[0]);
    assert(x.0 == y.0);
    let p = first_end(x);
    let q = first_end(y);
    assert(text[p] == edit_text(x)[p]);
    assert(text[q] == edit_text(y)[q]);
    if p < q {
        assert(text[p] == edit_text(y)[p]);
    }
    if q < p {
        assert(text[q] == edit_text(x)[q]);
    }
    assert(p == q);
    if x.1.last() == '\n' && y.1.last() != '\n' {
        assert(text[p + 1] == edit_text(y)[p + 1]);
        assert(text[p + 1] == shown(u)[0]);
    }
    if x.1.last() != '\n' && y.1.last() == '\n' {
        assert(text[p + 1] == edit_text(x)[p + 1]);
        assert(text[p + 1] == shown(v)[0]);
    }
    assert(x.1 =~= y.1) by {
        assert forall|i: int| 0 <= i < x.1.len() implies x.1[i] == y.1[i] by {
            assert(edit_text(x)[i + 1] == text[i + 1]);
            assert(edit_text(y)[i + 1] == text[i + 1]);
        }
    }
    let n = edit_text(x).len() as int;
    assert(text.skip(n) =~= shown(u));
    assert((edit_text(y) + shown(v)).skip(n) =~= shown(v));
}

/// Lines in a hunk, without carriage returns, can be told apart.
proof fn lemma_shown_unique(a: Seq<Edit>, b: Seq<Edit>)
    requires
        forall|i: int| 0 <= i < a.len() ==> is_line_with_end((#[trigger] a[i]).1),
        forall|i: int| 0 <= i < b.len() ==> is_line_with_end((#[trigger] b[i]).1),
        shown(a) == shown(b),
        !shown(a).contains('\r'),
    ensures
        a == b,
    decreases a.len(),
{
    lemma_shown_begins(a);
    lemma_shown_begins(b);
    if a.len() > 0 {
        let u = a.skip(1);
        let v = b.skip(1);
        lemma_shown_front(a);
        lemma_shown_front(b);
        lemma_no_return(a[0], shown(u));
        lemma_no_return(b[0], shown(v));
        lemma_first_edit(a[0], u, b[0], v);
        assert forall|i: int| 0 <= i < u.len() implies is_line_with_end((#[trigger] u[i]).1) by {
            assert(u[i] == a[i + 1]);
        }
        assert forall|i: int| 0 <= i < v.len() implies is_line_with_end((#[trigger] v[i]).1) by {
            assert(v[i] == b[i + 1]);
        }
        lemma_shown_unique(u, v);
        assert(a =~= seq![a[0]] + u);
        assert(b =~= seq![b[0]] + v);
    } else {
        assert(a =~= b);
    }
}

proof fn lemma_no_return(edit: Edit, rest: Seq<char>)
    requires
        is_line_with_end(edit.1),
        !(edit_text(edit) + rest).contains('\r'),
    ensures
        edit.1.last() != '\r',
        !rest.contains('\r'),
{
    let text = edit_text(edit) + rest;
    if edit.1.last() == '\r' {
        assert(text[edit.1.len() as int] == '\r');
    }
    if rest.contains('\r') {
        let k = choose|k: int| 0 <= k < rest.len() && rest[k] == '\r';
        assert(text[edit_text(edit).len() + k] == '\r');
    }
}

/// A hunk without carriage returns shows its lines, and what becomes of them, in one way only.
pub proof fn lemma_hunk_shows_one_thing(hunk: Seq<char>, a: Seq<Edit>, b: Seq<Edit>)
    requires
        is_hunk(hunk, a),
        is_hunk(hunk, b),
        !hunk.contains('\r'),
    ensures
        a == b,
{
    reveal_strlit("\n");
    let p = choose|p: Seq<char>| #[trigger] is_place(p) && hunk == p + "\n"@ + shown(a);
    let q = choose|q: Seq<char>| #[trigger] is_place(q) && hunk == q + "\n"@ + shown(b);
    assert(hunk[p.len() as int] == '\n');
    assert(hunk[q.len() as int] == '\n');
    if p.len() < q.len() {
        assert(q[p.len() as int] == '\n');
    }
    if q.len() < p.len() {
        assert(p[q.len() as int] == '\n');
    }
    let n = p.len() as int + 1;
    assert(hunk.skip(n) =~= shown(a));
    assert(hunk.skip(n) =~= shown(b));
    if shown(a).contains('\r') {
        let k = choose|k: int| 0 <= k < shown(a).len() && shown(a)[k] == '\r';
        assert(hunk[n + k] == '\r');
    }
    lemma_shown_unique(a, b);
}

/// A patch that shows nothing changes nothing.
pub proof fn lemma_empty_patch(hunks: Seq<Seq<char>>, old_text: Seq<char>, new_text: Seq<char>)
    requires
        is_patch(hunks, old_text, new_text),
        concat(hunks).len() == 0,
    ensures
        hunks.len() == 0,
        old_text == new_text,
{
    let (edits, gaps) = choose|edits: Seq<Seq<Edit>>, gaps: Seq<Seq<char>>| #[trigger]
        leads(hunks, edits, gaps, old_text, new_text);
    if hunks.len() > 0 {
        let n = hunks.len() - 1;
        reveal_strlit("\n");
        assert(is_hunk(hunks[n], edits[n]));
        assert(hunks.last().len() > 0);
    }
}

} // verus!
