//! Wildcard patterns, in which a star stands for any text.

use vstd::prelude::*;

use crate::text::{
    chars_of, ends_with, find_from, has_prefix, has_suffix, join, lemma_join_split, lemma_split,
    occurs_at, pieces, split_on, starts_with,
};

verus! {

/// Whether `text` matches `pattern`: a star in the pattern stands for any text, every other
/// character for itself.
pub open spec fn glob_matches(pattern: Seq<char>, text: Seq<char>) -> bool
    decreases pattern.len(),
{
    if pattern.len() == 0 {
        text.len() == 0
    } else if pattern[0] == '*' {
        exists|k: int| 0 <= k <= text.len() && glob_matches(pattern.skip(1), #[trigger] text.skip(k))
    } else {
        text.len() > 0 && text[0] == pattern[0] && glob_matches(pattern.skip(1), text.skip(1))
    }
}

/// Whether `text` is made of the texts of `parts` in order, with anything before each of them.
spec fn parts_follow(parts: Seq<Seq<char>>, text: Seq<char>) -> bool
    decreases parts.len(),
{
    if parts.len() == 0 {
        text.len() == 0
    } else {
        exists|k: int| #[trigger]
            occurs_at(text, parts[0], k) && parts_follow(parts.skip(1), text.skip(k + parts[0].len()))
    }
}

proof fn lemma_literal(literal: Seq<char>, rest: Seq<char>, text: Seq<char>)
    requires
        !literal.contains('*'),
    ensures
        glob_matches(literal + rest, text) <==> has_prefix(text, literal) && glob_matches(
            rest,
            text.skip(literal.len() as int),
        ),
    decreases literal.len(),
{
    if literal.len() == 0 {
        assert(literal + rest =~= rest);
        assert(text.skip(0) =~= text);
        assert(text.subrange(0, 0) =~= literal);
    } else {
        let whole = literal + rest;
        assert(literal.contains(literal[0]));
        assert(whole[0] == literal[0]);
        let tail = literal.skip(1);
        assert(whole.skip(1) =~= tail + rest);
        assert(!tail.contains('*')) by {
            if tail.contains('*') {
                let k = choose|k: int| 0 <= k < tail.len() && tail[k] == '*';
                assert(literal[k + 1] == '*');
            }
        }
        if text.len() > 0 {
            lemma_literal(tail, rest, text.skip(1));
            if text.len() >= literal.len() {
                assert(text.skip(1).skip(tail.len() as int) =~= text.skip(literal.len() as int));
                let a = text.subrange(0, literal.len() as int);
                let b = text.skip(1).subrange(0, tail.len() as int);
                assert(a.skip(1) =~= b);
                assert(a =~= seq![text[0]] + b);
                assert(literal =~= seq![literal[0]] + tail);
                if a == literal {
                    assert(a[0] == literal[0]);
                    assert(b == tail);
                }
            }
        }
    }
}

proof fn lemma_join_front(parts: Seq<Seq<char>>, sep: Seq<char>)
    requires
        parts.len() > 1,
    ensures
        join(parts, sep) == parts[0] + (sep + join(parts.skip(1), sep)),
    decreases parts.len(),
{
    if parts.len() == 2 {
        assert(parts.drop_last() =~= seq![parts[0]]);
        assert(parts.skip(1) =~= seq![parts[1]]);
        assert(join(parts.drop_last(), sep) == parts[0]);
        assert(join(parts, sep) =~= parts[0] + (sep + join(parts.skip(1), sep)));
    } else {
        lemma_join_front(parts.drop_last(), sep);
        assert(parts.drop_last().skip(1) =~= parts.skip(1).drop_last());
        assert(parts.skip(1).last() == parts.last());
        assert(join(parts, sep) =~= parts[0] + (sep + join(parts.skip(1), sep)));
    }
}

spec fn no_stars(parts: Seq<Seq<char>>) -> bool {
    forall|i: int| 0 <= i < parts.len() ==> !(#[trigger] parts[i]).contains('*')
}

proof fn lemma_glob_parts(parts: Seq<Seq<char>>, text: Seq<char>)
    requires
        parts.len() > 0,
        no_stars(parts),
    ensures
        glob_matches(join(parts, seq!['*']), text) <==> has_prefix(text, parts[0]) && parts_follow(
            parts.skip(1),
            text.skip(parts[0].len() as int),
        ),
    decreases parts.len(),
{
    let star = seq!['*'];
    let first = parts[0];
    let left = text.skip(first.len() as int);
    if parts.len() == 1 {
        lemma_literal(first, Seq::empty(), text);
        assert(first + Seq::<char>::empty() =~= first);
    } else {
        let rest = parts.skip(1);
        lemma_join_front(parts, star);
        let tail = star + join(rest, star);
        lemma_literal(first, tail, text);
        assert(tail.skip(1) =~= join(rest, star));
        assert(tail[0] == '*');
        if has_prefix(text, first) {
            if glob_matches(tail, left) {
                let k = choose|k: int|
                    0 <= k <= left.len() && glob_matches(tail.skip(1), #[trigger] left.skip(k));
                lemma_glob_parts(rest, left.skip(k));
                assert(left.skip(k).subrange(0, rest[0].len() as int) =~= left.subrange(
                    k,
                    k + rest[0].len(),
                ));
                assert(occurs_at(left, rest[0], k));
                assert(left.skip(k).skip(rest[0].len() as int) =~= left.skip(k + rest[0].len()));
                assert(parts_follow(rest, left));
            }
            if parts_follow(rest, left) {
                let k = choose|k: int| #[trigger]
                    occurs_at(left, rest[0], k) && parts_follow(
                        rest.skip(1),
                        left.skip(k + rest[0].len()),
                    );
                lemma_glob_parts(rest, left.skip(k));
                assert(left.skip(k).subrange(0, rest[0].len() as int) =~= left.subrange(
                    k,
                    k + rest[0].len(),
                ));
                assert(left.skip(k).skip(rest[0].len() as int) =~= left.skip(k + rest[0].len()));
                assert(glob_matches(tail.skip(1), left.skip(k)));
            }
        }
    }
}

/// What follows later in a text also follows earlier.
proof fn lemma_follow_earlier(parts: Seq<Seq<char>>, text: Seq<char>, k: int)
    requires
        parts.len() > 0,
        0 <= k <= text.len(),
        parts_follow(parts, text.skip(k)),
    ensures
        parts_follow(parts, text),
{
    let later = text.skip(k);
    let j = choose|j: int| #[trigger]
        occurs_at(later, parts[0], j) && parts_follow(parts.skip(1), later.skip(j + parts[0].len()));
    assert(later.subrange(j, j + parts[0].len()) =~= text.subrange(k + j, k + j + parts[0].len()));
    assert(occurs_at(text, parts[0], k + j));
    assert(later.skip(j + parts[0].len()) =~= text.skip(k + j + parts[0].len()));
}

/// The first place of a part serves as well as any later one, where more parts follow.
proof fn lemma_first_place(parts: Seq<Seq<char>>, text: Seq<char>, pos: int, found: int)
    requires
        parts.len() > 1,
        0 <= pos <= found,
        occurs_at(text, parts[0], found),
        forall|j: int| pos <= j < found ==> !occurs_at(text, parts[0], j),
    ensures
        parts_follow(parts, text.skip(pos)) <==> parts_follow(
            parts.skip(1),
            text.skip(found + parts[0].len()),
        ),
{
    let part = parts[0];
    let here = text.skip(pos);
    let n = part.len() as int;
    if parts_follow(parts, here) {
        let k = choose|k: int| #[trigger]
            occurs_at(here, part, k) && parts_follow(parts.skip(1), here.skip(k + n));
        assert(here.subrange(k, k + n) =~= text.subrange(pos + k, pos + k + n));
        assert(occurs_at(text, part, pos + k));
        assert(found <= pos + k);
        let from = text.skip(found + n);
        assert(here.skip(k + n) =~= from.skip(pos + k - found));
        lemma_follow_earlier(parts.skip(1), from, pos + k - found);
    }
    if parts_follow(parts.skip(1), text.skip(found + n)) {
        let k = found - pos;
        assert(here.subrange(k, k + n) =~= text.subrange(found, found + n));
        assert(occurs_at(here, part, k));
        assert(here.skip(k + n) =~= text.skip(found + n));
    }
}

/// The last part has to end the text.
proof fn lemma_last_part(part: Seq<char>, text: Seq<char>, pos: int)
    requires
        0 <= pos <= text.len(),
    ensures
        parts_follow(seq![part], text.skip(pos)) <==> pos + part.len() <= text.len() && has_suffix(
            text,
            part,
        ),
{
    let here = text.skip(pos);
    let n = part.len() as int;
    let parts = seq![part];
    assert(parts.skip(1) =~= Seq::empty());
    if parts_follow(parts, here) {
        let k = choose|k: int| #[trigger]
            occurs_at(here, parts[0], k) && parts_follow(
                parts.skip(1),
                here.skip(k + parts[0].len()),
            );
        assert(here.skip(k + n).len() == 0);
        assert(k + n == here.len());
        assert(here.subrange(k, k + n) =~= text.subrange(text.len() - n, text.len() as int));
    }
    if pos + n <= text.len() && has_suffix(text, part) {
        let k = here.len() - n;
        assert(here.subrange(k, k + n) =~= text.subrange(text.len() - n, text.len() as int));
        assert(occurs_at(here, parts[0], k));
        assert(here.skip(k + n) =~= Seq::empty());
        assert(parts_follow(parts.skip(1), here.skip(k + n)));
        assert(parts_follow(parts, here));
    }
}

/// Tests whether `text` matches `pattern`, in which a star stands for any text.
pub fn glob_match(pattern: &str, text: &str) -> (r: bool)
    ensures
        r == glob_matches(pattern@, text@),
{
    let pattern_chars = chars_of(pattern);
    let text_chars = chars_of(text);
    let parts = split_on(&pattern_chars, '*');
    let ghost all = pieces(parts@);
    proof {
        lemma_split(pattern@, '*');
        lemma_join_split(pattern@, '*');
        assert(all.len() == parts@.len());
        assert(no_stars(all));
        lemma_glob_parts(all, text@);
        assert(all[0] == parts@[0]@);
    }
    if !starts_with(&text_chars, &parts[0]) {
        return false;
    }
    let count: usize = parts.len();
    let mut pos: usize = parts[0].len();
    if count == 1 {
        assert(all.skip(1) =~= Seq::empty());
        return text_chars.len() == pos;
    }
    let mut i: usize = 1;
    while i < count - 1
        invariant
            1 <= i <= count - 1,
            count == parts@.len(),
            all == pieces(parts@),
            text_chars@ == text@,
            pos <= text_chars.len(),
            glob_matches(pattern@, text@) == parts_follow(all.skip(i as int), text@.skip(pos as int)),
        decreases count - i,
    {
        let ghost rest = all.skip(i as int);
        assert(rest[0] == parts@[i as int]@);
        match find_from(&text_chars, &parts[i], pos) {
            Some(found) => {
                proof {
                    lemma_first_place(rest, text@, pos as int, found as int);
                    assert(rest.skip(1) =~= all.skip(i + 1));
                }
                pos = found + parts[i].len();
            },
            None => {
                proof {
                    let here = text@.skip(pos as int);
                    if parts_follow(rest, here) {
                        let k = choose|k: int| #[trigger]
                            occurs_at(here, rest[0], k) && parts_follow(
                                rest.skip(1),
                                here.skip(k + rest[0].len()),
                            );
                        assert(here.subrange(k, k + rest[0].len()) =~= text@.subrange(
                            pos + k,
                            pos + k + rest[0].len(),
                        ));
                        assert(occurs_at(text@, parts@[i as int]@, pos + k));
                    }
                }
                return false;
            },
        }
        i += 1;
    }
    let last = &parts[count - 1];
    proof {
        assert(all.skip(i as int) =~= seq![last@]);
        lemma_last_part(last@, text@, pos as int);
    }
    last.len() <= text_chars.len() - pos && ends_with(&text_chars, last)
}

/// A pattern without a star matches itself and nothing else.
pub proof fn lemma_plain_pattern(literal: Seq<char>, text: Seq<char>)
    requires
        !literal.contains('*'),
    ensures
        glob_matches(literal, text) == (text == literal),
{
    let none = Seq::<char>::empty();
    lemma_literal(literal, none, text);
    assert(literal + none =~= literal);
    if has_prefix(text, literal) && text.skip(literal.len() as int).len() == 0 {
        assert(text =~= text.subrange(0, literal.len() as int));
    }
    if text == literal {
        assert(text.subrange(0, literal.len() as int) =~= literal);
    }
}

/// A pattern made of a star and an ending matches the texts with that ending.
pub proof fn lemma_ending_pattern(ending: Seq<char>, text: Seq<char>)
    requires
        !ending.contains('*'),
    ensures
        glob_matches(seq!['*'] + ending, text) == has_suffix(text, ending),
{
    let pattern = seq!['*'] + ending;
    assert(pattern.skip(1) =~= ending);
    assert forall|k: int| 0 <= k <= text.len() implies glob_matches(ending, #[trigger] text.skip(k))
        == (text.skip(k) == ending) by {
        lemma_plain_pattern(ending, text.skip(k));
    }
    if has_suffix(text, ending) {
        let k = text.len() - ending.len();
        assert(text.skip(k) =~= text.subrange(k, text.len() as int));
        assert(glob_matches(ending, text.skip(k)));
    }
    if glob_matches(pattern, text) {
        let k = choose|k: int|
            0 <= k <= text.len() && glob_matches(pattern.skip(1), #[trigger] text.skip(k));
        assert(text.skip(k) == ending);
        assert(text.subrange(k, text.len() as int) =~= text.skip(k));
    }
}

/// `parts` with a filler behind each but the last.
pub open spec fn filled(parts: Seq<Seq<char>>, fillers: Seq<Seq<char>>) -> Seq<char>
    decreases parts.len(),
{
    if parts.len() <= 1 {
        parts[0]
    } else {
        parts[0] + fillers[0] + filled(parts.skip(1), fillers.skip(1))
    }
}

/// Whether `text` is `parts` with these fillers.
pub open spec fn fills(parts: Seq<Seq<char>>, fillers: Seq<Seq<char>>, text: Seq<char>) -> bool {
    fillers.len() + 1 == parts.len() && text == filled(parts, fillers)
}

/// A pattern matches exactly the texts that come of it when each of its stars gives way to a text,
/// whatever that text holds.
pub proof fn lemma_stars_give_way(parts: Seq<Seq<char>>, text: Seq<char>)
    requires
        parts.len() > 0,
        forall|i: int| 0 <= i < parts.len() ==> !(#[trigger] parts[i]).contains('*'),
    ensures
        glob_matches(join(parts, seq!['*']), text) <==> exists|fillers: Seq<Seq<char>>|
            fills(parts, fillers, text),
    decreases parts.len(),
{
    let star = seq!['*'];
    let first = parts[0];
    let left = text.skip(first.len() as int);
    if parts.len() == 1 {
        lemma_plain_pattern(first, text);
        if text == first {
            assert(fills(parts, Seq::empty(), text));
        }
    } else {
        let rest = parts.skip(1);
        let tail = star + join(rest, star);
        assert forall|i: int| 0 <= i < rest.len() implies !(#[trigger] rest[i]).contains('*') by {
            assert(!parts[i + 1].contains('*'));
        }
        lemma_join_front(parts, star);
        lemma_literal(first, tail, text);
        assert(tail.skip(1) =~= join(rest, star));
        if glob_matches(join(parts, star), text) {
            assert(text.subrange(0, first.len() as int) == first);
            let k = choose|k: int|
                0 <= k <= left.len() && glob_matches(tail.skip(1), #[trigger] left.skip(k));
            lemma_stars_give_way(rest, left.skip(k));
            let after = choose|after: Seq<Seq<char>>| fills(rest, after, left.skip(k));
            let fillers = seq![left.take(k)] + after;
            assert(fillers.skip(1) =~= after);
            assert(text =~= first + left.take(k) + left.skip(k));
            assert(fills(parts, fillers, text));
        }
        if exists|fillers: Seq<Seq<char>>| fills(parts, fillers, text) {
            let fillers = choose|fillers: Seq<Seq<char>>| fills(parts, fillers, text);
            let end = filled(rest, fillers.skip(1));
            let k = fillers[0].len() as int;
            assert(text == first + fillers[0] + end);
            assert(text.subrange(0, first.len() as int) =~= first);
            assert(left.skip(k) =~= end);
            assert(fills(rest, fillers.skip(1), end));
            lemma_stars_give_way(rest, end);
            assert(glob_matches(tail.skip(1), left.skip(k)));
        }
    }
}

} // verus!
