//! Text as sequences of characters: searching, splitting, joining, and upper and lower case.

use vstd::prelude::*;

verus! {

/// `String::push` appends one character to the end of the string.
pub assume_specification[ String::push ](s: &mut String, ch: char)
    ensures
        final(s)@ == old(s)@.push(ch),
;

/// The texts that a list of strings holds.
pub open spec fn texts(list: Seq<String>) -> Seq<Seq<char>> {
    list.map_values(|s: String| s@)
}

/// The characters of `text`, in order.
pub fn chars_of(text: &str) -> (r: Vec<char>)
    ensures
        r@ == text@,
{
    let mut out: Vec<char> = Vec::new();
    for c in it: text.chars()
        invariant
            it.seq() == text@,
            out@ == text@.take(it.index()),
    {
        out.push(c);
        assert(out@ == text@.take(it.index() + 1));
    }
    assert(text@.take(text@.len() as int) == text@);
    out
}

/// The string made of `chars[from..to]`.
pub fn string_between(chars: &Vec<char>, from: usize, to: usize) -> (r: String)
    requires
        from <= to <= chars@.len(),
    ensures
        r@ == chars@.subrange(from as int, to as int),
{
    let mut out = String::new();
    let mut i: usize = from;
    while i < to
        invariant
            from <= i <= to <= chars@.len(),
            out@ == chars@.subrange(from as int, i as int),
        decreases to - i,
    {
        out.push(chars[i]);
        i += 1;
        assert(out@ == chars@.subrange(from as int, i as int));
    }
    out
}

/// The string made of `chars`.
pub fn string_of(chars: &Vec<char>) -> (r: String)
    ensures
        r@ == chars@,
{
    let r = string_between(chars, 0, chars.len());
    assert(chars@.subrange(0, chars@.len() as int) == chars@);
    r
}

/// Whether `needle` stands in `text` at position `at`.
pub open spec fn occurs_at(text: Seq<char>, needle: Seq<char>, at: int) -> bool {
    0 <= at && at + needle.len() <= text.len() && text.subrange(at, at + needle.len()) == needle
}

/// Whether `text` begins with `prefix`.
pub open spec fn has_prefix(text: Seq<char>, prefix: Seq<char>) -> bool {
    occurs_at(text, prefix, 0)
}

/// Whether `text` ends with `suffix`.
pub open spec fn has_suffix(text: Seq<char>, suffix: Seq<char>) -> bool {
    occurs_at(text, suffix, text.len() - suffix.len())
}

/// Whether `needle` stands anywhere in `text`.
pub open spec fn has_infix(text: Seq<char>, needle: Seq<char>) -> bool {
    exists|at: int| occurs_at(text, needle, at)
}

/// Tests whether `needle` stands in `text` at position `at`.
pub fn matches_at(text: &Vec<char>, needle: &Vec<char>, at: usize) -> (r: bool)
    ensures
        r == occurs_at(text@, needle@, at as int),
{
    if at > text.len() || text.len() - at < needle.len() {
        return false;
    }
    let mut i: usize = 0;
    while i < needle.len()
        invariant
            i <= needle@.len(),
            at + needle.len() <= text.len(),
            forall|j: int| 0 <= j < i ==> text@[at + j] == needle@[j],
        decreases needle@.len() - i,
    {
        if text[at + i] != needle[i] {
            assert(text@.subrange(at as int, at + needle@.len())[i as int] != needle@[i as int]);
            return false;
        }
        i += 1;
    }
    assert(text@.subrange(at as int, at + needle@.len()) =~= needle@);
    true
}

/// The first position at or after `from` where `needle` stands in `text`.
pub fn find_from(text: &Vec<char>, needle: &Vec<char>, from: usize) -> (r: Option<usize>)
    ensures
        match r {
            Some(at) => {
                &&& from <= at
                &&& occurs_at(text@, needle@, at as int)
                &&& forall|j: int| from <= j < at ==> !occurs_at(text@, needle@, j)
            },
            None => forall|j: int| from <= j ==> !occurs_at(text@, needle@, j),
        },
{
    if from > text.len() {
        return None;
    }
    let mut at: usize = from;
    loop
        invariant
            from <= at <= text@.len(),
            forall|j: int| from <= j < at ==> !occurs_at(text@, needle@, j),
        decreases text@.len() - at,
    {
        if matches_at(text, needle, at) {
            return Some(at);
        }
        if at == text.len() {
            return None;
        }
        at += 1;
    }
}

/// Tests whether `text` begins with `prefix`.
pub fn starts_with(text: &Vec<char>, prefix: &Vec<char>) -> (r: bool)
    ensures
        r == has_prefix(text@, prefix@),
{
    matches_at(text, prefix, 0)
}

/// Tests whether `text` ends with `suffix`.
pub fn ends_with(text: &Vec<char>, suffix: &Vec<char>) -> (r: bool)
    ensures
        r == has_suffix(text@, suffix@),
{
    if suffix.len() > text.len() {
        false
    } else {
        matches_at(text, suffix, text.len() - suffix.len())
    }
}

/// Tests whether `needle` stands anywhere in `text`.
pub fn contains(text: &Vec<char>, needle: &Vec<char>) -> (r: bool)
    ensures
        r == has_infix(text@, needle@),
{
    find_from(text, needle, 0).is_some()
}

/// Tests whether two character lists are equal.
pub fn same_chars(a: &Vec<char>, b: &Vec<char>) -> (r: bool)
    ensures
        r == (a@ == b@),
{
    let r = a.len() == b.len() && matches_at(a, b, 0);
    assert(a@.len() == b@.len() ==> a@.subrange(0, b@.len() as int) == a@);
    r
}

/// The position of the last `c` in `text`.
pub fn last_position(text: &Vec<char>, c: char) -> (r: Option<usize>)
    ensures
        match r {
            Some(at) => {
                &&& at < text@.len()
                &&& text@[at as int] == c
                &&& forall|j: int| at < j < text@.len() ==> text@[j] != c
            },
            None => !text@.contains(c),
        },
{
    let mut n: usize = text.len();
    while n > 0
        invariant
            n <= text@.len(),
            forall|j: int| n <= j < text@.len() ==> text@[j] != c,
        decreases n,
    {
        if text[n - 1] == c {
            return Some((n - 1) as usize);
        }
        n -= 1;
    }
    None
}

/// The position of the first `c` in `text`.
pub fn first_position(text: &Vec<char>, c: char) -> (r: Option<usize>)
    ensures
        match r {
            Some(at) => {
                &&& at < text@.len()
                &&& text@[at as int] == c
                &&& forall|j: int| 0 <= j < at ==> text@[j] != c
            },
            None => !text@.contains(c),
        },
{
    let mut i: usize = 0;
    while i < text.len()
        invariant
            i <= text@.len(),
            forall|j: int| 0 <= j < i ==> text@[j] != c,
        decreases text@.len() - i,
    {
        if text[i] == c {
            return Some(i);
        }
        i += 1;
    }
    None
}

/// The characters `chars[from..to]`.
pub fn chars_between(chars: &Vec<char>, from: usize, to: usize) -> (r: Vec<char>)
    requires
        from <= to <= chars@.len(),
    ensures
        r@ == chars@.subrange(from as int, to as int),
{
    let mut out: Vec<char> = Vec::new();
    let mut i: usize = from;
    while i < to
        invariant
            from <= i <= to <= chars@.len(),
            out@ == chars@.subrange(from as int, i as int),
        decreases to - i,
    {
        out.push(chars[i]);
        i += 1;
        assert(out@ == chars@.subrange(from as int, i as int));
    }
    out
}

/// The pieces that `text` falls into when it is cut at every `sep`.
/// There is always at least one piece; pieces may be empty.
pub open spec fn split(text: Seq<char>, sep: char) -> Seq<Seq<char>>
    decreases text.len(),
{
    if text.len() == 0 {
        seq![Seq::empty()]
    } else {
        let before = split(text.drop_last(), sep);
        if text.last() == sep {
            before.push(Seq::empty())
        } else {
            before.drop_last().push(before.last().push(text.last()))
        }
    }
}

/// `list` with `sep` between neighbours.
pub open spec fn join(list: Seq<Seq<char>>, sep: Seq<char>) -> Seq<char>
    decreases list.len(),
{
    if list.len() == 0 {
        Seq::empty()
    } else if list.len() == 1 {
        list[0]
    } else {
        join(list.drop_last(), sep) + sep + list.last()
    }
}

/// The texts of `parts`, one after the other.
pub open spec fn concat(parts: Seq<Seq<char>>) -> Seq<char>
    decreases parts.len(),
{
    if parts.len() == 0 {
        Seq::empty()
    } else {
        concat(parts.drop_last()) + parts.last()
    }
}

/// What is read out of two lists follows each other.
pub proof fn lemma_filter_map_add<A, B>(a: Seq<A>, b: Seq<A>, read: spec_fn(A) -> Option<B>)
    ensures
        (a + b).filter_map(read) == a.filter_map(read) + b.filter_map(read),
    decreases b.len(),
{
    let all = a + b;
    if b.len() == 0 {
        reveal(Seq::filter_map);
        assert(all =~= a);
        assert(b.filter_map(read) =~= Seq::empty());
        assert(all.filter_map(read) =~= a.filter_map(read) + b.filter_map(read));
    } else {
        let n = all.len() - 1;
        lemma_filter_map_add(a, b.drop_last(), read);
        all.lemma_filter_map_take_succ(read, n);
        b.lemma_filter_map_take_succ(read, b.len() - 1);
        assert(all.take(n) =~= a + b.drop_last());
        assert(all.take(n + 1) =~= all);
        assert(b.take(b.len() - 1) =~= b.drop_last());
        assert(b.take(b.len() as int) =~= b);
        assert(all[n] == b[b.len() - 1]);
        assert(all.filter_map(read) =~= a.filter_map(read) + b.filter_map(read));
    }
}

/// The texts of two rows of parts follow each other.
pub proof fn lemma_concat_add(a: Seq<Seq<char>>, b: Seq<Seq<char>>)
    ensures
        concat(a + b) == concat(a) + concat(b),
    decreases b.len(),
{
    if b.len() == 0 {
        assert(a + b =~= a);
        assert(concat(a) + concat(b) =~= concat(a));
    } else {
        lemma_concat_add(a, b.drop_last());
        assert((a + b).drop_last() =~= a + b.drop_last());
        assert((a + b).last() == b.last());
        assert(concat(a + b) =~= concat(a) + concat(b));
    }
}

/// A cut never yields an empty list of pieces, and no piece holds the separator.
pub proof fn lemma_split(text: Seq<char>, sep: char)
    ensures
        split(text, sep).len() > 0,
        forall|i: int| 0 <= i < split(text, sep).len() ==> !(#[trigger] split(text, sep)[i]).contains(sep),
    decreases text.len(),
{
    if text.len() > 0 {
        lemma_split(text.drop_last(), sep);
        let before = split(text.drop_last(), sep);
        let all = split(text, sep);
        assert forall|i: int| 0 <= i < all.len() implies !(#[trigger] all[i]).contains(sep) by {
            if text.last() == sep {
                if i < before.len() {
                    assert(all[i] == before[i]);
                }
            } else if i < before.len() - 1 {
                assert(all[i] == before[i]);
            } else {
                let piece = before.last();
                assert(!piece.contains(sep));
                assert(all[i] == piece.push(text.last()));
                if all[i].contains(sep) {
                    let k = choose|k: int| 0 <= k < all[i].len() && all[i][k] == sep;
                    if k < piece.len() {
                        assert(piece[k] == sep);
                    }
                }
            }
        }
    }
}

/// Putting the separator back between the pieces of a cut gives the text again.
pub proof fn lemma_join_split(text: Seq<char>, sep: char)
    ensures
        join(split(text, sep), seq![sep]) == text,
    decreases text.len(),
{
    let s = seq![sep];
    if text.len() == 0 {
        assert(split(text, sep).len() == 1);
        assert(join(split(text, sep), s) =~= text);
    } else {
        lemma_split(text.drop_last(), sep);
        lemma_join_split(text.drop_last(), sep);
        let before = split(text.drop_last(), sep);
        let all = split(text, sep);
        assert(text =~= text.drop_last().push(text.last()));
        if text.last() == sep {
            assert(all.drop_last() =~= before);
            assert(join(all, s) =~= text);
        } else {
            assert(all.drop_last() =~= before.drop_last());
            if before.len() == 1 {
                assert(join(before, s) == before[0]);
                assert(join(all, s) == all[0]);
            } else {
                assert(join(all, s) == join(before.drop_last(), s) + s + all.last());
                assert(join(before, s) == join(before.drop_last(), s) + s + before.last());
            }
            assert(join(all, s) =~= text);
        }
    }
}

/// A text without the separator is cut into itself alone.
pub proof fn lemma_split_whole(text: Seq<char>, sep: char)
    requires
        !text.contains(sep),
    ensures
        split(text, sep) == seq![text],
    decreases text.len(),
{
    if text.len() > 0 {
        let front = text.drop_last();
        assert(!front.contains(sep)) by {
            if front.contains(sep) {
                let k = choose|k: int| 0 <= k < front.len() && front[k] == sep;
                assert(text[k] == sep);
            }
        }
        lemma_split_whole(front, sep);
        assert(text[text.len() - 1] != sep);
        assert(front.push(text.last()) =~= text);
        assert(split(text, sep) =~= seq![text]);
    } else {
        assert(text =~= Seq::empty());
    }
}

/// A cut at a separator splits a text into the pieces before it and those after it.
pub proof fn lemma_split_at(before: Seq<char>, sep: char, after: Seq<char>)
    ensures
        split(before.push(sep) + after, sep) == split(before, sep) + split(after, sep),
    decreases after.len(),
{
    let text = before.push(sep) + after;
    if after.len() == 0 {
        assert(text =~= before.push(sep));
        assert(text.drop_last() =~= before);
        assert(split(text, sep) =~= split(before, sep) + split(after, sep));
    } else {
        lemma_split_at(before, sep, after.drop_last());
        lemma_split(after.drop_last(), sep);
        assert(text.drop_last() =~= before.push(sep) + after.drop_last());
        assert(text.last() == after.last());
        assert(split(text, sep) =~= split(before, sep) + split(after, sep));
    }
}

/// The texts that a list of character lists holds.
pub open spec fn pieces(list: Seq<Vec<char>>) -> Seq<Seq<char>> {
    list.map_values(|v: Vec<char>| v@)
}

/// Cuts `text` at every `sep`.
pub fn split_on(text: &Vec<char>, sep: char) -> (r: Vec<Vec<char>>)
    ensures
        pieces(r@) == split(text@, sep),
{
    let mut done: Vec<Vec<char>> = Vec::new();
    let mut current: Vec<char> = Vec::new();
    let mut i: usize = 0;
    assert(pieces(done@).push(current@) =~= split(text@.take(0), sep));
    while i < text.len()
        invariant
            i <= text@.len(),
            pieces(done@).push(current@) == split(text@.take(i as int), sep),
        decreases text@.len() - i,
    {
        let ghost before = pieces(done@).push(current@);
        let ghost done_before = pieces(done@);
        let c = text[i];
        proof {
            assert(text@.take(i + 1).drop_last() =~= text@.take(i as int));
            assert(text@.take(i + 1).last() == c);
            assert(before.drop_last() =~= done_before);
        }
        if c == sep {
            done.push(current);
            current = Vec::new();
            assert(pieces(done@) =~= before);
        } else {
            current.push(c);
        }
        i += 1;
        assert(pieces(done@).push(current@) =~= split(text@.take(i as int), sep));
    }
    assert(text@.take(i as int) =~= text@);
    let ghost done_before = pieces(done@);
    let ghost tail = current@;
    done.push(current);
    assert(pieces(done@) =~= done_before.push(tail));
    done
}

/// Puts `list` together with `sep` between neighbours.
pub fn join_strings(list: &Vec<String>, sep: &str) -> (r: String)
    ensures
        r@ == join(texts(list@), sep@),
{
    let mut out = String::new();
    let mut i: usize = 0;
    assert(texts(list@).take(0).len() == 0);
    while i < list.len()
        invariant
            i <= list@.len(),
            out@ == join(texts(list@).take(i as int), sep@),
        decreases list@.len() - i,
    {
        proof {
            assert(texts(list@).take(i + 1).drop_last() =~= texts(list@).take(i as int));
            assert(texts(list@).take(i + 1).last() == list@[i as int]@);
        }
        if i > 0 {
            out.append(sep);
        }
        out.append(list[i].as_str());
        i += 1;
        assert(out@ =~= join(texts(list@).take(i as int), sep@));
    }
    assert(texts(list@).take(i as int) =~= texts(list@));
    out
}

/// Whether `c` has the Unicode property `White_Space`.
pub open spec fn is_space(c: char) -> bool {
    ||| '\u{9}' <= c <= '\u{d}'
    ||| c == ' '
    ||| c == '\u{85}'
    ||| c == '\u{a0}'
    ||| c == '\u{1680}'
    ||| '\u{2000}' <= c <= '\u{200a}'
    ||| c == '\u{2028}'
    ||| c == '\u{2029}'
    ||| c == '\u{202f}'
    ||| c == '\u{205f}'
    ||| c == '\u{3000}'
}

/// Tests whether `c` has the Unicode property `White_Space`.
pub fn is_whitespace(c: char) -> (r: bool)
    ensures
        r == is_space(c),
{
    let low = ('\u{9}' <= c && c <= '\u{d}') || c == ' ' || c == '\u{85}' || c == '\u{a0}';
    let high = c == '\u{1680}' || ('\u{2000}' <= c && c <= '\u{200a}') || c == '\u{2028}'
        || c == '\u{2029}' || c == '\u{202f}' || c == '\u{205f}' || c == '\u{3000}';
    low || high
}

/// Whether `text` holds nothing but white space.
pub open spec fn is_blank(text: Seq<char>) -> bool {
    forall|i: int| 0 <= i < text.len() ==> is_space(#[trigger] text[i])
}

/// Tests whether `text` holds nothing but white space.
pub fn blank(text: &Vec<char>) -> (r: bool)
    ensures
        r == is_blank(text@),
{
    let mut i: usize = 0;
    while i < text.len()
        invariant
            i <= text@.len(),
            forall|j: int| 0 <= j < i ==> is_space(#[trigger] text@[j]),
        decreases text@.len() - i,
    {
        if !is_whitespace(text[i]) {
            assert(!is_space(text@[i as int]));
            return false;
        }
        i += 1;
    }
    true
}

/// The words of `text`: its longest runs without white space, in order.
pub open spec fn words(text: Seq<char>) -> Seq<Seq<char>>
    decreases text.len(),
{
    if text.len() == 0 {
        Seq::empty()
    } else {
        let before = words(text.drop_last());
        if is_space(text.last()) {
            before
        } else if text.len() == 1 || is_space(text[text.len() - 2]) {
            before.push(seq![text.last()])
        } else {
            before.drop_last().push(before.last().push(text.last()))
        }
    }
}

/// Splits `text` into its words.
pub fn words_of(text: &Vec<char>) -> (r: Vec<Vec<char>>)
    ensures
        pieces(r@) == words(text@),
{
    let mut done: Vec<Vec<char>> = Vec::new();
    let mut current: Vec<char> = Vec::new();
    let mut i: usize = 0;
    assert(pieces(done@) =~= words(text@.take(0)));
    while i < text.len()
        invariant
            i <= text@.len(),
            (current@.len() > 0) == (i > 0 && !is_space(text@[i - 1])),
            current@.len() == 0 ==> pieces(done@) == words(text@.take(i as int)),
            current@.len() > 0 ==> pieces(done@).push(current@) == words(text@.take(i as int)),
        decreases text@.len() - i,
    {
        let ghost done_before = pieces(done@);
        let ghost current_before = current@;
        let c = text[i];
        proof {
            assert(text@.take(i + 1).drop_last() =~= text@.take(i as int));
            assert(text@.take(i + 1).last() == c);
            if i > 0 {
                assert(text@.take(i + 1)[i - 1] == text@[i - 1]);
            }
            assert(done_before.push(current_before).drop_last() =~= done_before);
        }
        if is_whitespace(c) {
            if current.len() > 0 {
                done.push(current);
                current = Vec::new();
                assert(pieces(done@) =~= done_before.push(current_before));
            }
        } else {
            current.push(c);
            assert(current_before.len() == 0 ==> current@ =~= seq![c]);
        }
        i += 1;
    }
    assert(text@.take(i as int) =~= text@);
    if current.len() > 0 {
        let ghost done_before = pieces(done@);
        let ghost tail = current@;
        done.push(current);
        assert(pieces(done@) =~= done_before.push(tail));
    }
    done
}

/// Whether `text` holds no white space.
pub open spec fn is_word(text: Seq<char>) -> bool {
    forall|i: int| 0 <= i < text.len() ==> !is_space(#[trigger] text[i])
}

/// The words of a text behind white space follow those before it.
pub proof fn lemma_words_add(before: Seq<char>, space: char, after: Seq<char>)
    requires
        is_space(space),
    ensures
        words(before.push(space) + after) == words(before) + words(after),
        words(Seq::empty()) == Seq::<Seq<char>>::empty(),
    decreases after.len(),
{
    let text = before.push(space) + after;
    if after.len() == 0 {
        assert(text =~= before.push(space));
        assert(text.drop_last() =~= before);
        assert(words(before) + words(after) =~= words(before));
    } else {
        let front = after.drop_last();
        lemma_words_add(before, space, front);
        assert(text.drop_last() =~= before.push(space) + front);
        assert(text.last() == after.last());
        if after.len() == 1 {
            assert(text[text.len() - 2] == space);
        } else {
            assert(text[text.len() - 2] == after[after.len() - 2]);
            lemma_has_word(front);
        }
        assert(words(text) =~= words(before) + words(after));
    }
}

/// A text that does not end in white space has a word.
proof fn lemma_has_word(text: Seq<char>)
    ensures
        text.len() > 0 && !is_space(text.last()) ==> words(text).len() > 0,
    decreases text.len(),
{
    if text.len() > 1 {
        lemma_has_word(text.drop_last());
    }
}

/// A text without white space is one word.
pub proof fn lemma_one_word(word: Seq<char>)
    requires
        is_word(word),
        word.len() > 0,
    ensures
        words(word) == seq![word],
    decreases word.len(),
{
    let front = word.drop_last();
    assert(!is_space(word[word.len() - 1]));
    if word.len() == 1 {
        assert(words(front).len() == 0);
        assert(word =~= seq![word.last()]);
        assert(words(word) =~= seq![word]);
    } else {
        assert(!is_space(word[word.len() - 2]));
        assert forall|i: int| 0 <= i < front.len() implies !is_space(#[trigger] front[i]) by {
            assert(!is_space(word[i]));
        }
        lemma_one_word(front);
        assert(front.push(word.last()) =~= word);
        assert(words(word) =~= seq![word]);
    }
}

/// The first word of a text that begins with `word` is `word` and as much of the rest as follows it
/// without white space. The result is how much that is.
pub proof fn lemma_first_word(word: Seq<char>, rest: Seq<char>) -> (n: int)
    requires
        is_word(word),
        word.len() > 0,
    ensures
        0 <= n <= rest.len(),
        words(word + rest).len() > 0,
        words(word + rest)[0] == word + rest.take(n),
        n == 0 <==> rest.len() == 0 || is_space(rest[0]),
        words(word + rest).len() == 1 && (rest.len() == 0 || !is_space(rest.last())) ==> n
            == rest.len(),
    decreases rest.len(),
{
    let text = word + rest;
    if rest.len() == 0 {
        lemma_one_word(word);
        assert(text =~= word);
        assert(word + rest.take(0) =~= word);
        0
    } else {
        let front = rest.drop_last();
        let n = lemma_first_word(word, front);
        let before = words(word + front);
        let c = rest.last();
        assert(text.drop_last() =~= word + front);
        assert(text.last() == c);
        assert(rest.take(n) =~= front.take(n));
        if front.len() > 0 {
            assert(rest[0] == front[0]);
            assert(text[text.len() - 2] == front.last());
        } else {
            lemma_one_word(word);
            assert(word + front =~= word);
            assert(text[text.len() - 2] == word[word.len() - 1]);
            assert(rest[0] == c);
        }
        if is_space(c) || is_space(text[text.len() - 2]) || before.len() > 1 {
            n
        } else {
            assert(n == front.len());
            assert(word + rest.take(rest.len() as int) =~= (word + front.take(n)).push(c));
            rest.len() as int
        }
    }
}

/// `line` without a carriage return at its end.
pub open spec fn without_cr(line: Seq<char>) -> Seq<char> {
    if line.len() > 0 && line.last() == '\r' {
        line.drop_last()
    } else {
        line
    }
}

/// The lines of `text`. Each ends at a line feed, or at a carriage return and a
/// line feed; the last one may end with the text.
pub open spec fn lines(text: Seq<char>) -> Seq<Seq<char>> {
    let cut = split(text, '\n');
    let ended = cut.drop_last().map_values(|line: Seq<char>| without_cr(line));
    if cut.last().len() == 0 {
        ended
    } else {
        ended.push(cut.last())
    }
}

/// Whether `text` holds no line feed.
pub open spec fn is_line(text: Seq<char>) -> bool {
    !text.contains('\n')
}

/// Texts without line feeds stay without them where they are put together.
pub broadcast proof fn lemma_line_add(a: Seq<char>, b: Seq<char>)
    requires
        is_line(a),
        is_line(b),
    ensures
        is_line(#[trigger] (a + b)),
{
    let both = a + b;
    if both.contains('\n') {
        let k = choose|k: int| 0 <= k < both.len() && both[k] == '\n';
        if k < a.len() {
            assert(a[k] == '\n');
        } else {
            assert(b[k - a.len()] == '\n');
        }
    }
}

/// Texts without line feeds stay without them where they are joined by such a text.
pub proof fn lemma_line_join(list: Seq<Seq<char>>, sep: Seq<char>)
    requires
        forall|i: int| 0 <= i < list.len() ==> is_line(#[trigger] list[i]),
        is_line(sep),
    ensures
        is_line(join(list, sep)),
    decreases list.len(),
{
    if list.len() > 1 {
        let front = list.drop_last();
        assert forall|i: int| 0 <= i < front.len() implies is_line(#[trigger] front[i]) by {
            assert(is_line(list[i]));
        }
        lemma_line_join(front, sep);
        assert(is_line(list[list.len() - 1]));
        lemma_line_add(join(front, sep), sep);
        lemma_line_add(join(front, sep) + sep, list.last());
    }
}

/// Whether `text` is made of whole lines: it is empty, or ends in a line feed.
pub open spec fn is_whole_lines(text: Seq<char>) -> bool {
    text.len() == 0 || text.last() == '\n'
}

/// An empty text has no lines.
pub proof fn lemma_no_lines()
    ensures
        lines(Seq::empty()) == Seq::<Seq<char>>::empty(),
{
    let none = Seq::<char>::empty();
    lemma_split_whole(none, '\n');
    assert(lines(none) =~= Seq::<Seq<char>>::empty());
}

/// The lines of a text behind whole lines follow those.
pub proof fn lemma_lines_add(before: Seq<char>, after: Seq<char>)
    requires
        is_whole_lines(before),
    ensures
        lines(before + after) == lines(before) + lines(after),
        is_whole_lines(after) ==> is_whole_lines(before + after),
{
    if before.len() == 0 {
        lemma_no_lines();
        assert(before =~= Seq::empty());
        assert(before + after =~= after);
        assert(lines(before) + lines(after) =~= lines(after));
    } else {
        let front = before.drop_last();
        let none = Seq::<char>::empty();
        assert(before =~= front.push('\n') + none);
        assert(before + after =~= front.push('\n') + after);
        lemma_split_at(front, '\n', none);
        lemma_split_at(front, '\n', after);
        lemma_split_whole(none, '\n');
        lemma_split(after, '\n');
        let cut = split(front, '\n');
        assert(split(before, '\n').drop_last() =~= cut);
        assert(split(before + after, '\n').drop_last() =~= cut + split(after, '\n').drop_last());
        assert(split(before + after, '\n').last() == split(after, '\n').last());
        assert(lines(before + after) =~= lines(before) + lines(after));
    }
}

/// A text without line feeds, and a line feed behind it, is one line.
pub proof fn lemma_one_line(line: Seq<char>)
    requires
        is_line(line),
    ensures
        is_whole_lines(line.push('\n')),
        lines(line.push('\n')) == seq![without_cr(line)],
{
    let none = Seq::<char>::empty();
    assert(line.push('\n') =~= line.push('\n') + none);
    lemma_split_at(line, '\n', none);
    lemma_split_whole(line, '\n');
    lemma_split_whole(none, '\n');
    assert(split(line.push('\n'), '\n').drop_last() =~= seq![line]);
    assert(lines(line.push('\n')) =~= seq![without_cr(line)]);
}

/// Splits `text` into its lines.
pub fn lines_of(text: &Vec<char>) -> (r: Vec<Vec<char>>)
    ensures
        pieces(r@) == lines(text@),
{
    let cut = split_on(text, '\n');
    proof {
        lemma_split(text@, '\n');
        assert(pieces(cut@).len() == cut@.len());
    }
    let last: usize = cut.len() - 1;
    let mut out: Vec<Vec<char>> = Vec::new();
    let mut i: usize = 0;
    let ghost ended = pieces(cut@).drop_last().map_values(|line: Seq<char>| without_cr(line));
    while i < last
        invariant
            i <= last,
            last == cut@.len() - 1,
            ended == pieces(cut@).drop_last().map_values(|line: Seq<char>| without_cr(line)),
            pieces(out@) == ended.take(i as int),
        decreases last - i,
    {
        let n: usize = cut[i].len();
        let ghost out_before = pieces(out@);
        let line = if n > 0 && cut[i][n - 1] == '\r' {
            chars_between(&cut[i], 0, n - 1)
        } else {
            chars_between(&cut[i], 0, n)
        };
        assert(line@ =~= ended[i as int]);
        let ghost added = line@;
        out.push(line);
        i += 1;
        assert(pieces(out@) =~= out_before.push(added));
        assert(pieces(out@) =~= ended.take(i as int));
    }
    assert(ended.take(i as int) =~= ended);
    if cut[last].len() > 0 {
        let ghost out_before = pieces(out@);
        let tail = chars_between(&cut[last], 0, cut[last].len());
        assert(tail@ =~= pieces(cut@).last());
        let ghost added = tail@;
        out.push(tail);
        assert(pieces(out@) =~= out_before.push(added));
    }
    out
}

/// The upper case of a text, as Unicode defines it.
pub uninterp spec fn uppercase(text: Seq<char>) -> Seq<char>;

/// The lower case of a text, as Unicode defines it.
pub uninterp spec fn lowercase(text: Seq<char>) -> Seq<char>;

/// Whether every character of `text` is an ASCII character.
pub open spec fn is_ascii_text(text: Seq<char>) -> bool {
    forall|i: int| 0 <= i < text.len() ==> (#[trigger] text[i] as u32) < 128
}

/// The capital of an ASCII letter; any other character itself.
pub open spec fn ascii_upper(c: char) -> char {
    if 'a' <= c <= 'z' {
        (c as int - 32) as char
    } else {
        c
    }
}

/// The small form of an ASCII letter; any other character itself.
pub open spec fn ascii_lower(c: char) -> char {
    if 'A' <= c <= 'Z' {
        (c as int + 32) as char
    } else {
        c
    }
}

/// Puts a text into upper case.
///
/// Calls `str::to_uppercase`. The result is named and not spelled out; beside the name the
/// contract claims what Unicode lays down for ASCII text: each letter turns into its capital, and
/// nothing else changes.
#[verifier::external_body]
pub(crate) fn to_uppercase(text: &str) -> (r: String)
    ensures
        r@ == uppercase(text@),
        is_ascii_text(text@) ==> r@ == text@.map_values(|c: char| ascii_upper(c)),
{
    text.to_uppercase()
}

/// Puts a text into lower case.
///
/// Calls `str::to_lowercase`. The result is named and not spelled out; beside the name the
/// contract claims what Unicode lays down for ASCII text: each letter turns into its small form,
/// and nothing else changes.
#[verifier::external_body]
pub(crate) fn to_lowercase(text: &str) -> (r: String)
    ensures
        r@ == lowercase(text@),
        is_ascii_text(text@) ==> r@ == text@.map_values(|c: char| ascii_lower(c)),
{
    text.to_lowercase()
}

/// A list with the same texts.
pub fn clone_strings(list: &Vec<String>) -> (r: Vec<String>)
    ensures
        r@ == list@,
{
    let mut out: Vec<String> = Vec::new();
    let mut i: usize = 0;
    while i < list.len()
        invariant
            i <= list@.len(),
            out@ == list@.take(i as int),
        decreases list@.len() - i,
    {
        out.push(list[i].clone());
        i += 1;
        assert(out@ =~= list@.take(i as int));
    }
    assert(list@.take(i as int) =~= list@);
    out
}

/// What a partial reading of a list finds is what it reads from some item.
pub proof fn lemma_filter_map_contains<A, B>(list: Seq<A>, read: spec_fn(A) -> Option<B>, x: B)
    ensures
        list.filter_map(read).contains(x) <==> exists|i: int|
            0 <= i < list.len() && read(#[trigger] list[i]) == Some(x),
    decreases list.len(),
{
    reveal(Seq::filter_map);
    if list.len() > 0 {
        let n = list.len() - 1;
        let front = list.take(n);
        lemma_filter_map_contains(front, read, x);
        list.lemma_filter_map_take_succ(read, n);
        assert(list.take(n + 1) =~= list);
        let before = front.filter_map(read);
        let all = list.filter_map(read);
        if before.contains(x) {
            let k = choose|k: int| 0 <= k < before.len() && before[k] == x;
            assert(all[k] == x);
            let i = choose|i: int| 0 <= i < front.len() && read(#[trigger] front[i]) == Some(x);
            assert(read(list[i]) == Some(x));
        }
        if read(list[n]) == Some(x) {
            assert(all[before.len() as int] == x);
        }
        if all.contains(x) && !before.contains(x) {
            let k = choose|k: int| 0 <= k < all.len() && all[k] == x;
            if k < before.len() {
                assert(before[k] == x);
            }
            assert(read(list[n]) == Some(x));
        }
        if exists|i: int| 0 <= i < list.len() && read(#[trigger] list[i]) == Some(x) {
            let i = choose|i: int| 0 <= i < list.len() && read(#[trigger] list[i]) == Some(x);
            if i < n {
                assert(front[i] == list[i]);
            }
        }
    }
}

/// One more text in a row: the separator stands between it and the one before it, and nowhere else.
pub proof fn lemma_one_more_joined(
    list: Seq<Seq<char>>,
    a: Seq<char>,
    b: Seq<char>,
    sep: Seq<char>,
)
    ensures
        join(Seq::empty(), sep) == Seq::<char>::empty(),
        join(seq![a], sep) == a,
        join(list.push(a).push(b), sep) == join(list.push(a), sep) + sep + b,
        concat(Seq::empty()) == Seq::<char>::empty(),
        concat(list.push(a)) == concat(list) + a,
{
    assert(list.push(a).push(b).drop_last() =~= list.push(a));
    assert(list.push(a).drop_last() =~= list);
}

/// White space among the ASCII characters is the blank, the tabs, the line feed, the form feed and the
/// carriage return.
pub proof fn lemma_ascii_white_space(c: char)
    requires
        (c as u32) < 128,
    ensures
        is_space(c) <==> c == ' ' || c == '\t' || c == '\n' || c == '\r' || c == '\u{b}' || c
            == '\u{c}',
{
}

/// A line reads the same whether a line feed ends it, a carriage return and a line feed do, or the
/// text does.
pub proof fn lemma_line_ends(line: Seq<char>)
    requires
        is_line(line),
        line.len() == 0 || line.last() != '\r',
    ensures
        lines(line.push('\n')) == seq![line],
        lines(line.push('\r').push('\n')) == seq![line],
        line.len() > 0 ==> lines(line) == seq![line],
{
    let none = Seq::<char>::empty();
    lemma_split_whole(line, '\n');
    let long = line.push('\r');
    assert(!long.contains('\n')) by {
        if long.contains('\n') {
            let k = choose|k: int| 0 <= k < long.len() && long[k] == '\n';
            assert(line[k] == '\n');
        }
    }
    lemma_split_whole(long, '\n');
    lemma_split_whole(none, '\n');
    lemma_split_at(line, '\n', none);
    lemma_split_at(long, '\n', none);
    assert(line.push('\n') + none =~= line.push('\n'));
    assert(long.push('\n') + none =~= long.push('\n'));
    assert(long.drop_last() =~= line);
    assert(split(line.push('\n'), '\n') =~= seq![line, none]);
    assert(split(long.push('\n'), '\n') =~= seq![long, none]);
    assert(lines(line.push('\n')) =~= seq![line]);
    assert(lines(long.push('\n')) =~= seq![line]);
    if line.len() > 0 {
        assert(lines(line) =~= seq![line]);
    }
}

/// A text begins with its front, ends with its back, and holds its middle; and a text that begins
/// with, ends with or holds another can be cut so.
pub proof fn lemma_parts_of_text(text: Seq<char>, a: Seq<char>, b: Seq<char>, c: Seq<char>)
    ensures
        has_prefix(a + b, a),
        has_suffix(a + b, b),
        has_infix(a + b + c, b),
        has_prefix(text, a) ==> a + text.skip(a.len() as int) == text,
        has_suffix(text, b) ==> text.take(text.len() - b.len()) + b == text,
        has_infix(text, b) ==> exists|at: int|
            0 <= at <= text.len() - b.len() && text == #[trigger] text.take(at) + b + text.skip(
                at + b.len(),
            ),
{
    assert((a + b).subrange(0, a.len() as int) =~= a);
    assert((a + b).subrange(a.len() as int, (a + b).len() as int) =~= b);
    assert((a + b + c).subrange(a.len() as int, (a.len() + b.len()) as int) =~= b);
    assert(occurs_at(a + b + c, b, a.len() as int));
    if has_prefix(text, a) {
        assert(text =~= text.subrange(0, a.len() as int) + text.skip(a.len() as int));
    }
    if has_suffix(text, b) {
        let n = text.len() - b.len();
        assert(text =~= text.take(n) + text.subrange(n, n + b.len()));
    }
    if has_infix(text, b) {
        let at = choose|at: int| occurs_at(text, b, at);
        assert(text =~= text.take(at) + text.subrange(at, at + b.len()) + text.skip(at + b.len()));
    }
}

} // verus!
