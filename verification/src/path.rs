//! Unix paths as texts: their components, and the parts of a path.

use vstd::prelude::*;

use crate::order::{code_points, compare_numbers, lex_less, numbers, text_less, Place};
use crate::text::{
    chars_between, chars_of, lemma_split, lemma_split_at, lemma_split_whole, pieces, same_chars,
    split, split_on, string_between,
};

verus! {

/// Whether a piece between two separators names something: it is neither empty nor a dot.
pub open spec fn is_name(piece: Seq<char>) -> bool {
    piece.len() > 0 && piece != seq!['.']
}

/// The components of a path. An absolute path starts with the component `/`.
/// Repeated separators and dots are left out, but for a dot at the start.
pub open spec fn components(path: Seq<char>) -> Seq<Seq<char>> {
    let cut = split(path, '/');
    let start = if path.len() > 0 && path[0] == '/' {
        seq![seq!['/']]
    } else if cut[0] == seq!['.'] {
        seq![seq!['.']]
    } else {
        Seq::empty()
    };
    start + cut.filter(|piece: Seq<char>| is_name(piece))
}

fn name_piece(piece: &Vec<char>) -> (r: bool)
    ensures
        r == is_name(piece@),
{
    let dot = piece.len() == 1 && piece[0] == '.';
    assert(dot == (piece@ =~= seq!['.']));
    piece.len() > 0 && !dot
}

/// Takes a path apart into its components.
pub fn components_of(path: &Vec<char>) -> (r: Vec<Vec<char>>)
    ensures
        pieces(r@) == components(path@),
{
    let cut = split_on(path, '/');
    let ghost all = split(path@, '/');
    let ghost keep = |piece: Seq<char>| is_name(piece);
    proof {
        lemma_split(path@, '/');
        assert(pieces(cut@).len() == cut@.len());
        assert(all[0] == cut@[0]@);
    }
    let mut out: Vec<Vec<char>> = Vec::new();
    let ghost mut start: Seq<Seq<char>> = Seq::empty();
    if path.len() > 0 && path[0] == '/' {
        let mut root: Vec<char> = Vec::new();
        root.push('/');
        proof {
            start = seq![seq!['/']];
        }
        assert(root@ =~= seq!['/']);
        out.push(root);
    } else if cut[0].len() == 1 && cut[0][0] == '.' {
        let mut dot: Vec<char> = Vec::new();
        dot.push('.');
        proof {
            start = seq![seq!['.']];
        }
        assert(dot@ =~= seq!['.']);
        assert(cut@[0]@ =~= seq!['.']);
        out.push(dot);
    } else {
        assert(cut@[0]@ != seq!['.']);
    }
    assert(pieces(out@) =~= start);
    assert(all.take(0).filter(keep) =~= Seq::empty()) by {
        reveal(Seq::filter);
    }
    let mut i: usize = 0;
    while i < cut.len()
        invariant
            i <= cut@.len(),
            all == pieces(cut@),
            keep == (|piece: Seq<char>| is_name(piece)),
            pieces(out@) == start + all.take(i as int).filter(keep),
        decreases cut@.len() - i,
    {
        let ghost before = pieces(out@);
        proof {
            reveal(Seq::filter);
            assert(all.take(i + 1).drop_last() =~= all.take(i as int));
            assert(all.take(i + 1).last() == cut@[i as int]@);
        }
        if name_piece(&cut[i]) {
            let piece = chars_between(&cut[i], 0, cut[i].len());
            assert(piece@ =~= cut@[i as int]@);
            out.push(piece);
            assert(pieces(out@) =~= before.push(cut@[i as int]@));
        }
        i += 1;
        assert(pieces(out@) =~= start + all.take(i as int).filter(keep));
    }
    assert(all.take(i as int) =~= all);
    out
}

/// Adding a character to a path leaves its components as they are, adds one, or
/// changes the last one.
proof fn lemma_components_push(path: Seq<char>, c: char)
    requires
        path.len() > 0 || c != '/',
    ensures
        ({
            let old_parts = components(path);
            let new_parts = components(path.push(c));
            ||| new_parts == old_parts
            ||| new_parts.len() > 0 && new_parts.drop_last() == old_parts
            ||| new_parts.len() > 0 && old_parts.len() > 0 && old_parts != seq![seq!['/']]
                && new_parts.drop_last() == old_parts.drop_last()
        }),
{
    reveal(Seq::filter);
    let keep = |piece: Seq<char>| is_name(piece);
    let longer = path.push(c);
    assert(longer.drop_last() =~= path);
    lemma_split(path, '/');
    let a = split(path, '/');
    let b = split(longer, '/');
    let old_parts = components(path);
    let new_parts = components(longer);
    let old_names = a.filter(keep);
    let new_names = b.filter(keep);
    let short = a.drop_last().filter(keep);
    assert(old_names == if is_name(a.last()) { short.push(a.last()) } else { short });
    if path.len() > 0 {
        assert(longer[0] == path[0]);
    }
    if c == '/' {
        assert(b.drop_last() =~= a);
        assert(b.last().len() == 0);
        assert(new_names == old_names);
        assert(b[0] == a[0]);
        assert(new_parts =~= old_parts);
    } else {
        let piece = a.last().push(c);
        assert(b.drop_last() =~= a.drop_last());
        assert(b.last() == piece);
        assert(new_names == if is_name(piece) { short.push(piece) } else { short });
        if a.len() > 1 {
            assert(b[0] == a[0]);
            let start = if path.len() > 0 && path[0] == '/' {
                seq![seq!['/']]
            } else if a[0] == seq!['.'] {
                seq![seq!['.']]
            } else {
                Seq::empty()
            };
            assert(old_parts == start + old_names);
            assert(new_parts == start + new_names);
            if is_name(a.last()) {
                assert(piece.len() >= 2);
                assert(piece != seq!['.']);
                assert(new_parts.drop_last() =~= start + short);
                assert(old_parts.drop_last() =~= start + short);
                if old_parts == seq![seq!['/']] {
                    assert(old_parts.last() == a.last());
                    assert(a.last() == seq!['/']);
                    assert(a.last()[0] == '/');
                    assert(a.last().contains('/'));
                    assert(a[a.len() - 1] == a.last());
                }
            } else if is_name(piece) {
                assert(new_parts.drop_last() =~= old_parts);
            } else {
                assert(new_parts =~= old_parts);
            }
        } else {
            // The path is a single piece without separators.
            assert(a =~= seq![a[0]]);
            lemma_single_piece(path, '/');
            assert(a[0] == path);
            assert(b[0] == longer);
            assert(a.drop_last() =~= Seq::empty());
            assert(short =~= Seq::empty());
            assert(path.len() > 0 ==> path[0] != '/') by {
                if path.len() > 0 && path[0] == '/' {
                    assert(a[0].contains('/'));
                }
            }
            assert(longer[0] != '/');
            if path.len() == 0 {
                assert(path != seq!['.']);
                assert(old_parts =~= Seq::empty());
                if longer == seq!['.'] {
                    assert(new_parts =~= seq![seq!['.']]);
                } else {
                    assert(new_parts =~= seq![longer]);
                }
                assert(new_parts.drop_last() =~= old_parts);
            } else {
                assert(longer.len() >= 2);
                assert(longer != seq!['.']);
                assert(new_parts =~= seq![longer]);
                if path == seq!['.'] {
                    assert(old_parts =~= seq![path]);
                } else {
                    assert(old_parts =~= seq![path]);
                }
                assert(old_parts.drop_last() =~= Seq::empty());
                assert(new_parts.drop_last() =~= Seq::empty());
                if old_parts == seq![seq!['/']] {
                    assert(old_parts[0] == seq!['/']);
                    assert(path[0] == '/');
                }
            }
        }
    }
}

/// A cut with one piece only is the text itself.
proof fn lemma_single_piece(text: Seq<char>, sep: char)
    requires
        split(text, sep).len() == 1,
    ensures
        split(text, sep)[0] == text,
    decreases text.len(),
{
    if text.len() > 0 {
        lemma_split(text.drop_last(), sep);
        let before = split(text.drop_last(), sep);
        assert(text.last() != sep);
        assert(before.len() == 1);
        lemma_single_piece(text.drop_last(), sep);
        assert(text =~= text.drop_last().push(text.last()));
    } else {
        assert(split(text, sep)[0] =~= text);
    }
}

/// Whether a path has a parent: it has components, and is not the root alone.
pub open spec fn has_parent(path: Seq<char>) -> bool {
    components(path).len() > 0 && components(path) != seq![seq!['/']]
}

/// Whether the first `n` characters are the shortest prefix of `path` with the
/// components `parts`.
pub open spec fn is_shortest_prefix(path: Seq<char>, parts: Seq<Seq<char>>, n: int) -> bool {
    &&& 0 <= n <= path.len()
    &&& components(path.take(n)) == parts
    &&& forall|m: int| 0 <= m < n ==> components(#[trigger] path.take(m)) != parts
}

/// The path without its last component: the shortest prefix with all the
/// components but the last.
pub open spec fn parent(path: Seq<char>) -> Option<Seq<char>> {
    if has_parent(path) {
        let n = choose|n: int| is_shortest_prefix(path, components(path).drop_last(), n);
        Some(path.take(n))
    } else {
        None
    }
}

/// A cut whose pieces are all empty holds no names.
proof fn lemma_no_names(cut: Seq<Seq<char>>)
    requires
        forall|i: int| 0 <= i < cut.len() ==> (#[trigger] cut[i]).len() == 0,
    ensures
        cut.filter(|piece: Seq<char>| is_name(piece)) == Seq::<Seq<char>>::empty(),
    decreases cut.len(),
{
    reveal(Seq::filter);
    if cut.len() > 0 {
        lemma_no_names(cut.drop_last());
    } else {
        assert(cut =~= Seq::<Seq<char>>::empty());
    }
}

proof fn lemma_parent_exists(path: Seq<char>)
    requires
        has_parent(path),
    ensures
        exists|n: int|
            0 <= n < path.len() && components(#[trigger] path.take(n)) == components(path).drop_last(),
    decreases path.len(),
{
    if path.len() == 0 {
        lemma_no_names(split(path, '/'));
        assert(split(path, '/')[0].len() == 0);
        assert(components(path) =~= Seq::empty());
    } else {
        let shorter = path.drop_last();
        let c = path.last();
        assert(shorter.push(c) =~= path);
        assert(path.take(path.len() - 1) =~= shorter);
        if shorter.len() == 0 && c == '/' {
            reveal_with_fuel(split, 2);
            lemma_no_names(split(path, '/'));
            assert(components(path) =~= seq![seq!['/']]);
        } else {
            lemma_components_push(shorter, c);
            if components(path).drop_last() != components(shorter) {
                lemma_parent_exists(shorter);
                let n = choose|n: int|
                    0 <= n < shorter.len() && components(#[trigger] shorter.take(n)) == components(
                        shorter,
                    ).drop_last();
                assert(path.take(n) =~= shorter.take(n));
            }
        }
    }
}

/// Compares two lists of components.
fn same_parts(a: &Vec<Vec<char>>, b: &Vec<Vec<char>>, from: usize, count: usize) -> (r: bool)
    requires
        from + count <= b@.len(),
    ensures
        r == (pieces(a@) == pieces(b@).subrange(from as int, from + count)),
{
    let ghost x = pieces(a@);
    let ghost y = pieces(b@).subrange(from as int, from + count);
    if a.len() != count {
        assert(x.len() != y.len());
        return false;
    }
    let mut i: usize = 0;
    while i < a.len()
        invariant
            i <= a@.len(),
            a@.len() == count,
            from + count <= b.len(),
            x == pieces(a@),
            y == pieces(b@).subrange(from as int, from + count),
            forall|j: int| 0 <= j < i ==> x[j] == y[j],
        decreases a@.len() - i,
    {
        assert(x[i as int] == a@[i as int]@);
        assert(y[i as int] == b@[from + i]@);
        if !same_chars(&a[i], &b[from + i]) {
            return false;
        }
        i += 1;
    }
    assert(x =~= y);
    true
}

/// The shortest prefix of `path` whose components are the first `count` of `parts`.
fn shortest_prefix(path: &Vec<char>, parts: &Vec<Vec<char>>, count: usize) -> (r: usize)
    requires
        count <= parts@.len(),
        exists|n: int|
            0 <= n <= path@.len() && components(#[trigger] path@.take(n)) == pieces(parts@).take(
                count as int,
            ),
    ensures
        is_shortest_prefix(path@, pieces(parts@).take(count as int), r as int),
{
    let ghost goal = pieces(parts@).take(count as int);
    assert(goal =~= pieces(parts@).subrange(0, count as int));
    let mut n: usize = 0;
    loop
        invariant
            n <= path@.len(),
            count <= parts@.len(),
            goal == pieces(parts@).subrange(0, count as int),
            goal == pieces(parts@).take(count as int),
            exists|m: int| 0 <= m <= path@.len() && components(#[trigger] path@.take(m)) == goal,
            forall|m: int| 0 <= m < n ==> components(#[trigger] path@.take(m)) != goal,
        decreases path@.len() - n,
    {
        let prefix = chars_between(path, 0, n);
        assert(prefix@ =~= path@.take(n as int));
        let found = components_of(&prefix);
        if same_parts(&found, parts, 0, count) {
            return n;
        }
        assert(n < path.len());
        n += 1;
    }
}

/// The path without its last component.
pub fn parent_of(path: &str) -> (r: Option<String>)
    ensures
        match r {
            Some(dir) => parent(path@) == Some(dir@),
            None => parent(path@) is None,
        },
{
    let chars = chars_of(path);
    let parts = components_of(&chars);
    let count: usize = parts.len();
    assert(pieces(parts@).len() == parts@.len());
    if count == 0 || (count == 1 && parts[0].len() == 1 && parts[0][0] == '/') {
        proof {
            if count == 1 {
                assert(parts@[0]@ =~= seq!['/']);
                assert(pieces(parts@) =~= seq![seq!['/']]);
            }
        }
        return None;
    }
    proof {
        if pieces(parts@) == seq![seq!['/']] {
            assert(pieces(parts@)[0] == parts@[0]@);
            assert(parts@[0]@ == seq!['/']);
        }
        lemma_parent_exists(path@);
        assert(pieces(parts@).take(count - 1) =~= pieces(parts@).drop_last());
    }
    let n = shortest_prefix(&chars, &parts, count - 1);
    proof {
        let goal = components(path@).drop_last();
        let m = choose|m: int| is_shortest_prefix(path@, goal, m);
        assert(is_shortest_prefix(path@, goal, m));
        if m < n {
            assert(components(path@.take(m)) != goal);
        } else if n < m {
            assert(components(path@.take(n as int)) != goal);
        }
        assert(path@.take(n as int) =~= path@.subrange(0, n as int));
    }
    Some(string_between(&chars, 0, n))
}

/// The last component of a path, where it is a name.
pub open spec fn file_name(path: Seq<char>) -> Option<Seq<char>> {
    let parts = components(path);
    if parts.len() > 0 && parts.last() != seq!['/'] && parts.last() != seq!['.'] && parts.last()
        != seq!['.', '.'] {
        Some(parts.last())
    } else {
        None
    }
}

/// The last component of a path, where it is a name.
pub fn file_name_of(path: &str) -> (r: Option<String>)
    ensures
        match r {
            Some(name) => file_name(path@) == Some(name@),
            None => file_name(path@) is None,
        },
{
    let chars = chars_of(path);
    let parts = components_of(&chars);
    assert(pieces(parts@).len() == parts@.len());
    if parts.len() == 0 {
        return None;
    }
    let last = &parts[parts.len() - 1];
    assert(pieces(parts@).last() == last@);
    let root = last.len() == 1 && last[0] == '/';
    let dot = last.len() == 1 && last[0] == '.';
    let up = last.len() == 2 && last[0] == '.' && last[1] == '.';
    assert(root == (last@ =~= seq!['/']));
    assert(dot == (last@ =~= seq!['.']));
    assert(up == (last@ =~= seq!['.', '.']));
    if root || dot || up {
        None
    } else {
        assert(last@.subrange(0, last@.len() as int) =~= last@);
        Some(string_between(last, 0, last.len()))
    }
}

/// `name` below the directory `dir`. An absolute `name` stands for itself.
pub open spec fn joined(dir: Seq<char>, name: Seq<char>) -> Seq<char> {
    if name.len() > 0 && name[0] == '/' {
        name
    } else if dir.len() == 0 || dir.last() == '/' {
        dir + name
    } else {
        dir.push('/') + name
    }
}

/// `name` below the directory `dir`.
pub fn join_path(dir: &str, name: &str) -> (r: String)
    ensures
        r@ == joined(dir@, name@),
{
    let below = chars_of(name);
    if below.len() > 0 && below[0] == '/' {
        return name.to_owned();
    }
    let above = chars_of(dir);
    let mut out = dir.to_owned();
    if above.len() > 0 && above[above.len() - 1] != '/' {
        out.push('/');
    }
    out.append(name);
    out
}

/// Whether `path` cut off before position `end` and after position `start` is what is left
/// of it below a directory with `count` components.
pub open spec fn is_remainder(path: Seq<char>, count: int, start: int, end: int) -> bool {
    &&& is_shortest_prefix(path, components(path), end)
    &&& 0 <= start <= end
    &&& components(path.subrange(start, end)) == components(path).skip(count)
    &&& forall|m: int|
        0 <= m < start ==> components(#[trigger] path.subrange(m, end)) != components(path).skip(count)
}

/// What is left of `path` below the directory `base`: the longest text at the end of the path,
/// apart from separators and dots that end it, with the components that follow those of `base`.
/// There is such a text exactly where the path begins with the components of `base`.
pub open spec fn relative_to(path: Seq<char>, base: Seq<char>) -> Option<Seq<char>> {
    let count = components(base).len() as int;
    if components(base).is_prefix_of(components(path)) {
        let (start, end) = choose|start: int, end: int| is_remainder(path, count, start, end);
        Some(path.subrange(start, end))
    } else {
        None
    }
}

proof fn lemma_remainder_unique(path: Seq<char>, count: int, start: int, end: int)
    requires
        is_remainder(path, count, start, end),
    ensures
        forall|s: int, e: int| is_remainder(path, count, s, e) ==> s == start && e == end,
{
    assert forall|s: int, e: int| is_remainder(path, count, s, e) implies s == start && e == end by {
        if e < end {
            assert(components(path.take(e)) != components(path));
        } else if end < e {
            assert(components(path.take(end)) != components(path));
        }
        if s < start {
            assert(components(path.subrange(s, end)) != components(path).skip(count));
        } else if start < s {
            assert(components(path.subrange(start, end)) != components(path).skip(count));
        }
    }
}

/// The pieces of a path that are names.
spec fn names(path: Seq<char>) -> Seq<Seq<char>> {
    split(path, '/').filter(|piece: Seq<char>| is_name(piece))
}

/// A path that holds a separator falls into the piece before the first one and the rest.
proof fn lemma_first_piece(path: Seq<char>) -> (n: int)
    requires
        path.contains('/'),
    ensures
        0 <= n < path.len(),
        path[n] == '/',
        !path.take(n).contains('/'),
        split(path, '/') == seq![path.take(n)] + split(path.skip(n + 1), '/'),
        names(path) == (if is_name(path.take(n)) {
            seq![path.take(n)] + names(path.skip(n + 1))
        } else {
            names(path.skip(n + 1))
        }),
{
    let n = path.index_of_first('/')->0;
    path.index_of_first_ensures('/');
    let piece = path.take(n);
    let rest = path.skip(n + 1);
    assert(!piece.contains('/')) by {
        if piece.contains('/') {
            let k = choose|k: int| 0 <= k < piece.len() && piece[k] == '/';
            assert(path[k] == '/');
        }
    }
    assert(path =~= piece.push('/') + rest);
    lemma_split_at(piece, '/', rest);
    lemma_split_whole(piece, '/');
    let keep = |p: Seq<char>| is_name(p);
    let first = seq![piece];
    Seq::filter_distributes_over_add(first, split(rest, '/'), keep);
    assert(first.filter(keep) =~= if is_name(piece) {
        first
    } else {
        Seq::empty()
    }) by {
        reveal(Seq::filter);
        assert(first.drop_last() =~= Seq::empty());
        assert(first.drop_last().filter(keep) =~= Seq::empty());
    }
    assert(names(path) =~= first.filter(keep) + names(rest));
    n
}

proof fn lemma_names_suffix(path: Seq<char>, m: int) -> (s: int)
    requires
        0 <= m < names(path).len(),
    ensures
        0 <= s <= path.len(),
        components(path.skip(s)) == names(path).skip(m),
    decreases path.len(),
{
    if !path.contains('/') {
        lemma_split_whole(path, '/');
        reveal(Seq::filter);
        let cut = seq![path];
        assert(cut.drop_last() =~= Seq::empty());
        assert(cut.drop_last().filter(|piece: Seq<char>| is_name(piece)) =~= Seq::empty());
        assert(is_name(path));
        assert(path.skip(0) =~= path);
        assert(path[0] != '/') by {
            if path[0] == '/' {
                assert(path.contains('/'));
            }
        }
        assert(components(path) =~= names(path));
        assert(names(path).skip(0) =~= names(path));
        0
    } else {
        let n = lemma_first_piece(path);
        let piece = path.take(n);
        let rest = path.skip(n + 1);
        if is_name(piece) && m == 0 {
            assert(path.skip(0) =~= path);
            assert(piece[0] == path[0]);
            assert(path[0] != '/') by {
                if path[0] == '/' {
                    assert(piece.contains(piece[0]));
                }
            }
            assert(split(path, '/')[0] == piece);
            assert(components(path) =~= names(path));
            assert(names(path).skip(0) =~= names(path));
            0
        } else {
            let k = if is_name(piece) {
                m - 1
            } else {
                m
            };
            let s = lemma_names_suffix(rest, k);
            assert(path.skip(n + 1 + s) =~= rest.skip(s));
            assert(names(path).skip(m) =~= names(rest).skip(k));
            n + 1 + s
        }
    }
}

/// Some text at the end of a path has all its components but the first `k`.
proof fn lemma_suffix_exists(path: Seq<char>, k: int) -> (s: int)
    requires
        0 <= k <= components(path).len(),
    ensures
        0 <= s <= path.len(),
        components(path.skip(s)) == components(path).skip(k),
{
    if k == 0 {
        assert(path.skip(0) =~= path);
        assert(components(path).skip(0) =~= components(path));
        0
    } else if k == components(path).len() {
        let none = path.skip(path.len() as int);
        assert(none =~= Seq::empty());
        lemma_no_names(split(none, '/'));
        assert(components(none) =~= Seq::empty());
        assert(components(path).skip(k) =~= Seq::empty());
        path.len() as int
    } else if !path.contains('/') {
        lemma_split_whole(path, '/');
        reveal(Seq::filter);
        let cut = seq![path];
        assert(cut.drop_last() =~= Seq::empty());
        assert(cut.drop_last().filter(|piece: Seq<char>| is_name(piece)) =~= Seq::empty());
        assert(path.len() > 0 && path[0] == '/' ==> path.contains('/'));
        assert(components(path).len() <= 1);
        0
    } else {
        let n = lemma_first_piece(path);
        let piece = path.take(n);
        let rest = path.skip(n + 1);
        assert(split(path, '/')[0] == piece);
        if n == 0 {
            assert(components(path) =~= seq![seq!['/']] + names(rest));
        } else {
            assert(piece[0] == path[0]);
            assert(path[0] != '/') by {
                if path[0] == '/' {
                    assert(piece.contains(piece[0]));
                }
            }
            assert(components(path) =~= seq![piece] + names(rest));
        }
        let s = lemma_names_suffix(rest, k - 1);
        assert(path.skip(n + 1 + s) =~= rest.skip(s));
        assert(components(path).skip(k) =~= names(rest).skip(k - 1));
        n + 1 + s
    }
}

/// A path that ends at `end` has a remainder below any directory that it begins with.
proof fn lemma_remainder_exists(path: Seq<char>, count: int, end: int)
    requires
        0 <= count <= components(path).len(),
        is_shortest_prefix(path, components(path), end),
    ensures
        exists|s: int|
            0 <= s <= end && components(#[trigger] path.subrange(s, end)) == components(path).skip(
                count,
            ),
{
    let front = path.take(end);
    let s = lemma_suffix_exists(front, count);
    assert(front.skip(s) =~= path.subrange(s, end));
}

/// What is left of `path` below the directory `base`.
pub fn strip_base(path: &str, base: &str) -> (r: Option<String>)
    ensures
        match r {
            Some(rest) => relative_to(path@, base@) == Some(rest@),
            None => relative_to(path@, base@) is None,
        },
{
    let chars = chars_of(path);
    let parts = components_of(&chars);
    let base_chars = chars_of(base);
    let base_parts = components_of(&base_chars);
    let total: usize = parts.len();
    let count: usize = base_parts.len();
    let ghost all = pieces(parts@);
    assert(all.len() == total);
    assert(pieces(base_parts@).len() == count);
    if count > total || !same_parts(&base_parts, &parts, 0, count) {
        assert(count <= total ==> !(pieces(base_parts@) =~= all.subrange(0, count as int)));
        return None;
    }
    proof {
        assert(components(base@).is_prefix_of(components(path@)));
        assert(path@.take(path@.len() as int) =~= path@);
        assert(all.take(total as int) =~= all);
        assert(components(path@.take(path@.len() as int)) == all.take(total as int));
    }
    let end = shortest_prefix(&chars, &parts, total);
    assert(is_shortest_prefix(path@, components(path@), end as int));
    let ghost goal = components(path@).skip(count as int);
    assert(goal =~= all.subrange(count as int, total as int));
    let mut start: usize = 0;
    while start <= end
        invariant
            chars@ == path@,
            all == pieces(parts@),
            all == components(path@),
            all.len() == total,
            parts@.len() == total,
            count <= total,
            goal == components(path@).skip(count as int),
            goal == all.subrange(count as int, count + (total - count)),
            components(base@).is_prefix_of(components(path@)),
            components(base@).len() == count,
            is_shortest_prefix(path@, components(path@), end as int),
            start <= end + 1,
            end <= chars.len(),
            forall|m: int| 0 <= m < start ==> components(#[trigger] path@.subrange(m, end as int)) != goal,
        ensures
            forall|m: int| 0 <= m <= end ==> components(#[trigger] path@.subrange(m, end as int)) != goal,
        decreases end + 1 - start,
    {
        let rest = chars_between(&chars, start, end);
        let found = components_of(&rest);
        if same_parts(&found, &parts, count, total - count) {
            proof {
                assert(is_remainder(path@, count as int, start as int, end as int));
                lemma_remainder_unique(path@, count as int, start as int, end as int);
            }
            return Some(string_between(&chars, start, end));
        }
        if start == end {
            break;
        }
        start += 1;
    }
    proof {
        lemma_remainder_exists(path@, count as int, end as int);
        assert(false);
    }
    None
}

/// A component as a list of numbers. The root comes before a dot, a dot before two dots, and those
/// before all names; a zero ends a name.
pub open spec fn component_key(part: Seq<char>) -> Seq<int> {
    if part == seq!['/'] {
        seq![1]
    } else if part == seq!['.'] {
        seq![2]
    } else if part == seq!['.', '.'] {
        seq![3]
    } else {
        seq![4] + part.map_values(|c: char| c as int + 1) + seq![0]
    }
}

/// The components of a path as one list of numbers.
pub open spec fn components_key(parts: Seq<Seq<char>>) -> Seq<int>
    decreases parts.len(),
{
    if parts.len() == 0 {
        Seq::empty()
    } else {
        components_key(parts.drop_last()) + component_key(parts.last())
    }
}

/// A path as a list of numbers: paths are ordered component by component.
pub open spec fn path_key(path: Seq<char>) -> Seq<int> {
    components_key(components(path))
}

/// Whether path `a` comes before path `b`, comparing component by component.
pub open spec fn path_less(a: Seq<char>, b: Seq<char>) -> bool {
    lex_less(path_key(a), path_key(b))
}

proof fn lemma_components_key_front(parts: Seq<Seq<char>>)
    requires
        parts.len() > 0,
    ensures
        components_key(parts) == component_key(parts[0]) + components_key(parts.skip(1)),
    decreases parts.len(),
{
    if parts.len() == 1 {
        assert(parts.drop_last() =~= Seq::empty());
        assert(parts.skip(1) =~= Seq::empty());
        assert(components_key(parts) =~= component_key(parts[0]) + components_key(parts.skip(1)));
    } else {
        lemma_components_key_front(parts.drop_last());
        assert(parts.drop_last().skip(1) =~= parts.skip(1).drop_last());
        assert(parts.skip(1).last() == parts.last());
        assert(components_key(parts) =~= component_key(parts[0]) + components_key(parts.skip(1)));
    }
}

proof fn lemma_component_key_prefix_free(x: Seq<char>, u: Seq<int>, y: Seq<char>, v: Seq<int>)
    requires
        component_key(x) + u == component_key(y) + v,
    ensures
        x == y,
        u == v,
{
    let kx = component_key(x);
    let ky = component_key(y);
    let a = kx + u;
    let b = ky + v;
    assert(a[0] == kx[0]);
    assert(b[0] == ky[0]);
    if kx[0] == 4 {
        assert(kx.len() == x.len() + 2);
        assert(ky.len() == y.len() + 2);
        assert(forall|i: int| 0 <= i < x.len() ==> a[i + 1] == x[i] as int + 1);
        assert(forall|i: int| 0 <= i < y.len() ==> b[i + 1] == y[i] as int + 1);
        assert(a[x.len() as int + 1] == 0);
        assert(b[y.len() as int + 1] == 0);
        if x.len() < y.len() {
            assert(b[x.len() as int + 1] == y[x.len() as int] as int + 1);
            lemma_char_nonnegative(y[x.len() as int]);
        } else if y.len() < x.len() {
            assert(a[y.len() as int + 1] == x[y.len() as int] as int + 1);
            lemma_char_nonnegative(x[y.len() as int]);
        }
        assert forall|i: int| 0 <= i < x.len() implies x[i] == y[i] by {
            assert(a[i + 1] == b[i + 1]);
        }
        assert(x =~= y);
    }
    assert(x == y);
    assert(u =~= a.skip(kx.len() as int));
    assert(v =~= b.skip(ky.len() as int));
}

proof fn lemma_char_nonnegative(c: char)
    ensures
        c as int >= 0,
{
}

proof fn lemma_key_of_some(parts: Seq<Seq<char>>)
    requires
        parts.len() > 0,
    ensures
        components_key(parts).len() > 0,
{
    lemma_components_key_front(parts);
    assert(component_key(parts[0]).len() > 0);
}

/// Lists of components with the same key are the same.
pub proof fn lemma_components_key_injective(a: Seq<Seq<char>>, b: Seq<Seq<char>>)
    requires
        components_key(a) == components_key(b),
    ensures
        a == b,
    decreases a.len(),
{
    if a.len() == 0 {
        if b.len() > 0 {
            lemma_key_of_some(b);
        }
        assert(a =~= b);
    } else if b.len() == 0 {
        lemma_key_of_some(a);
    } else {
        let x = a.skip(1);
        let y = b.skip(1);
        lemma_components_key_front(a);
        lemma_components_key_front(b);
        lemma_component_key_prefix_free(a[0], components_key(x), b[0], components_key(y));
        lemma_components_key_injective(x, y);
        assert forall|i: int| 0 <= i < a.len() implies a[i] == b[i] by {
            if i > 0 {
                assert(x[i - 1] == y[i - 1]);
            }
        }
        assert(a.len() == x.len() + 1);
        assert(b.len() == y.len() + 1);
        assert(a =~= b);
    }
}

fn is_text(part: &Vec<char>, c: char) -> (r: bool)
    ensures
        r == (part@ == seq![c]),
{
    let r = part.len() == 1 && part[0] == c;
    assert(r == (part@ =~= seq![c]));
    r
}

/// The code point after that of `c`.
fn next_code_point(c: char) -> (r: u32)
    ensures
        r as int == c as int + 1,
{
    (c as u32) + 1
}

fn push_component_key(key: &mut Vec<u32>, part: &Vec<char>)
    ensures
        numbers(final(key)@) == numbers(old(key)@) + component_key(part@),
{
    let ghost before = numbers(key@);
    let up = part.len() == 2 && part[0] == '.' && part[1] == '.';
    assert(up == (part@ =~= seq!['.', '.']));
    if is_text(part, '/') {
        key.push(1);
    } else if is_text(part, '.') {
        key.push(2);
    } else if up {
        key.push(3);
    } else {
        key.push(4);
        let ghost shifted = part@.map_values(|c: char| c as int + 1);
        assert(numbers(key@) =~= before + seq![4] + shifted.take(0));
        let mut i: usize = 0;
        while i < part.len()
            invariant
                i <= part@.len(),
                shifted == part@.map_values(|c: char| c as int + 1),
                numbers(key@) == before + seq![4] + shifted.take(i as int),
            decreases part@.len() - i,
        {
            let ghost now = numbers(key@);
            key.push(next_code_point(part[i]));
            i += 1;
            assert(numbers(key@) =~= now.push(shifted[i - 1]));
            assert(numbers(key@) =~= before + seq![4] + shifted.take(i as int));
        }
        let ghost now = numbers(key@);
        key.push(0);
        assert(numbers(key@) =~= now.push(0));
        assert(shifted.take(i as int) =~= shifted);
    }
    assert(numbers(key@) =~= before + component_key(part@));
}

/// The list of numbers by which a path is ordered.
pub fn path_key_of(path: &str) -> (r: Vec<u32>)
    ensures
        numbers(r@) == path_key(path@),
{
    let chars = chars_of(path);
    let parts = components_of(&chars);
    let ghost all = pieces(parts@);
    let mut key: Vec<u32> = Vec::new();
    let mut i: usize = 0;
    assert(numbers(key@) =~= components_key(all.take(0)));
    while i < parts.len()
        invariant
            i <= parts@.len(),
            all == pieces(parts@),
            numbers(key@) == components_key(all.take(i as int)),
        decreases parts@.len() - i,
    {
        push_component_key(&mut key, &parts[i]);
        i += 1;
        assert(all.take(i as int).drop_last() =~= all.take(i - 1));
        assert(all.take(i as int).last() == parts@[i - 1]@);
    }
    assert(all.take(i as int) =~= all);
    key
}

/// Compares two paths component by component.
pub fn compare_paths(a: &str, b: &str) -> (r: Place)
    ensures
        r == Place::Before <==> path_less(a@, b@),
        r == Place::After <==> path_less(b@, a@),
        r == Place::Same <==> components(a@) == components(b@),
{
    let x = path_key_of(a);
    let y = path_key_of(b);
    proof {
        if path_key(a@) == path_key(b@) {
            lemma_components_key_injective(components(a@), components(b@));
        }
    }
    compare_numbers(&x, &y)
}

proof fn lemma_shortest_exists(path: Seq<char>, parts: Seq<Seq<char>>, n: int)
    requires
        0 <= n <= path.len(),
        components(path.take(n)) == parts,
    ensures
        exists|m: int| is_shortest_prefix(path, parts, m),
    decreases n,
{
    if exists|m: int| 0 <= m < n && components(#[trigger] path.take(m)) == parts {
        let m = choose|m: int| 0 <= m < n && components(#[trigger] path.take(m)) == parts;
        lemma_shortest_exists(path, parts, m);
    } else {
        assert(is_shortest_prefix(path, parts, n));
    }
}

/// The pieces of a cut hold no character that the text does not hold.
proof fn lemma_split_holds_only(text: Seq<char>, sep: char, c: char)
    requires
        !text.contains(c),
    ensures
        forall|i: int|
            0 <= i < split(text, sep).len() ==> !(#[trigger] split(text, sep)[i]).contains(c),
    decreases text.len(),
{
    if text.len() > 0 {
        let front = text.drop_last();
        assert(!front.contains(c)) by {
            if front.contains(c) {
                let k = choose|k: int| 0 <= k < front.len() && front[k] == c;
                assert(text[k] == c);
            }
        }
        assert(text[text.len() - 1] != c);
        lemma_split_holds_only(front, sep, c);
        lemma_split(front, sep);
        let before = split(front, sep);
        let all = split(text, sep);
        assert forall|i: int| 0 <= i < all.len() implies !(#[trigger] all[i]).contains(c) by {
            if text.last() == sep {
                if i < before.len() {
                    assert(all[i] == before[i]);
                }
            } else if i < before.len() - 1 {
                assert(all[i] == before[i]);
            } else {
                let piece = before.last();
                assert(!piece.contains(c)) by {
                    assert(before[before.len() - 1] == piece);
                }
                if all[i].contains(c) {
                    let k = choose|k: int| 0 <= k < all[i].len() && all[i][k] == c;
                    if k < piece.len() {
                        assert(piece[k] == c);
                    }
                }
            }
        }
    }
}

/// The parts of a path hold no character that the path does not hold: not the path above it, nor its
/// last component, nor the pieces between its separators.
pub proof fn lemma_parts_hold_only(path: Seq<char>, c: char)
    requires
        !path.contains(c),
        c != '/',
        c != '.',
    ensures
        parent(path) is Some ==> !parent(path)->0.contains(c),
        file_name(path) is Some ==> !file_name(path)->0.contains(c),
        forall|i: int|
            0 <= i < split(path, '/').len() ==> !(#[trigger] split(path, '/')[i]).contains(c),
{
    lemma_split_holds_only(path, '/', c);
    if parent(path) is Some {
        let goal = components(path).drop_last();
        lemma_parent_exists(path);
        let n = choose|n: int| 0 <= n < path.len() && components(#[trigger] path.take(n)) == goal;
        lemma_shortest_exists(path, goal, n);
        let m = choose|m: int| is_shortest_prefix(path, goal, m);
        let dir = path.take(m);
        assert(is_shortest_prefix(path, goal, m));
        if dir.contains(c) {
            let k = choose|k: int| 0 <= k < dir.len() && dir[k] == c;
            assert(path[k] == c);
        }
    }
    if file_name(path) is Some {
        let cut = split(path, '/');
        let keep = |piece: Seq<char>| is_name(piece);
        let kept = cut.filter(keep);
        let last = components(path).last();
        if kept.len() > 0 {
            assert(kept.contains(kept.last())) by {
                assert(kept[kept.len() - 1] == kept.last());
            }
            cut.lemma_filter_contains_rev(keep, kept.last());
            let i = choose|i: int| 0 <= i < cut.len() && cut[i] == kept.last();
            assert(!cut[i].contains(c));
            assert(last == kept.last());
        } else {
            assert(last == seq!['/'] || last == seq!['.']);
        }
    }
}

/// How many characters the components of a path have together.
spec fn weight(parts: Seq<Seq<char>>) -> nat
    decreases parts.len(),
{
    if parts.len() == 0 {
        0
    } else {
        weight(parts.drop_last()) + parts.last().len()
    }
}

proof fn lemma_weight_add(a: Seq<Seq<char>>, b: Seq<Seq<char>>)
    ensures
        weight(a + b) == weight(a) + weight(b),
    decreases b.len(),
{
    if b.len() == 0 {
        assert(a + b =~= a);
    } else {
        lemma_weight_add(a, b.drop_last());
        assert((a + b).drop_last() =~= a + b.drop_last());
    }
}

/// How many characters the names among some pieces have together.
spec fn names_weight(cut: Seq<Seq<char>>) -> nat {
    weight(cut.filter(|piece: Seq<char>| is_name(piece)))
}

proof fn lemma_names_weight_push(cut: Seq<Seq<char>>, piece: Seq<char>)
    ensures
        names_weight(cut.push(piece)) == names_weight(cut) + (if is_name(piece) {
            piece.len()
        } else {
            0
        }),
{
    let keep = |piece: Seq<char>| is_name(piece);
    cut.lemma_filter_push(piece, keep);
    let kept = cut.filter(keep);
    assert(kept.push(piece).drop_last() =~= kept);
}

/// How many characters stand before the names of a path.
spec fn start_weight(path: Seq<char>) -> nat {
    if (path.len() > 0 && path[0] == '/') || split(path, '/')[0] == seq!['.'] {
        1
    } else {
        0
    }
}

proof fn lemma_weight_of_parts(path: Seq<char>)
    ensures
        weight(components(path)) == start_weight(path) + names_weight(split(path, '/')),
{
    let cut = split(path, '/');
    let kept = cut.filter(|piece: Seq<char>| is_name(piece));
    let none = Seq::<Seq<char>>::empty();
    let root = seq![seq!['/']];
    let dot = seq![seq!['.']];
    lemma_weight_add(root, kept);
    lemma_weight_add(dot, kept);
    lemma_weight_add(none, kept);
    assert(root.drop_last() =~= none);
    assert(dot.drop_last() =~= none);
    assert(weight(none) == 0);
    assert(weight(root) == 1);
    assert(weight(dot) == 1);
}

/// A path with one more character has no fewer characters in its components, and more unless the
/// character is a separator or a dot.
proof fn lemma_weight_grows(path: Seq<char>, c: char)
    ensures
        weight(components(path.push(c))) >= weight(components(path)),
        c != '/' && c != '.' ==> weight(components(path.push(c))) > weight(components(path)),
{
    let longer = path.push(c);
    lemma_weight_of_parts(path);
    lemma_weight_of_parts(longer);
    lemma_split(path, '/');
    let a = split(path, '/');
    let b = split(longer, '/');
    let front = a.drop_last();
    let piece = a.last();
    assert(longer.drop_last() =~= path);
    assert(a =~= front.push(piece));
    lemma_names_weight_push(front, piece);
    if c == '/' {
        lemma_names_weight_push(a, Seq::empty());
        assert(b == a.push(Seq::empty()));
        assert(b[0] == a[0]);
        assert(path.len() > 0 ==> longer[0] == path[0]);
    } else {
        let next = piece.push(c);
        lemma_names_weight_push(front, next);
        assert(b == front.push(next));
        assert(path.len() > 0 ==> longer[0] == path[0]);
        assert(front.len() > 0 ==> b[0] == a[0]);
        assert(front.len() == 0 ==> a[0] == piece && b[0] == next);
        assert(next.len() == piece.len() + 1);
        assert(next.last() == c);
        assert(next == seq!['.'] ==> piece.len() == 0 && c == '.');
        assert(path.len() == 0 ==> piece.len() == 0 && front.len() == 0);
    }
}

proof fn lemma_weight_of_prefix(path: Seq<char>, n: int)
    requires
        0 <= n <= path.len(),
    ensures
        weight(components(path.take(n))) <= weight(components(path)),
        n < path.len() && path.last() != '/' && path.last() != '.' ==> weight(
            components(path.take(n)),
        ) < weight(components(path)),
    decreases path.len() - n,
{
    if n < path.len() {
        let front = path.drop_last();
        assert(front.take(n) =~= path.take(n));
        assert(front.push(path.last()) =~= path);
        lemma_weight_grows(front, path.last());
        lemma_weight_of_front(front, n);
    } else {
        assert(path.take(n) =~= path);
    }
}

proof fn lemma_weight_of_front(path: Seq<char>, n: int)
    requires
        0 <= n <= path.len(),
    ensures
        weight(components(path.take(n))) <= weight(components(path)),
    decreases path.len() - n,
{
    if n < path.len() {
        let front = path.drop_last();
        assert(front.take(n) =~= path.take(n));
        assert(front.push(path.last()) =~= path);
        lemma_weight_grows(front, path.last());
        lemma_weight_of_front(front, n);
    } else {
        assert(path.take(n) =~= path);
    }
}

/// The names in a text between separators: its pieces without the empty ones and the dots.
pub open spec fn names_in(rest: Seq<char>) -> Seq<Seq<char>> {
    split(rest, '/').filter(|piece: Seq<char>| piece.len() > 0 && piece != seq!['.'])
}

/// The names in a text below a directory follow the components of the directory.
pub proof fn lemma_components_below(dir: Seq<char>, rest: Seq<char>)
    ensures
        dir.len() > 0 ==> components(dir.push('/') + rest) == components(dir) + names_in(rest),
        components(seq!['/'] + rest) == seq![seq!['/']] + names_in(rest),
        rest.len() > 0 && rest[0] != '/' && split(rest, '/')[0] != seq!['.'] ==> components(rest)
            == names_in(rest),
{
    let keep = |piece: Seq<char>| is_name(piece);
    let named = |piece: Seq<char>| piece.len() > 0 && piece != seq!['.'];
    assert(keep =~= named);
    let path = dir.push('/') + rest;
    lemma_split(dir, '/');
    lemma_split_at(dir, '/', rest);
    Seq::filter_distributes_over_add(split(dir, '/'), split(rest, '/'), keep);
    if dir.len() > 0 {
        assert(path[0] == dir[0]);
        assert(split(path, '/')[0] == split(dir, '/')[0]);
        assert(components(path) =~= components(dir) + split(rest, '/').filter(keep));
    }
    let none = Seq::<char>::empty();
    lemma_split_at(none, '/', rest);
    lemma_split_whole(none, '/');
    assert(none.push('/') + rest =~= seq!['/'] + rest);
    Seq::filter_distributes_over_add(split(none, '/'), split(rest, '/'), keep);
    lemma_no_names(split(none, '/'));
    assert(components(seq!['/'] + rest) =~= seq![seq!['/']] + split(rest, '/').filter(keep));
    assert(Seq::<Seq<char>>::empty() + split(rest, '/').filter(keep) =~= split(rest, '/').filter(
        keep,
    ));
}

proof fn lemma_one_kept(name: Seq<char>, keep: spec_fn(Seq<char>) -> bool)
    requires
        keep(name),
    ensures
        seq![name].filter(keep) == seq![name],
{
    let none = Seq::<Seq<char>>::empty();
    none.lemma_filter_push(name, keep);
    assert(none.push(name) =~= seq![name]);
    assert(none.filter(keep) =~= none) by {
        reveal(Seq::filter);
    }
    assert(none.filter(keep).push(name) =~= seq![name]);
}

/// A name below a directory stands behind the directory and one separator; an absolute name stands
/// for itself.
pub proof fn lemma_joined_names(dir: Seq<char>, name: Seq<char>)
    ensures
        joined(dir, seq!['/'] + name) == seq!['/'] + name,
        name.len() == 0 || name[0] != '/' ==> {
            &&& dir.len() > 0 && dir.last() != '/' ==> joined(dir, name) == dir + seq!['/'] + name
            &&& joined(dir + seq!['/'], name) == dir + seq!['/'] + name
            &&& joined(Seq::empty(), name) == name
        },
{
    assert((seq!['/'] + name)[0] == '/');
    assert(dir.push('/') + name =~= dir + seq!['/'] + name);
    assert(Seq::empty() + name =~= name);
    assert((dir + seq!['/']).last() == '/');
}

proof fn lemma_last_is_name(path: Seq<char>, front: Seq<Seq<char>>, name: Seq<char>)
    requires
        components(path) == front.push(name),
        name != seq!['/'],
        name != seq!['.'],
        name != seq!['.', '.'],
    ensures
        file_name(path) == Some(name),
        has_parent(path),
        components(path).drop_last() == front,
{
    let parts = components(path);
    assert(parts.last() == name);
    assert(parts.drop_last() =~= front);
    assert(seq![seq!['/']].last() == seq!['/']);
}

proof fn lemma_unique_shortest(path: Seq<char>, parts: Seq<Seq<char>>, n: int, k: int)
    requires
        is_shortest_prefix(path, parts, n),
        is_shortest_prefix(path, parts, k),
    ensures
        n == k,
{
    if k < n {
        assert(components(path.take(k)) != parts);
    }
    if n < k {
        assert(components(path.take(n)) != parts);
    }
}

proof fn lemma_kept_name(name: Seq<char>)
    requires
        name.len() > 0,
        !name.contains('/'),
        name != seq!['.'],
    ensures
        names_in(name) == seq![name],
{
    lemma_split_whole(name, '/');
    lemma_one_kept(name, |piece: Seq<char>| piece.len() > 0 && piece != seq!['.']);
}

proof fn lemma_pushed_part(
    front: Seq<Seq<char>>,
    added: Seq<Seq<char>>,
    whole: Seq<Seq<char>>,
    name: Seq<char>,
)
    requires
        whole == front + added,
        added == seq![name],
    ensures
        whole == front.push(name),
{
    assert(whole =~= front.push(name));
}

/// A name below a directory is one component more.
proof fn lemma_one_more_component(dir: Seq<char>, name: Seq<char>)
    requires
        dir.len() > 0,
        name.len() > 0,
        !name.contains('/'),
        name != seq!['.'],
    ensures
        components(dir.push('/') + name) == components(dir).push(name),
{
    lemma_kept_name(name);
    lemma_components_below(dir, name);
    lemma_pushed_part(
        components(dir),
        names_in(name),
        components(dir.push('/') + name),
        name,
    );
}

/// A path that ends in neither a separator nor a dot has no shorter prefix with the same components.
proof fn lemma_own_prefix(dir: Seq<char>, path: Seq<char>)
    requires
        0 < dir.len() <= path.len(),
        path.take(dir.len() as int) == dir,
        dir.last() != '/',
        dir.last() != '.',
    ensures
        is_shortest_prefix(path, components(dir), dir.len() as int),
{
    let parts = components(dir);
    assert forall|m: int| 0 <= m < dir.len() implies components(#[trigger] path.take(m)) != parts by {
        lemma_weight_of_prefix(dir, m);
        assert(path.take(m) =~= dir.take(m));
    }
}

proof fn lemma_parent_is(path: Seq<char>, n: int)
    requires
        has_parent(path),
        is_shortest_prefix(path, components(path).drop_last(), n),
    ensures
        parent(path) == Some(path.take(n)),
{
    let goal = components(path).drop_last();
    let k = choose|k: int| is_shortest_prefix(path, goal, k);
    lemma_unique_shortest(path, goal, n, k);
}

proof fn lemma_no_separator(name: Seq<char>)
    requires
        !name.contains('/'),
    ensures
        name != seq!['/'],
{
    if name == seq!['/'] {
        assert(name[0] == '/');
    }
}

/// A name below a directory is the last component of the path, whatever it begins with.
pub proof fn lemma_name_below(dir: Seq<char>, name: Seq<char>)
    requires
        dir.len() > 0,
        name.len() > 0,
        !name.contains('/'),
        name != seq!['.'],
        name != seq!['.', '.'],
    ensures
        file_name(dir.push('/') + name) == Some(name),
{
    lemma_one_more_component(dir, name);
    lemma_no_separator(name);
    lemma_last_is_name(dir.push('/') + name, components(dir), name);
}

/// What stands above a name below a directory is the directory, as it is written.
pub proof fn lemma_directory_above(dir: Seq<char>, name: Seq<char>)
    requires
        dir.len() > 0,
        dir.last() != '/',
        dir.last() != '.',
        name.len() > 0,
        !name.contains('/'),
        name != seq!['.'],
        name != seq!['.', '.'],
    ensures
        parent(dir.push('/') + name) == Some(dir),
{
    let path = dir.push('/') + name;
    lemma_one_more_component(dir, name);
    lemma_no_separator(name);
    lemma_last_is_name(path, components(dir), name);
    lemma_front_of(dir, name);
    lemma_own_prefix(dir, path);
    lemma_parent_is(path, dir.len() as int);
}

proof fn lemma_front_of(dir: Seq<char>, name: Seq<char>)
    ensures
        (dir.push('/') + name).take(dir.len() as int) == dir,
        dir.len() <= (dir.push('/') + name).len(),
{
    assert((dir.push('/') + name).take(dir.len() as int) =~= dir);
}

proof fn lemma_some_component(path: Seq<char>)
    requires
        path.len() > 0,
        path.last() != '/',
        path.last() != '.',
    ensures
        components(path).len() > 0,
{
    lemma_weight_of_prefix(path, 0);
}

proof fn lemma_more_parts(front: Seq<Seq<char>>, names: Seq<Seq<char>>)
    requires
        front.len() > 0,
    ensures
        front + names != names,
{
    assert((front + names).len() > names.len());
}

/// A longer text at the end of a path has more components than what stands below the directory.
proof fn lemma_longer_remainder(base: Seq<char>, rest: Seq<char>, m: int)
    requires
        base.len() > 0,
        base.last() != '/',
        base.last() != '.',
        0 <= m <= base.len(),
    ensures
        components((base.push('/') + rest).subrange(m, (base.push('/') + rest).len() as int))
            != names_in(rest),
{
    let path = base.push('/') + rest;
    let end = path.len() as int;
    if m == base.len() {
        assert(path.subrange(m, end) =~= seq!['/'] + rest);
        lemma_components_below(base, rest);
        lemma_more_parts(seq![seq!['/']], names_in(rest));
    } else {
        let tail = base.skip(m);
        assert(path.subrange(m, end) =~= tail.push('/') + rest);
        assert(tail.last() == base.last());
        lemma_components_below(tail, rest);
        lemma_some_component(tail);
        lemma_more_parts(components(tail), names_in(rest));
    }
}

proof fn lemma_parts_between(front: Seq<Seq<char>>, names: Seq<Seq<char>>)
    ensures
        (front + names).skip(front.len() as int) == names,
        front.is_prefix_of(front + names),
{
    assert((front + names).skip(front.len() as int) =~= names);
    assert(front =~= (front + names).subrange(0, front.len() as int));
}

proof fn lemma_remainder_of(base: Seq<char>, rest: Seq<char>)
    requires
        base.len() > 0,
        base.last() != '/',
        base.last() != '.',
        rest.len() > 0,
        rest[0] != '/',
        split(rest, '/')[0] != seq!['.'],
        rest.last() != '/',
        rest.last() != '.',
    ensures
        is_remainder(
            base.push('/') + rest,
            components(base).len() as int,
            base.len() as int + 1,
            (base.push('/') + rest).len() as int,
        ),
        components(base).is_prefix_of(components(base.push('/') + rest)),
{
    let path = base.push('/') + rest;
    let end = path.len() as int;
    let start = base.len() as int + 1;
    let count = components(base).len() as int;
    lemma_components_below(base, rest);
    lemma_parts_between(components(base), names_in(rest));
    assert(path.take(end) =~= path);
    assert(path.last() == rest.last());
    lemma_own_prefix(path, path);
    assert(path.subrange(start, end) =~= rest);
    assert forall|m: int| 0 <= m < start implies components(#[trigger] path.subrange(m, end))
        != components(path).skip(count) by {
        lemma_longer_remainder(base, rest, m);
    }
}

/// What is left of a path below a directory is what stands behind the directory and a separator.
pub proof fn lemma_rest_below(base: Seq<char>, rest: Seq<char>)
    requires
        base.len() > 0,
        base.last() != '/',
        base.last() != '.',
        rest.len() > 0,
        rest[0] != '/',
        split(rest, '/')[0] != seq!['.'],
        rest.last() != '/',
        rest.last() != '.',
    ensures
        relative_to(base.push('/') + rest, base) == Some(rest),
{
    let path = base.push('/') + rest;
    let end = path.len() as int;
    let start = base.len() as int + 1;
    lemma_remainder_of(base, rest);
    lemma_remainder_unique(path, components(base).len() as int, start, end);
    assert(path.subrange(start, end) =~= rest);
}

proof fn lemma_key_add(a: Seq<Seq<char>>, b: Seq<Seq<char>>)
    ensures
        components_key(a + b) == components_key(a) + components_key(b),
    decreases b.len(),
{
    if b.len() == 0 {
        assert(a + b =~= a);
        assert(components_key(a) + components_key(b) =~= components_key(a));
    } else {
        lemma_key_add(a, b.drop_last());
        assert((a + b).drop_last() =~= a + b.drop_last());
        assert((a + b).last() == b.last());
        assert(components_key(a + b) =~= components_key(a) + components_key(b));
    }
}

proof fn lemma_lex_behind(front: Seq<int>, a: Seq<int>, b: Seq<int>)
    ensures
        lex_less(front + a, front + b) == lex_less(a, b),
    decreases front.len(),
{
    if front.len() == 0 {
        assert(front + a =~= a);
        assert(front + b =~= b);
    } else {
        lemma_lex_behind(front.skip(1), a, b);
        assert((front + a).skip(1) =~= front.skip(1) + a);
        assert((front + b).skip(1) =~= front.skip(1) + b);
    }
}

spec fn raised(text: Seq<char>) -> Seq<int> {
    text.map_values(|c: char| c as int + 1)
}

proof fn lemma_names_compared(x: Seq<char>, u: Seq<int>, y: Seq<char>, v: Seq<int>)
    requires
        x != y,
    ensures
        lex_less(raised(x) + seq![0] + u, raised(y) + seq![0] + v) == text_less(x, y),
    decreases x.len(),
{
    let a = raised(x) + seq![0] + u;
    let b = raised(y) + seq![0] + v;
    if x.len() > 0 && y.len() > 0 {
        assert(a[0] == x[0] as int + 1);
        assert(b[0] == y[0] as int + 1);
        assert(code_points(x)[0] == x[0] as int);
        assert(code_points(y)[0] == y[0] as int);
        if x[0] == y[0] {
            assert(x.skip(1) != y.skip(1)) by {
                if x.skip(1) == y.skip(1) {
                    assert(x =~= seq![x[0]] + x.skip(1));
                    assert(y =~= seq![y[0]] + y.skip(1));
                }
            }
            lemma_names_compared(x.skip(1), u, y.skip(1), v);
            assert(a.skip(1) =~= raised(x.skip(1)) + seq![0] + u);
            assert(b.skip(1) =~= raised(y.skip(1)) + seq![0] + v);
            assert(code_points(x).skip(1) =~= code_points(x.skip(1)));
            assert(code_points(y).skip(1) =~= code_points(y.skip(1)));
        }
    } else if x.len() > 0 {
        assert(y.len() == 0);
        lemma_char_nonnegative(x[0]);
        assert(a[0] == x[0] as int + 1);
        assert(b[0] == 0);
        assert(code_points(y).len() == 0);
    } else if y.len() > 0 {
        lemma_char_nonnegative(y[0]);
        assert(a[0] == 0);
        assert(b[0] == y[0] as int + 1);
        assert(code_points(x).len() == 0);
        assert(code_points(y).len() > 0);
    } else {
        assert(x =~= y);
    }
}

spec fn is_plain_name(part: Seq<char>) -> bool {
    part != seq!['/'] && part != seq!['.'] && part != seq!['.', '.']
}

/// Paths are ordered component by component: at the first component in which two paths differ, names
/// stand in dictionary order; and a directory comes before what lies below it.
pub proof fn lemma_path_order_by_components(
    a: Seq<char>,
    b: Seq<char>,
    front: Seq<Seq<char>>,
    x: Seq<char>,
    u: Seq<Seq<char>>,
    y: Seq<char>,
    v: Seq<Seq<char>>,
)
    requires
        components(a) == front + (seq![x] + u),
        components(b) == front + (seq![y] + v) || components(b) == front,
        x != seq!['/'] && x != seq!['.'] && x != seq!['.', '.'],
        y != seq!['/'] && y != seq!['.'] && y != seq!['.', '.'],
        x != y,
    ensures
        components(b) == front + (seq![y] + v) ==> (path_less(a, b) <==> text_less(x, y)),
        components(b) == front ==> path_less(b, a) && !path_less(a, b),
{
    lemma_key_of_name(x, u);
    lemma_key_of_name(y, v);
    lemma_key_add(front, seq![x] + u);
    lemma_key_add(front, seq![y] + v);
    let key = components_key(front);
    let p = raised(x) + seq![0] + components_key(u);
    let q = raised(y) + seq![0] + components_key(v);
    if components(b) == front + (seq![y] + v) {
        lemma_lex_behind(key, seq![4] + p, seq![4] + q);
        lemma_lex_behind(seq![4], p, q);
        lemma_names_compared(x, components_key(u), y, components_key(v));
    } else {
        let none = Seq::<int>::empty();
        lemma_lex_behind(key, none, seq![4] + p);
        lemma_lex_behind(key, seq![4] + p, none);
        assert(key + none =~= key);
    }
}

proof fn lemma_key_of_name(x: Seq<char>, u: Seq<Seq<char>>)
    requires
        is_plain_name(x),
    ensures
        components_key(seq![x] + u) == seq![4] + (raised(x) + seq![0] + components_key(u)),
{
    let none = Seq::<Seq<char>>::empty();
    lemma_key_add(seq![x], u);
    assert(seq![x].drop_last() =~= none);
    assert(components_key(none) =~= Seq::<int>::empty());
    assert(components_key(seq![x]) =~= component_key(x));
    assert(component_key(x) =~= seq![4] + raised(x) + seq![0]);
    assert(components_key(seq![x] + u) =~= seq![4] + (raised(x) + seq![0] + components_key(u)));
}

} // verus!
