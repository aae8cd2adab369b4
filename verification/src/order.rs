//! Dictionary order of texts, and lists kept in that order.

use crate::text::{texts, chars_of};
use vstd::prelude::*;

verus! {

/// Whether `a` comes before `b` in dictionary order, comparing number by number.
pub open spec fn lex_less(a: Seq<int>, b: Seq<int>) -> bool
    decreases a.len(),
{
    if b.len() == 0 {
        false
    } else if a.len() == 0 {
        true
    } else if a[0] != b[0] {
        a[0] < b[0]
    } else {
        lex_less(a.skip(1), b.skip(1))
    }
}

/// The code points of a text.
pub open spec fn code_points(text: Seq<char>) -> Seq<int> {
    text.map_values(|c: char| c as int)
}

/// Whether text `a` comes before text `b` in dictionary order of code points.
pub open spec fn text_less(a: Seq<char>, b: Seq<char>) -> bool {
    lex_less(code_points(a), code_points(b))
}

/// Nothing comes before itself.
pub proof fn lemma_lex_irreflexive(a: Seq<int>)
    ensures
        !lex_less(a, a),
    decreases a.len(),
{
    if a.len() > 0 {
        lemma_lex_irreflexive(a.skip(1));
    }
}

/// The dictionary order is transitive.
pub proof fn lemma_lex_transitive(a: Seq<int>, b: Seq<int>, c: Seq<int>)
    requires
        lex_less(a, b),
        lex_less(b, c),
    ensures
        lex_less(a, c),
    decreases a.len(),
{
    if a.len() > 0 && b.len() > 0 && c.len() > 0 && a[0] == b[0] && b[0] == c[0] {
        lemma_lex_transitive(a.skip(1), b.skip(1), c.skip(1));
    }
}

/// Of two different lists one comes before the other.
pub proof fn lemma_lex_total(a: Seq<int>, b: Seq<int>)
    ensures
        lex_less(a, b) || lex_less(b, a) || a == b,
    decreases a.len(),
{
    if a.len() > 0 && b.len() > 0 && a[0] == b[0] {
        lemma_lex_total(a.skip(1), b.skip(1));
        if a.skip(1) == b.skip(1) {
            assert(a =~= seq![a[0]] + a.skip(1));
            assert(b =~= seq![b[0]] + b.skip(1));
        }
    } else if a.len() == 0 && b.len() == 0 {
        assert(a =~= b);
    }
}

/// Of two lists of one length, what follows them matters to their order only where they are the
/// same.
pub proof fn lemma_lex_extended(a: Seq<int>, u: Seq<int>, b: Seq<int>, v: Seq<int>)
    requires
        a.len() == b.len(),
    ensures
        lex_less(a, b) ==> lex_less(a + u, b + v),
        a == b && lex_less(u, v) ==> lex_less(a + u, b + v),
    decreases a.len(),
{
    if a.len() == 0 {
        assert(a + u =~= u);
        assert(b + v =~= v);
    } else {
        lemma_lex_extended(a.skip(1), u, b.skip(1), v);
        assert((a + u).skip(1) =~= a.skip(1) + u);
        assert((b + v).skip(1) =~= b.skip(1) + v);
    }
}

/// Of two texts of one length, what follows them matters to their order only where they are the
/// same.
pub proof fn lemma_text_extended(a: Seq<char>, u: Seq<char>, b: Seq<char>, v: Seq<char>)
    requires
        a.len() == b.len(),
    ensures
        text_less(a, b) ==> text_less(a + u, b + v),
        a == b && text_less(u, v) ==> text_less(a + u, b + v),
{
    lemma_lex_extended(code_points(a), code_points(u), code_points(b), code_points(v));
    assert(code_points(a + u) =~= code_points(a) + code_points(u));
    assert(code_points(b + v) =~= code_points(b) + code_points(v));
}

/// Texts with the same code points are the same.
pub proof fn lemma_code_points_injective(a: Seq<char>, b: Seq<char>)
    requires
        code_points(a) == code_points(b),
    ensures
        a == b,
{
    assert(a.len() == code_points(a).len());
    assert(b.len() == code_points(b).len());
    assert forall|i: int| 0 <= i < a.len() implies a[i] == b[i] by {
        assert(code_points(a)[i] == a[i] as int);
        assert(code_points(b)[i] == b[i] as int);
    }
    assert(a =~= b);
}

/// How one value stands to another in an order.
#[derive(Clone, Copy, PartialEq, Eq, Structural, Debug)]
pub enum Place {
    Before,
    Same,
    After,
}

proof fn lemma_lex_at(a: Seq<int>, b: Seq<int>, n: int)
    requires
        0 <= n <= a.len(),
        n <= b.len(),
        a.take(n) == b.take(n),
    ensures
        lex_less(a, b) == lex_less(a.skip(n), b.skip(n)),
    decreases n,
{
    if n == 0 {
        assert(a.skip(0) =~= a);
        assert(b.skip(0) =~= b);
    } else {
        assert forall|i: int| 0 <= i < n implies a[i] == b[i] by {
            assert(a[i] == a.take(n)[i]);
            assert(b[i] == b.take(n)[i]);
        }
        assert(a.skip(1).take(n - 1) =~= b.skip(1).take(n - 1));
        lemma_lex_at(a.skip(1), b.skip(1), n - 1);
        assert(a.skip(1).skip(n - 1) =~= a.skip(n));
        assert(b.skip(1).skip(n - 1) =~= b.skip(n));
    }
}

/// The numbers that a list of `u32` holds.
pub open spec fn numbers(list: Seq<u32>) -> Seq<int> {
    list.map_values(|n: u32| n as int)
}

/// Compares two lists in dictionary order.
pub fn compare_numbers(a: &Vec<u32>, b: &Vec<u32>) -> (r: Place)
    ensures
        r == Place::Before <==> lex_less(numbers(a@), numbers(b@)),
        r == Place::After <==> lex_less(numbers(b@), numbers(a@)),
        r == Place::Same <==> numbers(a@) == numbers(b@),
{
    let ghost x = numbers(a@);
    let ghost y = numbers(b@);
    proof {
        lemma_lex_irreflexive(x);
        lemma_lex_irreflexive(y);
        if lex_less(x, y) && lex_less(y, x) {
            lemma_lex_transitive(x, y, x);
        }
    }
    let mut i: usize = 0;
    while i < a.len() && i < b.len()
        invariant
            i <= a@.len(),
            i <= b@.len(),
            x == numbers(a@),
            y == numbers(b@),
            x.take(i as int) == y.take(i as int),
            !(lex_less(x, y) && lex_less(y, x)),
            !lex_less(x, x),
            !lex_less(y, y),
        decreases a@.len() - i,
    {
        assert(x[i as int] == a@[i as int]);
        assert(y[i as int] == b@[i as int]);
        proof {
            lemma_lex_at(x, y, i as int);
            lemma_lex_at(y, x, i as int);
            assert(x.skip(i as int)[0] == x[i as int]);
            assert(y.skip(i as int)[0] == y[i as int]);
        }
        if a[i] < b[i] {
            return Place::Before;
        }
        if b[i] < a[i] {
            return Place::After;
        }
        i += 1;
        assert(x.take(i as int) =~= x.take(i - 1).push(x[i - 1]));
        assert(y.take(i as int) =~= y.take(i - 1).push(y[i - 1]));
    }
    proof {
        lemma_lex_at(x, y, i as int);
        lemma_lex_at(y, x, i as int);
    }
    if i < b.len() {
        Place::Before
    } else if i < a.len() {
        Place::After
    } else {
        assert(x.take(i as int) =~= x);
        assert(y.take(i as int) =~= y);
        Place::Same
    }
}

/// The code point of `c`.
pub fn code_point(c: char) -> (r: u32)
    ensures
        r as int == c as int,
{
    c as u32
}

/// The code points of `text`, as a list.
pub fn code_points_of(text: &str) -> (r: Vec<u32>)
    ensures
        numbers(r@) == code_points(text@),
{
    let chars = chars_of(text);
    let mut out: Vec<u32> = Vec::new();
    let mut i: usize = 0;
    while i < chars.len()
        invariant
            i <= chars@.len(),
            chars@ == text@,
            numbers(out@) == code_points(text@).take(i as int),
        decreases chars@.len() - i,
    {
        let ghost before = numbers(out@);
        out.push(code_point(chars[i]));
        i += 1;
        assert(numbers(out@) =~= before.push(chars@[i - 1] as int));
        assert(numbers(out@) =~= code_points(text@).take(i as int));
    }
    assert(code_points(text@).take(i as int) =~= code_points(text@));
    out
}

/// Compares two texts in dictionary order of code points.
pub fn compare_texts(a: &str, b: &str) -> (r: Place)
    ensures
        r == Place::Before <==> text_less(a@, b@),
        r == Place::After <==> text_less(b@, a@),
        r == Place::Same <==> a@ == b@,
{
    let x = code_points_of(a);
    let y = code_points_of(b);
    proof {
        if code_points(a@) == code_points(b@) {
            lemma_code_points_injective(a@, b@);
        }
    }
    compare_numbers(&x, &y)
}

/// Whether each text of `list` comes before all that follow it.
pub open spec fn increasing(list: Seq<Seq<char>>) -> bool {
    forall|i: int, j: int| 0 <= i < j < list.len() ==> text_less(#[trigger] list[i], #[trigger] list[j])
}

/// Whether `list` holds the texts of `items`, each once, in dictionary order.
pub open spec fn is_sorted_set_of(list: Seq<Seq<char>>, items: Seq<Seq<char>>) -> bool {
    &&& increasing(list)
    &&& forall|x: Seq<char>| #[trigger] list.contains(x) <==> items.contains(x)
}

/// The texts of `items`, each once, in dictionary order.
pub open spec fn sorted_set(items: Seq<Seq<char>>) -> Seq<Seq<char>> {
    choose|list: Seq<Seq<char>>| is_sorted_set_of(list, items)
}

/// Only one list holds given texts once each in dictionary order.
pub proof fn lemma_increasing_unique(a: Seq<Seq<char>>, b: Seq<Seq<char>>)
    requires
        increasing(a),
        increasing(b),
        forall|x: Seq<char>| #[trigger] a.contains(x) <==> b.contains(x),
    ensures
        a == b,
    decreases a.len(),
{
    if a.len() == 0 {
        if b.len() > 0 {
            assert(b.contains(b[0]));
            assert(a.contains(b[0]));
        }
        assert(a =~= b);
    } else {
        assert(a.contains(a[0]));
        assert(b.contains(a[0]));
        let j = choose|j: int| 0 <= j < b.len() && b[j] == a[0];
        assert(b.contains(b[0]));
        assert(a.contains(b[0]));
        let i = choose|i: int| 0 <= i < a.len() && a[i] == b[0];
        if i > 0 && j > 0 {
            lemma_lex_transitive(code_points(a[0]), code_points(a[i]), code_points(a[0]));
            lemma_lex_irreflexive(code_points(a[0]));
        }
        assert(a[0] == b[0]);
        let x = a.skip(1);
        let y = b.skip(1);
        assert forall|t: Seq<char>| #[trigger] x.contains(t) <==> y.contains(t) by {
            if x.contains(t) {
                let k = choose|k: int| 0 <= k < x.len() && x[k] == t;
                assert(a[k + 1] == t);
                assert(text_less(a[0], a[k + 1]));
                lemma_lex_irreflexive(code_points(t));
                assert(a.contains(t));
                let m = choose|m: int| 0 <= m < b.len() && b[m] == t;
                assert(m != 0);
                assert(y[m - 1] == t);
            }
            if y.contains(t) {
                let k = choose|k: int| 0 <= k < y.len() && y[k] == t;
                assert(b[k + 1] == t);
                assert(text_less(b[0], b[k + 1]));
                lemma_lex_irreflexive(code_points(t));
                assert(a.contains(t) <==> b.contains(t));
                let m = choose|m: int| 0 <= m < a.len() && a[m] == t;
                assert(m != 0);
                assert(x[m - 1] == t);
            }
        }
        lemma_increasing_unique(x, y);
        assert(a =~= seq![a[0]] + x);
        assert(b =~= seq![b[0]] + y);
    }
}

/// A list that holds the texts of `items` once each in dictionary order is
/// the sorted set of `items`.
pub proof fn lemma_sorted_set(list: Seq<Seq<char>>, items: Seq<Seq<char>>)
    requires
        is_sorted_set_of(list, items),
    ensures
        list == sorted_set(items),
{
    let chosen = sorted_set(items);
    assert(is_sorted_set_of(chosen, items));
    assert forall|x: Seq<char>| #[trigger] list.contains(x) <==> chosen.contains(x) by {
        assert(items.contains(x) <==> chosen.contains(x));
    }
    lemma_increasing_unique(list, chosen);
}

/// Any texts can be put in dictionary order, each once.
pub proof fn lemma_sorted_set_exists(items: Seq<Seq<char>>)
    ensures
        is_sorted_set_of(sorted_set(items), items),
    decreases items.len(),
{
    if items.len() == 0 {
        assert(is_sorted_set_of(Seq::empty(), items));
    } else {
        let front = items.drop_last();
        let item = items.last();
        let list = sorted_set(front);
        lemma_sorted_set_exists(front);
        assert(items =~= front.push(item));
        if list.contains(item) {
            assert forall|x: Seq<char>| #[trigger] list.contains(x) <==> items.contains(x) by {
                lemma_pushed(front, item, x);
            }
            assert(is_sorted_set_of(list, items));
        } else {
            let at = lemma_place(list, item);
            let longer = list.insert(at, item);
            lemma_inserted(list, item, at);
            assert forall|x: Seq<char>| #[trigger] longer.contains(x) <==> items.contains(x) by {
                assert(list.contains(x) <==> front.contains(x));
                lemma_pushed(front, item, x);
            }
            assert(is_sorted_set_of(longer, items));
        }
    }
}

proof fn lemma_pushed(list: Seq<Seq<char>>, item: Seq<char>, x: Seq<char>)
    ensures
        list.push(item).contains(x) <==> list.contains(x) || x == item,
{
    let longer = list.push(item);
    if list.contains(x) {
        let k = choose|k: int| 0 <= k < list.len() && list[k] == x;
        assert(longer[k] == x);
    }
    if x == item {
        assert(longer[list.len() as int] == x);
    }
}

/// A list in dictionary order stays so where a text is put in its place.
proof fn lemma_inserted(list: Seq<Seq<char>>, item: Seq<char>, at: int)
    requires
        increasing(list),
        0 <= at <= list.len(),
        forall|j: int| 0 <= j < at ==> text_less(#[trigger] list[j], item),
        forall|j: int| at <= j < list.len() ==> text_less(item, #[trigger] list[j]),
    ensures
        increasing(list.insert(at, item)),
        forall|x: Seq<char>| #[trigger]
            list.insert(at, item).contains(x) <==> list.contains(x) || x == item,
{
    let longer = list.insert(at, item);
    assert forall|i: int, j: int| 0 <= i < j < longer.len() implies text_less(
        #[trigger] longer[i],
        #[trigger] longer[j],
    ) by {
        let a = if i < at {
            i
        } else {
            i - 1
        };
        let b = if j < at {
            j
        } else {
            j - 1
        };
        if i == at {
            assert(longer[j] == list[b]);
        } else if j == at {
            assert(longer[i] == list[a]);
        } else {
            assert(longer[i] == list[a]);
            assert(longer[j] == list[b]);
        }
    }
    assert forall|x: Seq<char>| #[trigger] longer.contains(x) <==> list.contains(x) || x == item by {
        if longer.contains(x) {
            let k = choose|k: int| 0 <= k < longer.len() && longer[k] == x;
            if k < at {
                assert(list[k] == x);
            } else if k > at {
                assert(list[k - 1] == x);
            }
        }
        if list.contains(x) {
            let k = choose|k: int| 0 <= k < list.len() && list[k] == x;
            if k < at {
                assert(longer[k] == x);
            } else {
                assert(longer[k + 1] == x);
            }
        }
        if x == item {
            assert(longer[at] == x);
        }
    }
}

/// Where a text goes in a list in dictionary order that does not hold it.
proof fn lemma_place(list: Seq<Seq<char>>, item: Seq<char>) -> (at: int)
    requires
        increasing(list),
        !list.contains(item),
    ensures
        0 <= at <= list.len(),
        forall|j: int| 0 <= j < at ==> text_less(#[trigger] list[j], item),
        forall|j: int| at <= j < list.len() ==> text_less(item, #[trigger] list[j]),
    decreases list.len(),
{
    if list.len() == 0 {
        0
    } else {
        let front = list.drop_last();
        let n = list.len() - 1;
        assert(increasing(front)) by {
            assert forall|i: int, j: int| 0 <= i < j < front.len() implies text_less(
                #[trigger] front[i],
                #[trigger] front[j],
            ) by {
                assert(text_less(list[i], list[j]));
            }
        }
        assert(!front.contains(item)) by {
            if front.contains(item) {
                let k = choose|k: int| 0 <= k < front.len() && front[k] == item;
                assert(list[k] == item);
            }
        }
        assert(list[n] != item);
        lemma_lex_total(code_points(list[n]), code_points(item));
        if code_points(list[n]) == code_points(item) {
            lemma_code_points_injective(list[n], item);
        }
        if text_less(list[n], item) {
            assert forall|j: int| 0 <= j < list.len() implies text_less(#[trigger] list[j], item) by {
                if j < n {
                    assert(text_less(list[j], list[n]));
                    lemma_lex_transitive(
                        code_points(list[j]),
                        code_points(list[n]),
                        code_points(item),
                    );
                }
            }
            list.len() as int
        } else {
            let at = lemma_place(front, item);
            assert forall|j: int| 0 <= j < at implies text_less(#[trigger] list[j], item) by {
                assert(text_less(front[j], item));
            }
            assert forall|j: int| at <= j < list.len() implies text_less(item, #[trigger] list[j]) by {
                if j < n {
                    assert(text_less(item, front[j]));
                }
            }
            at
        }
    }
}

/// Puts `item` into a list in dictionary order, unless it is there already.
fn insert_sorted(list: &mut Vec<String>, item: &str)
    requires
        increasing(texts(old(list)@)),
    ensures
        increasing(texts(final(list)@)),
        forall|x: Seq<char>| #[trigger]
            texts(final(list)@).contains(x) <==> texts(old(list)@).contains(x) || x == item@,
{
    let ghost before = texts(list@);
    let mut i: usize = 0;
    while i < list.len()
        invariant
            i <= list@.len(),
            before == texts(list@),
            before == texts(old(list)@),
            increasing(before),
            forall|j: int| 0 <= j < i ==> text_less(#[trigger] before[j], item@),
        ensures
            i < list@.len() ==> text_less(item@, before[i as int]),
        decreases list@.len() - i,
    {
        assert(before[i as int] == list@[i as int]@);
        match compare_texts(list[i].as_str(), item) {
            Place::Before => {
                i += 1;
            },
            Place::Same => {
                assert forall|x: Seq<char>| #[trigger] before.contains(x) <==> before.contains(x) || x
                    == item@ by {
                    assert(before[i as int] == item@);
                }
                return;
            },
            Place::After => {
                break;
            },
        }
    }
    proof {
        assert forall|j: int| i <= j < before.len() implies text_less(item@, #[trigger] before[j]) by {
            if i < j {
                assert(text_less(before[i as int], before[j]));
                lemma_lex_transitive(
                    code_points(item@),
                    code_points(before[i as int]),
                    code_points(before[j]),
                );
            }
        }
    }
    list.insert(i, item.to_owned());
    assert(texts(list@) =~= before.insert(i as int, item@));
    proof {
        lemma_inserted(before, item@, i as int);
    }
}

/// The texts of `items`, each once, in dictionary order.
pub fn sorted_set_of(items: &Vec<String>) -> (r: Vec<String>)
    ensures
        texts(r@) == sorted_set(texts(items@)),
        is_sorted_set_of(texts(r@), texts(items@)),
{
    let mut out: Vec<String> = Vec::new();
    let mut i: usize = 0;
    while i < items.len()
        invariant
            i <= items@.len(),
            is_sorted_set_of(texts(out@), texts(items@).take(i as int)),
        decreases items@.len() - i,
    {
        let ghost before = texts(out@);
        let ghost seen = texts(items@).take(i as int);
        insert_sorted(&mut out, items[i].as_str());
        i += 1;
        proof {
            let now = texts(items@).take(i as int);
            assert(now =~= seen.push(items@[i - 1]@));
            assert forall|x: Seq<char>| #[trigger] texts(out@).contains(x) <==> now.contains(x) by {
                assert(before.contains(x) <==> seen.contains(x));
                if seen.contains(x) {
                    let k = choose|k: int| 0 <= k < seen.len() && seen[k] == x;
                    assert(now[k] == x);
                }
                if x == items@[i - 1]@ {
                    assert(now[i - 1] == x);
                }
                if now.contains(x) {
                    let k = choose|k: int| 0 <= k < now.len() && now[k] == x;
                    if k < i - 1 {
                        assert(seen[k] == x);
                    }
                }
            }
        }
    }
    assert(texts(items@).take(i as int) =~= texts(items@));
    proof {
        lemma_sorted_set(texts(out@), texts(items@));
    }
    out
}

/// Dictionary order: of two texts the one with the smaller character at the first place where they
/// differ comes first; the beginning of a text comes before the text.
pub proof fn lemma_dictionary_order(front: Seq<char>, c: char, a: Seq<char>, d: char, b: Seq<char>)
    ensures
        c != d ==> (text_less(front.push(c) + a, front.push(d) + b) <==> c < d),
        text_less(front, front.push(c) + a),
        !text_less(front.push(c) + a, front),
        !text_less(front, front),
    decreases front.len(),
{
    let x = front.push(c) + a;
    let y = front.push(d) + b;
    if front.len() == 0 {
        assert(code_points(x)[0] == c as int);
        assert(code_points(y)[0] == d as int);
        assert(code_points(front).len() == 0);
    } else {
        let tail = front.skip(1);
        lemma_dictionary_order(tail, c, a, d, b);
        assert(code_points(x).skip(1) =~= code_points(tail.push(c) + a));
        assert(code_points(y).skip(1) =~= code_points(tail.push(d) + b));
        assert(code_points(front).skip(1) =~= code_points(tail));
        assert(code_points(x)[0] == front[0] as int);
        assert(code_points(y)[0] == front[0] as int);
        assert(code_points(front)[0] == front[0] as int);
    }
}

/// A list in order without repetition holds what it is made from, and each text comes before the next.
pub proof fn lemma_sorted_without_repetition(items: Seq<Seq<char>>, i: int, j: int)
    ensures
        0 <= i < j < sorted_set(items).len() ==> text_less(sorted_set(items)[i], sorted_set(items)[j])
            && sorted_set(items)[i] != sorted_set(items)[j],
        0 <= i < sorted_set(items).len() ==> items.contains(sorted_set(items)[i]),
        0 <= i < items.len() ==> sorted_set(items).contains(items[i]),
{
    lemma_sorted_set_exists(items);
    let list = sorted_set(items);
    if 0 <= i < j < list.len() {
        assert(text_less(list[i], list[j]));
        lemma_lex_irreflexive(code_points(list[i]));
    }
    if 0 <= i < list.len() {
        assert(list.contains(list[i]));
    }
    if 0 <= i < items.len() {
        assert(items.contains(items[i]));
    }
}

} // verus!
