//! A set of paths.

use vstd::prelude::*;

use crate::order::{lemma_lex_irreflexive, lemma_lex_transitive, Place};
use crate::path::{compare_paths, components, path_key, path_less};
use crate::text::{clone_strings, texts};

verus! {

/// A set of paths. Two paths with the same components are the same.
pub struct PathSet {
    paths: Vec<String>,
}

/// Whether each path comes before all that follow it, component by component.
pub open spec fn in_order(list: Seq<Seq<char>>) -> bool {
    forall|i: int, j: int|
        0 <= i < j < list.len() ==> path_less(#[trigger] list[i], #[trigger] list[j])
}

/// Whether path number `i` of `list` has the same components as `path`.
pub open spec fn is_at(list: Seq<Seq<char>>, path: Seq<char>, i: int) -> bool {
    0 <= i < list.len() && components(list[i]) == components(path)
}

/// Whether `list` holds a path.
pub open spec fn holds(list: Seq<Seq<char>>, path: Seq<char>) -> bool {
    exists|i: int| is_at(list, path, i)
}

proof fn lemma_path_order(a: Seq<char>, b: Seq<char>, c: Seq<char>)
    requires
        path_less(a, b),
    ensures
        components(a) != components(b),
        path_less(b, c) ==> path_less(a, c),
        path_less(c, a) ==> path_less(c, b),
{
    lemma_lex_irreflexive(path_key(a));
    if path_less(b, c) {
        lemma_lex_transitive(path_key(a), path_key(b), path_key(c));
    }
    if path_less(c, a) {
        lemma_lex_transitive(path_key(c), path_key(a), path_key(b));
    }
}

/// Where a path stands in a list in order, or where it would go.
fn locate(paths: &Vec<String>, path: &str) -> (r: Result<usize, usize>)
    requires
        in_order(texts(paths@)),
    ensures
        match r {
            Ok(i) => is_at(texts(paths@), path@, i as int),
            Err(i) => {
                &&& i <= paths@.len()
                &&& forall|j: int| 0 <= j < i ==> path_less(#[trigger] texts(paths@)[j], path@)
                &&& forall|j: int|
                    i <= j < paths@.len() ==> path_less(path@, #[trigger] texts(paths@)[j])
            },
        },
{
    let ghost list = texts(paths@);
    let mut low: usize = 0;
    let mut high: usize = paths.len();
    while low < high
        invariant
            low <= high <= paths@.len(),
            list == texts(paths@),
            in_order(list),
            forall|j: int| 0 <= j < low ==> path_less(#[trigger] list[j], path@),
            forall|j: int| high <= j < paths@.len() ==> path_less(path@, #[trigger] list[j]),
        decreases high - low,
    {
        let mid: usize = low + (high - low) / 2;
        assert(list[mid as int] == paths@[mid as int]@);
        match compare_paths(paths[mid].as_str(), path) {
            Place::Same => {
                return Ok(mid);
            },
            Place::Before => {
                assert forall|j: int| 0 <= j < mid + 1 implies path_less(
                    #[trigger] list[j],
                    path@,
                ) by {
                    if j < mid {
                        lemma_path_order(list[j], list[mid as int], path@);
                    }
                }
                low = mid + 1;
            },
            Place::After => {
                assert forall|j: int| mid <= j < paths@.len() implies path_less(
                    path@,
                    #[trigger] list[j],
                ) by {
                    if mid < j {
                        lemma_path_order(list[mid as int], list[j], path@);
                    }
                }
                high = mid;
            },
        }
    }
    Err(low)
}

impl PathSet {
    /// The paths in order, component by component.
    pub closed spec fn list(&self) -> Seq<Seq<char>> {
        texts(self.paths@)
    }

    #[verifier::type_invariant]
    spec fn sorted(&self) -> bool {
        in_order(texts(self.paths@))
    }

    /// An empty set.
    pub fn new() -> (r: PathSet)
        ensures
            r.list() == Seq::<Seq<char>>::empty(),
    {
        let paths: Vec<String> = Vec::new();
        assert(texts(paths@) =~= Seq::<Seq<char>>::empty());
        PathSet { paths }
    }

    /// The paths in order, component by component, each once.
    pub fn to_list(&self) -> (r: Vec<String>)
        ensures
            texts(r@) == self.list(),
            in_order(self.list()),
    {
        proof {
            use_type_invariant(self);
        }
        clone_strings(&self.paths)
    }

    /// Puts a path in, and tells whether it was not there before. A path that was there keeps the
    /// form in which it was put in first.
    pub fn insert(&mut self, path: String) -> (r: bool)
        ensures
            r == !holds(old(self).list(), path@),
            !r ==> final(self).list() == old(self).list(),
            r ==> exists|i: int| #![trigger old(self).list().insert(i, path@)]
                0 <= i <= old(self).list().len() && final(self).list() == old(self).list().insert(
                    i,
                    path@,
                ),
            in_order(final(self).list()),
    {
        proof {
            use_type_invariant(&*self);
        }
        let ghost before = texts(self.paths@);
        let mut paths: Vec<String> = Vec::new();
        std::mem::swap(&mut paths, &mut self.paths);
        match locate(&paths, path.as_str()) {
            Ok(i) => {
                assert(is_at(before, path@, i as int));
                self.paths = paths;
                false
            },
            Err(i) => {
                let ghost name = path@;
                let ghost after = before.insert(i as int, name);
                paths.insert(i, path);
                proof {
                    assert(texts(paths@) =~= after);
                    assert forall|j: int| !is_at(before, name, j) by {
                        if is_at(before, name, j) {
                            if j < i {
                                lemma_path_order(before[j], name, name);
                            } else {
                                lemma_path_order(name, before[j], name);
                            }
                        }
                    }
                    assert forall|a: int, b: int| 0 <= a < b < after.len() implies path_less(
                        #[trigger] after[a],
                        #[trigger] after[b],
                    ) by {
                        let x = if a < i {
                            a
                        } else {
                            a - 1
                        };
                        let y = if b < i {
                            b
                        } else {
                            b - 1
                        };
                        if a == i {
                            assert(after[b] == before[y]);
                        } else if b == i {
                            assert(after[a] == before[x]);
                        } else {
                            assert(after[a] == before[x]);
                            assert(after[b] == before[y]);
                        }
                    }
                }
                self.paths = paths;
                assert(self.list() =~= old(self).list().insert(i as int, name));
                true
            },
        }
    }
}

/// A list holds a path where one of its paths has the same components, however it is written.
pub proof fn lemma_one_more_path(list: Seq<Seq<char>>, path: Seq<char>, other: Seq<char>)
    ensures
        !holds(Seq::empty(), path),
        holds(list.push(other), path) <==> holds(list, path) || components(other) == components(path),
{
    let more = list.push(other);
    if holds(list, path) {
        let i = choose|i: int| is_at(list, path, i);
        assert(is_at(more, path, i));
    }
    if components(other) == components(path) {
        assert(is_at(more, path, list.len() as int));
    }
    if holds(more, path) {
        let i = choose|i: int| is_at(more, path, i);
        if i < list.len() {
            assert(is_at(list, path, i));
        }
    }
}

} // verus!
