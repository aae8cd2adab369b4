//! Walking through the directories of a workspace.
//!
//! The loop that lists the directories asks which one to list next, and reports what it holds.

use vstd::prelude::*;

use crate::config::{excluded, Config};
use crate::text::texts;

verus! {

/// What stands at a path in a directory.
#[derive(Debug, Clone, Copy, PartialEq, Eq, Structural)]
pub enum EntryKind {
    /// A directory.
    Directory,
    /// A file.
    File,
    /// A link that leads to a file.
    LinkToFile,
    /// A link that leads to a directory, or nowhere.
    OtherLink,
    /// Anything else, and what cannot be told.
    Other,
}

/// What to do with an entry of a directory.
#[derive(Debug, Clone, Copy, PartialEq, Eq, Structural)]
pub enum Visit {
    /// Pass it over.
    Skip,
    /// Go through what it holds in its turn.
    Descend,
    /// Take it down.
    Record,
}

/// What stands at a path, from what the system tells of it: whether it is a directory, a file or a
/// link, and whether it leads to a file.
pub fn entry_kind(is_dir: bool, is_file: bool, is_link: bool, leads_to_file: bool) -> (r: EntryKind)
    ensures
        r == (if is_dir {
            EntryKind::Directory
        } else if is_file {
            EntryKind::File
        } else if is_link && leads_to_file {
            EntryKind::LinkToFile
        } else if is_link {
            EntryKind::OtherLink
        } else {
            EntryKind::Other
        }),
{
    if is_dir {
        EntryKind::Directory
    } else if is_file {
        EntryKind::File
    } else if is_link && leads_to_file {
        EntryKind::LinkToFile
    } else if is_link {
        EntryKind::OtherLink
    } else {
        EntryKind::Other
    }
}

/// What a walk does with an entry: it goes through directories and takes down files and links to
/// files, unless they are left out.
pub open spec fn treatment(kind: EntryKind, left_out: bool) -> Visit {
    if left_out {
        Visit::Skip
    } else {
        match kind {
            EntryKind::Directory => Visit::Descend,
            EntryKind::File => Visit::Record,
            EntryKind::LinkToFile => Visit::Record,
            EntryKind::OtherLink => Visit::Skip,
            EntryKind::Other => Visit::Skip,
        }
    }
}

/// What a walk does with an entry. It follows links to files, and never goes through a link into a
/// directory, which could lead round in a circle.
pub fn visit(kind: EntryKind, left_out: bool) -> (r: Visit)
    ensures
        r == treatment(kind, left_out),
{
    if left_out {
        Visit::Skip
    } else {
        match kind {
            EntryKind::Directory => Visit::Descend,
            EntryKind::File => Visit::Record,
            EntryKind::LinkToFile => Visit::Record,
            EntryKind::OtherLink => Visit::Skip,
            EntryKind::Other => Visit::Skip,
        }
    }
}

/// An entry of a directory: its path, and what stands there.
#[derive(Debug, Clone)]
pub struct DirEntry {
    pub path: String,
    pub kind: EntryKind,
}

/// An entry of a directory: its path, and what stands there.
pub type Listed = (Seq<char>, EntryKind);

/// The entries that a list holds.
pub open spec fn listing(entries: Seq<DirEntry>) -> Seq<Listed> {
    entries.map_values(|e: DirEntry| (e.path@, e.kind))
}

/// Whether a walk that leaves out what these patterns say treats an entry in this way.
pub open spec fn is_treated(patterns: Seq<Seq<char>>, how: Visit) -> spec_fn(Listed) -> bool {
    |e: Listed| treatment(e.1, excluded(patterns, e.0)) == how
}

/// The paths of the entries that a walk treats in this way, in their order.
pub open spec fn treated(patterns: Seq<Seq<char>>, list: Seq<Listed>, how: Visit) -> Seq<Seq<char>> {
    list.filter(is_treated(patterns, how)).map_values(|e: Listed| e.0)
}

/// A walk through a directory and what is below it.
#[derive(Debug)]
pub struct DirWalk {
    /// The directories that are still to be listed.
    pub to_visit: Vec<String>,
    /// The files found so far.
    pub files: Vec<String>,
}

impl DirWalk {
    /// A walk that begins with a directory, whatever its path.
    pub fn start(root: &str) -> (r: DirWalk)
        ensures
            texts(r.to_visit@) == seq![root@],
            texts(r.files@) == Seq::<Seq<char>>::empty(),
    {
        let mut to_visit: Vec<String> = Vec::new();
        to_visit.push(root.to_owned());
        let files: Vec<String> = Vec::new();
        assert(texts(to_visit@) =~= seq![root@]);
        assert(texts(files@) =~= Seq::<Seq<char>>::empty());
        DirWalk { to_visit, files }
    }

    /// A walk that begins with a directory, and is over at once where the settings leave it out.
    pub fn start_unless_excluded(config: &Config, root: &str) -> (r: DirWalk)
        ensures
            texts(r.to_visit@) == (if excluded(texts(config.exclude_patterns@), root@) {
                Seq::<Seq<char>>::empty()
            } else {
                seq![root@]
            }),
            texts(r.files@) == Seq::<Seq<char>>::empty(),
    {
        if config.should_exclude(root) {
            let r = DirWalk { to_visit: Vec::new(), files: Vec::new() };
            assert(texts(r.to_visit@) =~= Seq::<Seq<char>>::empty());
            assert(texts(r.files@) =~= Seq::<Seq<char>>::empty());
            r
        } else {
            DirWalk::start(root)
        }
    }

    /// The next directory to list: the last one found that was not listed yet. There is none at the
    /// end of the walk.
    pub fn next_dir(&mut self) -> (r: Option<String>)
        ensures
            final(self).files@ == old(self).files@,
            match r {
                Some(dir) => {
                    &&& texts(old(self).to_visit@).len() > 0
                    &&& dir@ == texts(old(self).to_visit@).last()
                    &&& texts(final(self).to_visit@) == texts(old(self).to_visit@).drop_last()
                },
                None => texts(old(self).to_visit@).len() == 0 && final(self).to_visit@
                    == old(self).to_visit@,
            },
    {
        let ghost before = self.to_visit@;
        let next = self.to_visit.pop();
        proof {
            if before.len() > 0 {
                assert(texts(self.to_visit@) =~= texts(before).drop_last());
            }
        }
        next
    }

    /// Takes in what a directory holds: its directories are to be listed in their turn, and its files
    /// are found. What the settings leave out is passed over.
    pub fn take_listing(&mut self, config: &Config, entries: &Vec<DirEntry>)
        ensures
            texts(final(self).to_visit@) == texts(old(self).to_visit@) + treated(
                texts(config.exclude_patterns@),
                listing(entries@),
                Visit::Descend,
            ),
            texts(final(self).files@) == texts(old(self).files@) + treated(
                texts(config.exclude_patterns@),
                listing(entries@),
                Visit::Record,
            ),
    {
        let ghost patterns = texts(config.exclude_patterns@);
        let ghost all = listing(entries@);
        let ghost dirs = texts(self.to_visit@);
        let ghost files = texts(self.files@);
        let mut i: usize = 0;
        proof {
            lemma_none_treated(patterns, all, Visit::Descend);
            lemma_none_treated(patterns, all, Visit::Record);
            assert(texts(self.to_visit@) =~= dirs + treated(patterns, all.take(0), Visit::Descend));
            assert(texts(self.files@) =~= files + treated(patterns, all.take(0), Visit::Record));
        }
        while i < entries.len()
            invariant
                i <= entries@.len(),
                patterns == texts(config.exclude_patterns@),
                all == listing(entries@),
                texts(self.to_visit@) == dirs + treated(
                    patterns,
                    all.take(i as int),
                    Visit::Descend,
                ),
                texts(self.files@) == files + treated(patterns, all.take(i as int), Visit::Record),
            decreases entries@.len() - i,
        {
            let ghost dirs_before = texts(self.to_visit@);
            let ghost files_before = texts(self.files@);
            let entry = &entries[i];
            proof {
                assert(all[i as int] == (entry.path@, entry.kind));
                lemma_one_more_treated(patterns, all, Visit::Descend, i as int);
                lemma_one_more_treated(patterns, all, Visit::Record, i as int);
            }
            match visit(entry.kind, config.should_exclude(entry.path.as_str())) {
                Visit::Skip => {},
                Visit::Descend => {
                    self.to_visit.push(entry.path.clone());
                    assert(texts(self.to_visit@) =~= dirs_before.push(entry.path@));
                },
                Visit::Record => {
                    self.files.push(entry.path.clone());
                    assert(texts(self.files@) =~= files_before.push(entry.path@));
                },
            }
            i += 1;
            assert(texts(self.to_visit@) =~= dirs + treated(
                patterns,
                all.take(i as int),
                Visit::Descend,
            ));
            assert(texts(self.files@) =~= files + treated(
                patterns,
                all.take(i as int),
                Visit::Record,
            ));
        }
        assert(all.take(i as int) =~= all);
    }
}

proof fn lemma_none_treated(patterns: Seq<Seq<char>>, list: Seq<Listed>, how: Visit)
    ensures
        treated(patterns, list.take(0), how) == Seq::<Seq<char>>::empty(),
{
    reveal(Seq::filter);
    assert(list.take(0) =~= Seq::empty());
    assert(treated(patterns, list.take(0), how) =~= Seq::<Seq<char>>::empty());
}

proof fn lemma_one_more_treated(patterns: Seq<Seq<char>>, list: Seq<Listed>, how: Visit, i: int)
    requires
        0 <= i < list.len(),
    ensures
        treated(patterns, list.take(i + 1), how) == (if treatment(
            list[i].1,
            excluded(patterns, list[i].0),
        ) == how {
            treated(patterns, list.take(i), how).push(list[i].0)
        } else {
            treated(patterns, list.take(i), how)
        }),
{
    let keep = is_treated(patterns, how);
    assert(list.take(i + 1) =~= list.take(i).push(list[i]));
    list.take(i).lemma_filter_push(list[i], keep);
    if keep(list[i]) {
        assert(treated(patterns, list.take(i + 1), how) =~= treated(
            patterns,
            list.take(i),
            how,
        ).push(list[i].0));
    }
}

/// A walk goes through, or takes down, exactly the entries that call for it: nothing that is left
/// out, and of links none that leads to a directory.
pub proof fn lemma_treated(patterns: Seq<Seq<char>>, list: Seq<Listed>, how: Visit)
    ensures
        forall|path: Seq<char>| #[trigger]
            treated(patterns, list, how).contains(path) <==> exists|i: int|
                0 <= i < list.len() && (#[trigger] list[i]).0 == path && treatment(
                    list[i].1,
                    excluded(patterns, path),
                ) == how,
{
    let keep = is_treated(patterns, how);
    let kept = list.filter(keep);
    let all = treated(patterns, list, how);
    assert forall|path: Seq<char>| #[trigger]
        all.contains(path) <==> exists|i: int|
            0 <= i < list.len() && (#[trigger] list[i]).0 == path && treatment(
                list[i].1,
                excluded(patterns, path),
            ) == how by {
        if all.contains(path) {
            let k = choose|k: int| 0 <= k < all.len() && all[k] == path;
            list.lemma_filter_pred(keep, k);
            assert(kept.contains(kept[k]));
            list.lemma_filter_contains_rev(keep, kept[k]);
            let i = choose|i: int| 0 <= i < list.len() && list[i] == kept[k];
            assert(list[i].0 == path);
        }
        if exists|i: int|
            0 <= i < list.len() && (#[trigger] list[i]).0 == path && treatment(
                list[i].1,
                excluded(patterns, path),
            ) == how {
            let i = choose|i: int|
                0 <= i < list.len() && (#[trigger] list[i]).0 == path && treatment(
                    list[i].1,
                    excluded(patterns, path),
                ) == how;
            assert(keep(list[i]));
            list.lemma_filter_contains(keep, i);
            let k = choose|k: int| 0 <= k < kept.len() && kept[k] == list[i];
            assert(all[k] == path);
        }
    }
}

/// A walk in the middle: the directories that were listed, those that are still to be listed, those
/// that were found, and the files that were found.
pub struct Progress {
    pub visited: Seq<Seq<char>>,
    pub to_visit: Seq<Seq<char>>,
    pub dirs: Seq<Seq<char>>,
    pub files: Seq<Seq<char>>,
}

/// How far a walk that begins with `root` has come when its directories turned out to hold this, in
/// the order in which they were listed.
pub open spec fn progress(
    patterns: Seq<Seq<char>>,
    root: Seq<char>,
    listings: Seq<Seq<Listed>>,
) -> Progress
    decreases listings.len(),
{
    if listings.len() == 0 {
        Progress {
            visited: Seq::empty(),
            to_visit: seq![root],
            dirs: Seq::empty(),
            files: Seq::empty(),
        }
    } else {
        let before = progress(patterns, root, listings.drop_last());
        if before.to_visit.len() == 0 {
            before
        } else {
            let below = treated(patterns, listings.last(), Visit::Descend);
            Progress {
                visited: before.visited.push(before.to_visit.last()),
                to_visit: before.to_visit.drop_last() + below,
                dirs: before.dirs + below,
                files: before.files + treated(patterns, listings.last(), Visit::Record),
            }
        }
    }
}

/// Whether a walk has its books in order: what it found, and what it began with, is what was looked
/// at and what is still to be looked at, each as often.
pub open spec fn balanced<T>(found: Seq<T>, start: Seq<T>, visited: Seq<T>, to_visit: Seq<T>) -> bool {
    found.to_multiset().add(start.to_multiset()) == visited.to_multiset().add(
        to_visit.to_multiset(),
    )
}

/// A walk that looks at the last thing on its list, and puts what is below that on the list, keeps
/// its books in order. So at the end, when nothing is left to look at, everything that was found has
/// been looked at.
pub proof fn lemma_walk_balanced<T>(
    found: Seq<T>,
    start: Seq<T>,
    visited: Seq<T>,
    to_visit: Seq<T>,
    below: Seq<T>,
)
    requires
        balanced(found, start, visited, to_visit),
        to_visit.len() > 0,
    ensures
        balanced(
            found + below,
            start,
            visited.push(to_visit.last()),
            to_visit.drop_last() + below,
        ),
{
    let rest = to_visit.drop_last();
    assert(to_visit =~= rest.push(to_visit.last()));
    rest.to_multiset_ensures();
    visited.to_multiset_ensures();
    vstd::seq_lib::lemma_multiset_commutative(found, below);
    vstd::seq_lib::lemma_multiset_commutative(rest, below);
    let before = found.to_multiset().add(start.to_multiset());
    let left = (found + below).to_multiset().add(start.to_multiset());
    let right = visited.push(to_visit.last()).to_multiset().add((rest + below).to_multiset());
    assert forall|x: T| left.count(x) == right.count(x) by {
        broadcast use vstd::multiset::group_multiset_axioms;

        assert(before.count(x) == visited.to_multiset().add(to_visit.to_multiset()).count(x));
    }
    assert(left =~= right);
}

/// A walk begins with its books in order, whether it counts what it begins with among what it found
/// or not.
pub proof fn lemma_walk_begins<T>(root: T)
    ensures
        balanced(seq![root], Seq::empty(), Seq::empty(), seq![root]),
        balanced(Seq::empty(), seq![root], Seq::empty(), seq![root]),
{
    let none = Seq::<T>::empty();
    none.to_multiset_ensures();
    assert(seq![root].to_multiset().add(none.to_multiset()) =~= none.to_multiset().add(
        seq![root].to_multiset(),
    ));
}

/// Whatever the directories hold, a walk keeps its books in order: at its end every directory that
/// was found has been listed. And it finds nothing that is left out, neither directories nor files.
pub proof fn lemma_walk(patterns: Seq<Seq<char>>, root: Seq<char>, listings: Seq<Seq<Listed>>)
    ensures
        ({
            let at = progress(patterns, root, listings);
            &&& balanced(at.dirs, seq![root], at.visited, at.to_visit)
            &&& forall|path: Seq<char>| #[trigger]
                at.dirs.contains(path) ==> !excluded(patterns, path)
            &&& forall|path: Seq<char>| #[trigger]
                at.files.contains(path) ==> !excluded(patterns, path)
        }),
    decreases listings.len(),
{
    if listings.len() == 0 {
        lemma_walk_begins(root);
    } else {
        let before = progress(patterns, root, listings.drop_last());
        let at = progress(patterns, root, listings);
        lemma_walk(patterns, root, listings.drop_last());
        if before.to_visit.len() > 0 {
            let list = listings.last();
            let below = treated(patterns, list, Visit::Descend);
            let files = treated(patterns, list, Visit::Record);
            lemma_walk_balanced(before.dirs, seq![root], before.visited, before.to_visit, below);
            lemma_treated(patterns, list, Visit::Descend);
            lemma_treated(patterns, list, Visit::Record);
            assert forall|path: Seq<char>| #[trigger] at.dirs.contains(path) implies !excluded(
                patterns,
                path,
            ) by {
                lemma_in_either(before.dirs, below, path);
            }
            assert forall|path: Seq<char>| #[trigger] at.files.contains(path) implies !excluded(
                patterns,
                path,
            ) by {
                lemma_in_either(before.files, files, path);
            }
        }
    }
}

proof fn lemma_in_either(a: Seq<Seq<char>>, b: Seq<Seq<char>>, x: Seq<char>)
    requires
        (a + b).contains(x),
    ensures
        a.contains(x) || b.contains(x),
{
    let k = choose|k: int| 0 <= k < (a + b).len() && (a + b)[k] == x;
    if k < a.len() {
        assert(a[k] == x);
    } else {
        assert(b[k - a.len()] == x);
    }
}

/// One more entry in a directory: a directory that is not left out is to be gone through, a file or a
/// link to a file that is not left out is taken down, and nothing else is either.
pub proof fn lemma_one_more_entry(
    patterns: Seq<Seq<char>>,
    list: Seq<Listed>,
    path: Seq<char>,
    kind: EntryKind,
)
    ensures
        ({
            let more = list.push((path, kind));
            let dirs = treated(patterns, list, Visit::Descend);
            let files = treated(patterns, list, Visit::Record);
            &&& treated(patterns, more, Visit::Descend) == (if kind == EntryKind::Directory
                && !excluded(patterns, path) {
                dirs.push(path)
            } else {
                dirs
            })
            &&& treated(patterns, more, Visit::Record) == (if (kind == EntryKind::File || kind
                == EntryKind::LinkToFile) && !excluded(patterns, path) {
                files.push(path)
            } else {
                files
            })
        }),
        treated(patterns, Seq::empty(), Visit::Descend) == Seq::<Seq<char>>::empty(),
        treated(patterns, Seq::empty(), Visit::Record) == Seq::<Seq<char>>::empty(),
{
    let more = list.push((path, kind));
    let n = list.len() as int;
    let none = Seq::<Listed>::empty();
    lemma_one_more_treated(patterns, more, Visit::Descend, n);
    lemma_one_more_treated(patterns, more, Visit::Record, n);
    assert(more.take(n) =~= list);
    assert(more.take(n + 1) =~= more);
    lemma_none_treated(patterns, none, Visit::Descend);
    lemma_none_treated(patterns, none, Visit::Record);
    assert(none.take(0) =~= none);
}

/// Whatever a walk lists, it takes down: a file, or a link to one, that is not left out and stands in
/// a directory that was listed, is among the files that were found, then and ever after.
pub proof fn lemma_walk_misses_nothing(
    patterns: Seq<Seq<char>>,
    root: Seq<char>,
    listings: Seq<Seq<Listed>>,
    n: int,
    i: int,
)
    requires
        0 <= n < listings.len(),
        0 <= i < listings[n].len(),
        progress(patterns, root, listings.take(n)).to_visit.len() > 0,
        !excluded(patterns, listings[n][i].0),
    ensures
        listings[n][i].1 == EntryKind::File || listings[n][i].1 == EntryKind::LinkToFile
            ==> progress(patterns, root, listings).files.contains(listings[n][i].0),
        listings[n][i].1 == EntryKind::Directory ==> progress(
            patterns,
            root,
            listings,
        ).dirs.contains(listings[n][i].0),
    decreases listings.len(),
{
    let path = listings[n][i].0;
    let front = listings.drop_last();
    let before = progress(patterns, root, front);
    let at = progress(patterns, root, listings);
    if n < front.len() {
        assert(front.take(n) =~= listings.take(n));
        assert(front[n] == listings[n]);
        lemma_walk_misses_nothing(patterns, root, front, n, i);
        if before.files.contains(path) {
            let k = choose|k: int| 0 <= k < before.files.len() && before.files[k] == path;
            assert(at.files[k] == path);
        }
        if before.dirs.contains(path) {
            let k = choose|k: int| 0 <= k < before.dirs.len() && before.dirs[k] == path;
            assert(at.dirs[k] == path);
        }
    } else {
        assert(front =~= listings.take(n));
        let list = listings.last();
        let files = treated(patterns, list, Visit::Record);
        let dirs = treated(patterns, list, Visit::Descend);
        lemma_treated(patterns, list, Visit::Record);
        lemma_treated(patterns, list, Visit::Descend);
        assert(list[i].0 == path);
        if listings[n][i].1 == EntryKind::File || listings[n][i].1 == EntryKind::LinkToFile {
            assert(files.contains(path));
            let k = choose|k: int| 0 <= k < files.len() && files[k] == path;
            assert(at.files[before.files.len() + k] == path);
        }
        if listings[n][i].1 == EntryKind::Directory {
            assert(dirs.contains(path));
            let k = choose|k: int| 0 <= k < dirs.len() && dirs[k] == path;
            assert(at.dirs[before.dirs.len() + k] == path);
        }
    }
}

/// A listing holds every entry of a directory, with its path and what stands there.
pub proof fn lemma_what_a_listing_holds(entries: Seq<DirEntry>, entry: DirEntry)
    ensures
        listing(entries.push(entry)) == listing(entries).push((entry.path@, entry.kind)),
        listing(entries).len() == entries.len(),
{
    assert(listing(entries.push(entry)) =~= listing(entries).push((entry.path@, entry.kind)));
}

} // verus!
