//! What a workspace holds, and how two states of it differ.

use std::collections::hash_map::DefaultHasher;
use std::hash::Hasher;
use vstd::bytes::{spec_u64_to_le_bytes, u64_to_le_bytes};
use vstd::prelude::*;
use vstd::std_specs::hash::DefaultHasherAdditionalSpecFns;

use crate::order::{lemma_lex_irreflexive, lemma_lex_transitive, Place};
use crate::patch::{is_patch, lemma_empty_patch};
use crate::path::{
    compare_paths, components, path_key, path_less, relative_to, strip_base,
};
use crate::style::{add_span, paint_all, renders, spans, Piece, Span, Style};
use crate::text::{
    chars_of, concat, has_prefix, is_line, is_whole_lines, lemma_line_ends, lemma_lines_add,
    lemma_no_lines, lemma_one_more_joined, lines, lines_of, pieces, starts_with, string_of, texts,
};
use crate::time::Timestamp;

verus! {

/// What is known of a file at one time.
#[derive(Debug, Clone, Copy, PartialEq, Eq, Structural)]
pub struct SnapshotEntry {
    pub mtime: Timestamp,
    pub size: u64,
    pub content_hash: u64,
}

/// A file in a snapshot: its path and what is known of it.
pub type FileRecord = (Seq<char>, SnapshotEntry);

/// The files of a workspace at one time, by path. Two paths with the same components name the same
/// file.
pub struct FileSnapshot {
    entries: Vec<(String, SnapshotEntry)>,
}

/// Whether each file comes before all that follow it, component by component.
pub open spec fn in_path_order(list: Seq<FileRecord>) -> bool {
    forall|i: int, j: int|
        0 <= i < j < list.len() ==> path_less((#[trigger] list[i]).0, (#[trigger] list[j]).0)
}

/// Whether file number `i` of `list` has this path.
pub open spec fn stands_at(list: Seq<FileRecord>, path: Seq<char>, i: int) -> bool {
    0 <= i < list.len() && components(list[i].0) == components(path)
}

/// What `list` holds of the file with this path.
pub open spec fn entry_for(list: Seq<FileRecord>, path: Seq<char>) -> Option<SnapshotEntry> {
    if exists|i: int| stands_at(list, path, i) {
        let i = choose|i: int| stands_at(list, path, i);
        Some(list[i].1)
    } else {
        None
    }
}

/// The text by which `list` holds the file with this path.
pub open spec fn name_for(list: Seq<FileRecord>, path: Seq<char>) -> Option<Seq<char>> {
    if exists|i: int| stands_at(list, path, i) {
        let i = choose|i: int| stands_at(list, path, i);
        Some(list[i].0)
    } else {
        None
    }
}

spec fn records(entries: Seq<(String, SnapshotEntry)>) -> Seq<FileRecord> {
    entries.map_values(|e: (String, SnapshotEntry)| (e.0@, e.1))
}

proof fn lemma_path_order(a: Seq<char>, b: Seq<char>, c: Seq<char>)
    requires
        path_less(a, b),
    ensures
        !path_less(b, a),
        components(a) != components(b),
        path_less(b, c) ==> path_less(a, c),
        path_less(c, a) ==> path_less(c, b),
        components(b) == components(c) ==> path_less(a, c),
        components(c) == components(a) ==> path_less(c, b),
{
    lemma_lex_irreflexive(path_key(a));
    if path_less(b, a) {
        lemma_lex_transitive(path_key(a), path_key(b), path_key(a));
    }
    if path_less(b, c) {
        lemma_lex_transitive(path_key(a), path_key(b), path_key(c));
    }
    if path_less(c, a) {
        lemma_lex_transitive(path_key(c), path_key(a), path_key(b));
    }
}

/// In a list in path order each file stands once.
pub proof fn lemma_stands_once(list: Seq<FileRecord>, path: Seq<char>, i: int)
    requires
        in_path_order(list),
        stands_at(list, path, i),
    ensures
        forall|j: int| stands_at(list, path, j) ==> j == i,
        entry_for(list, path) == Some(list[i].1),
        name_for(list, path) == Some(list[i].0),
{
    assert forall|j: int| stands_at(list, path, j) implies j == i by {
        if j < i {
            lemma_path_order(list[j].0, list[i].0, path);
        } else if i < j {
            lemma_path_order(list[i].0, list[j].0, path);
        }
    }
}

/// Where the file with this path stands, or where it would go.
fn locate(entries: &Vec<(String, SnapshotEntry)>, path: &str) -> (r: Result<usize, usize>)
    requires
        in_path_order(records(entries@)),
    ensures
        match r {
            Ok(i) => stands_at(records(entries@), path@, i as int),
            Err(i) => {
                &&& i <= entries@.len()
                &&& forall|j: int|
                    0 <= j < i ==> path_less((#[trigger] records(entries@)[j]).0, path@)
                &&& forall|j: int|
                    i <= j < entries@.len() ==> path_less(
                        path@,
                        (#[trigger] records(entries@)[j]).0,
                    )
            },
        },
{
    let ghost list = records(entries@);
    let mut low: usize = 0;
    let mut high: usize = entries.len();
    while low < high
        invariant
            low <= high <= entries@.len(),
            list == records(entries@),
            in_path_order(list),
            forall|j: int| 0 <= j < low ==> path_less((#[trigger] list[j]).0, path@),
            forall|j: int| high <= j < entries@.len() ==> path_less(path@, (#[trigger] list[j]).0),
        decreases high - low,
    {
        let mid: usize = low + (high - low) / 2;
        assert(list[mid as int] == (entries@[mid as int].0@, entries@[mid as int].1));
        match compare_paths(entries[mid].0.as_str(), path) {
            Place::Same => {
                return Ok(mid);
            },
            Place::Before => {
                assert forall|j: int| 0 <= j < mid + 1 implies path_less(
                    (#[trigger] list[j]).0,
                    path@,
                ) by {
                    if j < mid {
                        lemma_path_order(list[j].0, list[mid as int].0, path@);
                    }
                }
                low = mid + 1;
            },
            Place::After => {
                assert forall|j: int| mid <= j < entries@.len() implies path_less(
                    path@,
                    (#[trigger] list[j]).0,
                ) by {
                    if mid < j {
                        lemma_path_order(list[mid as int].0, list[j].0, path@);
                    }
                }
                high = mid;
            },
        }
    }
    Err(low)
}

/// A list in path order where the file would go, but does not stand, does not hold it.
proof fn lemma_absent(list: Seq<FileRecord>, path: Seq<char>, i: int)
    requires
        0 <= i <= list.len(),
        forall|j: int| 0 <= j < i ==> path_less((#[trigger] list[j]).0, path),
        forall|j: int| i <= j < list.len() ==> path_less(path, (#[trigger] list[j]).0),
    ensures
        forall|j: int| !stands_at(list, path, j),
        entry_for(list, path) is None,
{
    assert forall|j: int| !stands_at(list, path, j) by {
        if stands_at(list, path, j) {
            if j < i {
                lemma_path_order(list[j].0, path, path);
            } else {
                lemma_path_order(path, list[j].0, path);
            }
        }
    }
}

/// Whether `after` is `before` with a file put into it: in place of what was known of the file, or
/// as one more file. A file that was known keeps the path it was known by.
pub open spec fn is_with_file(
    after: Seq<FileRecord>,
    before: Seq<FileRecord>,
    path: Seq<char>,
    entry: SnapshotEntry,
) -> bool {
    if entry_for(before, path) is Some {
        exists|i: int| #[trigger]
            stands_at(before, path, i) && after == before.update(i, (before[i].0, entry))
    } else {
        exists|i: int| #![trigger before.insert(i, (path, entry))]
            0 <= i <= before.len() && after == before.insert(i, (path, entry))
    }
}

impl FileSnapshot {
    /// The files in path order, each with what is known of it.
    pub closed spec fn files(&self) -> Seq<FileRecord> {
        records(self.entries@)
    }

    #[verifier::type_invariant]
    spec fn sorted(&self) -> bool {
        in_path_order(records(self.entries@))
    }

    /// A snapshot without files.
    pub fn new() -> (r: FileSnapshot)
        ensures
            r.files() == Seq::<FileRecord>::empty(),
    {
        let entries: Vec<(String, SnapshotEntry)> = Vec::new();
        assert(records(entries@) =~= Seq::<FileRecord>::empty());
        FileSnapshot { entries }
    }

    /// How many files there are.
    pub fn len(&self) -> (r: usize)
        ensures
            r == self.files().len(),
            in_path_order(self.files()),
    {
        proof {
            use_type_invariant(self);
        }
        self.entries.len()
    }

    /// The path of file number `i`.
    pub fn path_at(&self, i: usize) -> (r: String)
        requires
            i < self.files().len(),
        ensures
            r@ == self.files()[i as int].0,
    {
        self.entries[i].0.clone()
    }

    /// What is known of file number `i`.
    pub fn entry_at(&self, i: usize) -> (r: SnapshotEntry)
        requires
            i < self.files().len(),
        ensures
            r == self.files()[i as int].1,
    {
        self.entries[i].1
    }

    /// What is known of the file with this path.
    pub fn get(&self, path: &str) -> (r: Option<SnapshotEntry>)
        ensures
            r == entry_for(self.files(), path@),
    {
        proof {
            use_type_invariant(self);
        }
        match locate(&self.entries, path) {
            Ok(i) => {
                proof {
                    lemma_stands_once(records(self.entries@), path@, i as int);
                }
                Some(self.entries[i].1)
            },
            Err(i) => {
                proof {
                    lemma_absent(records(self.entries@), path@, i as int);
                }
                None
            },
        }
    }

    /// Tests whether there is a file with this path.
    pub fn contains_key(&self, path: &str) -> (r: bool)
        ensures
            r == (entry_for(self.files(), path@) is Some),
    {
        self.get(path).is_some()
    }

    /// Puts a file in. Where it was there before, what was known of it is replaced and handed back.
    pub fn insert(&mut self, path: String, entry: SnapshotEntry) -> (r: Option<SnapshotEntry>)
        ensures
            r == entry_for(old(self).files(), path@),
            is_with_file(final(self).files(), old(self).files(), path@, entry),
            in_path_order(final(self).files()),
            entry_for(final(self).files(), path@) == Some(entry),
    {
        proof {
            use_type_invariant(&*self);
        }
        let ghost before = records(self.entries@);
        let mut entries: Vec<(String, SnapshotEntry)> = Vec::new();
        std::mem::swap(&mut entries, &mut self.entries);
        match locate(&entries, path.as_str()) {
            Ok(i) => {
                let known = entries[i].1;
                let name = entries[i].0.clone();
                let ghost after = before.update(i as int, (before[i as int].0, entry));
                entries.set(i, (name, entry));
                proof {
                    lemma_stands_once(before, path@, i as int);
                    assert(records(entries@) =~= after);
                    assert(in_path_order(after)) by {
                        assert forall|a: int, b: int| 0 <= a < b < after.len() implies path_less(
                            (#[trigger] after[a]).0,
                            (#[trigger] after[b]).0,
                        ) by {
                            assert(path_less(before[a].0, before[b].0));
                        }
                    }
                    lemma_stands_once(after, path@, i as int);
                }
                self.entries = entries;
                Some(known)
            },
            Err(i) => {
                let ghost record = (path@, entry);
                let ghost after = before.insert(i as int, record);
                entries.insert(i, (path, entry));
                proof {
                    lemma_absent(before, record.0, i as int);
                    assert(records(entries@) =~= after);
                    assert(in_path_order(after)) by {
                        assert forall|a: int, b: int| 0 <= a < b < after.len() implies path_less(
                            (#[trigger] after[a]).0,
                            (#[trigger] after[b]).0,
                        ) by {
                            let x = if a < i {
                                a
                            } else {
                                a - 1
                            };
                            let y = if b < i {
                                b
                            } else {
                                b - 1
                            };
                            if a == i {
                                assert(after[b] == before[y]);
                            } else if b == i {
                                assert(after[a] == before[x]);
                            } else {
                                assert(after[a] == before[x]);
                                assert(after[b] == before[y]);
                            }
                        }
                    }
                    assert(stands_at(after, record.0, i as int));
                    lemma_stands_once(after, record.0, i as int);
                }
                self.entries = entries;
                None
            },
        }
    }
}

/// The paths that changed between two snapshots, each list in path order.
#[derive(Debug, Clone)]
pub struct DiffResult {
    pub created: Vec<String>,
    pub modified: Vec<String>,
    pub deleted: Vec<String>,
}

/// The paths of some files.
pub open spec fn paths(list: Seq<FileRecord>) -> Seq<Seq<char>> {
    list.map_values(|f: FileRecord| f.0)
}

/// Whether a file is not in `other`.
pub open spec fn missing_from(other: Seq<FileRecord>) -> spec_fn(FileRecord) -> bool {
    |f: FileRecord| entry_for(other, f.0) is None
}

/// Whether a file is in `other` with another content.
pub open spec fn changed_since(other: Seq<FileRecord>) -> spec_fn(FileRecord) -> bool {
    |f: FileRecord|
        entry_for(other, f.0) is Some && entry_for(other, f.0)->0.content_hash != f.1.content_hash
}

/// The paths that are in `after` and not in `before`, in path order.
pub open spec fn created_paths(before: Seq<FileRecord>, after: Seq<FileRecord>) -> Seq<Seq<char>> {
    paths(after.filter(missing_from(before)))
}

/// The paths that are in both with different contents, in path order.
pub open spec fn modified_paths(before: Seq<FileRecord>, after: Seq<FileRecord>) -> Seq<Seq<char>> {
    paths(after.filter(changed_since(before)))
}

/// The paths that are in `before` and not in `after`, in path order.
pub open spec fn deleted_paths(before: Seq<FileRecord>, after: Seq<FileRecord>) -> Seq<Seq<char>> {
    paths(before.filter(missing_from(after)))
}

proof fn lemma_filter_step(
    list: Seq<FileRecord>,
    keep: spec_fn(FileRecord) -> bool,
    i: int,
)
    requires
        0 <= i < list.len(),
    ensures
        paths(list.take(i + 1).filter(keep)) == (if keep(list[i]) {
            paths(list.take(i).filter(keep)).push(list[i].0)
        } else {
            paths(list.take(i).filter(keep))
        }),
{
    assert(list.take(i + 1) =~= list.take(i).push(list[i]));
    list.take(i).lemma_filter_push(list[i], keep);
    if keep(list[i]) {
        assert(paths(list.take(i).filter(keep).push(list[i])) =~= paths(
            list.take(i).filter(keep),
        ).push(list[i].0));
    }
}

proof fn lemma_filter_none(list: Seq<FileRecord>, keep: spec_fn(FileRecord) -> bool)
    ensures
        paths(list.take(0).filter(keep)) == Seq::<Seq<char>>::empty(),
{
    reveal(Seq::filter);
    assert(list.take(0) =~= Seq::empty());
    assert(list.take(0).filter(keep) =~= Seq::empty());
    assert(paths(list.take(0).filter(keep)) =~= Seq::<Seq<char>>::empty());
}

/// Whether paths stand in path order, each once.
pub open spec fn paths_in_order(list: Seq<Seq<char>>) -> bool {
    forall|i: int, j: int|
        0 <= i < j < list.len() ==> path_less(#[trigger] list[i], #[trigger] list[j])
}

/// The paths of the files that are kept out of a list in path order are in path order.
proof fn lemma_kept_paths_in_order(list: Seq<FileRecord>, keep: spec_fn(FileRecord) -> bool)
    requires
        in_path_order(list),
    ensures
        paths_in_order(paths(list.filter(keep))),
{
    let kept = list.filter(keep);
    lemma_changes_in_order(list, keep);
    assert forall|i: int, j: int| 0 <= i < j < paths(kept).len() implies path_less(
        #[trigger] paths(kept)[i],
        #[trigger] paths(kept)[j],
    ) by {
        assert(path_less(kept[i].0, kept[j].0));
    }
}

/// Tells what changed between two snapshots, each list in path order. A file counts as modified
/// where its content changed, whatever its times and its size.
pub fn diff_snapshots(before: &FileSnapshot, after: &FileSnapshot) -> (r: DiffResult)
    ensures
        texts(r.created@) == created_paths(before.files(), after.files()),
        texts(r.modified@) == modified_paths(before.files(), after.files()),
        texts(r.deleted@) == deleted_paths(before.files(), after.files()),
        in_path_order(before.files()),
        in_path_order(after.files()),
        paths_in_order(texts(r.created@)),
        paths_in_order(texts(r.modified@)),
        paths_in_order(texts(r.deleted@)),
{
    let ghost old_files = before.files();
    let ghost new_files = after.files();
    let mut created: Vec<String> = Vec::new();
    let mut modified: Vec<String> = Vec::new();
    let mut deleted: Vec<String> = Vec::new();
    let mut i: usize = 0;
    proof {
        use_type_invariant(before);
        use_type_invariant(after);
        lemma_kept_paths_in_order(new_files, missing_from(old_files));
        lemma_kept_paths_in_order(new_files, changed_since(old_files));
        lemma_kept_paths_in_order(old_files, missing_from(new_files));
        lemma_filter_none(new_files, missing_from(old_files));
        lemma_filter_none(new_files, changed_since(old_files));
        lemma_filter_none(old_files, missing_from(new_files));
        assert(texts(created@) =~= Seq::empty());
        assert(texts(modified@) =~= Seq::empty());
        assert(texts(deleted@) =~= Seq::empty());
    }
    while i < after.len()
        invariant
            i <= new_files.len(),
            old_files == before.files(),
            new_files == after.files(),
            texts(created@) == paths(new_files.take(i as int).filter(missing_from(old_files))),
            texts(modified@) == paths(new_files.take(i as int).filter(changed_since(old_files))),
        decreases new_files.len() - i,
    {
        let path = after.path_at(i);
        let entry = after.entry_at(i);
        let ghost created_before = texts(created@);
        let ghost modified_before = texts(modified@);
        let ghost name = path@;
        proof {
            lemma_filter_step(new_files, missing_from(old_files), i as int);
            lemma_filter_step(new_files, changed_since(old_files), i as int);
        }
        match before.get(path.as_str()) {
            None => {
                created.push(path);
                assert(texts(created@) =~= created_before.push(name));
            },
            Some(known) => {
                if known.content_hash != entry.content_hash {
                    modified.push(path);
                    assert(texts(modified@) =~= modified_before.push(name));
                }
            },
        }
        i += 1;
    }
    let mut k: usize = 0;
    while k < before.len()
        invariant
            k <= old_files.len(),
            old_files == before.files(),
            new_files == after.files(),
            texts(deleted@) == paths(old_files.take(k as int).filter(missing_from(new_files))),
        decreases old_files.len() - k,
    {
        let path = before.path_at(k);
        let ghost deleted_before = texts(deleted@);
        let ghost name = path@;
        proof {
            lemma_filter_step(old_files, missing_from(new_files), k as int);
        }
        if !after.contains_key(path.as_str()) {
            deleted.push(path);
            assert(texts(deleted@) =~= deleted_before.push(name));
        }
        k += 1;
    }
    assert(new_files.take(i as int) =~= new_files);
    assert(old_files.take(k as int) =~= old_files);
    DiffResult { created, modified, deleted }
}

/// A file that a walk took down, and what is known of it, unless that could not be read.
#[derive(Debug, Clone)]
pub struct WalkedFile {
    pub path: String,
    pub entry: Option<SnapshotEntry>,
}

/// What is known of the file with this path after a walk: what its last reading gave, if any.
pub open spec fn walked_entry(walked: Seq<WalkedFile>, path: Seq<char>) -> Option<SnapshotEntry>
    decreases walked.len(),
{
    if walked.len() == 0 {
        None
    } else {
        let last = walked.last();
        if last.entry is Some && components(last.path@) == components(path) {
            last.entry
        } else {
            walked_entry(walked.drop_last(), path)
        }
    }
}

/// The text of the file with this path after a walk: the path by which it was first read, if it was.
pub open spec fn walked_name(walked: Seq<WalkedFile>, path: Seq<char>) -> Option<Seq<char>>
    decreases walked.len(),
{
    if walked.len() == 0 {
        None
    } else {
        let last = walked.last();
        let before = walked_name(walked.drop_last(), path);
        if before is None && last.entry is Some && components(last.path@) == components(path) {
            Some(last.path@)
        } else {
            before
        }
    }
}

/// Whether number `i` of a walk reads a file that goes by this path.
pub open spec fn reads_file(walked: Seq<WalkedFile>, i: int, path: Seq<char>) -> bool {
    &&& 0 <= i < walked.len()
    &&& walked[i].entry is Some
    &&& components(walked[i].path@) == components(path)
}

/// Whether a walk reads the file that goes by this path.
pub open spec fn was_read(walked: Seq<WalkedFile>, path: Seq<char>) -> bool {
    exists|i: int| reads_file(walked, i, path)
}

/// Whether some files hold the one that goes by this path.
pub open spec fn holds_file(files: Seq<FileRecord>, path: Seq<char>) -> bool {
    exists|k: int| stands_at(files, path, k)
}

/// Whether `i` is the last number of a walk that reads the file with this path.
pub open spec fn last_reads_file(walked: Seq<WalkedFile>, i: int, path: Seq<char>) -> bool {
    reads_file(walked, i, path) && forall|j: int| i < j ==> !#[trigger] reads_file(walked, j, path)
}

/// Whether `i` is the first number of a walk that reads the file with this path.
pub open spec fn first_reads_file(walked: Seq<WalkedFile>, i: int, path: Seq<char>) -> bool {
    reads_file(walked, i, path) && forall|j: int| j < i ==> !#[trigger] reads_file(walked, j, path)
}

/// Whether some files are what a walk read: every file that was read is there, whatever was read of
/// it, with what its last reading gave and by the text of its first; and no other file is.
pub open spec fn holds_what_was_read(files: Seq<FileRecord>, walked: Seq<WalkedFile>) -> bool {
    &&& forall|i: int|
        0 <= i < walked.len() && (#[trigger] walked[i]).entry is Some ==> holds_file(
            files,
            walked[i].path@,
        )
    &&& forall|i: int, k: int|
        0 <= k < files.len() && #[trigger] last_reads_file(walked, i, files[k].0)
            ==> walked[i].entry == Some(files[k].1)
    &&& forall|i: int, k: int|
        0 <= k < files.len() && #[trigger] first_reads_file(walked, i, files[k].0)
            ==> walked[i].path@ == files[k].0
    &&& forall|k: int|
        0 <= k < files.len() ==> was_read(walked, (#[trigger] files[k]).0)
}

/// What a walk tells of a path is what the last number that reads the file read.
pub proof fn lemma_last_reading(walked: Seq<WalkedFile>, i: int, path: Seq<char>)
    requires
        last_reads_file(walked, i, path),
    ensures
        walked_entry(walked, path) == walked[i].entry,
    decreases walked.len(),
{
    let front = walked.drop_last();
    let n = walked.len() - 1;
    assert(reads_file(walked, i, path));
    if i < n {
        assert(!reads_file(walked, n, path));
        assert(front[i] == walked[i]);
        assert forall|j: int| i < j implies !#[trigger] reads_file(front, j, path) by {
            if reads_file(front, j, path) {
                assert(front[j] == walked[j]);
                assert(reads_file(walked, j, path));
            }
        }
        assert(reads_file(front, i, path));
        lemma_last_reading(front, i, path);
    }
}

/// The text that a walk tells for a path is that of the first number that reads the file.
pub proof fn lemma_first_reading(walked: Seq<WalkedFile>, i: int, path: Seq<char>)
    requires
        first_reads_file(walked, i, path),
    ensures
        walked_name(walked, path) == Some(walked[i].path@),
    decreases walked.len(),
{
    let front = walked.drop_last();
    let n = walked.len() - 1;
    assert(reads_file(walked, i, path));
    if i < n {
        assert(front[i] == walked[i]);
        assert forall|j: int| j < i implies !#[trigger] reads_file(front, j, path) by {
            if reads_file(front, j, path) {
                assert(front[j] == walked[j]);
                assert(reads_file(walked, j, path));
            }
        }
        assert(reads_file(front, i, path));
        lemma_first_reading(front, i, path);
    } else {
        if walked_name(front, path) is Some {
            lemma_read_somewhere(front, path);
            let j = choose|j: int| reads_file(front, j, path);
            assert(front[j] == walked[j]);
            assert(reads_file(walked, j, path));
        }
    }
}

/// A walk tells something of a path exactly where one of its numbers reads the file.
pub proof fn lemma_read_somewhere(walked: Seq<WalkedFile>, path: Seq<char>)
    ensures
        walked_entry(walked, path) is Some <==> was_read(walked, path),
        walked_name(walked, path) is Some <==> was_read(walked, path),
    decreases walked.len(),
{
    if walked.len() > 0 {
        let front = walked.drop_last();
        let n = walked.len() - 1;
        lemma_read_somewhere(front, path);
        if exists|i: int| reads_file(walked, i, path) {
            let i = choose|i: int| reads_file(walked, i, path);
            if i < n {
                assert(front[i] == walked[i]);
                assert(reads_file(front, i, path));
            }
        }
        if exists|i: int| reads_file(front, i, path) {
            let i = choose|i: int| reads_file(front, i, path);
            assert(front[i] == walked[i]);
            assert(reads_file(walked, i, path));
        }
        if walked.last().entry is Some && components(walked.last().path@) == components(path) {
            assert(reads_file(walked, n, path));
        }
    }
}

proof fn lemma_snapshot_of_walk(files: Seq<FileRecord>, walked: Seq<WalkedFile>)
    requires
        in_path_order(files),
        forall|path: Seq<char>| #[trigger] entry_for(files, path) == walked_entry(walked, path),
        forall|path: Seq<char>| #[trigger] name_for(files, path) == walked_name(walked, path),
    ensures
        holds_what_was_read(files, walked),
{
    assert forall|i: int|
        0 <= i < walked.len() && (#[trigger] walked[i]).entry is Some implies holds_file(
        files,
        walked[i].path@,
    ) by {
        lemma_read_somewhere(walked, walked[i].path@);
        assert(reads_file(walked, i, walked[i].path@));
        assert(entry_for(files, walked[i].path@) is Some);
    }
    assert forall|k: int| 0 <= k < files.len() implies was_read(
        walked,
        (#[trigger] files[k]).0,
    ) by {
        assert(stands_at(files, files[k].0, k));
        lemma_read_somewhere(walked, files[k].0);
        assert(entry_for(files, files[k].0) is Some);
    }
    assert forall|i: int, k: int|
        0 <= k < files.len() && #[trigger] last_reads_file(
            walked,
            i,
            files[k].0,
        ) implies walked[i].entry == Some(files[k].1) by {
        assert(stands_at(files, files[k].0, k));
        lemma_stands_once(files, files[k].0, k);
        lemma_last_reading(walked, i, files[k].0);
        assert(entry_for(files, files[k].0) == walked_entry(walked, files[k].0));
    }
    assert forall|i: int, k: int|
        0 <= k < files.len() && #[trigger] first_reads_file(
            walked,
            i,
            files[k].0,
        ) implies walked[i].path@ == files[k].0 by {
        assert(stands_at(files, files[k].0, k));
        lemma_stands_once(files, files[k].0, k);
        lemma_first_reading(walked, i, files[k].0);
        assert(name_for(files, files[k].0) == walked_name(walked, files[k].0));
    }
}

/// From two walks to the report: a file counts as created where the second walk read it and the first
/// did not, as deleted the other way round, and as modified where both read it and the hashes of the
/// last readings differ. Sizes and times have no part in it.
pub proof fn lemma_walks_compared(
    first: Seq<WalkedFile>,
    second: Seq<WalkedFile>,
    before: Seq<FileRecord>,
    after: Seq<FileRecord>,
    path: Seq<char>,
)
    requires
        in_path_order(before),
        in_path_order(after),
        holds_what_was_read(before, first),
        holds_what_was_read(after, second),
    ensures
        names_file(created_paths(before, after), path) <==> was_read(second, path) && !was_read(
            first,
            path,
        ),
        names_file(deleted_paths(before, after), path) <==> was_read(first, path) && !was_read(
            second,
            path,
        ),
        forall|i: int, j: int| #[trigger]
            last_reads_file(first, i, path) && #[trigger] last_reads_file(second, j, path) ==> (
            names_file(modified_paths(before, after), path) <==> first[i].entry->0.content_hash
                != second[j].entry->0.content_hash),
{
    lemma_every_change_listed(before, after, path);
    lemma_held_by_numbers(before, first, path);
    lemma_held_by_numbers(after, second, path);
}

/// What is held of a path, where some files are what a walk read.
proof fn lemma_held_by_numbers(files: Seq<FileRecord>, walked: Seq<WalkedFile>, path: Seq<char>)
    requires
        in_path_order(files),
        holds_what_was_read(files, walked),
    ensures
        entry_for(files, path) is Some <==> was_read(walked, path),
        forall|i: int| #[trigger]
            last_reads_file(walked, i, path) ==> entry_for(files, path) == walked[i].entry,
{
    if exists|k: int| stands_at(files, path, k) {
        let k = choose|k: int| stands_at(files, path, k);
        lemma_stands_once(files, path, k);
        assert(was_read(walked, files[k].0));
        let i = choose|i: int| reads_file(walked, i, files[k].0);
        assert(reads_file(walked, i, path));
        assert forall|i: int| #[trigger] last_reads_file(walked, i, path) implies entry_for(
            files,
            path,
        ) == walked[i].entry by {
            assert(reads_file(walked, i, files[k].0));
            assert forall|j: int| i < j implies !reads_file(walked, j, files[k].0) by {
                assert(!reads_file(walked, j, path));
            }
            assert(last_reads_file(walked, i, files[k].0));
        }
    }
    assert forall|i: int| reads_file(walked, i, path) implies entry_for(files, path) is Some by {
        assert(walked[i].entry is Some);
        assert(holds_file(files, walked[i].path@));
        let k = choose|k: int| stands_at(files, walked[i].path@, k);
        assert(stands_at(files, path, k));
    }
}

/// The snapshot that a walk through a workspace gives: the files that it took down and could read.
/// Each goes by the text of the path by which it was first read.
pub fn capture_snapshot(walked: &Vec<WalkedFile>) -> (r: FileSnapshot)
    ensures
        in_path_order(r.files()),
        forall|path: Seq<char>| #[trigger]
            entry_for(r.files(), path) == walked_entry(walked@, path),
        forall|path: Seq<char>| #[trigger] name_for(r.files(), path) == walked_name(walked@, path),
        holds_what_was_read(r.files(), walked@),
{
    let mut snapshot = FileSnapshot::new();
    let mut i: usize = 0;
    proof {
        assert(walked@.take(0) =~= Seq::empty());
        lemma_empty_holds_nothing();
    }
    while i < walked.len()
        invariant
            i <= walked@.len(),
            in_path_order(snapshot.files()),
            forall|path: Seq<char>| #[trigger]
                entry_for(snapshot.files(), path) == walked_entry(walked@.take(i as int), path),
            forall|path: Seq<char>| #[trigger]
                name_for(snapshot.files(), path) == walked_name(walked@.take(i as int), path),
        decreases walked@.len() - i,
    {
        let ghost before = snapshot.files();
        let ghost seen = walked@.take(i as int);
        let ghost next = walked@.take(i + 1);
        proof {
            assert(next.drop_last() =~= seen);
            assert(next.last() == walked@[i as int]);
        }
        match walked[i].entry {
            None => {},
            Some(entry) => {
                let _ = snapshot.insert(walked[i].path.clone(), entry);
                proof {
                    let name = walked@[i as int].path@;
                    assert forall|path: Seq<char>| #[trigger]
                        entry_for(snapshot.files(), path) == walked_entry(next, path) by {
                        assert(entry_for(before, path) == walked_entry(seen, path));
                        lemma_with_file(snapshot.files(), before, name, entry, path);
                    }
                    assert forall|path: Seq<char>| #[trigger]
                        name_for(snapshot.files(), path) == walked_name(next, path) by {
                        assert(name_for(before, path) == walked_name(seen, path));
                        lemma_with_file(snapshot.files(), before, name, entry, path);
                    }
                }
            },
        }
        i += 1;
    }
    assert(walked@.take(i as int) =~= walked@);
    proof {
        lemma_snapshot_of_walk(snapshot.files(), walked@);
    }
    snapshot
}

proof fn lemma_empty_holds_nothing()
    ensures
        in_path_order(Seq::<FileRecord>::empty()),
        forall|path: Seq<char>| #[trigger] entry_for(Seq::<FileRecord>::empty(), path) is None,
        forall|path: Seq<char>| #[trigger] name_for(Seq::<FileRecord>::empty(), path) is None,
{
}

/// Putting a file in changes what is known of that file alone. A file that was known keeps the text
/// it was known by.
pub proof fn lemma_with_file(
    after: Seq<FileRecord>,
    before: Seq<FileRecord>,
    name: Seq<char>,
    entry: SnapshotEntry,
    path: Seq<char>,
)
    requires
        in_path_order(before),
        in_path_order(after),
        is_with_file(after, before, name, entry),
    ensures
        entry_for(after, path) == (if components(path) == components(name) {
            Some(entry)
        } else {
            entry_for(before, path)
        }),
        name_for(after, path) == (if components(path) == components(name) && name_for(before, path)
            is None {
            Some(name)
        } else {
            name_for(before, path)
        }),
{
    if entry_for(before, name) is Some {
        let i = choose|i: int| #[trigger]
            stands_at(before, name, i) && after == before.update(i, (before[i].0, entry));
        lemma_put(after, before, name, entry, path, i, false);
    } else {
        let i = choose|i: int| #![trigger before.insert(i, (name, entry))]
            0 <= i <= before.len() && after == before.insert(i, (name, entry));
        lemma_put(after, before, name, entry, path, i, true);
    }
}

proof fn lemma_put(
    after: Seq<FileRecord>,
    before: Seq<FileRecord>,
    name: Seq<char>,
    entry: SnapshotEntry,
    path: Seq<char>,
    at: int,
    grown: bool,
)
    requires
        in_path_order(before),
        in_path_order(after),
        stands_at(after, name, at),
        after[at].1 == entry,
        grown ==> 0 <= at <= before.len() && after == before.insert(at, (name, entry)),
        !grown ==> stands_at(before, name, at) && after == before.update(at, (before[at].0, entry)),
    ensures
        entry_for(after, path) == (if components(path) == components(name) {
            Some(entry)
        } else {
            entry_for(before, path)
        }),
        name_for(after, path) == (if components(path) == components(name) && name_for(before, path)
            is None {
            Some(name)
        } else {
            name_for(before, path)
        }),
{
    if components(path) == components(name) {
        assert(stands_at(after, path, at));
        lemma_stands_once(after, path, at);
        if grown {
            assert forall|j: int| !stands_at(before, path, j) by {
                if stands_at(before, path, j) {
                    let k = if j >= at {
                        j + 1
                    } else {
                        j
                    };
                    assert(after[k] == before[j]);
                    assert(stands_at(after, path, k));
                }
            }
        } else {
            assert(stands_at(before, path, at));
            lemma_stands_once(before, path, at);
        }
    } else {
        if exists|j: int| stands_at(before, path, j) {
            let j = choose|j: int| stands_at(before, path, j);
            let k = if grown && j >= at {
                j + 1
            } else {
                j
            };
            assert(after[k] == before[j]);
            assert(stands_at(after, path, k));
            lemma_stands_once(after, path, k);
            lemma_stands_once(before, path, j);
        } else {
            assert forall|k: int| !stands_at(after, path, k) by {
                if stands_at(after, path, k) {
                    if k == at {
                        assert(components(after[at].0) == components(name));
                    } else {
                        let j = if grown && k > at {
                            k - 1
                        } else {
                            k
                        };
                        assert(after[k] == before[j]);
                        assert(stands_at(before, path, j));
                    }
                }
            }
        }
    }
}

/// The number that stands for the content of a file: what the hasher of the standard library makes
/// of its length, in eight bytes, and its bytes.
pub open spec fn content_hash(bytes: Seq<u8>) -> u64 {
    DefaultHasher::spec_finish(seq![spec_u64_to_le_bytes(bytes.len() as u64), bytes])
}

/// The number that stands for the content of a file; nought where it cannot be read.
pub fn hash_file_content(content: &Option<Vec<u8>>) -> (r: u64)
    ensures
        r == (match *content {
            Some(bytes) => content_hash(bytes@),
            None => 0,
        }),
{
    match content {
        Some(bytes) => {
            let mut hasher = DefaultHasher::new();
            let length = u64_to_le_bytes(bytes.len() as u64);
            hasher.write(length.as_slice());
            hasher.write(bytes.as_slice());
            assert(hasher@ =~= seq![spec_u64_to_le_bytes(bytes@.len() as u64), bytes@]);
            hasher.finish()
        },
        None => 0,
    }
}

/// The largest file whose content is kept for a comparison, in bytes.
pub const MAX_DIFF_FILE_SIZE: u64 = 524_288;

/// Whether the content of a file is kept for a comparison.
pub open spec fn is_kept() -> spec_fn(FileRecord) -> bool {
    |f: FileRecord| f.1.size <= MAX_DIFF_FILE_SIZE
}

/// The files whose content is kept for a comparison, in path order.
pub fn capture_content(snapshot: &FileSnapshot) -> (r: Vec<String>)
    ensures
        texts(r@) == paths(snapshot.files().filter(is_kept())),
{
    let ghost files = snapshot.files();
    let mut out: Vec<String> = Vec::new();
    let mut i: usize = 0;
    proof {
        lemma_filter_none(files, is_kept());
        assert(texts(out@) =~= Seq::empty());
    }
    while i < snapshot.len()
        invariant
            i <= files.len(),
            files == snapshot.files(),
            texts(out@) == paths(files.take(i as int).filter(is_kept())),
        decreases files.len() - i,
    {
        let ghost before = texts(out@);
        proof {
            lemma_filter_step(files, is_kept(), i as int);
        }
        if snapshot.entry_at(i).size <= MAX_DIFF_FILE_SIZE {
            let path = snapshot.path_at(i);
            let ghost name = path@;
            out.push(path);
            assert(texts(out@) =~= before.push(name));
        }
        i += 1;
    }
    assert(files.take(i as int) =~= files);
    out
}

/// The hunks of the difference of two texts, line by line, with so many unchanged lines around each
/// change, as similar writes them.
pub uninterp spec fn hunk_texts(old_text: Seq<char>, new_text: Seq<char>, radius: usize) -> Seq<
    Seq<char>,
>;

/// Whether a character ends a line.
pub open spec fn ends_line() -> spec_fn(char) -> bool {
    |c: char| c == '\n' || c == '\r'
}

/// Whether the lines of two texts can be numbered, so that the texts can be compared.
pub open spec fn comparable(old_text: Seq<char>, new_text: Seq<char>) -> bool {
    old_text.filter(ends_line()).len() + new_text.filter(ends_line()).len() + 2 <= u32::MAX
}

fn count_line_ends(text: &str) -> (r: u128)
    ensures
        r == text@.filter(ends_line()).len(),
        r <= usize::MAX,
{
    let chars = chars_of(text);
    let mut n: u128 = 0;
    let mut i: usize = 0;
    proof {
        reveal(Seq::filter);
        assert(text@.take(0) =~= Seq::empty());
    }
    while i < chars.len()
        invariant
            i <= chars.len(),
            n <= i,
            chars@ == text@,
            n == text@.take(i as int).filter(ends_line()).len(),
        decreases chars.len() - i,
    {
        proof {
            assert(text@.take(i + 1) =~= text@.take(i as int).push(text@[i as int]));
            text@.take(i as int).lemma_filter_push(text@[i as int], ends_line());
        }
        if chars[i] == '\n' || chars[i] == '\r' {
            n += 1;
        }
        i += 1;
    }
    assert(text@.take(i as int) =~= text@);
    n
}

/// Tests whether two texts can be compared.
pub fn can_compare(old_content: &str, new_content: &str) -> (r: bool)
    ensures
        r == comparable(old_content@, new_content@),
{
    count_line_ends(old_content) + count_line_ends(new_content) + 2 <= u32::MAX as u128
}

/// The hunks of the difference of two texts.
///
/// Calls `similar::TextDiff::from_lines`, `TextDiff::unified_diff`, `UnifiedDiff::context_radius`
/// and `UnifiedDiff::iter_hunks`, and the `Display` of each hunk. The hunks are named and not
/// spelled out; beside the name the contract claims that a text does not differ from itself, and that
/// the lines of the hunks lead from the old text to the new one. The numbers in the first line of a
/// hunk are left unsaid: for some texts, such as `a b` and `b b` with a line for each letter, they do
/// not count the lines below.
#[verifier::external_body]
fn unified_hunks(old_text: &str, new_text: &str, radius: usize) -> (r: Vec<String>)
    requires
        comparable(old_text@, new_text@),
        radius <= usize::MAX / 2,
    ensures
        texts(r@) == hunk_texts(old_text@, new_text@, radius),
        old_text@ == new_text@ ==> r@.len() == 0,
        is_patch(texts(r@), old_text@, new_text@),
{
    similar::TextDiff::from_lines(old_text, new_text)
        .unified_diff()
        .context_radius(radius)
        .iter_hunks()
        .map(|hunk| hunk.to_string())
        .collect()
}

/// A unified difference: two lines that name the file, and hunks.
pub open spec fn unified_text(name: Seq<char>, hunks: Seq<Seq<char>>) -> Seq<char> {
    "--- a/"@ + name + "\n"@ + "+++ b/"@ + name + "\n"@ + concat(hunks)
}

/// The name of a file in a difference: what is left of its path below the workspace, where it lies
/// there.
pub open spec fn shown_name(path: Seq<char>, workspace: Option<Seq<char>>) -> Seq<char> {
    match workspace {
        Some(base) => match relative_to(path, base) {
            Some(rest) => rest,
            None => path,
        },
        None => path,
    }
}

/// Puts a unified difference together from the name of the file and the hunks.
pub fn assemble_diff(name: &str, hunks: &Vec<String>) -> (r: String)
    ensures
        r@ == unified_text(name@, texts(hunks@)),
{
    let mut out = "--- a/".to_owned();
    out.append(name);
    out.append("\n");
    out.append("+++ b/");
    out.append(name);
    out.append("\n");
    let ghost head = out@;
    let ghost all = texts(hunks@);
    let mut i: usize = 0;
    assert(out@ =~= head + concat(all.take(0)));
    while i < hunks.len()
        invariant
            i <= hunks@.len(),
            all == texts(hunks@),
            out@ == head + concat(all.take(i as int)),
        decreases hunks@.len() - i,
    {
        out.append(hunks[i].as_str());
        proof {
            assert(all.take(i + 1).drop_last() =~= all.take(i as int));
            assert(all.take(i + 1).last() == hunks@[i as int]@);
        }
        i += 1;
        assert(out@ =~= head + concat(all.take(i as int)));
    }
    assert(all.take(i as int) =~= all);
    out
}

/// The name of a file in a difference.
pub fn display_name(path: &str, workspace: Option<&str>) -> (r: String)
    ensures
        r@ == shown_name(
            path@,
            match workspace {
                Some(base) => Some(base@),
                None => None,
            },
        ),
{
    match workspace {
        Some(base) => match strip_base(path, base) {
            Some(rest) => rest,
            None => path.to_owned(),
        },
        None => path.to_owned(),
    }
}

/// The difference of two texts of one file, in unified form.
pub fn generate_unified_diff(old_content: &str, new_content: &str, path: &str) -> (r: String)
    requires
        comparable(old_content@, new_content@),
    ensures
        r@ == unified_text(path@, hunk_texts(old_content@, new_content@, 3)),
        is_patch(hunk_texts(old_content@, new_content@, 3), old_content@, new_content@),
        old_content@ == new_content@ <==> r@ == unified_text(path@, Seq::empty()),
{
    let r = generate_unified_diff_relative(old_content, new_content, path, None);
    proof {
        let hunks = hunk_texts(old_content@, new_content@, 3);
        if r@ == unified_text(path@, Seq::empty()) {
            assert(unified_text(path@, hunks).len() == unified_text(path@, Seq::empty()).len());
            lemma_empty_patch(hunks, old_content@, new_content@);
        }
    }
    r
}

/// The difference of two texts of one file, in unified form, with the path of the file below the
/// workspace.
pub fn generate_unified_diff_relative(
    old_content: &str,
    new_content: &str,
    path: &str,
    workspace: Option<&str>,
) -> (r: String)
    requires
        comparable(old_content@, new_content@),
    ensures
        r@ == unified_text(
            shown_name(
                path@,
                match workspace {
                    Some(base) => Some(base@),
                    None => None,
                },
            ),
            hunk_texts(old_content@, new_content@, 3),
        ),
        is_patch(hunk_texts(old_content@, new_content@, 3), old_content@, new_content@),
        old_content@ == new_content@ <==> hunk_texts(old_content@, new_content@, 3) == Seq::<
            Seq<char>,
        >::empty(),
{
    let hunks = unified_hunks(old_content, new_content, 3);
    proof {
        if old_content@ == new_content@ {
            assert(texts(hunks@) =~= Seq::empty());
        }
        if texts(hunks@) == Seq::<Seq<char>>::empty() {
            lemma_empty_patch(texts(hunks@), old_content@, new_content@);
        }
    }
    assemble_diff(display_name(path, workspace).as_str(), &hunks)
}

/// How a line of a unified difference looks.
pub open spec fn line_style(line: Seq<char>) -> Style {
    if has_prefix(line, "--- "@) || has_prefix(line, "+++ "@) {
        Style::Bold
    } else if has_prefix(line, "@@"@) {
        Style::Cyan
    } else if line.len() > 0 && line[0] == '+' {
        Style::Green
    } else if line.len() > 0 && line[0] == '-' {
        Style::Red
    } else {
        Style::Plain
    }
}

/// The first `n` of some lines of a unified difference, each in its look.
pub open spec fn line_pieces(list: Seq<Seq<char>>, n: nat) -> Seq<Piece>
    decreases n,
{
    if n == 0 {
        Seq::empty()
    } else {
        line_pieces(list, (n - 1) as nat) + seq![
            (list[n - 1], line_style(list[n - 1])),
            ("\n"@, Style::Plain),
        ]
    }
}

/// A unified difference, each line in its look.
pub open spec fn diff_pieces(content: Seq<char>) -> Seq<Piece> {
    line_pieces(lines(content), lines(content).len())
}

fn style_of_line(line: &Vec<char>) -> (r: Style)
    ensures
        r == line_style(line@),
{
    if starts_with(line, &chars_of("--- ")) || starts_with(line, &chars_of("+++ ")) {
        Style::Bold
    } else if starts_with(line, &chars_of("@@")) {
        Style::Cyan
    } else if line.len() > 0 && line[0] == '+' {
        Style::Green
    } else if line.len() > 0 && line[0] == '-' {
        Style::Red
    } else {
        Style::Plain
    }
}

/// A unified difference as a row of pieces of text, each line in its look.
pub fn diff_document(content: &str) -> (r: Vec<Span>)
    ensures
        spans(r@) == diff_pieces(content@),
{
    let all = lines_of(&chars_of(content));
    let ghost list = lines(content@);
    let mut out: Vec<Span> = Vec::new();
    let mut i: usize = 0;
    proof {
        assert(pieces(all@).len() == all@.len());
        assert(spans(out@) =~= line_pieces(list, 0));
    }
    while i < all.len()
        invariant
            i <= all@.len(),
            pieces(all@) == list,
            pieces(all@).len() == all@.len(),
            spans(out@) == line_pieces(list, i as nat),
        decreases all@.len() - i,
    {
        assert(list[i as int] == all@[i as int]@);
        add_span(&mut out, string_of(&all[i]).as_str(), style_of_line(&all[i]));
        add_span(&mut out, "\n", Style::Plain);
        i += 1;
        assert(spans(out@) =~= line_pieces(list, i as nat));
    }
    out
}

/// A unified difference as a terminal gets it: the names of the file in bold, the places of the
/// hunks in cyan, what was added in green and what was taken away in red.
pub fn format_diff_colored(content: &str) -> (r: String)
    ensures
        renders(r@, diff_pieces(content@)),
{
    paint_all(&diff_document(content))
}

/// A path is in at most one of the three lists of changes.
pub proof fn lemma_changes_disjoint(before: Seq<FileRecord>, after: Seq<FileRecord>)
    requires
        in_path_order(before),
        in_path_order(after),
    ensures
        forall|p: Seq<char>, q: Seq<char>|
            created_paths(before, after).contains(p) && modified_paths(before, after).contains(q)
                ==> #[trigger] components(p) != #[trigger] components(q),
        forall|p: Seq<char>, q: Seq<char>|
            created_paths(before, after).contains(p) && deleted_paths(before, after).contains(q)
                ==> #[trigger] components(p) != #[trigger] components(q),
        forall|p: Seq<char>, q: Seq<char>|
            modified_paths(before, after).contains(p) && deleted_paths(before, after).contains(q)
                ==> #[trigger] components(p) != #[trigger] components(q),
{
    assert forall|p: Seq<char>, q: Seq<char>|
        created_paths(before, after).contains(p) && modified_paths(before, after).contains(
            q,
        ) implies #[trigger] components(p) != #[trigger] components(q) by {
        lemma_listed(after, missing_from(before), p);
        lemma_listed(after, changed_since(before), q);
        lemma_same_file(before, p, q);
    }
    assert forall|p: Seq<char>, q: Seq<char>|
        created_paths(before, after).contains(p) && deleted_paths(before, after).contains(
            q,
        ) implies #[trigger] components(p) != #[trigger] components(q) by {
        lemma_listed(after, missing_from(before), p);
        lemma_listed(before, missing_from(after), q);
        lemma_same_file(before, p, q);
    }
    assert forall|p: Seq<char>, q: Seq<char>|
        modified_paths(before, after).contains(p) && deleted_paths(before, after).contains(
            q,
        ) implies #[trigger] components(p) != #[trigger] components(q) by {
        lemma_listed(after, changed_since(before), p);
        lemma_listed(before, missing_from(after), q);
        lemma_same_file(after, p, q);
    }
}

/// A path in a filtered list comes from a file that stands in the list and passes the filter.
proof fn lemma_listed(list: Seq<FileRecord>, keep: spec_fn(FileRecord) -> bool, path: Seq<char>)
    requires
        in_path_order(list),
        paths(list.filter(keep)).contains(path),
    ensures
        exists|f: FileRecord| #[trigger]
            keep(f) && f.0 == path && list.contains(f) && entry_for(list, path) == Some(f.1),
{
    let kept = list.filter(keep);
    let k = choose|k: int| 0 <= k < paths(kept).len() && paths(kept)[k] == path;
    list.lemma_filter_pred(keep, k);
    assert(kept.contains(kept[k]));
    list.lemma_filter_contains_rev(keep, kept[k]);
    let i = choose|i: int| 0 <= i < list.len() && list[i] == kept[k];
    assert(stands_at(list, path, i));
    lemma_stands_once(list, path, i);
    assert(keep(kept[k]));
}

/// Two paths with the same components have the same entry.
proof fn lemma_same_file(list: Seq<FileRecord>, p: Seq<char>, q: Seq<char>)
    requires
        in_path_order(list),
    ensures
        components(p) == components(q) ==> entry_for(list, p) == entry_for(list, q),
{
    if components(p) == components(q) {
        if exists|i: int| stands_at(list, p, i) {
            let i = choose|i: int| stands_at(list, p, i);
            assert(stands_at(list, q, i));
            lemma_stands_once(list, p, i);
            lemma_stands_once(list, q, i);
        } else {
            assert forall|i: int| !stands_at(list, q, i) by {
                if stands_at(list, q, i) {
                    assert(stands_at(list, p, i));
                }
            }
        }
    }
}

proof fn lemma_nothing_kept(list: Seq<FileRecord>, keep: spec_fn(FileRecord) -> bool)
    requires
        forall|i: int| 0 <= i < list.len() ==> !keep(#[trigger] list[i]),
    ensures
        paths(list.filter(keep)) == Seq::<Seq<char>>::empty(),
{
    let kept = list.filter(keep);
    if kept.len() > 0 {
        list.lemma_filter_pred(keep, 0);
        assert(kept.contains(kept[0]));
        list.lemma_filter_contains_rev(keep, kept[0]);
        let i = choose|i: int| 0 <= i < list.len() && list[i] == kept[0];
        assert(!keep(list[i]));
    }
    assert(paths(kept) =~= Seq::<Seq<char>>::empty());
}

/// Whether two snapshots hold the same files with the same contents, whatever their times and
/// sizes.
pub open spec fn same_contents(before: Seq<FileRecord>, after: Seq<FileRecord>) -> bool {
    forall|path: Seq<char>|
        match (#[trigger] entry_for(before, path), entry_for(after, path)) {
            (Some(x), Some(y)) => x.content_hash == y.content_hash,
            (None, None) => true,
            _ => false,
        }
}

/// Where nothing but times and sizes changed, no change is reported.
pub proof fn lemma_same_contents_no_change(before: Seq<FileRecord>, after: Seq<FileRecord>)
    requires
        in_path_order(before),
        in_path_order(after),
        same_contents(before, after),
    ensures
        created_paths(before, after) == Seq::<Seq<char>>::empty(),
        modified_paths(before, after) == Seq::<Seq<char>>::empty(),
        deleted_paths(before, after) == Seq::<Seq<char>>::empty(),
{
    assert forall|i: int| 0 <= i < after.len() implies !missing_from(before)(#[trigger] after[i])
        && !changed_since(before)(after[i]) by {
        assert(stands_at(after, after[i].0, i));
        lemma_stands_once(after, after[i].0, i);
        assert(entry_for(before, after[i].0) is Some);
    }
    assert forall|i: int| 0 <= i < before.len() implies !missing_from(after)(#[trigger] before[i]) by {
        assert(stands_at(before, before[i].0, i));
        lemma_stands_once(before, before[i].0, i);
        assert(entry_for(before, before[i].0) is Some);
    }
    lemma_nothing_kept(after, missing_from(before));
    lemma_nothing_kept(after, changed_since(before));
    lemma_nothing_kept(before, missing_from(after));
}

/// The components of each path.
pub open spec fn all_components(list: Seq<Seq<char>>) -> Seq<Seq<Seq<char>>> {
    list.map_values(|path: Seq<char>| components(path))
}

/// Lists in path order that name the same files name them in the same order.
proof fn lemma_same_order(a: Seq<Seq<char>>, b: Seq<Seq<char>>)
    requires
        paths_in_order(a),
        paths_in_order(b),
        forall|path: Seq<char>| #[trigger] names_file(a, path) <==> names_file(b, path),
    ensures
        all_components(a) == all_components(b),
    decreases a.len(),
{
    if a.len() == 0 {
        if b.len() > 0 {
            assert(names_file(b, b[0]));
            assert(names_file(a, b[0]));
        }
    } else {
        assert(names_file(a, a.last())) by {
            assert(components(a[a.len() - 1]) == components(a.last()));
        }
        assert(names_file(b, a.last()));
        let i = choose|i: int| 0 <= i < b.len() && components(#[trigger] b[i]) == components(a.last());
        assert(names_file(b, b.last())) by {
            assert(components(b[b.len() - 1]) == components(b.last()));
        }
        assert(names_file(a, b.last()));
        let j = choose|j: int| 0 <= j < a.len() && components(#[trigger] a[j]) == components(b.last());
        if i < b.len() - 1 {
            assert(path_less(b[i], b[b.len() - 1]));
            assert(path_key(b[i]) == path_key(a.last()));
            assert(path_key(a[j]) == path_key(b.last()));
            if j < a.len() - 1 {
                assert(path_less(a[j], a[a.len() - 1]));
                lemma_lex_transitive(path_key(a.last()), path_key(b.last()), path_key(a.last()));
            }
            lemma_lex_irreflexive(path_key(a.last()));
        }
        assert(components(b.last()) == components(a.last()));
        let fronts = (a.drop_last(), b.drop_last());
        assert forall|path: Seq<char>| #[trigger]
            names_file(fronts.0, path) <==> names_file(fronts.1, path) by {
            lemma_named_before(a, path);
            lemma_named_before(b, path);
            assert(names_file(a, path) <==> names_file(b, path));
        }
        lemma_same_order(fronts.0, fronts.1);
        assert(all_components(a) =~= all_components(fronts.0).push(components(a.last())));
        assert(all_components(b) =~= all_components(fronts.1).push(components(b.last())));
    }
    assert(all_components(a) =~= all_components(b));
}

/// In a list in path order the last file is not named before.
proof fn lemma_named_before(list: Seq<Seq<char>>, path: Seq<char>)
    requires
        paths_in_order(list),
        list.len() > 0,
    ensures
        names_file(list.drop_last(), path) <==> names_file(list, path) && components(path)
            != components(list.last()),
{
    let front = list.drop_last();
    if names_file(front, path) {
        let i = choose|i: int| 0 <= i < front.len() && components(#[trigger] front[i]) == components(path);
        assert(components(list[i]) == components(path));
        assert(path_less(list[i], list[list.len() - 1]));
        if components(path) == components(list.last()) {
            lemma_lex_irreflexive(path_key(path));
        }
    }
    if names_file(list, path) && components(path) != components(list.last()) {
        let i = choose|i: int| 0 <= i < list.len() && components(#[trigger] list[i]) == components(path);
        assert(i < list.len() - 1);
        assert(components(front[i]) == components(path));
    }
}

/// What is created one way round is deleted the other way round, and what is modified is the same,
/// whatever form its path has on either side.
pub proof fn lemma_swap(before: Seq<FileRecord>, after: Seq<FileRecord>)
    requires
        in_path_order(before),
        in_path_order(after),
    ensures
        created_paths(before, after) == deleted_paths(after, before),
        deleted_paths(before, after) == created_paths(after, before),
        all_components(modified_paths(before, after)) == all_components(
            modified_paths(after, before),
        ),
{
    let one = modified_paths(before, after);
    let other = modified_paths(after, before);
    lemma_kept_paths_in_order(after, changed_since(before));
    lemma_kept_paths_in_order(before, changed_since(after));
    assert forall|path: Seq<char>| #[trigger] names_file(one, path) <==> names_file(other, path) by {
        lemma_every_change_listed(before, after, path);
        lemma_every_change_listed(after, before, path);
    }
    lemma_same_order(one, other);
}

/// Every list of changes is in path order.
pub proof fn lemma_changes_in_order(list: Seq<FileRecord>, keep: spec_fn(FileRecord) -> bool)
    requires
        in_path_order(list),
    ensures
        in_path_order(list.filter(keep)),
    decreases list.len(),
{
    reveal(Seq::filter);
    if list.len() > 0 {
        let front = list.drop_last();
        assert(front.push(list.last()) =~= list);
        assert(in_path_order(front)) by {
            assert forall|i: int, j: int| 0 <= i < j < front.len() implies path_less(
                (#[trigger] front[i]).0,
                (#[trigger] front[j]).0,
            ) by {
                assert(path_less(list[i].0, list[j].0));
            }
        }
        lemma_changes_in_order(front, keep);
        front.lemma_filter_push(list.last(), keep);
        let kept = front.filter(keep);
        let all = list.filter(keep);
        assert forall|i: int, j: int| 0 <= i < j < all.len() implies path_less(
            (#[trigger] all[i]).0,
            (#[trigger] all[j]).0,
        ) by {
            if j < kept.len() {
                assert(path_less(kept[i].0, kept[j].0));
            } else {
                assert(all[i] == kept[i]);
                assert(kept.contains(kept[i]));
                front.lemma_filter_contains_rev(keep, kept[i]);
                let k = choose|k: int| 0 <= k < front.len() && front[k] == kept[i];
                assert(path_less(list[k].0, list[list.len() - 1].0));
            }
        }
    }
}

/// Whether a list of paths names a file, in whatever form.
pub open spec fn names_file(list: Seq<Seq<char>>, path: Seq<char>) -> bool {
    exists|i: int| 0 <= i < list.len() && components(#[trigger] list[i]) == components(path)
}

/// The three lists of changes are complete: they name every file that came, went, or has another
/// content, and no other.
pub proof fn lemma_every_change_listed(
    before: Seq<FileRecord>,
    after: Seq<FileRecord>,
    path: Seq<char>,
)
    requires
        in_path_order(before),
        in_path_order(after),
    ensures
        names_file(created_paths(before, after), path) <==> entry_for(before, path) is None
            && entry_for(after, path) is Some,
        names_file(deleted_paths(before, after), path) <==> entry_for(before, path) is Some
            && entry_for(after, path) is None,
        names_file(modified_paths(before, after), path) <==> entry_for(before, path) is Some
            && entry_for(after, path) is Some && entry_for(before, path)->0.content_hash
            != entry_for(after, path)->0.content_hash,
{
    lemma_named_after_filter(after, missing_from(before), path);
    lemma_named_after_filter(before, missing_from(after), path);
    lemma_named_after_filter(after, changed_since(before), path);
    if entry_for(after, path) is Some {
        let i = choose|i: int| stands_at(after, path, i);
        lemma_stands_once(after, path, i);
        lemma_same_file(before, after[i].0, path);
    }
    if entry_for(before, path) is Some {
        let i = choose|i: int| stands_at(before, path, i);
        lemma_stands_once(before, path, i);
        lemma_same_file(after, before[i].0, path);
    }
}

/// A filtered list names a file exactly where the file stands in the list and passes the filter.
proof fn lemma_named_after_filter(
    list: Seq<FileRecord>,
    keep: spec_fn(FileRecord) -> bool,
    path: Seq<char>,
)
    ensures
        names_file(paths(list.filter(keep)), path) <==> exists|i: int| #[trigger]
            stands_at(list, path, i) && keep(list[i]),
{
    let kept = list.filter(keep);
    let named = paths(kept);
    if names_file(named, path) {
        let k = choose|k: int|
            0 <= k < named.len() && components(#[trigger] named[k]) == components(path);
        list.lemma_filter_pred(keep, k);
        assert(kept.contains(kept[k]));
        list.lemma_filter_contains_rev(keep, kept[k]);
        let i = choose|i: int| 0 <= i < list.len() && list[i] == kept[k];
        assert(stands_at(list, path, i));
    }
    if exists|i: int| #[trigger] stands_at(list, path, i) && keep(list[i]) {
        let i = choose|i: int| #[trigger] stands_at(list, path, i) && keep(list[i]);
        list.lemma_filter_contains(keep, i);
        let k = choose|k: int| 0 <= k < kept.len() && kept[k] == list[i];
        assert(components(named[k]) == components(path));
    }
}

/// The content of a file is kept for a comparison where the file takes half a mebibyte or less, an
/// empty one as well, and of no larger file; the files kept stand in their order.
pub proof fn lemma_what_is_kept(files: Seq<FileRecord>, file: FileRecord)
    ensures
        paths(Seq::<FileRecord>::empty().filter(is_kept())) == Seq::<Seq<char>>::empty(),
        file.1.size <= 512 * 1024 ==> paths(files.push(file).filter(is_kept())) == paths(
            files.filter(is_kept()),
        ).push(file.0),
        file.1.size > 512 * 1024 ==> paths(files.push(file).filter(is_kept())) == paths(
            files.filter(is_kept()),
        ),
{
    let none = Seq::<FileRecord>::empty();
    assert(none.filter(is_kept()) =~= none) by {
        reveal(Seq::filter);
    }
    assert(paths(none) =~= Seq::<Seq<char>>::empty());
    files.lemma_filter_push(file, is_kept());
    let kept = files.filter(is_kept());
    assert(paths(kept.push(file)) =~= paths(kept).push(file.0));
}

/// How the lines of a difference look: bold where they name the two files, cyan where a hunk begins,
/// green where a line was added, red where one was taken away, and plain where nothing changed.
pub proof fn lemma_looks_of_lines(c: char, rest: Seq<char>)
    ensures
        line_style(Seq::empty()) == Style::Plain,
        line_style(seq!['-', '-', '-', ' '] + rest) == Style::Bold,
        line_style(seq!['+', '+', '+', ' '] + rest) == Style::Bold,
        line_style(seq!['@', '@'] + rest) == Style::Cyan,
        c != '+' && c != '-' && c != '@' ==> line_style(seq![c] + rest) == Style::Plain,
        rest.len() == 0 || rest[0] != '@' ==> line_style(seq!['@'] + rest) == Style::Plain,
        rest.len() == 0 || rest[0] != '+' ==> line_style(seq!['+'] + rest) == Style::Green,
        rest.len() == 0 || rest[0] != '-' ==> line_style(seq!['-'] + rest) == Style::Red,
        rest.len() < 2 || rest[1] != ' ' ==> line_style(seq!['+', '+'] + rest) == Style::Green
            && line_style(seq!['-', '-'] + rest) == Style::Red,
{
    reveal_strlit("--- ");
    reveal_strlit("+++ ");
    reveal_strlit("@@");
    let minus = seq!['-', '-', '-', ' '];
    let plus = seq!['+', '+', '+', ' '];
    let at = seq!['@', '@'];
    assert("--- "@ =~= minus);
    assert("+++ "@ =~= plus);
    assert("@@"@ =~= at);
    lemma_begins_so(minus, rest);
    lemma_begins_so(plus, rest);
    lemma_begins_so(at, rest);
    lemma_first_characters(at + rest, minus);
    lemma_first_characters(at + rest, plus);
    lemma_first_characters(seq![c] + rest, minus);
    lemma_first_characters(seq![c] + rest, plus);
    lemma_first_characters(seq![c] + rest, at);
    lemma_first_characters(seq!['@'] + rest, minus);
    lemma_first_characters(seq!['@'] + rest, plus);
    lemma_first_characters(seq!['@'] + rest, at);
    lemma_first_characters(seq!['+'] + rest, minus);
    lemma_first_characters(seq!['+'] + rest, plus);
    lemma_first_characters(seq!['+'] + rest, at);
    lemma_first_characters(seq!['-'] + rest, minus);
    lemma_first_characters(seq!['-'] + rest, plus);
    lemma_first_characters(seq!['-'] + rest, at);
    lemma_first_characters(seq!['+', '+'] + rest, minus);
    lemma_first_characters(seq!['+', '+'] + rest, plus);
    lemma_first_characters(seq!['+', '+'] + rest, at);
    lemma_first_characters(seq!['-', '-'] + rest, minus);
    lemma_first_characters(seq!['-', '-'] + rest, plus);
    lemma_first_characters(seq!['-', '-'] + rest, at);
}

proof fn lemma_begins_so(front: Seq<char>, rest: Seq<char>)
    ensures
        has_prefix(front + rest, front),
{
    assert((front + rest).subrange(0, front.len() as int) =~= front);
}

proof fn lemma_first_characters(text: Seq<char>, front: Seq<char>)
    requires
        front.len() == 2 || front.len() == 4,
    ensures
        has_prefix(text, front) ==> text.len() >= front.len() && text[0] == front[0] && text[1]
            == front[1],
        has_prefix(text, front) && front.len() == 4 ==> text[2] == front[2] && text[3] == front[3],
{
    if has_prefix(text, front) {
        let cut = text.subrange(0, front.len() as int);
        assert(cut[0] == text[0]);
        assert(cut[1] == text[1]);
        if front.len() == 4 {
            assert(cut[2] == text[2]);
            assert(cut[3] == text[3]);
        }
    }
}

/// A difference is shown line by line: one more line is shown behind the others, in its look, and a
/// line feed behind it.
pub proof fn lemma_one_more_shown_line(content: Seq<char>, line: Seq<char>)
    requires
        is_whole_lines(content),
        is_line(line),
        line.len() == 0 || line.last() != '\r',
    ensures
        diff_pieces(Seq::empty()) == Seq::<Piece>::empty(),
        diff_pieces(content + line.push('\n')) == diff_pieces(content) + seq![
            (line, line_style(line)),
            (seq!['\n'], Style::Plain),
        ],
{
    lemma_no_lines();
    lemma_line_ends(line);
    lemma_lines_add(content, line.push('\n'));
    let before = lines(content);
    assert(lines(content + line.push('\n')) =~= before.push(line));
    lemma_line_pieces_front(before, line, before.len());
    reveal_strlit("\n");
    assert("\n"@ =~= seq!['\n']);
    assert(before.push(line)[before.len() as int] == line);
}

proof fn lemma_line_pieces_front(list: Seq<Seq<char>>, line: Seq<char>, n: nat)
    requires
        n <= list.len(),
    ensures
        line_pieces(list.push(line), n) == line_pieces(list, n),
    decreases n,
{
    if n > 0 {
        lemma_line_pieces_front(list, line, (n - 1) as nat);
        assert(list.push(line)[n - 1] == list[n - 1]);
    }
}

/// A difference names the file twice, and then holds the hunks in their order, with nothing between.
pub proof fn lemma_one_more_hunk(name: Seq<char>, hunks: Seq<Seq<char>>, hunk: Seq<char>)
    ensures
        unified_text(name, Seq::empty()) == "--- a/"@ + name + "\n"@ + "+++ b/"@ + name + "\n"@,
        unified_text(name, hunks.push(hunk)) == unified_text(name, hunks) + hunk,
{
    lemma_one_more_joined(hunks, hunk, hunk, name);
    assert(unified_text(name, Seq::empty()) =~= "--- a/"@ + name + "\n"@ + "+++ b/"@ + name + "\n"@);
    assert(unified_text(name, hunks.push(hunk)) =~= unified_text(name, hunks) + hunk);
}

/// A file keeps its whole path in a difference where no workspace is known or the file lies outside
/// it; else what is left of the path below the workspace names it.
pub proof fn lemma_names_in_differences(path: Seq<char>, base: Seq<char>)
    ensures
        shown_name(path, None) == path,
        !components(base).is_prefix_of(components(path)) ==> shown_name(path, Some(base)) == path,
        components(base).is_prefix_of(components(path)) ==> relative_to(path, base) is Some
            && shown_name(path, Some(base)) == relative_to(path, base)->0,
{
}

} // verus!
