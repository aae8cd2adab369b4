//! Following what happens to the files of a workspace.

use std::collections::HashMap;
use vstd::prelude::*;

use crate::config::{excluded, Config};
use crate::diff::{entry_for, in_path_order, lemma_stands_once, FileRecord, FileSnapshot};
use crate::events::{moment, Event, FileEvent};
use crate::path::{join_path, joined};
use crate::path_set::{holds, in_order, PathSet};
use crate::text::texts;
use crate::time::{is_clock_time, Timestamp};

verus! {

/// What happened to a file.
#[derive(Debug, Clone, Copy, PartialEq, Eq, Structural)]
pub enum FileChange {
    Created,
    Modified,
    Deleted,
    Read,
}

/// A notice from the system: something happened in a watched directory.
#[derive(Debug, Clone)]
pub struct Notice {
    /// The number of the watch.
    pub watch: i32,
    /// The name of what it happened to.
    pub name: Option<String>,
    /// Whether that is a directory.
    pub is_dir: bool,
    pub create: bool,
    pub modify: bool,
    pub delete: bool,
    pub access: bool,
}

/// What a notice comes to.
#[derive(Debug, Clone)]
pub struct Finding {
    /// The path of what it happened to.
    pub path: String,
    /// Whether it is a new directory, to be watched too.
    pub new_directory: bool,
    /// What happened, if it is of interest.
    pub change: Option<FileChange>,
}

/// What happened, by the first flag of a notice that is of interest.
pub open spec fn noticed_change(notice: Notice) -> Option<FileChange> {
    if notice.create {
        Some(FileChange::Created)
    } else if notice.modify {
        Some(FileChange::Modified)
    } else if notice.delete {
        Some(FileChange::Deleted)
    } else if notice.access {
        Some(FileChange::Read)
    } else {
        None
    }
}

/// The path that a notice speaks of, where its watch is known and it has a name.
pub open spec fn noticed_path(watches: Map<i32, String>, notice: Notice) -> Option<Seq<char>> {
    if watches.contains_key(notice.watch) && notice.name is Some {
        Some(joined(watches[notice.watch]@, notice.name->0@))
    } else {
        None
    }
}

/// The directories that are watched, by the numbers of their watches.
pub struct WatchTable {
    dirs: HashMap<i32, String>,
}

impl View for WatchTable {
    type V = Map<i32, String>;

    closed spec fn view(&self) -> Map<i32, String> {
        self.dirs@
    }
}

impl WatchTable {
    /// A table without watches.
    pub fn new() -> (r: WatchTable)
        ensures
            r@ == Map::<i32, String>::empty(),
    {
        WatchTable { dirs: HashMap::new() }
    }

    /// Takes a watch down.
    pub fn insert(&mut self, watch: i32, dir: String)
        ensures
            final(self)@ == old(self)@.insert(watch, dir),
    {
        broadcast use vstd::std_specs::hash::group_hash_axioms;

        self.dirs.insert(watch, dir);
    }

    /// What a notice comes to. Notices of unknown watches, of the watched directory itself and of
    /// paths that the settings leave out come to nothing.
    fn consider(&self, config: &Config, notice: &Notice) -> (r: Option<Finding>)
        ensures
            match r {
                Some(finding) => {
                    &&& noticed_path(self@, *notice) == Some(finding.path@)
                    &&& !excluded(texts(config.exclude_patterns@), finding.path@)
                    &&& finding.new_directory == (notice.is_dir && notice.create)
                    &&& finding.change == noticed_change(*notice)
                },
                None => {
                    ||| noticed_path(self@, *notice) is None
                    ||| excluded(
                        texts(config.exclude_patterns@),
                        noticed_path(self@, *notice)->0,
                    )
                },
            },
    {
        broadcast use vstd::std_specs::hash::group_hash_axioms;

        let dir = match self.dirs.get(&notice.watch) {
            None => {
                return None;
            },
            Some(dir) => dir,
        };
        let name = match &notice.name {
            None => {
                return None;
            },
            Some(name) => name,
        };
        let path = join_path(dir.as_str(), name.as_str());
        if config.should_exclude(path.as_str()) {
            return None;
        }
        let change = if notice.create {
            Some(FileChange::Created)
        } else if notice.modify {
            Some(FileChange::Modified)
        } else if notice.delete {
            Some(FileChange::Deleted)
        } else if notice.access {
            Some(FileChange::Read)
        } else {
            None
        };
        Some(Finding { path, new_directory: notice.is_dir && notice.create, change })
    }
}

/// Whether an event tells of a change, at a moment that the clock can tell.
pub open spec fn tells(event: Event, path: Seq<char>, change: FileChange, size: Option<u64>) -> bool {
    &&& is_clock_time(moment(event))
    &&& match (event, change) {
        (Event::FileCreated(e), FileChange::Created) => e.path@ == path && e.size_bytes == size,
        (Event::FileModified(e), FileChange::Modified) => e.path@ == path && e.size_bytes == size,
        (Event::FileDeleted(e), FileChange::Deleted) => e.path@ == path && e.size_bytes is None,
        _ => false,
    }
}

/// What was seen of the files of a workspace.
pub struct FsWatcher {
    workspace: String,
    config: Config,
    events: Vec<Event>,
    read: PathSet,
}

impl FsWatcher {
    /// The directory that is watched.
    pub closed spec fn root(&self) -> Seq<char> {
        self.workspace@
    }

    /// The settings that say which paths are left out.
    pub closed spec fn settings(&self) -> Config {
        self.config
    }

    /// The events that were not handed out yet.
    pub closed spec fn pending(&self) -> Seq<Event> {
        self.events@
    }

    /// The paths of files that were read, in order.
    pub closed spec fn reads(&self) -> Seq<Seq<char>> {
        self.read.list()
    }

    /// A watcher that has seen nothing yet.
    pub fn new(workspace: String, config: Config) -> (r: FsWatcher)
        ensures
            r.root() == workspace@,
            r.settings() == config,
            r.pending() == Seq::<Event>::empty(),
            r.reads() == Seq::<Seq<char>>::empty(),
    {
        FsWatcher { workspace, config, events: Vec::new(), read: PathSet::new() }
    }

    /// The directory that is watched.
    pub fn workspace(&self) -> (r: String)
        ensures
            r@ == self.root(),
    {
        self.workspace.clone()
    }

    /// What a notice comes to.
    pub fn consider(&self, table: &WatchTable, notice: &Notice) -> (r: Option<Finding>)
        ensures
            match r {
                Some(finding) => {
                    &&& noticed_path(table@, *notice) == Some(finding.path@)
                    &&& !excluded(texts(self.settings().exclude_patterns@), finding.path@)
                    &&& finding.new_directory == (notice.is_dir && notice.create)
                    &&& finding.change == noticed_change(*notice)
                },
                None => {
                    ||| noticed_path(table@, *notice) is None
                    ||| excluded(
                        texts(self.settings().exclude_patterns@),
                        noticed_path(table@, *notice)->0,
                    )
                },
            },
    {
        table.consider(&self.config, notice)
    }

    /// Takes a change down: a file that was read among the paths, once, and any other change as an
    /// event with the size of the file and the present moment.
    pub fn take_down(&mut self, path: String, change: FileChange, size: Option<u64>)
        ensures
            final(self).root() == old(self).root(),
            final(self).settings() == old(self).settings(),
            change == FileChange::Read ==> {
                &&& final(self).pending() == old(self).pending()
                &&& holds(old(self).reads(), path@) ==> final(self).reads() == old(self).reads()
                &&& !holds(old(self).reads(), path@) ==> exists|i: int|
                    #![trigger old(self).reads().insert(i, path@)]
                    0 <= i <= old(self).reads().len() && final(self).reads()
                        == old(self).reads().insert(i, path@)
                &&& in_order(final(self).reads())
            },
            change != FileChange::Read ==> {
                &&& final(self).reads() == old(self).reads()
                &&& final(self).pending().len() == old(self).pending().len() + 1
                &&& final(self).pending().drop_last() == old(self).pending()
                &&& tells(final(self).pending().last(), path@, change, size)
            },
    {
        let ghost before = self.events@;
        match change {
            FileChange::Created => {
                let event = FileEvent { path, timestamp: Timestamp::now(), size_bytes: size };
                self.events.push(Event::FileCreated(event));
                assert(self.events@.drop_last() =~= before);
            },
            FileChange::Modified => {
                let event = FileEvent { path, timestamp: Timestamp::now(), size_bytes: size };
                self.events.push(Event::FileModified(event));
                assert(self.events@.drop_last() =~= before);
            },
            FileChange::Deleted => {
                let event = FileEvent { path, timestamp: Timestamp::now(), size_bytes: None };
                self.events.push(Event::FileDeleted(event));
                assert(self.events@.drop_last() =~= before);
            },
            FileChange::Read => {
                let _ = self.read.insert(path);
            },
        }
    }

    /// Hands out the events that were not handed out yet.
    pub fn drain_events(&mut self) -> (r: Vec<Event>)
        ensures
            r@ == old(self).pending(),
            final(self).pending() == Seq::<Event>::empty(),
            final(self).reads() == old(self).reads(),
            final(self).root() == old(self).root(),
            final(self).settings() == old(self).settings(),
    {
        let mut events: Vec<Event> = Vec::new();
        std::mem::swap(&mut events, &mut self.events);
        events
    }

    /// The paths of files that were read, in order, each once.
    pub fn read_paths(&self) -> (r: Vec<String>)
        ensures
            texts(r@) == self.reads(),
            in_order(self.reads()),
    {
        self.read.to_list()
    }
}

/// A change that a comparison of two looks shows.
#[derive(Debug, Clone)]
pub struct PolledChange {
    pub path: String,
    pub change: FileChange,
}

/// The changes that a list holds.
pub open spec fn changes(list: Seq<PolledChange>) -> Seq<(Seq<char>, FileChange)> {
    list.map_values(|c: PolledChange| (c.path@, c.change))
}

/// What a file of the later look shows: it is new, or its time of modification is another one.
pub open spec fn appeared(known: Seq<FileRecord>, file: FileRecord) -> Option<
    (Seq<char>, FileChange),
> {
    match entry_for(known, file.0) {
        None => Some((file.0, FileChange::Created)),
        Some(entry) => if entry.mtime != file.1.mtime {
            Some((file.0, FileChange::Modified))
        } else {
            None
        },
    }
}

/// What a file of the earlier look shows: it is gone.
pub open spec fn vanished(current: Seq<FileRecord>, file: FileRecord) -> Option<
    (Seq<char>, FileChange),
> {
    if entry_for(current, file.0) is None {
        Some((file.0, FileChange::Deleted))
    } else {
        None
    }
}

/// The changes between two looks: first what is new or modified, and then what is gone, each in
/// path order.
pub open spec fn polled(known: Seq<FileRecord>, current: Seq<FileRecord>) -> Seq<
    (Seq<char>, FileChange),
> {
    current.filter_map(|f: FileRecord| appeared(known, f)) + known.filter_map(
        |f: FileRecord| vanished(current, f),
    )
}

/// Tells what changed between two looks, by the times of modification.
pub fn poll_changes(known: &FileSnapshot, current: &FileSnapshot) -> (r: Vec<PolledChange>)
    ensures
        changes(r@) == polled(known.files(), current.files()),
{
    let ghost old_files = known.files();
    let ghost new_files = current.files();
    let ghost came = |f: FileRecord| appeared(old_files, f);
    let ghost went = |f: FileRecord| vanished(new_files, f);
    let mut out: Vec<PolledChange> = Vec::new();
    let mut i: usize = 0;
    proof {
        reveal(Seq::filter_map);
        assert(new_files.take(0) =~= Seq::empty());
        assert(changes(out@) =~= new_files.take(0).filter_map(came));
    }
    while i < current.len()
        invariant
            i <= new_files.len(),
            old_files == known.files(),
            new_files == current.files(),
            came == (|f: FileRecord| appeared(old_files, f)),
            changes(out@) == new_files.take(i as int).filter_map(came),
        decreases new_files.len() - i,
    {
        let ghost before = changes(out@);
        let path = current.path_at(i);
        let entry = current.entry_at(i);
        let ghost name = path@;
        proof {
            new_files.lemma_filter_map_take_succ(came, i as int);
        }
        match known.get(path.as_str()) {
            None => {
                out.push(PolledChange { path, change: FileChange::Created });
                assert(changes(out@) =~= before.push((name, FileChange::Created)));
            },
            Some(old_entry) => {
                if old_entry.mtime != entry.mtime {
                    out.push(PolledChange { path, change: FileChange::Modified });
                    assert(changes(out@) =~= before.push((name, FileChange::Modified)));
                }
            },
        }
        i += 1;
        assert(changes(out@) =~= new_files.take(i as int).filter_map(came));
    }
    assert(new_files.take(i as int) =~= new_files);
    let ghost first = changes(out@);
    let mut k: usize = 0;
    proof {
        reveal(Seq::filter_map);
        assert(old_files.take(0) =~= Seq::empty());
        assert(changes(out@) =~= first + old_files.take(0).filter_map(went));
    }
    while k < known.len()
        invariant
            k <= old_files.len(),
            old_files == known.files(),
            new_files == current.files(),
            went == (|f: FileRecord| vanished(new_files, f)),
            changes(out@) == first + old_files.take(k as int).filter_map(went),
        decreases old_files.len() - k,
    {
        let ghost before = changes(out@);
        let path = known.path_at(k);
        let ghost name = path@;
        proof {
            old_files.lemma_filter_map_take_succ(went, k as int);
        }
        if !current.contains_key(path.as_str()) {
            out.push(PolledChange { path, change: FileChange::Deleted });
            assert(changes(out@) =~= before.push((name, FileChange::Deleted)));
        }
        k += 1;
        assert(changes(out@) =~= first + old_files.take(k as int).filter_map(went));
    }
    assert(old_files.take(k as int) =~= old_files);
    out
}

/// Where no file came, went, or got another time of modification, nothing is reported.
pub proof fn lemma_still_workspace(known: Seq<FileRecord>, current: Seq<FileRecord>)
    requires
        forall|path: Seq<char>|
            match (#[trigger] entry_for(known, path), entry_for(current, path)) {
                (Some(x), Some(y)) => x.mtime == y.mtime,
                (None, None) => true,
                _ => false,
            },
        in_path_order(known),
        in_path_order(current),
    ensures
        polled(known, current) == Seq::<(Seq<char>, FileChange)>::empty(),
{
    let came = |f: FileRecord| appeared(known, f);
    let went = |f: FileRecord| vanished(current, f);
    assert forall|i: int| 0 <= i < current.len() implies came(#[trigger] current[i]) is None by {
        lemma_stands_once(current, current[i].0, i);
        assert(entry_for(known, current[i].0) is Some);
    }
    assert forall|i: int| 0 <= i < known.len() implies went(#[trigger] known[i]) is None by {
        lemma_stands_once(known, known[i].0, i);
        assert(entry_for(known, known[i].0) is Some);
    }
    lemma_none_shown(current, came);
    lemma_none_shown(known, went);
}

proof fn lemma_none_shown(
    list: Seq<FileRecord>,
    read: spec_fn(FileRecord) -> Option<(Seq<char>, FileChange)>,
)
    requires
        forall|i: int| 0 <= i < list.len() ==> read(#[trigger] list[i]) is None,
    ensures
        list.filter_map(read) == Seq::<(Seq<char>, FileChange)>::empty(),
    decreases list.len(),
{
    reveal(Seq::filter_map);
    if list.len() > 0 {
        let n = list.len() - 1;
        let front = list.take(n);
        assert forall|i: int| 0 <= i < front.len() implies read(#[trigger] front[i]) is None by {
            assert(read(list[i]) is None);
        }
        lemma_none_shown(front, read);
        list.lemma_filter_map_take_succ(read, n);
        assert(list.take(n + 1) =~= list);
        assert(read(list[n]) is None);
    }
    assert(list.filter_map(read) =~= Seq::<(Seq<char>, FileChange)>::empty());
}

/// A notice counts as the creation of what it names wherever it tells of one, else as a change, else
/// as a deletion, else as a reading, whether it is a file or a directory; and its path is that of the
/// watched directory, a separator, and the name.
pub proof fn lemma_what_a_notice_tells(
    watches: Map<i32, String>,
    notice: Notice,
    dir: Seq<char>,
    name: Seq<char>,
)
    ensures
        notice.create ==> noticed_change(notice) == Some(FileChange::Created),
        !notice.create && notice.modify ==> noticed_change(notice) == Some(FileChange::Modified),
        !notice.create && !notice.modify && notice.delete ==> noticed_change(notice) == Some(
            FileChange::Deleted,
        ),
        !notice.create && !notice.modify && !notice.delete && notice.access ==> noticed_change(
            notice,
        ) == Some(FileChange::Read),
        !notice.create && !notice.modify && !notice.delete && !notice.access ==> noticed_change(
            notice,
        ) is None,
        watches.contains_key(notice.watch) && watches[notice.watch]@ == dir && (
        notice.name matches Some(text) && text@ == name) && dir.len() > 0 && dir.last() != '/'
            && name.len() > 0 && name[0] != '/' ==> noticed_path(watches, notice) == Some(
            dir + seq!['/'] + name,
        ),
        !watches.contains_key(notice.watch) || notice.name is None ==> noticed_path(
            watches,
            notice,
        ) is None,
{
}

/// What an event that tells of a change holds: its path, its size unless the file is gone, and a
/// moment with a date.
pub proof fn lemma_what_an_event_tells(
    event: Event,
    path: Seq<char>,
    change: FileChange,
    size: Option<u64>,
)
    requires
        tells(event, path, change, size),
    ensures
        change == FileChange::Created ==> (event matches Event::FileCreated(e) && e.path@ == path
            && e.size_bytes == size && is_clock_time(e.timestamp)),
        change == FileChange::Modified ==> (event matches Event::FileModified(e) && e.path@ == path
            && e.size_bytes == size && is_clock_time(e.timestamp)),
        change == FileChange::Deleted ==> (event matches Event::FileDeleted(e) && e.path@ == path
            && e.size_bytes is None && is_clock_time(e.timestamp)),
        change != FileChange::Read,
{
}

/// Between two looks a file counts as created where only the later one shows it, as modified where
/// both do with different times, as deleted where only the earlier one does; nothing else is told,
/// whatever sizes and contents the files have.
pub proof fn lemma_what_a_look_tells(
    known: Seq<FileRecord>,
    current: Seq<FileRecord>,
    path: Seq<char>,
    change: FileChange,
)
    ensures
        polled(known, current).contains((path, change)) <==> {
            ||| change == FileChange::Created && exists|i: int|
                0 <= i < current.len() && (#[trigger] current[i]).0 == path && entry_for(known, path)
                    is None
            ||| change == FileChange::Modified && exists|i: int|
                0 <= i < current.len() && (#[trigger] current[i]).0 == path && (entry_for(known, path)
                    matches Some(old_entry) && old_entry.mtime != current[i].1.mtime)
            ||| change == FileChange::Deleted && exists|i: int|
                0 <= i < known.len() && (#[trigger] known[i]).0 == path && entry_for(current, path)
                    is None
        },
{
    let came = |f: FileRecord| appeared(known, f);
    let went = |f: FileRecord| vanished(current, f);
    let a = current.filter_map(came);
    let b = known.filter_map(went);
    let all = polled(known, current);
    lemma_told(current, came, (path, change));
    lemma_told(known, went, (path, change));
    assert(all.contains((path, change)) <==> a.contains((path, change)) || b.contains(
        (path, change),
    )) by {
        if a.contains((path, change)) {
            let k = choose|k: int| 0 <= k < a.len() && a[k] == (path, change);
            assert(all[k] == (path, change));
        }
        if b.contains((path, change)) {
            let k = choose|k: int| 0 <= k < b.len() && b[k] == (path, change);
            assert(all[a.len() + k] == (path, change));
        }
        if all.contains((path, change)) {
            let k = choose|k: int| 0 <= k < all.len() && all[k] == (path, change);
            if k < a.len() {
                assert(a[k] == (path, change));
            } else {
                assert(b[k - a.len()] == (path, change));
            }
        }
    }
    if a.contains((path, change)) {
        let i = choose|i: int| 0 <= i < current.len() && came(#[trigger] current[i]) == Some(
            (path, change),
        );
        assert(current[i].0 == path);
    }
    if b.contains((path, change)) {
        let i = choose|i: int| 0 <= i < known.len() && went(#[trigger] known[i]) == Some(
            (path, change),
        );
        assert(known[i].0 == path);
    }
    if change == FileChange::Created && exists|i: int|
        0 <= i < current.len() && (#[trigger] current[i]).0 == path && entry_for(known, path)
            is None {
        let i = choose|i: int|
            0 <= i < current.len() && (#[trigger] current[i]).0 == path && entry_for(known, path)
                is None;
        assert(came(current[i]) == Some((path, change)));
    }
    if change == FileChange::Modified && exists|i: int|
        0 <= i < current.len() && (#[trigger] current[i]).0 == path && (entry_for(known, path)
            matches Some(old_entry) && old_entry.mtime != current[i].1.mtime) {
        let i = choose|i: int|
            0 <= i < current.len() && (#[trigger] current[i]).0 == path && (entry_for(known, path)
                matches Some(old_entry) && old_entry.mtime != current[i].1.mtime);
        assert(came(current[i]) == Some((path, change)));
    }
    if change == FileChange::Deleted && exists|i: int|
        0 <= i < known.len() && (#[trigger] known[i]).0 == path && entry_for(current, path)
            is None {
        let i = choose|i: int|
            0 <= i < known.len() && (#[trigger] known[i]).0 == path && entry_for(current, path)
                is None;
        assert(went(known[i]) == Some((path, change)));
    }
}

proof fn lemma_told(
    list: Seq<FileRecord>,
    read: spec_fn(FileRecord) -> Option<(Seq<char>, FileChange)>,
    told: (Seq<char>, FileChange),
)
    ensures
        list.filter_map(read).contains(told) <==> exists|i: int|
            0 <= i < list.len() && read(#[trigger] list[i]) == Some(told),
    decreases list.len(),
{
    reveal(Seq::filter_map);
    if list.len() > 0 {
        let n = list.len() - 1;
        let front = list.take(n);
        lemma_told(front, read, told);
        list.lemma_filter_map_take_succ(read, n);
        assert(list.take(n + 1) =~= list);
        let before = front.filter_map(read);
        let all = list.filter_map(read);
        if before.contains(told) {
            let k = choose|k: int| 0 <= k < before.len() && before[k] == told;
            assert(all[k] == told);
            let i = choose|i: int| 0 <= i < front.len() && read(#[trigger] front[i]) == Some(told);
            assert(read(list[i]) == Some(told));
        }
        if read(list[n]) == Some(told) {
            assert(all[before.len() as int] == told);
        }
        if all.contains(told) && !before.contains(told) {
            let k = choose|k: int| 0 <= k < all.len() && all[k] == told;
            if k < before.len() {
                assert(before[k] == told);
            }
            assert(read(list[n]) == Some(told));
        }
        if exists|i: int| 0 <= i < list.len() && read(#[trigger] list[i]) == Some(told) {
            let i = choose|i: int| 0 <= i < list.len() && read(#[trigger] list[i]) == Some(told);
            if i < n {
                assert(front[i] == list[i]);
            }
        }
    }
}

/// A list of changes holds each with the path that changed and what happened to it.
pub proof fn lemma_what_a_change_list_holds(list: Seq<PolledChange>, change: PolledChange)
    ensures
        changes(list.push(change)) == changes(list).push((change.path@, change.change)),
        changes(list).len() == list.len(),
{
    assert(changes(list.push(change)) =~= changes(list).push((change.path@, change.change)));
}

} // verus!
