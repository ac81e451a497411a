//! The change poller: snapshots of the markdown files of a folder, the
//! changes between two snapshots, and the state that decides which polling
//! session is the active one.

use crate::text::{bytes_le, lemma_lex_le_total_order, lex_le};
use crate::utils::{is_markdown_file, is_markdown_path};
use vstd::prelude::*;
use vstd::slice::*;
use vstd::string::*;
use vstd::utf8::*;

verus! {

/// The seconds between two polls of the watched folder.
pub const POLL_INTERVAL_SECS: u64 = 2;

/// The milliseconds that a new session waits after the previous one was
/// stopped, before it begins.
pub const SETTLE_DELAY_MILLIS: u64 = 100;

/// What happened to a file between two polls.
#[derive(Debug, Clone, Copy, PartialEq, Eq, Structural)]
pub enum ChangeType {
    /// The file is new.
    Created,
    /// The file's fingerprint differs.
    Modified,
    /// The file is gone.
    Deleted,
}

impl ChangeType {
    /// The name under which the change is reported.
    pub open spec fn name_text(self) -> Seq<char> {
        match self {
            ChangeType::Created => "created"@,
            ChangeType::Modified => "modified"@,
            ChangeType::Deleted => "deleted"@,
        }
    }

    /// The name under which the change is reported.
    pub fn name(&self) -> (text: String)
        ensures
            text@ == self.name_text(),
    {
        match self {
            ChangeType::Created => String::from_str("created"),
            ChangeType::Modified => String::from_str("modified"),
            ChangeType::Deleted => String::from_str("deleted"),
        }
    }
}

/// One change of one file.
#[derive(Debug, Clone, PartialEq, Eq)]
pub struct FileChangeEvent {
    /// The path of the file.
    pub path: String,
    /// What happened to it.
    pub change_type: ChangeType,
}

/// A change as a mathematical value.
pub struct FileChangeView {
    pub path: Seq<char>,
    pub change_type: ChangeType,
}

impl View for FileChangeEvent {
    type V = FileChangeView;

    open spec fn view(&self) -> FileChangeView {
        FileChangeView { path: self.path@, change_type: self.change_type }
    }
}

/// The changes of a list as mathematical values.
pub open spec fn changes_view(events: Seq<FileChangeEvent>) -> Seq<FileChangeView> {
    events.map_values(|e: FileChangeEvent| e@)
}

/// The fingerprint of a file: its size, combined bit by bit (exclusive or)
/// with the whole seconds from the epoch to its last change; a file whose
/// time of change is not known counts as changed at the epoch.
pub open spec fn fingerprint_of(size: u64, modified_secs: Option<u64>) -> u64 {
    match modified_secs {
        Some(secs) => size ^ secs,
        None => size,
    }
}

/// Computes the fingerprint of a file from its size and the time of its
/// last change.
pub fn fingerprint(size: u64, modified_secs: Option<u64>) -> (print: u64)
    ensures
        print == fingerprint_of(size, modified_secs),
{
    match modified_secs {
        Some(secs) => size ^ secs,
        None => {
            assert(size ^ 0 == size) by (bit_vector);
            size ^ 0
        },
    }
}

/// Two sizes at one time of change have different fingerprints: a file that
/// grows or shrinks within the same second is seen to change.
pub proof fn lemma_fingerprint_tells_sizes_apart(a: u64, b: u64, modified_secs: Option<u64>)
    requires
        a != b,
    ensures
        fingerprint_of(a, modified_secs) != fingerprint_of(b, modified_secs),
{
    match modified_secs {
        Some(secs) => {
            assert(a != b ==> a ^ secs != b ^ secs) by (bit_vector);
        },
        None => {},
    }
}

/// One file of a snapshot.
#[derive(Debug, Clone, PartialEq, Eq)]
pub struct SnapshotEntry {
    /// The path of the file.
    pub path: String,
    /// Its fingerprint.
    pub fingerprint: u64,
}

/// Whether `a` comes before `b` in the order of snapshots: the bytewise
/// order of the paths.
pub open spec fn path_before(a: Seq<char>, b: Seq<char>) -> bool {
    a != b && lex_le(encode_utf8(a), encode_utf8(b))
}

/// Whether the entries are those of a snapshot: in the order of their paths,
/// so that no path occurs twice.
pub open spec fn is_snapshot(entries: Seq<(Seq<char>, u64)>) -> bool {
    forall|i: int, j: int|
        0 <= i < j < entries.len() ==> path_before((#[trigger] entries[i]).0, (#[trigger] entries[j]).0)
}

/// Whether the entries hold the path.
pub open spec fn has_path(entries: Seq<(Seq<char>, u64)>, path: Seq<char>) -> bool {
    exists|i: int| 0 <= i < entries.len() && (#[trigger] entries[i]).0 == path
}

/// The fingerprint that the entries hold for the path, if any.
pub open spec fn lookup(entries: Seq<(Seq<char>, u64)>, path: Seq<char>) -> Option<u64> {
    if has_path(entries, path) {
        Some(entries[choose|i: int| 0 <= i < entries.len() && (#[trigger] entries[i]).0 == path].1)
    } else {
        None
    }
}

/// Different texts have different bytes.
pub proof fn lemma_bytes_tell_texts_apart(a: Seq<char>, b: Seq<char>)
    ensures
        encode_utf8(a) == encode_utf8(b) <==> a == b,
{
    encode_utf8_decode_utf8(a);
    encode_utf8_decode_utf8(b);
}

/// The order of snapshots is a strict order of the paths.
pub proof fn lemma_path_before_order(a: Seq<char>, b: Seq<char>, c: Seq<char>)
    ensures
        !path_before(a, a),
        !(path_before(a, b) && path_before(b, a)),
        path_before(a, b) && path_before(b, c) ==> path_before(a, c),
        a != b ==> path_before(a, b) || path_before(b, a),
{
    lemma_bytes_tell_texts_apart(a, b);
    lemma_bytes_tell_texts_apart(b, c);
    lemma_bytes_tell_texts_apart(a, c);
    lemma_lex_le_total_order(encode_utf8(a), encode_utf8(b), encode_utf8(c));
    lemma_lex_le_total_order(encode_utf8(b), encode_utf8(c), encode_utf8(a));
    lemma_lex_le_total_order(encode_utf8(c), encode_utf8(a), encode_utf8(b));
}

/// In a snapshot the entry at a place is what `lookup` finds for its path.
pub proof fn lemma_lookup_at(entries: Seq<(Seq<char>, u64)>, i: int)
    requires
        is_snapshot(entries),
        0 <= i < entries.len(),
    ensures
        has_path(entries, entries[i].0),
        lookup(entries, entries[i].0) == Some(entries[i].1),
{
    let path = entries[i].0;
    let k = choose|k: int| 0 <= k < entries.len() && (#[trigger] entries[k]).0 == path;
    lemma_path_before_order(path, path, path);
    if k < i {
        assert(path_before(entries[k].0, entries[i].0));
    } else if i < k {
        assert(path_before(entries[i].0, entries[k].0));
    }
}

/// Behind its first entry a snapshot is a snapshot, which holds every other
/// path with its fingerprint.
proof fn lemma_snapshot_rest(entries: Seq<(Seq<char>, u64)>, path: Seq<char>)
    requires
        is_snapshot(entries),
        entries.len() > 0,
    ensures
        is_snapshot(entries.drop_first()),
        lookup(entries.drop_first(), path) == (if path == entries[0].0 {
            None
        } else {
            lookup(entries, path)
        }),
{
    let rest = entries.drop_first();
    assert forall|i: int, j: int| 0 <= i < j < rest.len() implies path_before(
        (#[trigger] rest[i]).0,
        (#[trigger] rest[j]).0,
    ) by {
        assert(path_before(entries[i + 1].0, entries[j + 1].0));
    }
    lemma_path_before_order(path, path, path);
    if has_path(rest, path) {
        let k = choose|k: int| 0 <= k < rest.len() && (#[trigger] rest[k]).0 == path;
        assert(entries[k + 1].0 == path);
        assert(path_before(entries[0].0, entries[k + 1].0));
        lemma_lookup_at(rest, k);
        lemma_lookup_at(entries, k + 1);
    } else if has_path(entries, path) {
        let k = choose|k: int| 0 <= k < entries.len() && (#[trigger] entries[k]).0 == path;
        if k > 0 {
            assert(rest[k - 1].0 == path);
        }
    }
}

/// A snapshot is what it holds: two snapshots that hold the same
/// fingerprint for every path are the same.
pub proof fn lemma_snapshot_determined(a: Seq<(Seq<char>, u64)>, b: Seq<(Seq<char>, u64)>)
    requires
        is_snapshot(a),
        is_snapshot(b),
        forall|path: Seq<char>| #[trigger] lookup(a, path) == lookup(b, path),
    ensures
        a == b,
    decreases a.len(),
{
    if a.len() == 0 {
        if b.len() > 0 {
            lemma_lookup_at(b, 0);
            assert(lookup(a, b[0].0) == lookup(b, b[0].0));
        }
        assert(a =~= b);
    } else {
        lemma_lookup_at(a, 0);
        assert(lookup(a, a[0].0) == lookup(b, a[0].0));
        let i = choose|i: int| 0 <= i < b.len() && (#[trigger] b[i]).0 == a[0].0;
        lemma_lookup_at(b, i);
        lemma_lookup_at(b, 0);
        assert(lookup(a, b[0].0) == lookup(b, b[0].0));
        let k = choose|k: int| 0 <= k < a.len() && (#[trigger] a[k]).0 == b[0].0;
        lemma_path_before_order(a[0].0, b[0].0, a[0].0);
        if i > 0 && k > 0 {
            assert(path_before(b[0].0, b[i].0));
            assert(path_before(a[0].0, a[k].0));
        }
        assert(a[0].0 == b[0].0);
        assert(a[0] == b[0]);
        assert forall|path: Seq<char>| #[trigger]
            lookup(a.drop_first(), path) == lookup(b.drop_first(), path) by {
            lemma_snapshot_rest(a, path);
            lemma_snapshot_rest(b, path);
            assert(lookup(a, path) == lookup(b, path));
        }
        lemma_snapshot_rest(a, a[0].0);
        lemma_snapshot_rest(b, b[0].0);
        lemma_snapshot_determined(a.drop_first(), b.drop_first());
        assert(a =~= seq![a[0]] + a.drop_first());
        assert(b =~= seq![b[0]] + b.drop_first());
    }
}

/// The mapping from the paths of the markdown files of a folder to their
/// fingerprints, as one scan found them.
pub struct FileSnapshot {
    entries: Vec<SnapshotEntry>,
}

impl View for FileSnapshot {
    type V = Seq<(Seq<char>, u64)>;

    closed spec fn view(&self) -> Seq<(Seq<char>, u64)> {
        self.entries@.map_values(|e: SnapshotEntry| (e.path@, e.fingerprint))
    }
}

impl FileSnapshot {
    /// Whether the snapshot is well formed: its entries stand in the order
    /// of their paths.
    pub open spec fn wf(&self) -> bool {
        is_snapshot(self@)
    }

    /// The fingerprint recorded for the path, if any.
    pub open spec fn spec_get(&self, path: Seq<char>) -> Option<u64> {
        lookup(self@, path)
    }

    /// A snapshot without files.
    pub fn new() -> (snapshot: FileSnapshot)
        ensures
            snapshot.wf(),
            snapshot@ == Seq::<(Seq<char>, u64)>::empty(),
    {
        let snapshot = FileSnapshot { entries: Vec::new() };
        assert(snapshot@ =~= Seq::<(Seq<char>, u64)>::empty());
        snapshot
    }

    /// The number of files.
    pub fn len(&self) -> (n: usize)
        ensures
            n == self@.len(),
    {
        self.entries.len()
    }

    /// The entry at place `i` in the order of the paths.
    pub fn entry(&self, i: usize) -> (e: &SnapshotEntry)
        requires
            i < self@.len(),
        ensures
            (e.path@, e.fingerprint) == self@[i as int],
    {
        &self.entries[i]
    }

    /// Finds the place of the path: where it stands, or where it would have
    /// to stand.
    fn position(&self, path: &str) -> (r: (bool, usize))
        requires
            self.wf(),
        ensures
            r.1 <= self@.len(),
            r.0 ==> r.1 < self@.len() && self@[r.1 as int].0 == path@,
            r.0 == has_path(self@, path@),
            forall|k: int| 0 <= k < r.1 ==> path_before((#[trigger] self@[k]).0, path@),
            forall|k: int|
                r.1 <= k < self@.len() && !(r.0 && k == r.1) ==> path_before(
                    path@,
                    (#[trigger] self@[k]).0,
                ),
    {
        let ghost entries = self@;
        let wanted = path.as_bytes();
        let mut lo: usize = 0;
        let mut hi: usize = self.entries.len();
        while lo < hi
            invariant
                entries == self@,
                is_snapshot(entries),
                wanted@ == encode_utf8(path@),
                lo <= hi <= entries.len(),
                hi <= self.entries@.len(),
                forall|k: int| 0 <= k < lo ==> path_before((#[trigger] entries[k]).0, path@),
                forall|k: int|
                    hi <= k < entries.len() ==> path_before(path@, (#[trigger] entries[k]).0),
            decreases hi - lo,
        {
            let mid = lo + (hi - lo) / 2;
            let here = self.entries[mid].path.as_str().as_bytes();
            let ghost there = entries[mid as int].0;
            proof {
                lemma_bytes_tell_texts_apart(there, path@);
                lemma_lex_le_total_order(here@, wanted@, here@);
            }
            let not_after = bytes_le(here, wanted);
            let not_before = bytes_le(wanted, here);
            if not_after && not_before {
                proof {
                    assert(there == path@);
                    assert forall|k: int|
                        mid <= k < entries.len() && k != mid implies path_before(
                        path@,
                        (#[trigger] entries[k]).0,
                    ) by {
                        assert(path_before(entries[mid as int].0, entries[k].0));
                    }
                    assert forall|k: int| 0 <= k < mid implies path_before(
                        (#[trigger] entries[k]).0,
                        path@,
                    ) by {
                        assert(path_before(entries[k].0, entries[mid as int].0));
                    }
                }
                return (true, mid);
            }
            if not_after {
                proof {
                    assert(path_before(there, path@));
                    assert forall|k: int| 0 <= k < mid + 1 implies path_before(
                        (#[trigger] entries[k]).0,
                        path@,
                    ) by {
                        if k < mid {
                            assert(path_before(entries[k].0, entries[mid as int].0));
                            lemma_path_before_order(entries[k].0, there, path@);
                        }
                    }
                }
                lo = mid + 1;
            } else {
                proof {
                    assert(path_before(path@, there));
                    assert forall|k: int| mid <= k < entries.len() implies path_before(
                        path@,
                        (#[trigger] entries[k]).0,
                    ) by {
                        if mid < k {
                            assert(path_before(entries[mid as int].0, entries[k].0));
                            lemma_path_before_order(path@, there, entries[k].0);
                        }
                    }
                }
                hi = mid;
            }
        }
        proof {
            if has_path(entries, path@) {
                let k = choose|k: int| 0 <= k < entries.len() && (#[trigger] entries[k]).0 == path@;
                lemma_path_before_order(path@, path@, path@);
                if k < lo {
                    assert(path_before(entries[k].0, path@));
                } else {
                    assert(path_before(path@, entries[k].0));
                }
            }
        }
        (false, lo)
    }

    /// Looks up the fingerprint recorded for a path.
    pub fn get(&self, path: &str) -> (print: Option<u64>)
        requires
            self.wf(),
        ensures
            print == self.spec_get(path@),
    {
        let (found, at) = self.position(path);
        if found {
            proof {
                lemma_lookup_at(self@, at as int);
            }
            Some(self.entries[at].fingerprint)
        } else {
            None
        }
    }

    /// Records the fingerprint of a path, in place of the one recorded
    /// before, if any.
    pub fn insert(&mut self, path: String, fingerprint: u64)
        requires
            old(self).wf(),
        ensures
            final(self).wf(),
            final(self).spec_get(path@) == Some(fingerprint),
            forall|other: Seq<char>|
                other != path@ ==> #[trigger] final(self).spec_get(other) == old(self).spec_get(
                    other,
                ),
            final(self)@.len() == old(self)@.len() + (if has_path(old(self)@, path@) {
                0int
            } else {
                1int
            }),
    {
        let ghost before = self@;
        let (found, at) = self.position(path.as_str());
        let ghost added = (path@, fingerprint);
        if found {
            self.entries.set(at, SnapshotEntry { path, fingerprint });
            proof {
                let after = self@;
                assert(after =~= before.update(at as int, added));
                lemma_snapshot_update(before, at as int, fingerprint);
            }
        } else {
            self.entries.insert(at, SnapshotEntry { path, fingerprint });
            proof {
                let after = self@;
                before.insert_ensures(at as int, added);
                assert(after =~= before.insert(at as int, added));
                lemma_snapshot_insert(before, at as int, added.0, fingerprint);
            }
        }
    }
}

/// Replacing the fingerprint at a place keeps the snapshot and changes the
/// fingerprint of that path only.
proof fn lemma_snapshot_update(entries: Seq<(Seq<char>, u64)>, at: int, fingerprint: u64)
    requires
        is_snapshot(entries),
        0 <= at < entries.len(),
    ensures
        is_snapshot(entries.update(at, (entries[at].0, fingerprint))),
        lookup(entries.update(at, (entries[at].0, fingerprint)), entries[at].0) == Some(fingerprint),
        forall|other: Seq<char>|
            other != entries[at].0 ==> #[trigger] lookup(
                entries.update(at, (entries[at].0, fingerprint)),
                other,
            ) == lookup(entries, other),
{
    let path = entries[at].0;
    let after = entries.update(at, (path, fingerprint));
    assert forall|i: int, j: int| 0 <= i < j < after.len() implies path_before(
        (#[trigger] after[i]).0,
        (#[trigger] after[j]).0,
    ) by {
        assert(path_before(entries[i].0, entries[j].0));
    }
    lemma_lookup_at(after, at);
    assert forall|other: Seq<char>| other != path implies #[trigger] lookup(after, other) == lookup(
        entries,
        other,
    ) by {
        if has_path(entries, other) {
            let k = choose|k: int| 0 <= k < entries.len() && (#[trigger] entries[k]).0 == other;
            assert(after[k] == entries[k]);
            lemma_lookup_at(entries, k);
            lemma_lookup_at(after, k);
        }
        if has_path(after, other) {
            let k = choose|k: int| 0 <= k < after.len() && (#[trigger] after[k]).0 == other;
            assert(after[k] == entries[k]);
            lemma_lookup_at(entries, k);
            lemma_lookup_at(after, k);
        }
    }
}

/// Putting a new path at its place keeps the snapshot and adds that path
/// only.
proof fn lemma_snapshot_insert(
    entries: Seq<(Seq<char>, u64)>,
    at: int,
    path: Seq<char>,
    fingerprint: u64,
)
    requires
        is_snapshot(entries),
        0 <= at <= entries.len(),
        !has_path(entries, path),
        forall|k: int| 0 <= k < at ==> path_before((#[trigger] entries[k]).0, path),
        forall|k: int| at <= k < entries.len() ==> path_before(path, (#[trigger] entries[k]).0),
    ensures
        is_snapshot(entries.insert(at, (path, fingerprint))),
        lookup(entries.insert(at, (path, fingerprint)), path) == Some(fingerprint),
        forall|other: Seq<char>|
            other != path ==> #[trigger] lookup(entries.insert(at, (path, fingerprint)), other)
                == lookup(entries, other),
{
    let after = entries.insert(at, (path, fingerprint));
    entries.insert_ensures(at, (path, fingerprint));
    assert forall|k: int| 0 <= k < after.len() implies #[trigger] after[k] == (if k < at {
        entries[k]
    } else if k == at {
        (path, fingerprint)
    } else {
        entries[k - 1]
    }) by {}
    assert forall|i: int, j: int| 0 <= i < j < after.len() implies path_before(
        (#[trigger] after[i]).0,
        (#[trigger] after[j]).0,
    ) by {
        if j < at {
            assert(path_before(entries[i].0, entries[j].0));
        } else if j == at {
            assert(path_before(entries[i].0, path));
        } else if i < at {
            assert(path_before(entries[i].0, entries[j - 1].0));
        } else if i == at {
            assert(path_before(path, entries[j - 1].0));
        } else {
            assert(path_before(entries[i - 1].0, entries[j - 1].0));
        }
    }
    lemma_lookup_at(after, at);
    assert forall|other: Seq<char>| other != path implies #[trigger] lookup(after, other) == lookup(
        entries,
        other,
    ) by {
        if has_path(entries, other) {
            let k = choose|k: int| 0 <= k < entries.len() && (#[trigger] entries[k]).0 == other;
            let moved = if k < at {
                k
            } else {
                k + 1
            };
            assert(after[moved] == entries[k]);
            lemma_lookup_at(entries, k);
            lemma_lookup_at(after, moved);
        }
        if has_path(after, other) {
            let k = choose|k: int| 0 <= k < after.len() && (#[trigger] after[k]).0 == other;
            let from = if k < at {
                k
            } else {
                k - 1
            };
            assert(after[k] == entries[from]);
            lemma_lookup_at(entries, from);
            lemma_lookup_at(after, k);
        }
    }
}

/// The size and the time of the last change of a file, as the file system
/// reports them.
#[derive(Debug, Clone, Copy, PartialEq, Eq)]
pub struct FileStat {
    /// The size in bytes.
    pub size: u64,
    /// The whole seconds from the epoch to the last change, where known.
    pub modified_secs: Option<u64>,
}

/// What a walk of the watched folder reports of one entry.
#[derive(Debug, Clone, PartialEq, Eq)]
pub struct WatchedFile {
    /// The path of the entry.
    pub path: String,
    /// Whether the entry is a regular file.
    pub is_file: bool,
    /// Its size and time of change; `None` where they could not be read.
    pub stat: Option<FileStat>,
}

/// A reported entry as a mathematical value.
pub struct WatchedFileView {
    pub path: Seq<char>,
    pub is_file: bool,
    pub stat: Option<FileStat>,
}

impl View for WatchedFile {
    type V = WatchedFileView;

    open spec fn view(&self) -> WatchedFileView {
        WatchedFileView { path: self.path@, is_file: self.is_file, stat: self.stat }
    }
}

/// The reported entries of a list as mathematical values.
pub open spec fn watched_view(files: Seq<WatchedFile>) -> Seq<WatchedFileView> {
    files.map_values(|f: WatchedFile| f@)
}

/// Whether a snapshot records the entry: it is a regular file with the
/// extension `md` whose size and time of change could be read.
pub open spec fn is_recorded(file: WatchedFileView) -> bool {
    file.is_file && is_markdown_path(encode_utf8(file.path)) && file.stat is Some
}

/// The fingerprint of a recorded entry.
pub open spec fn print_of(file: WatchedFileView) -> u64 {
    fingerprint_of(file.stat->0.size, file.stat->0.modified_secs)
}

/// The fingerprint that the first `count` reported entries give the path:
/// that of the last recorded entry with that path, if any.
pub open spec fn scanned_print(files: Seq<WatchedFileView>, count: int, path: Seq<char>) -> Option<
    u64,
>
    decreases count,
{
    if count <= 0 {
        None
    } else if is_recorded(files[count - 1]) && files[count - 1].path == path {
        Some(print_of(files[count - 1]))
    } else {
        scanned_print(files, count - 1, path)
    }
}

/// Takes the snapshot of what a walk reported: each markdown file whose
/// size and time of change could be read, with its fingerprint.
pub fn scan_files(files: &Vec<WatchedFile>) -> (snapshot: FileSnapshot)
    ensures
        snapshot.wf(),
        forall|path: Seq<char>| #[trigger]
            snapshot.spec_get(path) == scanned_print(
                watched_view(files@),
                files@.len() as int,
                path,
            ),
{
    let ghost reported = watched_view(files@);
    let mut snapshot = FileSnapshot::new();
    let mut i: usize = 0;
    proof {
        assert forall|path: Seq<char>| #[trigger]
            snapshot.spec_get(path) == scanned_print(reported, 0, path) by {}
    }
    while i < files.len()
        invariant
            reported == watched_view(files@),
            i <= files@.len(),
            snapshot.wf(),
            forall|path: Seq<char>| #[trigger]
                snapshot.spec_get(path) == scanned_print(reported, i as int, path),
        decreases files@.len() - i,
    {
        let file = &files[i];
        let ghost before = snapshot;
        assert(file@ == reported[i as int]);
        if file.is_file && is_markdown_file(file.path.as_str()) {
            match file.stat {
                Some(stat) => {
                    snapshot.insert(file.path.clone(), fingerprint(stat.size, stat.modified_secs));
                },
                None => {},
            }
        }
        proof {
            assert forall|path: Seq<char>| #[trigger]
                snapshot.spec_get(path) == scanned_print(reported, i + 1, path) by {
                assert(before.spec_get(path) == scanned_print(reported, i as int, path));
            }
        }
        i = i + 1;
    }
    snapshot
}

/// The change that an entry of the new snapshot shows against the old one:
/// created where the old one lacks its path, modified where the old one
/// holds another fingerprint for it, none where both agree.
pub open spec fn change_of(old: Seq<(Seq<char>, u64)>, entry: (Seq<char>, u64)) -> Option<
    FileChangeView,
> {
    match lookup(old, entry.0) {
        None => Some(FileChangeView { path: entry.0, change_type: ChangeType::Created }),
        Some(print) => if print != entry.1 {
            Some(FileChangeView { path: entry.0, change_type: ChangeType::Modified })
        } else {
            None
        },
    }
}

/// The files created and modified among the first `count` entries of the
/// new snapshot, in its order.
pub open spec fn changes_among(
    old: Seq<(Seq<char>, u64)>,
    new: Seq<(Seq<char>, u64)>,
    count: int,
) -> Seq<FileChangeView>
    decreases count,
{
    if count <= 0 {
        Seq::empty()
    } else {
        let before = changes_among(old, new, count - 1);
        match change_of(old, new[count - 1]) {
            Some(change) => before.push(change),
            None => before,
        }
    }
}

/// The files deleted among the first `count` entries of the old snapshot:
/// those whose path the new one lacks, in the old one's order.
pub open spec fn deletions_among(
    old: Seq<(Seq<char>, u64)>,
    new: Seq<(Seq<char>, u64)>,
    count: int,
) -> Seq<FileChangeView>
    decreases count,
{
    if count <= 0 {
        Seq::empty()
    } else {
        let before = deletions_among(old, new, count - 1);
        if lookup(new, old[count - 1].0) is None {
            before.push(FileChangeView { path: old[count - 1].0, change_type: ChangeType::Deleted })
        } else {
            before
        }
    }
}

/// The changes from the old snapshot to the new one: first the files
/// created and modified, then the files deleted, each group in the order of
/// the paths.
pub open spec fn changes_between(old: Seq<(Seq<char>, u64)>, new: Seq<(Seq<char>, u64)>) -> Seq<
    FileChangeView,
> {
    changes_among(old, new, new.len() as int) + deletions_among(old, new, old.len() as int)
}

/// Compares two snapshots and lists what changed from the old one to the
/// new one.
pub fn diff_snapshots(old: &FileSnapshot, new: &FileSnapshot) -> (events: Vec<FileChangeEvent>)
    requires
        old.wf(),
        new.wf(),
    ensures
        changes_view(events@) == changes_between(old@, new@),
{
    let mut events: Vec<FileChangeEvent> = Vec::new();
    let mut i: usize = 0;
    assert(changes_view(events@) =~= changes_among(old@, new@, 0));
    while i < new.len()
        invariant
            old.wf(),
            new.wf(),
            i <= new@.len(),
            changes_view(events@) == changes_among(old@, new@, i as int),
        decreases new@.len() - i,
    {
        let entry = new.entry(i);
        let ghost so_far = changes_view(events@);
        match old.get(entry.path.as_str()) {
            None => {
                let event = FileChangeEvent {
                    path: entry.path.clone(),
                    change_type: ChangeType::Created,
                };
                assert(changes_view(events@.push(event)) =~= so_far.push(event@));
                events.push(event);
            },
            Some(print) => {
                if print != entry.fingerprint {
                    let event = FileChangeEvent {
                        path: entry.path.clone(),
                        change_type: ChangeType::Modified,
                    };
                    assert(changes_view(events@.push(event)) =~= so_far.push(event@));
                    events.push(event);
                }
            },
        }
        i = i + 1;
    }
    let ghost changed = changes_view(events@);
    let mut j: usize = 0;
    assert(changes_view(events@) =~= changed + deletions_among(old@, new@, 0));
    while j < old.len()
        invariant
            old.wf(),
            new.wf(),
            j <= old@.len(),
            changed == changes_among(old@, new@, new@.len() as int),
            changes_view(events@) == changed + deletions_among(old@, new@, j as int),
        decreases old@.len() - j,
    {
        let entry = old.entry(j);
        let ghost so_far = changes_view(events@);
        if new.get(entry.path.as_str()).is_none() {
            let event = FileChangeEvent {
                path: entry.path.clone(),
                change_type: ChangeType::Deleted,
            };
            proof {
                assert(changes_view(events@.push(event)) =~= so_far.push(event@));
                assert(so_far.push(event@) =~= changed + deletions_among(old@, new@, j + 1));
            }
            events.push(event);
        }
        j = j + 1;
    }
    events
}

/// A snapshot compared with itself shows neither changes nor deletions.
proof fn lemma_same_snapshot_no_change(entries: Seq<(Seq<char>, u64)>, count: int)
    requires
        is_snapshot(entries),
        count <= entries.len(),
    ensures
        changes_among(entries, entries, count) == Seq::<FileChangeView>::empty(),
        deletions_among(entries, entries, count) == Seq::<FileChangeView>::empty(),
    decreases count,
{
    if count > 0 {
        lemma_same_snapshot_no_change(entries, count - 1);
        lemma_lookup_at(entries, count - 1);
    }
}

/// Where nothing changed between two polls, there is nothing to report.
pub proof fn lemma_no_change_no_event(entries: Seq<(Seq<char>, u64)>)
    requires
        is_snapshot(entries),
    ensures
        changes_between(entries, entries) == Seq::<FileChangeView>::empty(),
{
    lemma_same_snapshot_no_change(entries, entries.len() as int);
}

/// The report that something happened to a path.
pub open spec fn change(path: Seq<char>, change_type: ChangeType) -> FileChangeView {
    FileChangeView { path, change_type }
}

/// What the changes among the first entries hold: the change of each of
/// those entries, and nothing else.
proof fn lemma_changes_among_hold(
    old: Seq<(Seq<char>, u64)>,
    new: Seq<(Seq<char>, u64)>,
    count: int,
    e: FileChangeView,
)
    requires
        0 <= count <= new.len(),
    ensures
        changes_among(old, new, count).contains(e) <==> exists|k: int|
            0 <= k < count && change_of(old, #[trigger] new[k]) == Some(e),
    decreases count,
{
    if count > 0 {
        lemma_changes_among_hold(old, new, count - 1, e);
        let before = changes_among(old, new, count - 1);
        match change_of(old, new[count - 1]) {
            Some(c) => {
                assert(before.push(c).contains(e) <==> before.contains(e) || c == e) by {
                    if before.contains(e) {
                        let i = choose|i: int| 0 <= i < before.len() && before[i] == e;
                        assert(before.push(c)[i] == e);
                    }
                    if c == e {
                        assert(before.push(c)[before.len() as int] == e);
                    }
                }
            },
            None => {},
        }
        if exists|k: int| 0 <= k < count && change_of(old, #[trigger] new[k]) == Some(e) {
            let k = choose|k: int| 0 <= k < count && change_of(old, #[trigger] new[k]) == Some(e);
            if k < count - 1 {
                assert(0 <= k < count - 1 && change_of(old, new[k]) == Some(e));
            }
        }
    }
}

/// What the deletions among the first entries hold: one for each of those
/// entries whose path the new snapshot lacks, and nothing else.
proof fn lemma_deletions_among_hold(
    old: Seq<(Seq<char>, u64)>,
    new: Seq<(Seq<char>, u64)>,
    count: int,
    e: FileChangeView,
)
    requires
        0 <= count <= old.len(),
    ensures
        deletions_among(old, new, count).contains(e) <==> exists|k: int|
            0 <= k < count && lookup(new, (#[trigger] old[k]).0) is None && e == change(
                old[k].0,
                ChangeType::Deleted,
            ),
    decreases count,
{
    if count > 0 {
        lemma_deletions_among_hold(old, new, count - 1, e);
        let before = deletions_among(old, new, count - 1);
        let c = change(old[count - 1].0, ChangeType::Deleted);
        if lookup(new, old[count - 1].0) is None {
            assert(before.push(c).contains(e) <==> before.contains(e) || c == e) by {
                if before.contains(e) {
                    let i = choose|i: int| 0 <= i < before.len() && before[i] == e;
                    assert(before.push(c)[i] == e);
                }
                if c == e {
                    assert(before.push(c)[before.len() as int] == e);
                }
            }
        }
        if exists|k: int|
            0 <= k < count && lookup(new, (#[trigger] old[k]).0) is None && e == change(
                old[k].0,
                ChangeType::Deleted,
            ) {
            let k = choose|k: int|
                0 <= k < count && lookup(new, (#[trigger] old[k]).0) is None && e == change(
                    old[k].0,
                    ChangeType::Deleted,
                );
            if k < count - 1 {
                assert(0 <= k < count - 1 && lookup(new, old[k].0) is None && e == change(
                    old[k].0,
                    ChangeType::Deleted,
                ));
            }
        }
    }
}

/// What the changes between two snapshots report of a path: created where
/// only the new snapshot holds it, deleted where only the old one does,
/// modified where both hold it with different fingerprints, and nothing
/// else.
pub proof fn lemma_changes_reported(
    old: Seq<(Seq<char>, u64)>,
    new: Seq<(Seq<char>, u64)>,
    path: Seq<char>,
)
    requires
        is_snapshot(old),
        is_snapshot(new),
    ensures
        changes_between(old, new).contains(change(path, ChangeType::Created)) <==> lookup(
            new,
            path,
        ) is Some && lookup(old, path) is None,
        changes_between(old, new).contains(change(path, ChangeType::Deleted)) <==> lookup(
            old,
            path,
        ) is Some && lookup(new, path) is None,
        changes_between(old, new).contains(change(path, ChangeType::Modified)) <==> lookup(
            old,
            path,
        ) is Some && lookup(new, path) is Some && lookup(old, path) != lookup(new, path),
{
    let made = changes_among(old, new, new.len() as int);
    let gone = deletions_among(old, new, old.len() as int);
    let all = changes_between(old, new);
    assert forall|e: FileChangeView| all.contains(e) <==> made.contains(e) || gone.contains(e) by {
        if all.contains(e) {
            let i = choose|i: int| 0 <= i < all.len() && all[i] == e;
            if i < made.len() {
                assert(made[i] == e);
            } else {
                assert(gone[i - made.len()] == e);
            }
        }
        if made.contains(e) {
            let i = choose|i: int| 0 <= i < made.len() && made[i] == e;
            assert(all[i] == e);
        }
        if gone.contains(e) {
            let i = choose|i: int| 0 <= i < gone.len() && gone[i] == e;
            assert(all[made.len() + i] == e);
        }
    }
    let created = change(path, ChangeType::Created);
    let modified = change(path, ChangeType::Modified);
    let deleted = change(path, ChangeType::Deleted);
    lemma_changes_among_hold(old, new, new.len() as int, created);
    lemma_changes_among_hold(old, new, new.len() as int, modified);
    lemma_changes_among_hold(old, new, new.len() as int, deleted);
    lemma_deletions_among_hold(old, new, old.len() as int, created);
    lemma_deletions_among_hold(old, new, old.len() as int, modified);
    lemma_deletions_among_hold(old, new, old.len() as int, deleted);
    if has_path(new, path) {
        let k = choose|k: int| 0 <= k < new.len() && (#[trigger] new[k]).0 == path;
        lemma_lookup_at(new, k);
        if lookup(old, path) is None {
            assert(change_of(old, new[k]) == Some(created));
        } else if lookup(old, path) != lookup(new, path) {
            assert(change_of(old, new[k]) == Some(modified));
        }
    }
    if has_path(old, path) {
        let k = choose|k: int| 0 <= k < old.len() && (#[trigger] old[k]).0 == path;
        lemma_lookup_at(old, k);
        if lookup(new, path) is None {
            assert(lookup(new, old[k].0) is None && deleted == change(
                old[k].0,
                ChangeType::Deleted,
            ));
        }
    }
    assert forall|k: int| 0 <= k < new.len() implies has_path(new, (#[trigger] new[k]).0) && lookup(
        new,
        new[k].0,
    ) == Some(new[k].1) by {
        lemma_lookup_at(new, k);
    }
    assert forall|k: int| 0 <= k < old.len() implies has_path(old, (#[trigger] old[k]).0) by {
        lemma_lookup_at(old, k);
    }
}

/// One polling loop's memory: the snapshot of the last poll.
pub struct ChangePoller {
    retained: FileSnapshot,
}

impl View for ChangePoller {
    type V = Seq<(Seq<char>, u64)>;

    closed spec fn view(&self) -> Seq<(Seq<char>, u64)> {
        self.retained@
    }
}

impl ChangePoller {
    /// Whether the retained snapshot is well formed.
    pub open spec fn wf(&self) -> bool {
        is_snapshot(self@)
    }

    /// Begins a polling loop with the snapshot taken at its start. Nothing
    /// is reported for it.
    pub fn new(baseline: FileSnapshot) -> (poller: ChangePoller)
        requires
            baseline.wf(),
        ensures
            poller.wf(),
            poller@ == baseline@,
    {
        ChangePoller { retained: baseline }
    }

    /// One poll: compares the snapshot just taken with the retained one,
    /// retains the new one, and returns the batch of changes to report, or
    /// `None` where nothing changed.
    pub fn poll(&mut self, current: FileSnapshot) -> (batch: Option<Vec<FileChangeEvent>>)
        requires
            old(self).wf(),
            current.wf(),
        ensures
            final(self).wf(),
            final(self)@ == current@,
            match batch {
                Some(events) => events@.len() > 0 && changes_view(events@) == changes_between(
                    old(self)@,
                    current@,
                ),
                None => changes_between(old(self)@, current@).len() == 0,
            },
    {
        let events = diff_snapshots(&self.retained, &current);
        self.retained = current;
        if events.len() == 0 {
            None
        } else {
            Some(events)
        }
    }
}

/// The two states of the change poller.
#[derive(Debug, Clone, Copy, PartialEq, Eq, Structural)]
pub enum WatcherState {
    /// No polling session is active.
    Stopped,
    /// One polling session is active.
    Running,
}

/// What a polling loop does next.
#[derive(Debug, Clone, Copy, PartialEq, Eq, Structural)]
pub enum LoopStep {
    /// End the loop, without a report.
    Exit,
    /// Wait for the poll interval, then scan and poll.
    Poll,
}

/// The state that all polling sessions share: which session, if any, is the
/// active one. A session is known by its number; each start gives a new one.
#[derive(Debug, Clone, Copy, PartialEq, Eq)]
pub struct WatcherControl {
    session: u64,
    running: bool,
}

impl WatcherControl {
    /// The number of the session started last; 0 before the first start.
    pub closed spec fn last_session(&self) -> u64 {
        self.session
    }

    /// Whether the poller is running or stopped.
    pub closed spec fn spec_state(&self) -> WatcherState {
        if self.running {
            WatcherState::Running
        } else {
            WatcherState::Stopped
        }
    }

    /// Whether the session with this number is the active one.
    pub open spec fn active(&self, session: u64) -> bool {
        self.spec_state() == WatcherState::Running && session == self.last_session()
    }

    /// The state at the start of the process: stopped, no session yet.
    pub fn new() -> (control: WatcherControl)
        ensures
            control.spec_state() == WatcherState::Stopped,
            control.last_session() == 0,
    {
        WatcherControl { session: 0, running: false }
    }

    /// Whether the poller is running or stopped.
    pub fn state(&self) -> (state: WatcherState)
        ensures
            state == self.spec_state(),
    {
        if self.running {
            WatcherState::Running
        } else {
            WatcherState::Stopped
        }
    }

    /// Stops the session before, if one is active, and starts a new one,
    /// whose number is returned. That session is then the only active one.
    /// Where the numbers are used up, the poller stays stopped.
    pub fn start(&mut self) -> (session: Option<u64>)
        ensures
            match session {
                Some(number) => {
                    &&& old(self).last_session() < u64::MAX
                    &&& number == old(self).last_session() + 1
                    &&& final(self).last_session() == number
                    &&& final(self).spec_state() == WatcherState::Running
                },
                None => {
                    &&& old(self).last_session() == u64::MAX
                    &&& final(self).last_session() == u64::MAX
                    &&& final(self).spec_state() == WatcherState::Stopped
                },
            },
    {
        self.running = false;
        if self.session == u64::MAX {
            return None;
        }
        self.session = self.session + 1;
        self.running = true;
        Some(self.session)
    }

    /// Stops the active session, if any.
    pub fn stop(&mut self)
        ensures
            final(self).spec_state() == WatcherState::Stopped,
            final(self).last_session() == old(self).last_session(),
    {
        self.running = false;
    }

    /// Whether the session with this number is the active one.
    pub fn is_active(&self, session: u64) -> (r: bool)
        ensures
            r == self.active(session),
    {
        self.running && session == self.session
    }

    /// What the loop of a session does next: it polls while the session is
    /// the active one, and ends otherwise.
    pub fn next_step(&self, session: u64) -> (step: LoopStep)
        ensures
            step == (if self.active(session) {
                LoopStep::Poll
            } else {
                LoopStep::Exit
            }),
    {
        if self.is_active(session) {
            LoopStep::Poll
        } else {
            LoopStep::Exit
        }
    }
}

/// At most one session is active at a time.
pub proof fn lemma_one_active_session(control: WatcherControl, a: u64, b: u64)
    requires
        control.active(a),
        control.active(b),
    ensures
        a == b,
{
}

/// A session that was stopped or replaced stays inactive, whatever is
/// started later: session numbers only grow.
pub proof fn lemma_replaced_session_inactive(control: WatcherControl, session: u64)
    requires
        session < control.last_session(),
    ensures
        !control.active(session),
{
}

} // verus!
