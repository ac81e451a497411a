//! The pruned file tree: the directories that hold markdown files somewhere
//! below them, and those files, in the order in which a sidebar shows them.

use crate::error::AppError;
use crate::order::{
    in_order, is_strict_order, lemma_insert_in_order, lemma_position,
    lemma_same_members_same_order,
};
use crate::text::{bytes_le, lemma_lex_le_total_order, lex_le, lowercase_of, to_lowercase};
use crate::utils::{is_markdown_file, is_markdown_path};
use vstd::prelude::*;
use vstd::string::*;
use vstd::utf8::*;

verus! {

/// What a scanned entry is on disk.
#[derive(Debug, Clone, Copy, PartialEq, Eq, Structural)]
pub enum EntryKind {
    /// A directory.
    Directory,
    /// A regular file.
    File,
    /// Anything else: a link, a device, an entry that could not be read.
    Other,
}

/// One entry of a scanned directory tree.
#[derive(Debug, Clone, PartialEq, Eq)]
pub struct ScanEntry {
    /// The entry's own name, the last component of its path.
    pub name: String,
    /// The entry's full path.
    pub path: String,
    /// What the entry is.
    pub kind: EntryKind,
    /// The place in the scan of the directory that lists this entry. The
    /// root, at place 0, is its own parent.
    pub parent: usize,
}

/// A scanned entry as a mathematical value.
pub struct ScanEntryView {
    pub name: Seq<char>,
    pub path: Seq<char>,
    pub kind: EntryKind,
    pub parent: int,
}

impl View for ScanEntry {
    type V = ScanEntryView;

    open spec fn view(&self) -> ScanEntryView {
        ScanEntryView {
            name: self.name@,
            path: self.path@,
            kind: self.kind,
            parent: self.parent as int,
        }
    }
}

/// The place of the directory that lists the entry at place `i`.
pub open spec fn parent_of(entries: Seq<ScanEntryView>, i: int) -> int {
    entries[i].parent
}

/// Whether the entries form a tree: the root comes first, and every other
/// entry comes after the directory that lists it.
pub open spec fn is_tree(entries: Seq<ScanEntryView>) -> bool {
    &&& entries.len() > 0
    &&& parent_of(entries, 0) == 0
    &&& forall|i: int|
        0 < i < entries.len() ==> 0 <= #[trigger] parent_of(entries, i) < i && entries[parent_of(
            entries,
            i,
        )].kind == EntryKind::Directory
}

/// Whether `listed` holds the places of the entries that the directory at
/// place `d` lists, in rising order. The root, which is its own parent, is
/// not counted.
pub open spec fn lists_entries_of(entries: Seq<ScanEntryView>, d: int, listed: Seq<usize>) -> bool {
    &&& forall|a: int, b: int| 0 <= a < b < listed.len() ==> #[trigger] listed[a] < #[trigger] listed[b]
    &&& forall|j: usize|
        #![trigger listed.contains(j)]
        listed.contains(j) <==> 0 < j < entries.len() && parent_of(entries, j as int) == d
}

/// A snapshot of a directory tree, as one walk of the file system found it.
/// Place 0 holds the root; each further entry names its parent directory by
/// its place.
pub struct DirectoryScan {
    entries: Vec<ScanEntry>,
    listed: Vec<Vec<usize>>,
}

impl View for DirectoryScan {
    type V = Seq<ScanEntryView>;

    closed spec fn view(&self) -> Seq<ScanEntryView> {
        self.entries@.map_values(|e: ScanEntry| e@)
    }
}

impl DirectoryScan {
    /// Whether the scan is well formed: its entries form a tree, and beside
    /// each entry stands the list of the entries that it lists.
    pub closed spec fn wf(&self) -> bool {
        &&& is_tree(self@)
        &&& self.listed@.len() == self.entries@.len()
        &&& forall|d: int|
            0 <= d < self.listed@.len() ==> lists_entries_of(self@, d, (#[trigger] self.listed@[d])@)
    }

    /// The entries of a well-formed scan form a tree.
    pub proof fn lemma_is_tree(self)
        requires
            self.wf(),
        ensures
            is_tree(self@),
    {
    }

    /// Begins a scan at its root.
    pub fn new(name: String, path: String, kind: EntryKind) -> (scan: DirectoryScan)
        ensures
            scan.wf(),
            scan@ == seq![(ScanEntryView { name: name@, path: path@, kind, parent: 0 })],
    {
        let mut entries: Vec<ScanEntry> = Vec::new();
        entries.push(ScanEntry { name, path, kind, parent: 0 });
        let mut listed: Vec<Vec<usize>> = Vec::new();
        listed.push(Vec::new());
        let scan = DirectoryScan { entries, listed };
        assert(scan@ =~= seq![(ScanEntryView { name: name@, path: path@, kind, parent: 0 })]);
        scan
    }

    /// The number of entries, the root included.
    pub fn len(&self) -> (n: usize)
        ensures
            n == self@.len(),
    {
        self.entries.len()
    }

    /// The entry at place `i`.
    pub fn entry(&self, i: usize) -> (e: &ScanEntry)
        requires
            i < self@.len(),
        ensures
            e@ == self@[i as int],
    {
        &self.entries[i]
    }

    /// The places of the entries that the entry at place `d` lists, in
    /// rising order.
    pub fn entries_of(&self, d: usize) -> (listed: &Vec<usize>)
        requires
            self.wf(),
            d < self@.len(),
        ensures
            lists_entries_of(self@, d as int, listed@),
    {
        &self.listed[d]
    }

    /// Adds an entry that the directory at place `parent` lists, and returns
    /// its place. Where `parent` is no directory of the scan, nothing is
    /// added.
    pub fn add(&mut self, parent: usize, name: String, path: String, kind: EntryKind) -> (place:
        Option<usize>)
        requires
            old(self).wf(),
        ensures
            final(self).wf(),
            parent < old(self)@.len() && old(self)@[parent as int].kind == EntryKind::Directory
                ==> place == Some(old(self)@.len() as usize) && final(self)@ == old(self)@.push(
                (ScanEntryView { name: name@, path: path@, kind, parent: parent as int }),
            ),
            !(parent < old(self)@.len() && old(self)@[parent as int].kind
                == EntryKind::Directory) ==> place.is_none() && final(self)@ == old(self)@,
    {
        let n = self.entries.len();
        if parent >= n {
            return None;
        }
        match self.entries[parent].kind {
            EntryKind::Directory => {},
            _ => {
                return None;
            },
        }
        let ghost before = self@;
        let ghost lists = self.listed@;
        self.entries.push(ScanEntry { name, path, kind, parent });
        self.listed.push(Vec::new());
        self.listed[parent].push(n);
        proof {
            let added = ScanEntryView { name: name@, path: path@, kind, parent: parent as int };
            let after = self@;
            assert(after =~= before.push(added));
            assert forall|i: int| 0 < i < after.len() implies 0 <= #[trigger] parent_of(after, i)
                < i && after[parent_of(after, i)].kind == EntryKind::Directory by {
                if i < before.len() {
                    assert(after[i] == before[i]);
                    assert(parent_of(after, i) == parent_of(before, i));
                    assert(after[parent_of(before, i)] == before[parent_of(before, i)]);
                }
            }
            assert forall|d: int| 0 <= d < self.listed@.len() implies lists_entries_of(
                after,
                d,
                (#[trigger] self.listed@[d])@,
            ) by {
                lemma_lists_after_add(before, added, lists[d]@, d, self.listed@[d]@);
            }
        }
        Some(n)
    }
}

/// What the lists of a scan are once an entry is added: the list of its
/// parent holds it behind the others, the new entry lists nothing, every
/// other list stays.
proof fn lemma_lists_after_add(
    before: Seq<ScanEntryView>,
    added: ScanEntryView,
    old_list: Seq<usize>,
    d: int,
    new_list: Seq<usize>,
)
    requires
        is_tree(before),
        is_tree(before.push(added)),
        before.len() <= usize::MAX,
        0 <= d <= before.len(),
        d < before.len() ==> lists_entries_of(before, d, old_list),
        new_list == (if d == before.len() {
            Seq::<usize>::empty()
        } else if d == added.parent {
            old_list.push(before.len() as usize)
        } else {
            old_list
        }),
    ensures
        lists_entries_of(before.push(added), d, new_list),
{
    let after = before.push(added);
    let n = before.len() as usize;
    assert forall|j: usize|
        #![trigger new_list.contains(j)]
        new_list.contains(j) <==> 0 < j < after.len() && parent_of(after, j as int) == d by {
        if 0 < j < before.len() {
            assert(after[j as int] == before[j as int]);
            assert(parent_of(after, j as int) == parent_of(before, j as int));
        }
        if 0 < j < after.len() {
            assert(parent_of(after, j as int) < j);
        }
        if d < before.len() {
            assert(old_list.contains(j) <==> 0 < j < before.len() && parent_of(before, j as int)
                == d);
            if d == added.parent {
                if old_list.contains(j) {
                    let k = choose|k: int| 0 <= k < old_list.len() && old_list[k] == j;
                    assert(new_list[k] == j);
                }
                if new_list.contains(j) {
                    let k = choose|k: int| 0 <= k < new_list.len() && new_list[k] == j;
                    if k < old_list.len() {
                        assert(old_list[k] == j);
                    }
                }
                if j == n {
                    assert(new_list[old_list.len() as int] == j);
                }
            }
        }
    }
    assert forall|a: int, b: int| 0 <= a < b < new_list.len() implies #[trigger] new_list[a]
        < #[trigger] new_list[b] by {
        if d < before.len() && d == added.parent {
            assert(old_list.contains(old_list[a]));
            if b < old_list.len() {
                assert(old_list[a] < old_list[b]);
            }
        }
    }
}

/// Whether the entry is a markdown file: a regular file whose path has the
/// extension `md`.
pub open spec fn is_markdown_entry(e: ScanEntryView) -> bool {
    e.kind == EntryKind::File && is_markdown_path(encode_utf8(e.path))
}

/// Whether the entry at place `a` lies on the way from the root to the entry
/// at place `j`, the latter not counted.
pub open spec fn is_ancestor(entries: Seq<ScanEntryView>, a: int, j: int) -> bool
    decreases j,
{
    &&& 0 < j < entries.len()
    &&& 0 <= parent_of(entries, j) < j
    &&& (parent_of(entries, j) == a || is_ancestor(entries, a, parent_of(entries, j)))
}

/// Whether a markdown file lies somewhere below the entry at place `d`.
pub open spec fn holds_markdown(entries: Seq<ScanEntryView>, d: int) -> bool {
    exists|j: int|
        0 <= j < entries.len() && is_markdown_entry(entries[j]) && is_ancestor(entries, d, j)
}

/// Whether `keep` is the keep set of the scan: it marks exactly the entries
/// that hold a markdown file somewhere below them.
pub open spec fn is_keep_set(entries: Seq<ScanEntryView>, keep: Seq<bool>) -> bool {
    &&& keep.len() == entries.len()
    &&& forall|i: int| 0 <= i < entries.len() ==> keep[i] == holds_markdown(entries, i)
}

/// The parent of an ancestor is an ancestor too.
pub proof fn lemma_ancestor_parent(entries: Seq<ScanEntryView>, a: int, j: int)
    requires
        is_tree(entries),
        0 < a,
        is_ancestor(entries, a, j),
    ensures
        is_ancestor(entries, parent_of(entries, a), j),
    decreases j,
{
    let p = parent_of(entries, j);
    if p == a {
        assert(is_ancestor(entries, parent_of(entries, a), a));
    } else {
        lemma_ancestor_parent(entries, a, p);
    }
}

/// An ancestor comes before its descendants and is a directory.
pub proof fn lemma_ancestor_is_directory(entries: Seq<ScanEntryView>, a: int, j: int)
    requires
        is_tree(entries),
        is_ancestor(entries, a, j),
    ensures
        0 <= a < j,
        entries[a].kind == EntryKind::Directory,
    decreases j,
{
    let p = parent_of(entries, j);
    if p != a {
        lemma_ancestor_is_directory(entries, a, p);
    }
}

/// Marks that are handed on from each entry to its parent reach every
/// ancestor.
proof fn lemma_marks_reach_ancestors(entries: Seq<ScanEntryView>, keep: Seq<bool>, a: int, j: int)
    requires
        is_tree(entries),
        keep.len() == entries.len(),
        forall|i: int| 0 < i < entries.len() && keep[i] ==> keep[#[trigger] parent_of(entries, i)],
        is_ancestor(entries, a, j),
        keep[parent_of(entries, j)],
    ensures
        keep[a],
    decreases j,
{
    let p = parent_of(entries, j);
    if p != a {
        lemma_marks_reach_ancestors(entries, keep, a, p);
    }
}

/// What holds of the marks between two walks, when the files before place
/// `f` are done: every mark stands on an entry that holds a markdown file
/// below it, every marked entry's parent is marked, and the parent of every
/// markdown file before `f` is marked.
#[verifier::opaque]
spec fn marks_settled(entries: Seq<ScanEntryView>, keep: Seq<bool>, f: int) -> bool {
    &&& keep.len() == entries.len()
    &&& forall|i: int| 0 <= i < entries.len() && #[trigger] keep[i] ==> holds_markdown(entries, i)
    &&& forall|i: int| 0 < i < entries.len() && keep[i] ==> keep[#[trigger] parent_of(entries, i)]
    &&& forall|j: int|
        0 < j < f && j < entries.len() && is_markdown_entry(#[trigger] entries[j])
            ==> keep[parent_of(entries, j)]
}

/// What holds of the marks during the walk up from the markdown file at
/// place `f`, when the walk stands at `cur` and has not marked it yet: as
/// between two walks, but the marks below `cur` still wait for `cur`.
#[verifier::opaque]
spec fn marks_walking(entries: Seq<ScanEntryView>, keep: Seq<bool>, f: int, cur: int) -> bool {
    &&& keep.len() == entries.len()
    &&& 0 < f < entries.len()
    &&& 0 <= cur < entries.len()
    &&& is_markdown_entry(entries[f])
    &&& is_ancestor(entries, cur, f)
    &&& forall|i: int| 0 <= i < entries.len() && #[trigger] keep[i] ==> holds_markdown(entries, i)
    &&& forall|i: int|
        0 < i < entries.len() && keep[i] ==> keep[#[trigger] parent_of(entries, i)] || parent_of(
            entries,
            i,
        ) == cur
    &&& forall|j: int|
        0 < j < f && is_markdown_entry(#[trigger] entries[j]) ==> keep[parent_of(entries, j)]
    &&& keep[parent_of(entries, f)] || parent_of(entries, f) == cur
}

/// Without marks, the marks are settled before the first file.
proof fn lemma_marks_begin(entries: Seq<ScanEntryView>, keep: Seq<bool>)
    requires
        keep.len() == entries.len(),
        forall|i: int| 0 <= i < keep.len() ==> !keep[i],
    ensures
        marks_settled(entries, keep, 1),
{
    reveal(marks_settled);
}

/// An entry that is no markdown file leaves the marks settled.
proof fn lemma_marks_skip(entries: Seq<ScanEntryView>, keep: Seq<bool>, f: int)
    requires
        marks_settled(entries, keep, f),
        0 < f < entries.len(),
        !is_markdown_entry(entries[f]),
    ensures
        marks_settled(entries, keep, f + 1),
{
    reveal(marks_settled);
}

/// The walk up from a markdown file begins at its parent.
proof fn lemma_walk_begin(entries: Seq<ScanEntryView>, keep: Seq<bool>, f: int)
    requires
        is_tree(entries),
        marks_settled(entries, keep, f),
        0 < f < entries.len(),
        is_markdown_entry(entries[f]),
    ensures
        marks_walking(entries, keep, f, parent_of(entries, f)),
{
    reveal(marks_settled);
    reveal(marks_walking);
    assert(is_ancestor(entries, parent_of(entries, f), f));
}

/// Marking a directory that no walk has marked moves the walk to its
/// parent.
proof fn lemma_walk_up(entries: Seq<ScanEntryView>, keep: Seq<bool>, f: int, cur: int)
    requires
        is_tree(entries),
        marks_walking(entries, keep, f, cur),
        cur != 0,
        !keep[cur],
    ensures
        marks_walking(entries, keep.update(cur, true), f, parent_of(entries, cur)),
{
    reveal(marks_walking);
    let next = keep.update(cur, true);
    lemma_ancestor_parent(entries, cur, f);
    assert(holds_markdown(entries, cur));
    assert forall|i: int| 0 < i < entries.len() && next[i] implies next[#[trigger] parent_of(
        entries,
        i,
    )] || parent_of(entries, i) == parent_of(entries, cur) by {
        if i != cur {
            assert(keep[i]);
        }
    }
    assert forall|i: int| 0 <= i < entries.len() && #[trigger] next[i] implies holds_markdown(
        entries,
        i,
    ) by {
        if i != cur {
            assert(keep[i]);
        }
    }
}

/// Marking the root, or a directory that an earlier walk has marked, ends
/// the walk: every ancestor of the file is marked.
proof fn lemma_walk_end(entries: Seq<ScanEntryView>, keep: Seq<bool>, f: int, cur: int)
    requires
        is_tree(entries),
        marks_walking(entries, keep, f, cur),
        cur == 0 || keep[cur],
    ensures
        marks_settled(entries, keep.update(cur, true), f + 1),
{
    reveal(marks_walking);
    reveal(marks_settled);
    let next = keep.update(cur, true);
    assert(holds_markdown(entries, cur));
    assert forall|i: int| 0 < i < entries.len() && next[i] implies next[#[trigger] parent_of(
        entries,
        i,
    )] by {
        if i != cur {
            assert(keep[i]);
        } else {
            assert(keep[cur]);
        }
    }
    assert forall|i: int| 0 <= i < entries.len() && #[trigger] next[i] implies holds_markdown(
        entries,
        i,
    ) by {
        if i != cur {
            assert(keep[i]);
        }
    }
}

/// Once every file is done, the marks are the keep set.
proof fn lemma_marks_done(entries: Seq<ScanEntryView>, keep: Seq<bool>)
    requires
        is_tree(entries),
        marks_settled(entries, keep, entries.len() as int),
    ensures
        is_keep_set(entries, keep),
{
    reveal(marks_settled);
    assert forall|i: int| 0 <= i < entries.len() implies keep[i] == holds_markdown(entries, i) by {
        if holds_markdown(entries, i) {
            let j = choose|j: int|
                0 <= j < entries.len() && is_markdown_entry(entries[j]) && is_ancestor(
                    entries,
                    i,
                    j,
                );
            lemma_marks_reach_ancestors(entries, keep, i, j);
        }
    }
}

/// Computes the keep set: from each markdown file the walk goes up through
/// its ancestors and marks them, until it marks the root or a directory that
/// an earlier walk has marked.
pub fn keep_set(scan: &DirectoryScan) -> (keep: Vec<bool>)
    requires
        scan.wf(),
    ensures
        is_keep_set(scan@, keep@),
{
    let n = scan.len();
    let ghost entries = scan@;
    let mut keep: Vec<bool> = Vec::new();
    while keep.len() < n
        invariant
            keep.len() <= n,
            forall|i: int| 0 <= i < keep.len() ==> !keep[i],
        decreases n - keep.len(),
    {
        keep.push(false);
    }
    proof {
        lemma_marks_begin(entries, keep@);
    }
    let mut f: usize = 1;
    while f < n
        invariant
            entries == scan@,
            is_tree(entries),
            n == entries.len(),
            keep.len() == n,
            1 <= f <= n,
            marks_settled(entries, keep@, f as int),
        decreases n - f,
    {
        let e = scan.entry(f);
        let is_md = match e.kind {
            EntryKind::File => is_markdown_file(e.path.as_str()),
            _ => false,
        };
        if is_md {
            let mut cur: usize = e.parent;
            let mut walking = true;
            proof {
                lemma_walk_begin(entries, keep@, f as int);
            }
            while walking
                invariant
                    entries == scan@,
                    is_tree(entries),
                    n == entries.len(),
                    keep.len() == n,
                    1 <= f < n,
                    cur < n,
                    walking ==> marks_walking(entries, keep@, f as int, cur as int),
                    !walking ==> marks_settled(entries, keep@, f + 1),
                decreases
                        if walking {
                            cur + 1
                        } else {
                            0
                        },
            {
                let reached = cur == 0 || keep[cur];
                proof {
                    if reached {
                        lemma_walk_end(entries, keep@, f as int, cur as int);
                    } else {
                        lemma_walk_up(entries, keep@, f as int, cur as int);
                    }
                }
                keep.set(cur, true);
                if reached {
                    walking = false;
                } else {
                    cur = scan.entry(cur).parent;
                }
            }
        } else {
            proof {
                lemma_marks_skip(entries, keep@, f as int);
            }
        }
        f = f + 1;
    }
    proof {
        lemma_marks_done(entries, keep@);
    }
    keep
}

/// One node of the pruned tree: a directory with its children, or a
/// markdown file.
#[derive(Debug, PartialEq, Eq)]
pub struct FileEntry {
    /// The entry's own name.
    pub name: String,
    /// The entry's full path.
    pub path: String,
    /// Whether the node is a directory.
    pub is_directory: bool,
    /// The nodes below a directory; `None` for a file.
    pub children: Option<Vec<FileEntry>>,
}

/// A node of the pruned tree as a mathematical value.
pub struct FileEntryView {
    pub name: Seq<char>,
    pub path: Seq<char>,
    pub is_directory: bool,
    pub children: Option<Seq<FileEntryView>>,
}

/// The node as a mathematical value, with all nodes below it.
pub open spec fn node_view(e: FileEntry) -> FileEntryView
    decreases e,
{
    FileEntryView {
        name: e.name@,
        path: e.path@,
        is_directory: e.is_directory,
        children: match e.children {
            Some(nodes) => Some(
                Seq::new(
                    nodes@.len(),
                    |k: int|
                        if 0 <= k < nodes@.len() {
                            node_view(nodes@[k])
                        } else {
                            arbitrary()
                        },
                ),
            ),
            None => None,
        },
    }
}

impl View for FileEntry {
    type V = FileEntryView;

    open spec fn view(&self) -> FileEntryView {
        node_view(*self)
    }
}

impl Clone for FileEntry {
    /// A copy of the node with all nodes below it.
    fn clone(&self) -> (copy: FileEntry)
        ensures
            copy@ == self@,
        decreases self,
    {
        let children = match &self.children {
            Some(nodes) => {
                let mut copies: Vec<FileEntry> = Vec::new();
                let mut i: usize = 0;
                while i < nodes.len()
                    invariant
                        self.children == Some(*nodes),
                        i <= nodes@.len(),
                        copies@.len() == i,
                        forall|k: int| 0 <= k < i ==> (#[trigger] copies@[k])@ == nodes@[k]@,
                    decreases nodes@.len() - i,
                {
                    proof {
                        vstd::std_specs::vec::axiom_vec_index_decreases(*nodes, i as int);
                        assert(decreases_to!(*self => self.children));
                        assert(decreases_to!(self.children => self.children->0));
                        assert(decreases_to!(*nodes => nodes[i as int]));
                    }
                    copies.push(nodes[i].clone());
                    i = i + 1;
                }
                Some(copies)
            },
            None => None,
        };
        let copy = FileEntry {
            name: self.name.clone(),
            path: self.path.clone(),
            is_directory: self.is_directory,
            children,
        };
        proof {
            reveal_with_fuel(node_view, 2);
            if self.children is Some {
                assert(copy@.children->0 =~= self@.children->0);
            }
        }
        copy
    }
}

/// The nodes of a list as mathematical values.
pub open spec fn forest_view(nodes: Seq<FileEntry>) -> Seq<FileEntryView> {
    Seq::new(nodes.len(), |k: int| nodes[k]@)
}

/// The key by which siblings are ordered: the lowercase form of the name.
pub open spec fn sort_key(e: ScanEntryView) -> Seq<u8> {
    encode_utf8(lowercase_of(e.name))
}

/// Directories are shown in a first group, everything else in a second.
pub open spec fn group_of(e: ScanEntryView) -> int {
    if e.kind == EntryKind::Directory {
        0
    } else {
        1
    }
}

/// Whether `x` is shown before `y` by what the two entries are: a directory
/// before a file, and within one group the lesser lowercase name first.
pub open spec fn sorts_before(x: ScanEntryView, y: ScanEntryView) -> bool {
    ||| group_of(x) < group_of(y)
    ||| group_of(x) == group_of(y) && sort_key(x) != sort_key(y) && lex_le(sort_key(x), sort_key(y))
}

/// Whether the entry at place `a` is shown before the one at place `b`
/// where both are siblings: directories before files, within each group by
/// the lowercase name, and entries of one name in the order of the scan.
pub open spec fn shown_before(entries: Seq<ScanEntryView>, a: int, b: int) -> bool {
    let x = entries[a];
    let y = entries[b];
    ||| sorts_before(x, y)
    ||| group_of(x) == group_of(y) && sort_key(x) == sort_key(y) && a < b
}

/// Whether the entry at place `j` has a node in the pruned tree: it is a
/// directory that holds a markdown file somewhere below it, or a markdown
/// file. The root has no node of its own.
pub open spec fn is_shown(entries: Seq<ScanEntryView>, j: int) -> bool {
    &&& 0 < j < entries.len()
    &&& (entries[j].kind == EntryKind::Directory && holds_markdown(entries, j)
        || is_markdown_entry(entries[j]))
}

/// The order of siblings as a relation on places.
pub open spec fn shown_order(entries: Seq<ScanEntryView>) -> spec_fn(int, int) -> bool {
    |a: int, b: int| shown_before(entries, a, b)
}

/// Whether the listed places stand in the order of `shown_before`.
pub open spec fn in_shown_order(entries: Seq<ScanEntryView>, ids: Seq<usize>) -> bool {
    in_order(shown_order(entries), ids)
}

/// Whether `ids` lists the children of the directory at place `d` as the
/// pruned tree shows them: each shown child once, in the order of
/// `shown_before`.
pub open spec fn is_listing(entries: Seq<ScanEntryView>, d: int, ids: Seq<usize>) -> bool {
    &&& in_shown_order(entries, ids)
    &&& forall|j: usize|
        #![trigger ids.contains(j)]
        ids.contains(j) <==> is_shown(entries, j as int) && parent_of(entries, j as int) == d
}

/// The places of the shown children of the directory at place `d`, in the
/// order in which they are shown.
pub open spec fn listing(entries: Seq<ScanEntryView>, d: int) -> Seq<usize> {
    choose|ids: Seq<usize>| is_listing(entries, d, ids)
}

/// The node of the entry at place `j`, with all that is shown below it.
pub open spec fn node_of(entries: Seq<ScanEntryView>, j: int) -> FileEntryView
    decreases entries.len() - j, 1int, 0nat,
{
    FileEntryView {
        name: entries[j].name,
        path: entries[j].path,
        is_directory: entries[j].kind == EntryKind::Directory,
        children: if entries[j].kind == EntryKind::Directory {
            Some(nodes_of(entries, listing(entries, j), j))
        } else {
            None
        },
    }
}

/// The nodes of the listed places, each of which lies below the directory
/// at place `d`.
pub open spec fn nodes_of(entries: Seq<ScanEntryView>, ids: Seq<usize>, d: int) -> Seq<FileEntryView>
    decreases entries.len() - d, 0int, ids.len(),
{
    if ids.len() == 0 {
        Seq::empty()
    } else {
        let before = nodes_of(entries, ids.drop_last(), d);
        if d < ids.last() < entries.len() {
            before.push(node_of(entries, ids.last() as int))
        } else {
            before
        }
    }
}

/// The pruned tree of a scan: the nodes shown right below the root.
pub open spec fn pruned_tree(entries: Seq<ScanEntryView>) -> Seq<FileEntryView> {
    nodes_of(entries, listing(entries, 0), 0)
}

/// No entry is shown before itself, and of two entries at most one is shown
/// before the other.
pub proof fn lemma_shown_before_asymmetric(entries: Seq<ScanEntryView>, a: int, b: int)
    ensures
        !(shown_before(entries, a, b) && shown_before(entries, b, a)),
        !shown_before(entries, a, a),
{
    lemma_lex_le_total_order(sort_key(entries[a]), sort_key(entries[b]), sort_key(entries[a]));
}

/// The order of siblings is transitive.
pub proof fn lemma_shown_before_transitive(entries: Seq<ScanEntryView>, a: int, b: int, c: int)
    requires
        shown_before(entries, a, b),
        shown_before(entries, b, c),
    ensures
        shown_before(entries, a, c),
{
    let ka = sort_key(entries[a]);
    let kb = sort_key(entries[b]);
    let kc = sort_key(entries[c]);
    lemma_lex_le_total_order(ka, kb, kc);
    lemma_lex_le_total_order(kc, ka, kb);
}

/// Of two different places one is shown before the other.
pub proof fn lemma_shown_before_total(entries: Seq<ScanEntryView>, a: int, b: int)
    requires
        a != b,
    ensures
        shown_before(entries, a, b) || shown_before(entries, b, a),
{
    lemma_lex_le_total_order(sort_key(entries[a]), sort_key(entries[b]), sort_key(entries[a]));
}

/// The order of siblings is a strict order of the places.
pub proof fn lemma_shown_order_strict(entries: Seq<ScanEntryView>)
    ensures
        is_strict_order(shown_order(entries)),
{
    let before = shown_order(entries);
    assert forall|a: int| !#[trigger] before(a, a) by {
        lemma_shown_before_asymmetric(entries, a, a);
    }
    assert forall|a: int, b: int, c: int| #[trigger] before(a, b) && #[trigger] before(b, c) implies before(
        a,
        c,
    ) by {
        lemma_shown_before_transitive(entries, a, b, c);
    }
    assert forall|a: int, b: int| a != b implies #[trigger] before(a, b) || before(b, a) by {
        lemma_shown_before_total(entries, a, b);
    }
}

/// A directory has one listing only: the order of siblings leaves no choice.
pub proof fn lemma_listing_unique(entries: Seq<ScanEntryView>, d: int, x: Seq<usize>, y: Seq<usize>)
    requires
        is_listing(entries, d, x),
        is_listing(entries, d, y),
    ensures
        x == y,
{
    assert forall|j: usize|
        #![trigger x.contains(j)]
        #![trigger y.contains(j)]
        x.contains(j) <==> y.contains(j) by {
        assert(x.contains(j) <==> is_shown(entries, j as int) && parent_of(entries, j as int) == d);
        assert(y.contains(j) <==> is_shown(entries, j as int) && parent_of(entries, j as int) == d);
    }
    lemma_shown_order_strict(entries);
    lemma_same_members_same_order(shown_order(entries), x, y);
}

/// Whether an entry has a node in the pruned tree, given whether the keep
/// set marks it.
fn shows_entry(e: &ScanEntry, kept: bool) -> (r: bool)
    ensures
        r == (e.kind == EntryKind::Directory && kept || is_markdown_entry(e@)),
{
    match e.kind {
        EntryKind::Directory => kept,
        EntryKind::File => is_markdown_file(e.path.as_str()),
        EntryKind::Other => false,
    }
}

/// Whether `e`, which the scan found later, is shown before `p`.
fn moves_before(e: &ScanEntry, e_key: &String, p: &ScanEntry, p_key: &String) -> (r: bool)
    requires
        e_key@ == lowercase_of(e.name@),
        p_key@ == lowercase_of(p.name@),
    ensures
        r == sorts_before(e@, p@),
{
    let e_dir = matches!(e.kind, EntryKind::Directory);
    let p_dir = matches!(p.kind, EntryKind::Directory);
    if e_dir != p_dir {
        return e_dir;
    }
    proof {
        lemma_lex_le_total_order(sort_key(e@), sort_key(p@), sort_key(e@));
    }
    !bytes_le(p_key.as_str().as_bytes(), e_key.as_str().as_bytes())
}

/// What holds of the list of children while the entries of `dir` are gone
/// through: `ids` lists, in order, the shown children of `dir` at places
/// before `j`, and `keys` holds the lowercase name of each.
#[verifier::opaque]
spec fn lists_up_to(
    entries: Seq<ScanEntryView>,
    dir: int,
    ids: Seq<usize>,
    keys: Seq<String>,
    j: int,
) -> bool {
    &&& ids.len() == keys.len()
    &&& forall|k: int| 0 <= k < ids.len() ==> dir < #[trigger] ids[k] < j
    &&& forall|k: int|
        0 <= k < ids.len() ==> (#[trigger] keys[k])@ == lowercase_of(entries[ids[k] as int].name)
    &&& in_shown_order(entries, ids)
    &&& forall|x: usize|
        #![trigger ids.contains(x)]
        ids.contains(x) <==> is_shown(entries, x as int) && parent_of(entries, x as int) == dir && x
            < j
}

/// Puts the shown child at place `j` into the list, behind every child that
/// is shown before it.
fn place_child(
    scan: &DirectoryScan,
    dir: usize,
    ids: &mut Vec<usize>,
    keys: &mut Vec<String>,
    j: usize,
)
    requires
        is_tree(scan@),
        j < scan@.len(),
        is_shown(scan@, j as int),
        parent_of(scan@, j as int) == dir,
        lists_up_to(scan@, dir as int, old(ids)@, old(keys)@, j as int),
    ensures
        lists_up_to(scan@, dir as int, final(ids)@, final(keys)@, j + 1),
{
    reveal(lists_up_to);
    let ghost entries = scan@;
    let e = scan.entry(j);
    let key = to_lowercase(e.name.as_str());
    let mut pos: usize = ids.len();
    while pos > 0 && moves_before(e, &key, scan.entry(ids[pos - 1]), &keys[pos - 1])
        invariant
            entries == scan@,
            j < entries.len(),
            e@ == entries[j as int],
            key@ == lowercase_of(e.name@),
            ids.len() == keys.len(),
            pos <= ids.len(),
            forall|k: int| 0 <= k < ids@.len() ==> dir < #[trigger] ids@[k] < j,
            forall|k: int|
                0 <= k < ids@.len() ==> (#[trigger] keys@[k])@ == lowercase_of(
                    entries[ids@[k] as int].name,
                ),
            forall|k: int|
                pos <= k < ids@.len() ==> shown_before(entries, j as int, #[trigger] ids@[k] as int),
        decreases pos,
    {
        pos = pos - 1;
    }
    proof {
        lemma_place_child(entries, dir as int, ids@, keys@, pos as int, j, key);
    }
    ids.insert(pos, j);
    keys.insert(pos, key);
}

/// Putting the shown child at place `j` behind the children shown before it
/// and before those shown after it gives the list up to the next place.
proof fn lemma_place_child(
    entries: Seq<ScanEntryView>,
    dir: int,
    ids: Seq<usize>,
    keys: Seq<String>,
    pos: int,
    j: usize,
    key: String,
)
    requires
        is_tree(entries),
        lists_up_to(entries, dir, ids, keys, j as int),
        is_shown(entries, j as int),
        parent_of(entries, j as int) == dir,
        key@ == lowercase_of(entries[j as int].name),
        0 <= pos <= ids.len(),
        forall|k: int| pos <= k < ids.len() ==> shown_before(entries, j as int, #[trigger] ids[k] as int),
        pos > 0 ==> !sorts_before(entries[j as int], entries[ids[pos - 1] as int]),
    ensures
        lists_up_to(entries, dir, ids.insert(pos, j), keys.insert(pos, key), j + 1),
{
    reveal(lists_up_to);
    let ids1 = ids.insert(pos, j);
    let keys1 = keys.insert(pos, key);
    ids.insert_ensures(pos, j);
    keys.insert_ensures(pos, key);
    assert forall|k: int| 0 <= k < pos implies shown_before(
        entries,
        #[trigger] ids[k] as int,
        j as int,
    ) by {
        let last = ids[pos - 1] as int;
        lemma_lex_le_total_order(
            sort_key(entries[last]),
            sort_key(entries[j as int]),
            sort_key(entries[last]),
        );
        assert(ids[pos - 1] < j);
        assert(shown_before(entries, last, j as int));
        if k < pos - 1 {
            assert(shown_before(entries, ids[k] as int, ids[pos - 1] as int));
            lemma_shown_before_transitive(entries, ids[k] as int, last, j as int);
        }
    }
    lemma_insert_in_order(shown_order(entries), ids, pos, j);
    assert forall|k: int| 0 <= k < ids1.len() implies dir < #[trigger] ids1[k] < j + 1 && (
    #[trigger] keys1[k])@ == lowercase_of(entries[ids1[k] as int].name) by {
        if k < pos {
            assert(ids1[k] == ids[k] && keys1[k] == keys[k]);
        } else if k == pos {
            assert(ids1[k] == j && keys1[k] == key);
            assert(parent_of(entries, j as int) < j);
        } else {
            assert(ids1[k] == ids[k - 1] && keys1[k] == keys[k - 1]);
        }
    }
    assert forall|x: usize|
        #![trigger ids1.contains(x)]
        ids1.contains(x) <==> is_shown(entries, x as int) && parent_of(entries, x as int) == dir && x
            < j + 1 by {
        assert(ids1.contains(x) <==> ids.contains(x) || x == j);
        assert(ids.contains(x) <==> is_shown(entries, x as int) && parent_of(entries, x as int) == dir
            && x < j);
    }
}

/// A place that is not a shown child of `dir` leaves the list as it is.
proof fn lemma_skip_place(
    entries: Seq<ScanEntryView>,
    dir: int,
    ids: Seq<usize>,
    keys: Seq<String>,
    j: int,
)
    requires
        lists_up_to(entries, dir, ids, keys, j),
        !(is_shown(entries, j) && parent_of(entries, j) == dir),
    ensures
        lists_up_to(entries, dir, ids, keys, j + 1),
{
    reveal(lists_up_to);
}

/// Once the whole scan is read, the list is the listing of the directory.
proof fn lemma_list_complete(
    entries: Seq<ScanEntryView>,
    dir: int,
    ids: Seq<usize>,
    keys: Seq<String>,
)
    requires
        is_tree(entries),
        lists_up_to(entries, dir, ids, keys, entries.len() as int),
    ensures
        is_listing(entries, dir, ids),
        ids == listing(entries, dir),
        forall|k: int| 0 <= k < ids.len() ==> dir < #[trigger] ids[k] < entries.len(),
{
    reveal(lists_up_to);
    assert(is_listing(entries, dir, ids));
    lemma_listing_unique(entries, dir, ids, listing(entries, dir));
}

/// Places that are no shown children of `dir` leave the list as it is.
proof fn lemma_skip_places(
    entries: Seq<ScanEntryView>,
    dir: int,
    ids: Seq<usize>,
    keys: Seq<String>,
    from: int,
    to: int,
)
    requires
        lists_up_to(entries, dir, ids, keys, from),
        from <= to,
        forall|x: int| from <= x < to && 0 < x ==> parent_of(entries, x) != dir,
    ensures
        lists_up_to(entries, dir, ids, keys, to),
{
    reveal(lists_up_to);
    assert forall|x: usize|
        #![trigger ids.contains(x)]
        ids.contains(x) <==> is_shown(entries, x as int) && parent_of(entries, x as int) == dir
            && x < to by {
        if from <= x < to && 0 < x {
            assert(parent_of(entries, x as int) != dir);
        }
    }
}

/// Between two neighbours of its list, and before the first and behind the
/// last, a directory lists nothing.
proof fn lemma_nothing_between(
    entries: Seq<ScanEntryView>,
    dir: int,
    listed: Seq<usize>,
    k: int,
    x: int,
)
    requires
        lists_entries_of(entries, dir, listed),
        entries.len() <= usize::MAX,
        0 <= k <= listed.len(),
        k > 0 ==> listed[k - 1] < x,
        k < listed.len() ==> x < listed[k],
        0 < x < entries.len(),
    ensures
        parent_of(entries, x) != dir,
{
    if parent_of(entries, x) == dir {
        assert(listed.contains(x as usize));
        let m = choose|m: int| 0 <= m < listed.len() && listed[m] == x as usize;
        if m < k - 1 {
            assert(listed[m] < listed[k - 1]);
        } else if m > k {
            assert(listed[k] < listed[m]);
        }
    }
}

/// Lists the shown children of the directory at place `dir`: each entry
/// that the directory lists and that is shown is put in its place among
/// those found before it.
pub fn list_children(scan: &DirectoryScan, keep: &Vec<bool>, dir: usize) -> (ids: Vec<usize>)
    requires
        scan.wf(),
        is_keep_set(scan@, keep@),
        dir < scan@.len(),
    ensures
        is_listing(scan@, dir as int, ids@),
        ids@ == listing(scan@, dir as int),
        forall|k: int| 0 <= k < ids@.len() ==> dir < #[trigger] ids@[k] < scan@.len(),
{
    let n = scan.len();
    let ghost entries = scan@;
    let listed = scan.entries_of(dir);
    let mut ids: Vec<usize> = Vec::new();
    let mut keys: Vec<String> = Vec::new();
    let mut k: usize = 0;
    let ghost mut done: int = 0;
    proof {
        reveal(lists_up_to);
        assert(lists_up_to(entries, dir as int, ids@, keys@, 0));
    }
    while k < listed.len()
        invariant
            entries == scan@,
            scan.wf(),
            is_keep_set(entries, keep@),
            n == entries.len(),
            dir < n,
            lists_entries_of(entries, dir as int, listed@),
            k <= listed@.len(),
            0 <= done <= n,
            k > 0 ==> done == listed@[k - 1] + 1,
            k == 0 ==> done == 0,
            lists_up_to(entries, dir as int, ids@, keys@, done),
        decreases listed@.len() - k,
    {
        let j = listed[k];
        proof {
            assert(listed@.contains(j));
            assert forall|x: int| done <= x < j && 0 < x implies parent_of(entries, x) != dir by {
                lemma_nothing_between(entries, dir as int, listed@, k as int, x);
            }
            lemma_skip_places(entries, dir as int, ids@, keys@, done, j as int);
        }
        let e = scan.entry(j);
        if shows_entry(e, keep[j]) {
            place_child(scan, dir, &mut ids, &mut keys, j);
        } else {
            proof {
                lemma_skip_place(entries, dir as int, ids@, keys@, j as int);
            }
        }
        proof {
            done = j + 1;
        }
        k = k + 1;
    }
    proof {
        assert forall|x: int| done <= x < n && 0 < x implies parent_of(entries, x) != dir by {
            lemma_nothing_between(entries, dir as int, listed@, k as int, x);
        }
        lemma_skip_places(entries, dir as int, ids@, keys@, done, n as int);
        lemma_list_complete(entries, dir as int, ids@, keys@);
    }
    ids
}

/// The children of a directory node are the nodes of its list.
pub proof fn lemma_view_children(e: FileEntry)
    ensures
        e@.name == e.name@,
        e@.path == e.path@,
        e@.is_directory == e.is_directory,
        e.children matches Some(nodes) ==> e@.children == Some(forest_view(nodes@)),
        e.children is None ==> e@.children is None,
{
    match e.children {
        Some(nodes) => {
            reveal_with_fuel(node_view, 2);
            let shown = e@.children->0;
            assert(e@.children is Some);
            assert(shown.len() == nodes@.len());
            assert forall|k: int| 0 <= k < shown.len() implies shown[k] == forest_view(nodes@)[k] by {
                assert(shown[k] == nodes@[k]@);
            }
            assert(shown =~= forest_view(nodes@));
        },
        None => {},
    }
}

/// Where every listed place lies below `d`, each has its node, in the same
/// order.
pub proof fn lemma_nodes_of_listed(entries: Seq<ScanEntryView>, ids: Seq<usize>, d: int)
    requires
        forall|k: int| 0 <= k < ids.len() ==> d < #[trigger] ids[k] < entries.len(),
    ensures
        nodes_of(entries, ids, d).len() == ids.len(),
        forall|k: int|
            0 <= k < ids.len() ==> #[trigger] nodes_of(entries, ids, d)[k] == node_of(
                entries,
                ids[k] as int,
            ),
    decreases ids.len(),
{
    if ids.len() > 0 {
        lemma_nodes_of_listed(entries, ids.drop_last(), d);
    }
}

/// Builds the nodes shown below the directory at place `dir`: its shown
/// children in their order, each directory among them with its own nodes.
pub fn build_tree(scan: &DirectoryScan, keep: &Vec<bool>, dir: usize) -> (nodes: Vec<FileEntry>)
    requires
        scan.wf(),
        is_keep_set(scan@, keep@),
        dir < scan@.len(),
    ensures
        forest_view(nodes@) == nodes_of(scan@, listing(scan@, dir as int), dir as int),
    decreases scan@.len() - dir,
{
    let ghost entries = scan@;
    let ids = list_children(scan, keep, dir);
    let mut nodes: Vec<FileEntry> = Vec::new();
    let mut k: usize = 0;
    assert(forest_view(nodes@) =~= nodes_of(entries, ids@.take(0), dir as int));
    while k < ids.len()
        invariant
            entries == scan@,
            scan.wf(),
            is_keep_set(entries, keep@),
            dir < entries.len(),
            k <= ids.len(),
            forall|i: int| 0 <= i < ids@.len() ==> dir < #[trigger] ids@[i] < entries.len(),
            forest_view(nodes@) == nodes_of(entries, ids@.take(k as int), dir as int),
        decreases ids.len() - k,
    {
        let j = ids[k];
        let e = scan.entry(j);
        let node = match e.kind {
            EntryKind::Directory => FileEntry {
                name: e.name.clone(),
                path: e.path.clone(),
                is_directory: true,
                children: Some(build_tree(scan, keep, j)),
            },
            _ => FileEntry {
                name: e.name.clone(),
                path: e.path.clone(),
                is_directory: false,
                children: None,
            },
        };
        proof {
            lemma_view_children(node);
            assert(node@ == node_of(entries, j as int));
            let next = ids@.take(k + 1);
            assert(next.drop_last() =~= ids@.take(k as int));
            assert(next.last() == j);
            assert(forest_view(nodes@.push(node)) =~= forest_view(nodes@).push(node@));
        }
        nodes.push(node);
        k = k + 1;
    }
    assert(ids@.take(k as int) =~= ids@);
    nodes
}

/// Whether `r` is what reading the scanned directory gives: the pruned tree
/// of the scan, or `NotDirectory` with the root's path where the root is no
/// directory.
pub open spec fn is_directory_tree(
    entries: Seq<ScanEntryView>,
    r: Result<Vec<FileEntry>, AppError>,
) -> bool {
    match r {
        Ok(nodes) => entries[0].kind == EntryKind::Directory && forest_view(nodes@) == pruned_tree(
            entries,
        ),
        Err(e) => entries[0].kind != EntryKind::Directory && e is NotDirectory && e.detail()
            == entries[0].path,
    }
}

/// The shown children of `d` at places before `bound` can be listed in
/// order.
proof fn lemma_list_up_to(entries: Seq<ScanEntryView>, d: int, bound: nat) -> (ids: Seq<usize>)
    requires
        bound <= entries.len() <= usize::MAX,
    ensures
        in_shown_order(entries, ids),
        forall|x: usize|
            #![trigger ids.contains(x)]
            ids.contains(x) <==> is_shown(entries, x as int) && parent_of(entries, x as int) == d && x
                < bound,
    decreases bound,
{
    if bound == 0 {
        Seq::empty()
    } else {
        let before = lemma_list_up_to(entries, d, (bound - 1) as nat);
        let x = (bound - 1) as usize;
        if is_shown(entries, x as int) && parent_of(entries, x as int) == d {
            lemma_shown_order_strict(entries);
            let pos = lemma_position(shown_order(entries), before, x);
            lemma_insert_in_order(shown_order(entries), before, pos, x);
            before.insert(pos, x)
        } else {
            before
        }
    }
}

/// Every directory of a scan has a listing, so `listing` names it.
pub proof fn lemma_listing_exists(entries: Seq<ScanEntryView>, d: int)
    requires
        entries.len() <= usize::MAX,
    ensures
        is_listing(entries, d, listing(entries, d)),
{
    let ids = lemma_list_up_to(entries, d, entries.len());
    assert(is_listing(entries, d, ids));
}

/// Below an ancestor of `m` there is a child of it that is `m` or lies on
/// the way to `m`.
proof fn lemma_child_towards(entries: Seq<ScanEntryView>, d: int, m: int) -> (c: int)
    requires
        is_tree(entries),
        is_ancestor(entries, d, m),
    ensures
        0 < c < entries.len(),
        parent_of(entries, c) == d,
        c == m || is_ancestor(entries, c, m),
    decreases m,
{
    let p = parent_of(entries, m);
    if p == d {
        m
    } else {
        lemma_child_towards(entries, d, p)
    }
}

/// Whether the entry at place `j` has a node in the pruned tree: its parent
/// lists it, and the parent is the root or has a node itself.
pub open spec fn in_pruned_tree(entries: Seq<ScanEntryView>, j: int) -> bool
    decreases j,
{
    &&& 0 < j < entries.len()
    &&& 0 <= parent_of(entries, j) < j
    &&& listing(entries, parent_of(entries, j)).contains(j as usize)
    &&& (parent_of(entries, j) == 0 || in_pruned_tree(entries, parent_of(entries, j)))
}

/// The pruned tree holds a node for a directory exactly where a markdown
/// file lies somewhere below that directory, and a node for a file exactly
/// where the file is a markdown file.
pub proof fn lemma_nodes_of_pruned_tree(entries: Seq<ScanEntryView>, j: int)
    requires
        is_tree(entries),
        entries.len() <= usize::MAX,
        0 < j < entries.len(),
    ensures
        in_pruned_tree(entries, j) <==> is_shown(entries, j),
        entries[j].kind == EntryKind::Directory ==> (in_pruned_tree(entries, j) <==> holds_markdown(
            entries,
            j,
        )),
        entries[j].kind != EntryKind::Directory ==> (in_pruned_tree(entries, j)
            <==> is_markdown_entry(entries[j])),
    decreases j,
{
    let p = parent_of(entries, j);
    lemma_listing_exists(entries, p);
    assert(listing(entries, p).contains(j as usize) <==> is_shown(entries, j));
    if is_shown(entries, j) && p != 0 {
        assert(holds_markdown(entries, p)) by {
            if is_markdown_entry(entries[j]) {
                assert(is_ancestor(entries, p, j));
            } else {
                let m = choose|m: int|
                    0 <= m < entries.len() && is_markdown_entry(entries[m]) && is_ancestor(
                        entries,
                        j,
                        m,
                    );
                lemma_ancestor_parent(entries, j, m);
            }
        }
        lemma_nodes_of_pruned_tree(entries, p);
    }
}

/// A directory that holds a markdown file somewhere below it shows at least
/// one child: no directory node is a leaf.
pub proof fn lemma_directory_nodes_have_children(entries: Seq<ScanEntryView>, d: int)
    requires
        is_tree(entries),
        entries.len() <= usize::MAX,
        holds_markdown(entries, d),
    ensures
        listing(entries, d).len() > 0,
{
    let m = choose|m: int|
        0 <= m < entries.len() && is_markdown_entry(entries[m]) && is_ancestor(entries, d, m);
    let c = lemma_child_towards(entries, d, m);
    if c != m {
        lemma_ancestor_is_directory(entries, c, m);
        assert(holds_markdown(entries, c));
    }
    assert(is_shown(entries, c));
    lemma_listing_exists(entries, d);
    assert(listing(entries, d).contains(c as usize));
}

/// Whether node `x` may stand before node `y` among siblings: a directory
/// before a file, and within one group the lesser lowercase name first.
pub open spec fn stands_before(x: FileEntryView, y: FileEntryView) -> bool {
    ||| x.is_directory && !y.is_directory
    ||| x.is_directory == y.is_directory && lex_le(
        encode_utf8(lowercase_of(x.name)),
        encode_utf8(lowercase_of(y.name)),
    )
}

/// Whether the nodes are a well-formed pruned forest, at every depth:
/// siblings stand directories first and each group by lowercase name; a
/// directory has children, and at least one; a file has none and is a
/// markdown file.
pub open spec fn is_pruned_forest(nodes: Seq<FileEntryView>) -> bool
    decreases nodes,
{
    &&& forall|a: int, b: int|
        0 <= a < b < nodes.len() ==> stands_before(#[trigger] nodes[a], #[trigger] nodes[b])
    &&& forall|k: int|
        0 <= k < nodes.len() ==> {
            let node = #[trigger] nodes[k];
            &&& node.is_directory <==> node.children is Some
            &&& !node.is_directory ==> is_markdown_path(encode_utf8(node.path))
            &&& node.children matches Some(below) ==> below.len() > 0 && is_pruned_forest(below)
        }
}

/// What is shown below any directory of a scan is a well-formed pruned
/// forest.
pub proof fn lemma_nodes_well_formed(entries: Seq<ScanEntryView>, d: int)
    requires
        is_tree(entries),
        entries.len() <= usize::MAX,
        0 <= d < entries.len(),
    ensures
        is_pruned_forest(nodes_of(entries, listing(entries, d), d)),
    decreases entries.len() - d,
{
    let ids = listing(entries, d);
    let nodes = nodes_of(entries, ids, d);
    lemma_listing_exists(entries, d);
    assert forall|k: int| 0 <= k < ids.len() implies d < #[trigger] ids[k] < entries.len() by {
        assert(ids.contains(ids[k]));
    }
    lemma_nodes_of_listed(entries, ids, d);
    assert forall|a: int, b: int| 0 <= a < b < nodes.len() implies stands_before(
        #[trigger] nodes[a],
        #[trigger] nodes[b],
    ) by {
        assert(shown_before(entries, ids[a] as int, ids[b] as int));
        let ka = sort_key(entries[ids[a] as int]);
        lemma_lex_le_total_order(ka, ka, ka);
    }
    assert forall|k: int| 0 <= k < nodes.len() implies {
        let node = #[trigger] nodes[k];
        &&& node.is_directory <==> node.children is Some
        &&& !node.is_directory ==> is_markdown_path(encode_utf8(node.path))
        &&& node.children matches Some(below) ==> below.len() > 0 && is_pruned_forest(below)
    } by {
        let j = ids[k] as int;
        assert(ids.contains(ids[k]));
        assert(nodes[k] == node_of(entries, j));
        if entries[j].kind == EntryKind::Directory {
            lemma_directory_nodes_have_children(entries, j);
            lemma_listing_exists(entries, j);
            let below = listing(entries, j);
            assert forall|i: int| 0 <= i < below.len() implies j < #[trigger] below[i]
                < entries.len() by {
                assert(below.contains(below[i]));
            }
            lemma_nodes_of_listed(entries, below, j);
            lemma_nodes_well_formed(entries, j);
        }
    }
}

/// The pruned tree of a scan is a well-formed pruned forest: siblings stand
/// directories first, each group by lowercase name, and every leaf is a
/// markdown file.
pub proof fn lemma_pruned_tree_well_formed(entries: Seq<ScanEntryView>)
    requires
        is_tree(entries),
        entries.len() <= usize::MAX,
    ensures
        is_pruned_forest(pruned_tree(entries)),
{
    lemma_nodes_well_formed(entries, 0);
}

/// Reads a scanned directory into its pruned tree: the directories that hold
/// a markdown file somewhere below them and the markdown files, directories
/// first, each group in the order of the lowercase names. A root that is no
/// directory is refused; a directory without markdown files gives an empty
/// tree.
pub fn read_directory(scan: &DirectoryScan) -> (r: Result<Vec<FileEntry>, AppError>)
    requires
        scan.wf(),
    ensures
        is_directory_tree(scan@, r),
        r matches Ok(nodes) ==> is_pruned_forest(forest_view(nodes@)),
{
    let root = scan.entry(0);
    match root.kind {
        EntryKind::Directory => {},
        _ => {
            return Err(AppError::NotDirectory(root.path.clone()));
        },
    }
    let keep = keep_set(scan);
    proof {
        assert(scan@.len() == keep.len());
        lemma_pruned_tree_well_formed(scan@);
    }
    Ok(build_tree(scan, &keep, 0))
}

/// A scan without markdown files has an empty pruned tree.
pub proof fn lemma_no_markdown_empty_tree(entries: Seq<ScanEntryView>)
    requires
        is_tree(entries),
        entries.len() <= usize::MAX,
        forall|j: int| 0 <= j < entries.len() ==> !is_markdown_entry(#[trigger] entries[j]),
    ensures
        pruned_tree(entries) == Seq::<FileEntryView>::empty(),
{
    lemma_listing_exists(entries, 0);
    let ids = listing(entries, 0);
    if ids.len() > 0 {
        assert(ids.contains(ids[0]));
        let j = ids[0] as int;
        assert(is_shown(entries, j));
        if holds_markdown(entries, j) {
            let m = choose|m: int|
                0 <= m < entries.len() && is_markdown_entry(entries[m]) && is_ancestor(
                    entries,
                    j,
                    m,
                );
            assert(false);
        }
    }
}

/// Reading one scan twice gives one tree: two results that both meet the
/// contract of `read_directory` show the same nodes, or both refuse the
/// root.
pub proof fn lemma_read_directory_repeatable(
    entries: Seq<ScanEntryView>,
    first: Result<Vec<FileEntry>, AppError>,
    second: Result<Vec<FileEntry>, AppError>,
)
    requires
        is_directory_tree(entries, first),
        is_directory_tree(entries, second),
    ensures
        first is Ok <==> second is Ok,
        first is Ok ==> forest_view(first->Ok_0@) == forest_view(second->Ok_0@),
        first is Err ==> first->Err_0.message_text() == second->Err_0.message_text(),
{
}

} // verus!
