//! Paths: file names and extensions, markdown files, directory validation,
//! safe file names.
//!
//! A path is read as its components between slashes; the last of them
//! that names something is its file name.

use crate::error::AppError;
use crate::text::{lemma_ascii_byte_boundaries, slice_str, DOT, SLASH};
use vstd::prelude::*;
use vstd::slice::*;
use vstd::string::*;
use vstd::utf8::*;

verus! {

/// A markdown file as it was read: its path, and its content where the file
/// could be read.
#[derive(Debug, Clone, PartialEq, Eq)]
pub struct MarkdownFile {
    /// The path of the file.
    pub path: String,
    /// The text of the file; `None` where it could not be read.
    pub content: Option<String>,
}

/// A markdown file as a mathematical value.
pub struct MarkdownFileView {
    pub path: Seq<char>,
    pub content: Option<Seq<char>>,
}

impl View for MarkdownFile {
    type V = MarkdownFileView;

    open spec fn view(&self) -> MarkdownFileView {
        MarkdownFileView {
            path: self.path@,
            content: match self.content {
                Some(text) => Some(text@),
                None => None,
            },
        }
    }
}

/// The files of a list as mathematical values.
pub open spec fn files_view(files: Seq<MarkdownFile>) -> Seq<MarkdownFileView> {
    files.map_values(|f: MarkdownFile| f@)
}

/// The small letter `m`.
pub const LOWER_M: u8 = 0x6d;

/// The capital letter `M`.
pub const UPPER_M: u8 = 0x4d;

/// The small letter `d`.
pub const LOWER_D: u8 = 0x64;

/// The capital letter `D`.
pub const UPPER_D: u8 = 0x44;

/// The outcome of validating a directory, given whether the path names an
/// existing directory.
pub open spec fn directory_checked(
    path: Seq<char>,
    is_dir: bool,
    r: Result<String, AppError>,
) -> bool {
    match r {
        Ok(root) => is_dir && root@ == path,
        Err(e) => !is_dir && e is NotDirectory && e.detail() == path,
    }
}

/// Validates a root: `is_dir` says whether `path` names an existing
/// directory. Returns the path, or `NotDirectory` with the path.
pub fn validate_directory(path: &str, is_dir: bool) -> (r: Result<String, AppError>)
    ensures
        directory_checked(path@, is_dir, r),
{
    if !is_dir {
        return Err(AppError::NotDirectory(path.to_owned()));
    }
    Ok(path.to_owned())
}

/// Whether the component `.` ends at offset `end` of the path: a dot at
/// the start of the path or right behind a slash.
pub open spec fn ends_in_dot_component(path: Seq<u8>, end: int) -> bool {
    &&& 1 <= end <= path.len()
    &&& path[end - 1] == DOT
    &&& (end == 1 || path[end - 2] == SLASH)
}

/// Where the last component that names something ends: the slashes and the
/// components `.` at the end of the path are passed over.
pub open spec fn name_end(path: Seq<u8>, end: int) -> int
    decreases end,
{
    if end <= 0 || end > path.len() {
        0
    } else if path[end - 1] == SLASH || ends_in_dot_component(path, end) {
        name_end(path, end - 1)
    } else {
        end
    }
}

/// Where the component that ends at `end` begins: right behind the last
/// slash before `end`, or at the start of the path.
pub open spec fn name_start(path: Seq<u8>, end: int) -> int
    decreases end,
{
    if end <= 0 || end > path.len() {
        0
    } else if path[end - 1] == SLASH {
        end
    } else {
        name_start(path, end - 1)
    }
}

/// The file name of a path: its last component, where the components are
/// what stands between slashes. Slashes and components `.` at the end are
/// passed over. A path whose last component is `..`, and a path without a
/// component, have no file name.
pub open spec fn file_name_of(path: Seq<u8>) -> Option<Seq<u8>> {
    let end = name_end(path, path.len() as int);
    let name = path.subrange(name_start(path, end), end);
    if end == 0 || name == seq![DOT, DOT] {
        None
    } else {
        Some(name)
    }
}

/// The offset of the last dot before `end`, or -1 where there is none.
pub open spec fn last_dot(name: Seq<u8>, end: int) -> int
    decreases end,
{
    if end <= 0 || end > name.len() {
        -1
    } else if name[end - 1] == DOT {
        end - 1
    } else {
        last_dot(name, end - 1)
    }
}

/// The extension of a file name: what follows its last dot, where a dot
/// stands behind its first byte.
pub open spec fn extension_of_name(name: Seq<u8>) -> Option<Seq<u8>> {
    let dot = last_dot(name, name.len() as int);
    if dot < 1 {
        None
    } else {
        Some(name.subrange(dot + 1, name.len() as int))
    }
}

/// The extension of the file that a path names: the extension of its file
/// name, if it has one.
pub open spec fn extension_of(path: Seq<u8>) -> Option<Seq<u8>> {
    match file_name_of(path) {
        Some(name) => extension_of_name(name),
        None => None,
    }
}

/// Whether an extension is `md` in any mix of upper and lower case.
pub open spec fn is_md_extension(ext: Seq<u8>) -> bool {
    &&& ext.len() == 2
    &&& (ext[0] == LOWER_M || ext[0] == UPPER_M)
    &&& (ext[1] == LOWER_D || ext[1] == UPPER_D)
}

/// Whether the path names a markdown file: the extension of its file name
/// is `md`, in any mix of upper and lower case.
pub open spec fn is_markdown_path(path: Seq<u8>) -> bool {
    extension_of(path) matches Some(ext) && is_md_extension(ext)
}

/// The name of the file or directory that a path names, as a text; empty
/// where the path has no file name.
pub open spec fn name_of(path: Seq<char>) -> Seq<char> {
    match file_name_of(encode_utf8(path)) {
        Some(name) => decode_utf8(name),
        None => Seq::empty(),
    }
}

/// The file name of a path, as a part of the path itself.
pub fn last_component<'a>(path: &'a str) -> (name: Option<&'a str>)
    ensures
        match name {
            Some(text) => file_name_of(path.spec_bytes()) == Some(text.spec_bytes()),
            None => file_name_of(path.spec_bytes()).is_none(),
        },
{
    broadcast use encode_utf8_valid_utf8;

    let bytes = path.as_bytes();
    let n = bytes.len();
    let mut end: usize = n;
    while end > 0 && (bytes[end - 1] == SLASH || (bytes[end - 1] == DOT && (end == 1 || bytes[end
        - 2] == SLASH)))
        invariant
            bytes@ == path.spec_bytes(),
            n == bytes@.len(),
            end <= n,
            end < n ==> bytes@[end as int] == SLASH || bytes@[end as int] == DOT,
            name_end(bytes@, n as int) == name_end(bytes@, end as int),
        decreases end,
    {
        end = end - 1;
    }
    if end == 0 {
        return None;
    }
    let mut start: usize = end;
    while start > 0 && bytes[start - 1] != SLASH
        invariant
            bytes@ == path.spec_bytes(),
            n == bytes@.len(),
            start <= end <= n,
            name_start(bytes@, end as int) == name_start(bytes@, start as int),
        decreases start,
    {
        start = start - 1;
    }
    let ghost name = bytes@.subrange(start as int, end as int);
    if end - start == 2 && bytes[start] == DOT && bytes[start + 1] == DOT {
        assert(name =~= seq![DOT, DOT]);
        return None;
    }
    proof {
        if end - start == 2 {
            assert(name[0] != seq![DOT, DOT][0] || name[1] != seq![DOT, DOT][1]);
        } else {
            assert(seq![DOT, DOT].len() == 2);
        }
        is_char_boundary_start_end_of_seq(bytes@);
        if end < n {
            lemma_ascii_byte_boundaries(bytes@, end as int);
        }
        if start > 0 {
            lemma_ascii_byte_boundaries(bytes@, start - 1);
        }
    }
    Some(slice_str(path, start, end))
}

/// The name of the file or directory that a path names; empty where the
/// path has no file name.
pub fn file_name(path: &str) -> (name: String)
    ensures
        name@ == name_of(path@),
{
    match last_component(path) {
        Some(text) => {
            let name = text.to_owned();
            proof {
                encode_utf8_decode_utf8(name@);
            }
            name
        },
        None => String::new(),
    }
}

/// The extension of the file that a path names, as a part of the path
/// itself.
pub fn extension_part<'a>(path: &'a str) -> (ext: Option<&'a str>)
    ensures
        match ext {
            Some(text) => extension_of(path.spec_bytes()) == Some(text.spec_bytes()),
            None => extension_of(path.spec_bytes()).is_none(),
        },
{
    broadcast use encode_utf8_valid_utf8;

    let name = match last_component(path) {
        Some(text) => text,
        None => {
            return None;
        },
    };
    let bytes = name.as_bytes();
    let n = bytes.len();
    let mut end: usize = n;
    while end > 0 && bytes[end - 1] != DOT
        invariant
            bytes@ == name.spec_bytes(),
            n == bytes@.len(),
            end <= n,
            last_dot(bytes@, n as int) == last_dot(bytes@, end as int),
        decreases end,
    {
        end = end - 1;
    }
    if end < 2 {
        return None;
    }
    proof {
        lemma_ascii_byte_boundaries(bytes@, end - 1);
        is_char_boundary_start_end_of_seq(bytes@);
    }
    Some(slice_str(name, end, n))
}

/// The extension of the file that a path names.
pub fn extension(path: &str) -> (ext: Option<String>)
    ensures
        match ext {
            Some(text) => extension_of(path.spec_bytes()) == Some(encode_utf8(text@)),
            None => extension_of(path.spec_bytes()).is_none(),
        },
{
    match extension_part(path) {
        Some(text) => Some(text.to_owned()),
        None => None,
    }
}

/// Checks whether `path` names a markdown file: whether the extension of
/// its file name is `md`, ignoring case.
pub fn is_markdown_file(path: &str) -> (r: bool)
    ensures
        r == is_markdown_path(path.spec_bytes()),
{
    match extension_part(path) {
        Some(text) => {
            let ext = text.as_bytes();
            ext.len() == 2 && (ext[0] == LOWER_M || ext[0] == UPPER_M) && (ext[1] == LOWER_D
                || ext[1] == UPPER_D)
        },
        None => false,
    }
}

/// Whether a component `..` of the path begins at offset `i`: two dots
/// between slashes or the ends of the path.
pub open spec fn is_parent_at(path: Seq<u8>, i: int) -> bool {
    &&& 0 <= i
    &&& i + 2 <= path.len()
    &&& path[i] == DOT
    &&& path[i + 1] == DOT
    &&& (i == 0 || path[i - 1] == SLASH)
    &&& (i + 2 == path.len() || path[i + 2] == SLASH)
}

/// Whether the path climbs: one of its components is `..`.
pub open spec fn climbs(path: Seq<u8>) -> bool {
    exists|i: int| is_parent_at(path, i)
}

/// Whether a name from an untrusted source can be made safe: it does not
/// climb, and it has a file name.
pub open spec fn is_safe_name(name: Seq<u8>) -> bool {
    !climbs(name) && file_name_of(name) is Some
}

/// Tests a path for a component `..`.
pub fn has_parent_component(path: &str) -> (r: bool)
    ensures
        r == climbs(path.spec_bytes()),
{
    let bytes = path.as_bytes();
    let n = bytes.len();
    if n < 2 {
        return false;
    }
    let mut i: usize = 0;
    while i < n - 1
        invariant
            bytes@ == path.spec_bytes(),
            n == bytes@.len(),
            n >= 2,
            i <= n - 1,
            forall|k: int| 0 <= k < i ==> !is_parent_at(bytes@, k),
        decreases n - i,
    {
        if bytes[i] == DOT && bytes[i + 1] == DOT && (i == 0 || bytes[i - 1] == SLASH) && (i + 2
            == n || bytes[i + 2] == SLASH) {
            assert(is_parent_at(bytes@, i as int));
            return true;
        }
        i = i + 1;
    }
    false
}

/// Reduces a file name from an untrusted source to the file name of the
/// path that it is read as: directory components are stripped. A name that
/// climbs through `..`, and a name without a file name (an empty one, `.`,
/// the root), is rejected with `PathTraversal`.
pub fn sanitize_filename(name: &str) -> (r: Result<String, AppError>)
    ensures
        match r {
            Ok(clean) => is_safe_name(name.spec_bytes()) && file_name_of(name.spec_bytes())
                == Some(encode_utf8(clean@)),
            Err(e) => !is_safe_name(name.spec_bytes()) && e is PathTraversal && e.detail()
                == name@,
        },
{
    if has_parent_component(name) {
        return Err(AppError::PathTraversal(name.to_owned()));
    }
    match last_component(name) {
        Some(text) => Ok(text.to_owned()),
        None => Err(AppError::PathTraversal(name.to_owned())),
    }
}

/// A component begins at or before its end, right behind a slash where not
/// at the start of the path, and holds no slash.
pub proof fn lemma_name_start_bounds(path: Seq<u8>, end: int)
    requires
        0 <= end <= path.len(),
    ensures
        0 <= name_start(path, end) <= end,
        name_start(path, end) > 0 ==> path[name_start(path, end) - 1] == SLASH,
        forall|k: int| name_start(path, end) <= k < end ==> path[k] != SLASH,
    decreases end,
{
    if end > 0 && path[end - 1] != SLASH {
        lemma_name_start_bounds(path, end - 1);
    }
}

/// The last component that names something ends inside the path, on a byte
/// that is no slash and does not end a component `.`.
pub proof fn lemma_name_end_bounds(path: Seq<u8>, end: int)
    requires
        0 <= end <= path.len(),
    ensures
        0 <= name_end(path, end) <= end,
        name_end(path, end) > 0 ==> path[name_end(path, end) - 1] != SLASH
            && !ends_in_dot_component(path, name_end(path, end)),
    decreases end,
{
    if end > 0 && (path[end - 1] == SLASH || ends_in_dot_component(path, end)) {
        lemma_name_end_bounds(path, end - 1);
    }
}

/// What is left of a safe name stays inside the directory it is joined to:
/// it holds no slash, it is neither empty nor `.` nor `..`, and it is its
/// own file name, so that making it safe again changes nothing.
pub proof fn lemma_safe_name_stays_inside(name: Seq<u8>)
    requires
        is_safe_name(name),
    ensures
        forall|k: int| 0 <= k < file_name_of(name)->0.len() ==> file_name_of(name)->0[k] != SLASH,
        file_name_of(name)->0.len() > 0,
        file_name_of(name)->0 != seq![DOT],
        file_name_of(name)->0 != seq![DOT, DOT],
        is_safe_name(file_name_of(name)->0),
        file_name_of(file_name_of(name)->0) == file_name_of(name),
{
    let end = name_end(name, name.len() as int);
    let start = name_start(name, end);
    let clean = file_name_of(name)->0;
    lemma_name_end_bounds(name, name.len() as int);
    lemma_name_start_bounds(name, end);
    assert(name_start(name, end) == name_start(name, end - 1));
    lemma_name_start_bounds(name, end - 1);
    let len = clean.len() as int;
    assert(len > 0);
    assert(clean[len - 1] == name[end - 1]);
    if clean == seq![DOT] {
        assert(seq![DOT].len() == 1);
        assert(clean[0] == seq![DOT][0]);
        assert(ends_in_dot_component(name, end));
    }
    assert forall|k: int| 0 <= k < len implies clean[k] != SLASH by {
        assert(clean[k] == name[start + k]);
    }
    lemma_one_component(clean);
}

/// A path that holds no slash and is neither empty nor `.` nor `..` is its
/// own file name, and does not climb.
proof fn lemma_one_component(path: Seq<u8>)
    requires
        path.len() > 0,
        path != seq![DOT],
        path != seq![DOT, DOT],
        forall|k: int| 0 <= k < path.len() ==> path[k] != SLASH,
    ensures
        file_name_of(path) == Some(path),
        !climbs(path),
{
    let len = path.len() as int;
    if ends_in_dot_component(path, len) {
        assert(len == 1);
        assert(path =~= seq![DOT]);
    }
    assert(name_end(path, len) == len);
    lemma_name_start_bounds(path, len);
    if name_start(path, len) > 0 {
        assert(path[name_start(path, len) - 1] == SLASH);
    }
    assert(path.subrange(0, len) =~= path);
    if climbs(path) {
        let i = choose|i: int| is_parent_at(path, i);
        if i > 0 {
            assert(path[i - 1] == SLASH);
        } else if i + 2 < len {
            assert(path[i + 2] == SLASH);
        } else {
            assert(path =~= seq![DOT, DOT]);
        }
    }
}

/// What a walk of a folder reports of one entry.
#[derive(Debug, Clone, PartialEq, Eq)]
pub struct WalkEntry {
    /// The path of the entry.
    pub path: String,
    /// Whether the entry is a regular file.
    pub is_file: bool,
}

/// A walked entry as a mathematical value.
pub struct WalkEntryView {
    pub path: Seq<char>,
    pub is_file: bool,
}

impl View for WalkEntry {
    type V = WalkEntryView;

    open spec fn view(&self) -> WalkEntryView {
        WalkEntryView { path: self.path@, is_file: self.is_file }
    }
}

/// The walked entries of a list as mathematical values.
pub open spec fn walk_view(entries: Seq<WalkEntry>) -> Seq<WalkEntryView> {
    entries.map_values(|e: WalkEntry| e@)
}

/// The paths of the markdown files among the first `count` entries of a
/// walk: the regular files with the extension `md`, in the order of the
/// walk.
pub open spec fn markdown_among(entries: Seq<WalkEntryView>, count: int) -> Seq<Seq<char>>
    decreases count,
{
    if count <= 0 {
        Seq::empty()
    } else if entries[count - 1].is_file && is_markdown_path(encode_utf8(entries[count - 1].path)) {
        markdown_among(entries, count - 1).push(entries[count - 1].path)
    } else {
        markdown_among(entries, count - 1)
    }
}

/// Collects the paths of the markdown files that a walk found.
pub fn collect_md_files(entries: &Vec<WalkEntry>) -> (paths: Vec<String>)
    ensures
        paths@.map_values(|p: String| p@) == markdown_among(
            walk_view(entries@),
            entries@.len() as int,
        ),
{
    let ghost walked = walk_view(entries@);
    let mut paths: Vec<String> = Vec::new();
    let mut i: usize = 0;
    assert(paths@.map_values(|p: String| p@) =~= markdown_among(walked, 0));
    while i < entries.len()
        invariant
            walked == walk_view(entries@),
            i <= entries@.len(),
            paths@.map_values(|p: String| p@) == markdown_among(walked, i as int),
        decreases entries@.len() - i,
    {
        let entry = &entries[i];
        let ghost so_far = paths@.map_values(|p: String| p@);
        assert(entry@ == walked[i as int]);
        if entry.is_file && is_markdown_file(entry.path.as_str()) {
            let path = entry.path.clone();
            assert(paths@.push(path).map_values(|p: String| p@) =~= so_far.push(path@));
            paths.push(path);
        }
        i = i + 1;
    }
    paths
}

} // verus!
