//! What the output of the git executable means: the status of a work tree,
//! and the outcome of a command.

use crate::error::AppError;
use crate::text::{slice_str, split_lines, text_lines, texts_view, trim, trimmed};
use vstd::prelude::*;
use vstd::slice::*;
use vstd::string::*;
use vstd::utf8::*;

verus! {

/// The status of one file of a work tree.
#[derive(Debug, Clone, PartialEq, Eq)]
pub struct GitFileStatus {
    /// The path of the file, as git prints it.
    pub path: String,
    /// One of `?` (untracked), `D` (deleted), `A` (added), `M` (modified).
    pub status: String,
}

/// The status of a file as a mathematical value.
pub struct GitFileStatusView {
    pub path: Seq<char>,
    pub status: Seq<char>,
}

impl View for GitFileStatus {
    type V = GitFileStatusView;

    open spec fn view(&self) -> GitFileStatusView {
        GitFileStatusView { path: self.path@, status: self.status@ }
    }
}

/// The statuses of a list as mathematical values.
pub open spec fn statuses_view(files: Seq<GitFileStatus>) -> Seq<GitFileStatusView> {
    files.map_values(|f: GitFileStatus| f@)
}

/// What is known of a folder as a git work tree.
#[derive(Debug, Clone, PartialEq, Eq)]
pub struct GitInfo {
    /// Whether the folder lies inside a work tree.
    pub is_repo: bool,
    /// The name of the current branch; empty outside a work tree.
    pub branch: String,
    /// The files that differ from the last commit.
    pub files: Vec<GitFileStatus>,
    /// Whether any file differs.
    pub has_changes: bool,
}

/// The status character of an untracked file, `?`.
pub const UNTRACKED: u8 = 0x3f;

/// The status character of a deleted file, `D`.
pub const DELETED: u8 = 0x44;

/// The status character of an added file, `A`.
pub const ADDED: u8 = 0x41;

/// The one status that stands for the two status characters of a line of
/// `git status --porcelain`: untracked before deleted before added before
/// modified.
pub open spec fn status_code(x: u8, y: u8) -> Seq<char> {
    if x == UNTRACKED && y == UNTRACKED {
        "?"@
    } else if x == DELETED || y == DELETED {
        "D"@
    } else if x == ADDED {
        "A"@
    } else {
        "M"@
    }
}

/// Whether a line of the status output names a file: it holds two status
/// characters, one more character, and the path.
pub open spec fn is_status_line(bytes: Seq<u8>) -> bool {
    bytes.len() >= 3 && is_char_boundary(bytes, 2) && is_char_boundary(bytes, 3)
}

/// What a line of the status output says, if it names a file: the path is
/// what follows the third byte, without the whitespace around it.
pub open spec fn status_of_line(line: Seq<char>) -> Option<GitFileStatusView> {
    let bytes = encode_utf8(line);
    if is_status_line(bytes) {
        Some(
            GitFileStatusView {
                path: trimmed(decode_utf8(bytes.subrange(3, bytes.len() as int))),
                status: status_code(bytes[0], bytes[1]),
            },
        )
    } else {
        None
    }
}

/// Reads one line of `git status --porcelain`.
pub fn parse_status_line(line: &str) -> (entry: Option<GitFileStatus>)
    ensures
        match entry {
            Some(file) => status_of_line(line@) == Some(file@),
            None => status_of_line(line@).is_none(),
        },
{
    broadcast use encode_utf8_valid_utf8;

    let bytes = line.as_bytes();
    let n = bytes.len();
    if n < 3 || !line.is_char_boundary(2) || !line.is_char_boundary(3) {
        return None;
    }
    let x = bytes[0];
    let y = bytes[1];
    proof {
        is_char_boundary_start_end_of_seq(bytes@);
    }
    let rest = slice_str(line, 3, n);
    proof {
        encode_utf8_decode_utf8(rest@);
    }
    let path = trim(rest);
    let status = if x == UNTRACKED && y == UNTRACKED {
        String::from_str("?")
    } else if x == DELETED || y == DELETED {
        String::from_str("D")
    } else if x == ADDED {
        String::from_str("A")
    } else {
        String::from_str("M")
    };
    Some(GitFileStatus { path, status })
}

/// The statuses that the first `count` lines of the status output give.
pub open spec fn statuses_among(lines: Seq<Seq<char>>, count: int) -> Seq<GitFileStatusView>
    decreases count,
{
    if count <= 0 {
        Seq::empty()
    } else {
        let before = statuses_among(lines, count - 1);
        match status_of_line(lines[count - 1]) {
            Some(file) => before.push(file),
            None => before,
        }
    }
}

/// The statuses that the output of `git status --porcelain` gives, line by
/// line.
pub open spec fn statuses_of(output: Seq<char>) -> Seq<GitFileStatusView> {
    statuses_among(text_lines(output), text_lines(output).len() as int)
}

/// Reads the output of `git status --porcelain`.
pub fn parse_status(output: &str) -> (files: Vec<GitFileStatus>)
    ensures
        statuses_view(files@) == statuses_of(output@),
{
    let lines = split_lines(output);
    let ghost texts = texts_view(lines@);
    let mut files: Vec<GitFileStatus> = Vec::new();
    let mut i: usize = 0;
    assert(statuses_view(files@) =~= statuses_among(texts, 0));
    while i < lines.len()
        invariant
            texts == texts_view(lines@),
            i <= lines@.len(),
            statuses_view(files@) == statuses_among(texts, i as int),
        decreases lines@.len() - i,
    {
        let ghost so_far = statuses_view(files@);
        assert(texts[i as int] == lines@[i as int]@);
        match parse_status_line(lines[i].as_str()) {
            Some(file) => {
                assert(statuses_view(files@.push(file)) =~= so_far.push(file@));
                files.push(file);
            },
            None => {},
        }
        i = i + 1;
    }
    files
}

/// Whether `info` is what is known of a folder, given whether it lies in a
/// work tree and what `git branch --show-current` and
/// `git status --porcelain` printed.
pub open spec fn is_git_info(
    is_repo: bool,
    branch_output: Seq<char>,
    status_output: Seq<char>,
    info: GitInfo,
) -> bool {
    if is_repo {
        &&& info.is_repo
        &&& info.branch@ == trimmed(branch_output)
        &&& statuses_view(info.files@) == statuses_of(status_output)
        &&& info.has_changes == (statuses_of(status_output).len() > 0)
    } else {
        &&& !info.is_repo
        &&& info.branch@ == Seq::<char>::empty()
        &&& info.files@ == Seq::<GitFileStatus>::empty()
        &&& !info.has_changes
    }
}

/// Puts together what is known of a folder as a git work tree. Outside a
/// work tree the two outputs are not looked at.
pub fn git_status(is_repo: bool, branch_output: &str, status_output: &str) -> (info: GitInfo)
    ensures
        is_git_info(is_repo, branch_output@, status_output@, info),
{
    if !is_repo {
        return GitInfo {
            is_repo: false,
            branch: String::new(),
            files: Vec::new(),
            has_changes: false,
        };
    }
    let branch = trim(branch_output);
    let files = parse_status(status_output);
    let has_changes = files.len() > 0;
    GitInfo { is_repo: true, branch, files, has_changes }
}

/// How a run of the git executable ended.
#[derive(Debug, Clone, PartialEq, Eq)]
pub struct CommandOutput {
    /// Whether the exit status was zero.
    pub success: bool,
    /// What the command printed.
    pub stdout: String,
    /// What the command reported as errors.
    pub stderr: String,
}

/// The text of the failure of a git command: `git`, the command, `failed:`
/// and what the command reported.
pub open spec fn failure_text(command: Seq<char>, stderr: Seq<char>) -> Seq<char> {
    "git "@ + command + " failed: "@ + stderr
}

/// Whether `r` is the outcome of a git command: what it printed where it
/// succeeded, a `Git` failure with what it reported where it did not.
pub open spec fn is_command_outcome(
    command: Seq<char>,
    output: CommandOutput,
    r: Result<String, AppError>,
) -> bool {
    match r {
        Ok(printed) => output.success && printed@ == output.stdout@,
        Err(e) => !output.success && e is Git && e.detail() == failure_text(
            command,
            output.stderr@,
        ),
    }
}

/// Judges a run of the git command named `command`.
pub fn command_outcome(command: &str, output: CommandOutput) -> (r: Result<String, AppError>)
    ensures
        is_command_outcome(command@, output, r),
{
    if output.success {
        Ok(output.stdout)
    } else {
        let text = String::from_str("git ").concat(command).concat(" failed: ").concat(
            output.stderr.as_str(),
        );
        Err(AppError::Git(text))
    }
}

/// Judges a run of `git diff`: the diff, or the failure.
pub fn git_diff(output: CommandOutput) -> (r: Result<String, AppError>)
    ensures
        is_command_outcome("diff"@, output, r),
{
    command_outcome("diff", output)
}

/// Judges a run of `git add -A`, the first step of a commit: whether the
/// commit may go on.
pub fn git_add(output: CommandOutput) -> (r: Result<(), AppError>)
    ensures
        match r {
            Ok(_) => output.success,
            Err(e) => !output.success && e is Git && e.detail() == failure_text(
                "add"@,
                output.stderr@,
            ),
        },
{
    match command_outcome("add", output) {
        Ok(_) => Ok(()),
        Err(e) => Err(e),
    }
}

/// Judges a run of `git commit`, the second step of a commit: what git
/// printed, or the failure.
pub fn git_commit(output: CommandOutput) -> (r: Result<String, AppError>)
    ensures
        is_command_outcome("commit"@, output, r),
{
    command_outcome("commit", output)
}

} // verus!
