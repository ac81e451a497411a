use mdvault::error::AppError;
use mdvault::git::{
    command_outcome, git_add, git_commit, git_diff, git_status, parse_status, parse_status_line,
    CommandOutput, GitFileStatus, GitInfo,
};

fn status(path: &str, code: &str) -> GitFileStatus {
    GitFileStatus { path: path.to_string(), status: code.to_string() }
}

fn output(success: bool, stdout: &str, stderr: &str) -> CommandOutput {
    CommandOutput { success, stdout: stdout.to_string(), stderr: stderr.to_string() }
}

#[test]
fn status_codes_follow_the_precedence() {
    assert_eq!(parse_status_line("?? new.md"), Some(status("new.md", "?")));
    assert_eq!(parse_status_line(" D gone.md"), Some(status("gone.md", "D")));
    assert_eq!(parse_status_line("D  gone.md"), Some(status("gone.md", "D")));
    assert_eq!(parse_status_line("AD both.md"), Some(status("both.md", "D")));
    assert_eq!(parse_status_line("A  added.md"), Some(status("added.md", "A")));
    assert_eq!(parse_status_line("AM added.md"), Some(status("added.md", "A")));
    assert_eq!(parse_status_line(" M changed.md"), Some(status("changed.md", "M")));
    assert_eq!(parse_status_line("MM changed.md"), Some(status("changed.md", "M")));
    assert_eq!(parse_status_line("R  old.md -> new.md"), Some(status("old.md -> new.md", "M")));
    assert_eq!(parse_status_line(" A odd.md"), Some(status("odd.md", "M")));
    assert_eq!(parse_status_line("?A odd.md"), Some(status("odd.md", "M")));
}

#[test]
fn short_lines_are_passed_over() {
    assert_eq!(parse_status_line(""), None);
    assert_eq!(parse_status_line("M"), None);
    assert_eq!(parse_status_line("??"), None);
    assert_eq!(parse_status_line("?? "), Some(status("", "?")));
    assert_eq!(parse_status_line("M\u{e9}x"), None);
    assert_eq!(parse_status_line("\u{e9}\u{e9}"), None);
    assert_eq!(parse_status_line(" M  sp ace.md \t"), Some(status("sp ace.md", "M")));
    assert_eq!(parse_status_line(" M \u{e9}t\u{e9}.md"), Some(status("\u{e9}t\u{e9}.md", "M")));
}

#[test]
fn status_output_is_read_line_by_line() {
    let text = " M a.md\n?? b.md\n\nD  c.md\r\nA  d.md";
    assert_eq!(
        parse_status(text),
        vec![status("a.md", "M"), status("b.md", "?"), status("c.md", "D"), status("d.md", "A")]
    );
    assert!(parse_status("").is_empty());
}

#[test]
fn info_inside_and_outside_a_work_tree() {
    assert_eq!(
        git_status(true, "main\n", " M a.md\n"),
        GitInfo {
            is_repo: true,
            branch: "main".to_string(),
            files: vec![status("a.md", "M")],
            has_changes: true,
        }
    );
    assert_eq!(
        git_status(true, "feature/x\n", ""),
        GitInfo { is_repo: true, branch: "feature/x".to_string(), files: vec![], has_changes: false }
    );
    assert_eq!(
        git_status(false, "ignored", " M ignored.md"),
        GitInfo { is_repo: false, branch: String::new(), files: vec![], has_changes: false }
    );
}

#[test]
fn command_outcomes() {
    assert_eq!(git_diff(output(true, "diff --git", "warn")), Ok("diff --git".to_string()));
    assert_eq!(
        git_diff(output(false, "", "fatal: bad")),
        Err(AppError::Git("git diff failed: fatal: bad".to_string()))
    );
    assert_eq!(git_add(output(true, "", "")), Ok(()));
    assert_eq!(
        git_add(output(false, "x", "locked")),
        Err(AppError::Git("git add failed: locked".to_string()))
    );
    assert_eq!(git_commit(output(true, "[main 1a2b] msg", "")), Ok("[main 1a2b] msg".to_string()));
    assert_eq!(
        git_commit(output(false, "", "nothing to commit")),
        Err(AppError::Git("git commit failed: nothing to commit".to_string()))
    );
    assert_eq!(
        command_outcome("push", output(false, "", "denied")).unwrap_err().message(),
        "Git error: git push failed: denied"
    );
}
