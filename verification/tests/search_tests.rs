use mdvault::error::AppError;
use mdvault::search::{
    check_search, key_of_path, path_precedes, search_content, search_files, search_folder,
    sort_by_path, SearchResult, MAX_RESULTS,
};
use mdvault::utils::MarkdownFile;

fn file(path: &str, content: &str) -> MarkdownFile {
    MarkdownFile { path: path.to_string(), content: Some(content.to_string()) }
}

#[test]
fn overlapping_matches_are_all_found() {
    let files = vec![file("/notes/a.md", "concatcatenate")];
    let results = search_files(&files, "cat", true);
    let offsets: Vec<(usize, usize)> =
        results.iter().map(|r| (r.match_start, r.match_end)).collect();
    assert_eq!(offsets, vec![(3, 6), (6, 9)]);
    assert_eq!(results[0].file_path, "/notes/a.md");
    assert_eq!(results[0].file_name, "a.md");
    assert_eq!(results[0].line_number, 1);
    assert_eq!(results[0].line_content, "concatcatenate");
}

#[test]
fn truly_overlapping_occurrences() {
    let files = vec![file("a.md", "aaaa")];
    let results = search_files(&files, "aa", true);
    let starts: Vec<usize> = results.iter().map(|r| r.match_start).collect();
    assert_eq!(starts, vec![0, 1, 2]);
}

#[test]
fn empty_query_finds_nothing() {
    let files = vec![file("a.md", "anything at all\nmore")];
    assert!(search_files(&files, "", true).is_empty());
    assert!(search_files(&files, "", false).is_empty());
    let mut results: Vec<SearchResult> = Vec::new();
    assert!(!search_content(&mut results, &files[0], "", false));
    assert!(results.is_empty());
}

#[test]
fn case_insensitive_search_reports_the_line_as_written() {
    let files = vec![file("a.md", "first\nA Cat and a cAT\r\nlast")];
    let results = search_files(&files, "CAT", false);
    assert_eq!(results.len(), 2);
    assert_eq!(results[0].line_number, 2);
    assert_eq!(results[0].line_content, "A Cat and a cAT");
    assert_eq!((results[0].match_start, results[0].match_end), (2, 5));
    assert_eq!((results[1].match_start, results[1].match_end), (12, 15));
    assert!(search_files(&files, "CAT", true).is_empty());
}

#[test]
fn results_are_capped_at_the_limit() {
    let line = "x".repeat(300);
    let content = format!("{}\n{}\n{}", line, line, line);
    let files = vec![file("a.md", &content), file("b.md", &content)];
    let results = search_files(&files, "x", true);
    assert_eq!(results.len(), MAX_RESULTS);
    assert_eq!(MAX_RESULTS, 500);
    assert_eq!(results[499].file_path, "a.md");
    assert_eq!(results[499].line_number, 2);
    assert_eq!(results[499].match_start, 199);
}

#[test]
fn search_content_stops_at_the_limit() {
    let line = "y".repeat(499);
    let mut results: Vec<SearchResult> = Vec::new();
    assert!(!search_content(&mut results, &file("a.md", &line), "y", true));
    assert_eq!(results.len(), 499);
    assert!(search_content(&mut results, &file("b.md", "yy"), "y", true));
    assert_eq!(results.len(), 500);
    assert_eq!(results[499].file_path, "b.md");
    assert!(search_content(&mut results, &file("c.md", "yy"), "y", true));
    assert_eq!(results.len(), 500);
}

#[test]
fn files_are_searched_in_the_order_of_their_paths() {
    let files = vec![
        file("/v/notes.md", "hit"),
        file("/v/notes/x.md", "hit"),
        file("/v/notes-old/x.md", "hit"),
        file("/v/a.md", "hit"),
    ];
    let results = search_files(&files, "hit", true);
    let paths: Vec<&str> = results.iter().map(|r| r.file_path.as_str()).collect();
    assert_eq!(paths, vec!["/v/a.md", "/v/notes/x.md", "/v/notes-old/x.md", "/v/notes.md"]);
}

#[test]
fn unreadable_files_are_skipped() {
    let files = vec![
        MarkdownFile { path: "a.md".to_string(), content: None },
        file("b.md", "needle"),
    ];
    let results = search_files(&files, "needle", true);
    assert_eq!(results.len(), 1);
    assert_eq!(results[0].file_path, "b.md");
}

#[test]
fn lowercase_wrapper_changes_its_argument() {
    let files = vec![file("a.md", "STRASSE")];
    let results = search_files(&files, "strasse", false);
    assert_eq!(results.len(), 1);
    assert_eq!(results[0].line_content, "STRASSE");
}

#[test]
fn path_order_agrees_with_the_standard_library() {
    let paths = [
        "/v/notes.md", "/v/notes/x.md", "/v/notes-old/x.md", "/v/a.md", "/v/notes/a/b.md",
        "/v/notes/a.md", "/v/Notes/z.md", "/v/n.md", "/v/notes y/q.md", "/v//a.md", "/v/./a.md",
        "/v/notes/", "/v/notes/.", "/v/notes/..", "./a.md", "a.md", ".", "..", "", "/", "a//b.md",
        "a/a.md", "a/./z", "../a", "a\\b.md", "a\\", "/v/notes\\x.md", "v", ".a", "..a", "a/..b",
    ];
    for a in paths {
        for b in paths {
            let expected = std::path::Path::new(a) <= std::path::Path::new(b);
            assert_eq!(path_precedes(a.as_bytes(), b.as_bytes()), expected);
        }
    }
    let files: Vec<MarkdownFile> =
        paths.iter().map(|p| MarkdownFile { path: p.to_string(), content: None }).collect();
    let mut sorted: Vec<std::path::PathBuf> = paths.iter().map(std::path::PathBuf::from).collect();
    sorted.sort();
    let ours: Vec<std::path::PathBuf> =
        sort_by_path(&files).into_iter().map(|i| std::path::PathBuf::from(paths[i])).collect();
    assert_eq!(ours, sorted);
}

#[test]
fn path_keys_mark_the_components() {
    assert_eq!(key_of_path(b""), Vec::<u32>::new());
    assert_eq!(key_of_path(b"/"), vec![1, 0]);
    assert_eq!(key_of_path(b"."), vec![2, 0]);
    assert_eq!(key_of_path(b"./a"), vec![2, 0, 101, 0]);
    assert_eq!(key_of_path(b"a/./..//b/"), vec![101, 0, 3, 0, 102, 0]);
    assert_eq!(key_of_path(b"/a.b"), vec![1, 0, 101, 50, 102, 0]);
}

#[test]
fn a_search_needs_a_directory() {
    let files = vec![file("/v/a.md", "needle")];
    assert_eq!(
        search_folder("/missing", false, &files, "needle", true),
        Err(AppError::NotDirectory("/missing".to_string()))
    );
    assert_eq!(search_folder("/missing", false, &files, "", true), Ok(Vec::new()));
    assert_eq!(
        search_folder("/v", true, &files, "needle", true),
        Ok(search_files(&files, "needle", true))
    );
    assert_eq!(search_folder("/v", true, &files, "needle", true).unwrap().len(), 1);
    assert_eq!(search_folder("/v", true, &files, "", false), Ok(Vec::new()));
    assert_eq!(check_search("/v", true, "q"), Ok(true));
    assert_eq!(check_search("/v", true, ""), Ok(false));
    assert_eq!(check_search("/f.md", false, ""), Ok(false));
    assert_eq!(check_search("/f.md", false, "q"), Err(AppError::NotDirectory("/f.md".to_string())));
}
