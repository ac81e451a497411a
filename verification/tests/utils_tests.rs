use mdvault::error::AppError;
use mdvault::utils::{
    collect_md_files, extension, file_name, has_parent_component, is_markdown_file,
    sanitize_filename, validate_directory, WalkEntry,
};

#[test]
fn markdown_extension_ignores_case() {
    assert!(is_markdown_file("a.md"));
    assert!(is_markdown_file("/v/notes/Page.MD"));
    assert!(is_markdown_file("x.Md"));
    assert!(is_markdown_file("x.mD"));
    assert!(is_markdown_file("..md"));
    assert!(is_markdown_file("archive.tar.md"));
    assert!(!is_markdown_file(".md"));
    assert!(!is_markdown_file("dir/.md"));
    assert!(!is_markdown_file("md"));
    assert!(!is_markdown_file("a.mdx"));
    assert!(!is_markdown_file("a.md "));
    assert!(!is_markdown_file("a.txt"));
    assert!(!is_markdown_file(""));
    assert!(!is_markdown_file("amd"));
}

#[test]
fn markdown_test_reads_the_last_component() {
    for path in ["a.md/", "a.md/.", "a.md//./", "/v/n.MD///", "./a.md", "x/../a.md"] {
        assert!(is_markdown_file(path));
    }
    for path in ["a.md/..", "README", "a.markdown", "a.md.bak", "a.md/b", ".", "./", "/", ".."] {
        assert!(!is_markdown_file(path));
    }
}

#[test]
fn plain_file_name_is_kept() {
    assert_eq!(sanitize_filename("photo.png"), Ok("photo.png".to_string()));
}

#[test]
fn climbing_names_are_path_traversal() {
    for name in ["../../etc/passwd", "a/../b.png", "/../x", "x/..", "..", "../", "a/../"] {
        assert_eq!(sanitize_filename(name), Err(AppError::PathTraversal(name.to_string())));
        assert!(has_parent_component(name));
    }
    for name in ["...", "a..b/c", "..a/b", "a../b", ".", "", "a/.b", "..\\x.png", "a\\..\\b"] {
        assert!(!has_parent_component(name));
    }
}

#[test]
fn directory_components_are_stripped() {
    assert_eq!(sanitize_filename("etc/passwd"), Ok("passwd".to_string()));
    assert_eq!(sanitize_filename("a..b/c"), Ok("c".to_string()));
    assert_eq!(sanitize_filename("/abs/\u{e9}t\u{e9}.png"), Ok("\u{e9}t\u{e9}.png".to_string()));
    assert_eq!(sanitize_filename("photos/"), Ok("photos".to_string()));
    assert_eq!(sanitize_filename("photos/cat.png/."), Ok("cat.png".to_string()));
    assert_eq!(sanitize_filename("./cat.png"), Ok("cat.png".to_string()));
    assert_eq!(sanitize_filename("a/b\\c.png"), Ok("b\\c.png".to_string()));
}

#[test]
fn names_without_a_file_name_are_path_traversal() {
    for name in ["", ".", "..", "a/..", "../..", "/", "./", "//", "/./."] {
        assert_eq!(sanitize_filename(name), Err(AppError::PathTraversal(name.to_string())));
    }
    assert_eq!(
        sanitize_filename("..").unwrap_err().message(),
        "Path traversal detected: .."
    );
    assert_eq!(sanitize_filename("..."), Ok("...".to_string()));
    assert_eq!(sanitize_filename(".hidden"), Ok(".hidden".to_string()));
}

#[test]
fn safe_names_are_the_file_names_of_the_standard_library() {
    let names = [
        "photo.png", "a/b.png", "/x/y/z", "dir/", "dir/.", "./f", "a\\b.png", "..\\..\\x", "", ".",
        "/", "a//b", "a/./b/", ".hidden", "...", "x.", " ", "a b/c d",
    ];
    for name in names {
        let expected = std::path::Path::new(name)
            .file_name()
            .map(|n| n.to_string_lossy().to_string())
            .ok_or(AppError::PathTraversal(name.to_string()));
        assert_eq!(sanitize_filename(name), expected);
        if let Ok(clean) = sanitize_filename(name) {
            assert_eq!(sanitize_filename(&clean), Ok(clean.clone()));
            assert!(!clean.contains('/'));
        }
    }
}

#[test]
fn directory_validation_follows_the_probe() {
    assert_eq!(validate_directory("/v", true), Ok("/v".to_string()));
    assert_eq!(validate_directory("/v/a.md", false), Err(AppError::NotDirectory("/v/a.md".to_string())));
}

#[test]
fn file_name_is_the_last_component() {
    assert_eq!(file_name("/v/notes/a.md"), "a.md");
    assert_eq!(file_name("a.md"), "a.md");
    assert_eq!(file_name("/v/dir/"), "dir");
    assert_eq!(file_name("/v/dir/./"), "dir");
    assert_eq!(file_name("/v/.."), "");
    assert_eq!(file_name("/"), "");
    assert_eq!(file_name("."), "");
    assert_eq!(file_name(""), "");
}

#[test]
fn markdown_files_are_collected_in_walk_order() {
    let entries = vec![
        WalkEntry { path: "/v".to_string(), is_file: false },
        WalkEntry { path: "/v/b.md".to_string(), is_file: true },
        WalkEntry { path: "/v/dir.md".to_string(), is_file: false },
        WalkEntry { path: "/v/c.txt".to_string(), is_file: true },
        WalkEntry { path: "/v/dir.md/a.MD".to_string(), is_file: true },
    ];
    assert_eq!(collect_md_files(&entries), vec!["/v/b.md", "/v/dir.md/a.MD"]);
    assert!(collect_md_files(&Vec::new()).is_empty());
}

#[test]
fn error_messages() {
    assert_eq!(AppError::NotFound("p".to_string()).message(), "File not found: p");
    assert_eq!(AppError::AlreadyExists("p".to_string()).message(), "File already exists: p");
    assert_eq!(AppError::NotDirectory("p".to_string()).message(), "Not a directory: p");
    assert_eq!(AppError::PathTraversal("p".to_string()).message(), "Path traversal detected: p");
    assert_eq!(AppError::Io("denied".to_string()).message(), "denied");
    assert_eq!(AppError::Git("g".to_string()).message(), "Git error: g");
    assert_eq!(AppError::Network("n".to_string()).message(), "Network error: n");
    assert_eq!(AppError::Unsupported("u".to_string()).message(), "u");
    assert_eq!(AppError::Other("o".to_string()).message(), "o");
}

#[test]
fn extensions() {
    assert_eq!(extension("a.png"), Some("png".to_string()));
    assert_eq!(extension("/v/dir.d/photo.JPG"), Some("JPG".to_string()));
    assert_eq!(extension("archive.tar.gz"), Some("gz".to_string()));
    assert_eq!(extension("trailing."), Some("".to_string()));
    assert_eq!(extension("..png"), Some("png".to_string()));
    assert_eq!(extension(".hidden"), None);
    assert_eq!(extension("noext"), None);
    assert_eq!(extension("dir.d/noext"), None);
    assert_eq!(extension(".."), None);
    assert_eq!(extension("a/.."), None);
    assert_eq!(extension(""), None);
    assert_eq!(extension("x.\u{e9}"), Some("\u{e9}".to_string()));
}

#[test]
fn paths_agree_with_the_standard_library() {
    let paths = [
        "a.md", "/v/notes/Page.MD", "x.tar.gz", ".hidden", "dir/.hidden.md", "noext", "a/b.c/d",
        "..md", "trailing.", "/v/\u{e9}t\u{e9}.png", "a.b/c.d.e", "name.m", "n.mdd", ".md",
        "a.md/", "a.md/.", "a.md/./", "a.md//", "a.md/..", "a/../b.md", ".", "..", "./", "/", "",
        "./.", "/.", "//", "a/./b.md/.//", "x./", ".a/.", "...", "a/...", "dir\\.md",
        "C:\\v\\a.md", "a\\b.md/", "./.md", "a/.md/",
    ];
    for p in paths {
        let path = std::path::Path::new(p);
        let name = path.file_name().map(|n| n.to_string_lossy().to_string()).unwrap_or_default();
        let ext = path.extension().map(|e| e.to_string_lossy().to_string());
        let md = path.extension().map(|e| e.eq_ignore_ascii_case("md")).unwrap_or(false);
        assert_eq!(file_name(p), name);
        assert_eq!(extension(p), ext);
        assert_eq!(is_markdown_file(p), md);
    }
}
