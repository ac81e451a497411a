use mdvault::utils::MarkdownFile;
use mdvault::wiki::{extract_links, links_from_groups, parse_link, scan_wiki_links, WikiLink};

fn link(source: &str, target: &str, alias: Option<&str>) -> WikiLink {
    WikiLink {
        source_file: source.to_string(),
        target: target.to_string(),
        alias: alias.map(|a| a.to_string()),
    }
}

#[test]
fn link_with_alias() {
    assert_eq!(
        extract_links("n.md", "[[Page One|Alias]]"),
        vec![link("n.md", "Page One", Some("Alias"))]
    );
}

#[test]
fn simple_link() {
    assert_eq!(extract_links("n.md", "[[Simple]]"), vec![link("n.md", "Simple", None)]);
}

#[test]
fn links_are_found_in_order_and_trimmed() {
    let text = "see [[ A ]] and [[B | the b | more]]\nthen [[C|]] but not [[]] nor [x]";
    assert_eq!(
        extract_links("/v/n.md", text),
        vec![
            link("/v/n.md", "A", None),
            link("/v/n.md", "B", Some("the b | more")),
            link("/v/n.md", "C", Some("")),
        ]
    );
}

#[test]
fn parse_link_splits_at_the_first_bar() {
    assert_eq!(parse_link("s", "a|b|c"), link("s", "a", Some("b|c")));
    assert_eq!(parse_link("s", "  only \t"), link("s", "only", None));
    assert_eq!(parse_link("s", "|x"), link("s", "", Some("x")));
    assert_eq!(parse_link("s", " \u{a0}\u{2003}t\u{e9} \u{3000}"), link("s", "t\u{e9}", None));
    assert_eq!(parse_link("s", "   "), link("s", "", None));
}

#[test]
fn groups_that_took_no_part_give_no_link() {
    let groups = vec![Some("a".to_string()), None, Some("b|c".to_string())];
    assert_eq!(
        links_from_groups("f", &groups),
        vec![link("f", "a", None), link("f", "b", Some("c"))]
    );
}

#[test]
fn scan_lists_every_file_and_the_links_of_readable_ones() {
    let files = vec![
        MarkdownFile { path: "a.md".to_string(), content: Some("[[x]] [[y|z]]".to_string()) },
        MarkdownFile { path: "b.md".to_string(), content: None },
        MarkdownFile { path: "c.md".to_string(), content: Some("none here, [[w]]".to_string()) },
    ];
    let result = scan_wiki_links(&files);
    assert_eq!(result.files, vec!["a.md", "b.md", "c.md"]);
    assert_eq!(
        result.links,
        vec![link("a.md", "x", None), link("a.md", "y", Some("z")), link("c.md", "w", None)]
    );
}
