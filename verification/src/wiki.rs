//! Wiki links: the `[[target]]` and `[[target|alias]]` marks in the text of
//! markdown files.

use crate::text::{chars_of, trim, trimmed};
use crate::utils::{files_view, MarkdownFile, MarkdownFileView};
use vstd::prelude::*;
use vstd::string::*;

verus! {

/// One wiki link.
#[derive(Debug, Clone, PartialEq, Eq)]
pub struct WikiLink {
    /// The path of the file that holds the link.
    pub source_file: String,
    /// What the link points to.
    pub target: String,
    /// The text shown in place of the target, if the link gives one.
    pub alias: Option<String>,
}

/// A wiki link as a mathematical value.
pub struct WikiLinkView {
    pub source_file: Seq<char>,
    pub target: Seq<char>,
    pub alias: Option<Seq<char>>,
}

impl View for WikiLink {
    type V = WikiLinkView;

    open spec fn view(&self) -> WikiLinkView {
        WikiLinkView {
            source_file: self.source_file@,
            target: self.target@,
            alias: match self.alias {
                Some(text) => Some(text@),
                None => None,
            },
        }
    }
}

/// The links of a list as mathematical values.
pub open spec fn links_view(links: Seq<WikiLink>) -> Seq<WikiLinkView> {
    links.map_values(|l: WikiLink| l@)
}

/// What a scan for wiki links found: the links, and the paths of all files
/// that were scanned.
#[derive(Debug, Clone, PartialEq, Eq)]
pub struct WikiScanResult {
    /// The links, file by file in the order of the scan.
    pub links: Vec<WikiLink>,
    /// The paths of the scanned files, whether they could be read or not.
    pub files: Vec<String>,
}

/// The pattern of a wiki link: two opening brackets, one or more characters
/// other than a closing bracket, two closing brackets. Its first group is
/// what stands between the brackets.
pub open spec fn link_pattern() -> Seq<char> {
    r"\[\[([^\]]+)\]\]"@
}

/// The pattern of a wiki link.
pub fn wiki_link_pattern() -> (pattern: &'static str)
    ensures
        pattern@ == link_pattern(),
{
    r"\[\[([^\]]+)\]\]"
}

/// What the first group of a regular expression matched in each of the
/// successive matches that do not overlap, from left to right; `None` in
/// the place of a match in which the group took no part. `None` as a whole
/// where the pattern is no regular expression.
pub uninterp spec fn first_groups(pattern: Seq<char>, haystack: Seq<char>) -> Option<
    Seq<Option<Seq<char>>>,
>;

/// The texts of a list of optional texts.
pub open spec fn groups_view(groups: Seq<Option<String>>) -> Seq<Option<Seq<char>>> {
    groups.map_values(
        |g: Option<String>|
            match g {
                Some(text) => Some(text@),
                None => None,
            },
    )
}

/// `regex::Regex::new`, `Regex::captures_iter` and `Captures::get` of group
/// 1: compiles the pattern and collects, for each successive match in the
/// haystack, the text that the first group matched. The result is known by
/// name only: it is `first_groups` of the pattern and the haystack.
#[verifier::external_body]
fn capture_first_groups(pattern: &str, haystack: &str) -> (groups: Option<Vec<Option<String>>>)
    ensures
        match groups {
            Some(found) => first_groups(pattern@, haystack@) == Some(groups_view(found@)),
            None => first_groups(pattern@, haystack@).is_none(),
        },
{
    let re = regex::Regex::new(pattern).ok()?;
    Some(re.captures_iter(haystack).map(|c| c.get(1).map(|m| m.as_str().to_string())).collect())
}

/// The offset of the first bar at or after `from`, or the length of `text`
/// where none follows.
pub open spec fn bar_from(text: Seq<char>, from: int) -> int
    decreases text.len() - from,
{
    if from < 0 || from >= text.len() {
        text.len() as int
    } else if text[from] == '|' {
        from
    } else {
        bar_from(text, from + 1)
    }
}

/// The link that the text between the brackets stands for: target and
/// alias are the parts before and behind the first bar, without the
/// whitespace around them; without a bar the whole text is the target.
pub open spec fn link_of(source_file: Seq<char>, inner: Seq<char>) -> WikiLinkView {
    let bar = bar_from(inner, 0);
    if bar < inner.len() {
        WikiLinkView {
            source_file,
            target: trimmed(inner.subrange(0, bar)),
            alias: Some(trimmed(inner.subrange(bar + 1, inner.len() as int))),
        }
    } else {
        WikiLinkView { source_file, target: trimmed(inner), alias: None }
    }
}

/// Reads the text between the brackets of a wiki link.
pub fn parse_link(source_file: &str, inner: &str) -> (link: WikiLink)
    ensures
        link@ == link_of(source_file@, inner@),
{
    let chars = chars_of(inner);
    let n = chars.len();
    let mut bar: usize = 0;
    while bar < n && chars[bar] != '|'
        invariant
            chars@ == inner@,
            n == chars@.len(),
            bar <= n,
            bar_from(inner@, 0) == bar_from(inner@, bar as int),
        decreases n - bar,
    {
        bar = bar + 1;
    }
    if bar < n {
        let target = trim(inner.substring_char(0, bar));
        let alias = trim(inner.substring_char(bar + 1, n));
        WikiLink { source_file: source_file.to_owned(), target, alias: Some(alias) }
    } else {
        WikiLink { source_file: source_file.to_owned(), target: trim(inner), alias: None }
    }
}

/// The links for the first `count` matches of a file: one for each match
/// whose group matched.
pub open spec fn links_among(
    source_file: Seq<char>,
    groups: Seq<Option<Seq<char>>>,
    count: int,
) -> Seq<WikiLinkView>
    decreases count,
{
    if count <= 0 {
        Seq::empty()
    } else {
        let before = links_among(source_file, groups, count - 1);
        match groups[count - 1] {
            Some(inner) => before.push(link_of(source_file, inner)),
            None => before,
        }
    }
}

/// Turns what the link pattern matched in a file into links.
pub fn links_from_groups(source_file: &str, groups: &Vec<Option<String>>) -> (links: Vec<WikiLink>)
    ensures
        links_view(links@) == links_among(
            source_file@,
            groups_view(groups@),
            groups@.len() as int,
        ),
{
    let ghost found = groups_view(groups@);
    let mut links: Vec<WikiLink> = Vec::new();
    let mut i: usize = 0;
    assert(links_view(links@) =~= links_among(source_file@, found, 0));
    while i < groups.len()
        invariant
            found == groups_view(groups@),
            i <= groups@.len(),
            links_view(links@) == links_among(source_file@, found, i as int),
        decreases groups@.len() - i,
    {
        let ghost so_far = links_view(links@);
        match &groups[i] {
            Some(inner) => {
                let link = parse_link(source_file, inner.as_str());
                assert(links_view(links@.push(link)) =~= so_far.push(link@));
                links.push(link);
            },
            None => {},
        }
        i = i + 1;
    }
    links
}

/// The links in the text of one file, in the order in which they stand: for
/// each match of the link pattern one link.
pub open spec fn links_in(source_file: Seq<char>, content: Seq<char>) -> Seq<WikiLinkView> {
    match first_groups(link_pattern(), content) {
        Some(groups) => links_among(source_file, groups, groups.len() as int),
        None => Seq::empty(),
    }
}

/// Finds the wiki links in the text of one file.
pub fn extract_links(source_file: &str, content: &str) -> (links: Vec<WikiLink>)
    ensures
        links_view(links@) == links_in(source_file@, content@),
{
    match capture_first_groups(wiki_link_pattern(), content) {
        Some(groups) => links_from_groups(source_file, &groups),
        None => {
            let links: Vec<WikiLink> = Vec::new();
            assert(links_view(links@) =~= Seq::<WikiLinkView>::empty());
            links
        },
    }
}

/// The links of one file: none where it could not be read.
pub open spec fn file_links(file: MarkdownFileView) -> Seq<WikiLinkView> {
    match file.content {
        Some(text) => links_in(file.path, text),
        None => Seq::empty(),
    }
}

/// The links of the first `count` files.
pub open spec fn links_of_files(files: Seq<MarkdownFileView>, count: int) -> Seq<WikiLinkView>
    decreases count,
{
    if count <= 0 {
        Seq::empty()
    } else {
        links_of_files(files, count - 1) + file_links(files[count - 1])
    }
}

/// The paths of the files.
pub open spec fn paths_of(files: Seq<MarkdownFileView>) -> Seq<Seq<char>> {
    files.map_values(|f: MarkdownFileView| f.path)
}

/// The texts of a list as mathematical values.
pub open spec fn paths_view(paths: Seq<String>) -> Seq<Seq<char>> {
    paths.map_values(|p: String| p@)
}

/// Scans markdown files for wiki links: every file is listed, and the
/// links of those that could be read are collected, file by file.
pub fn scan_wiki_links(files: &Vec<MarkdownFile>) -> (result: WikiScanResult)
    ensures
        links_view(result.links@) == links_of_files(files_view(files@), files@.len() as int),
        paths_view(result.files@) == paths_of(files_view(files@)),
{
    let ghost scanned = files_view(files@);
    let mut links: Vec<WikiLink> = Vec::new();
    let mut paths: Vec<String> = Vec::new();
    let mut i: usize = 0;
    assert(links_view(links@) =~= links_of_files(scanned, 0));
    while i < files.len()
        invariant
            scanned == files_view(files@),
            i <= files@.len(),
            links_view(links@) == links_of_files(scanned, i as int),
            paths@.len() == i,
            forall|k: int| 0 <= k < i ==> (#[trigger] paths@[k])@ == scanned[k].path,
        decreases files@.len() - i,
    {
        let file = &files[i];
        assert(file@ == scanned[i as int]);
        paths.push(file.path.clone());
        let ghost so_far = links_view(links@);
        match &file.content {
            Some(text) => {
                let mut found = extract_links(file.path.as_str(), text.as_str());
                proof {
                    assert(links_view(links@ + found@) =~= so_far + links_view(found@));
                }
                links.append(&mut found);
            },
            None => {
                assert(so_far + Seq::<WikiLinkView>::empty() =~= so_far);
            },
        }
        i = i + 1;
    }
    proof {
        assert(paths_view(paths@) =~= paths_of(scanned));
    }
    WikiScanResult { links, files: paths }
}

} // verus!
